use std::collections::HashSet;

use slang_preview::push_to_ubo::{
    allocate_bindings, first_free, free_binding_across, lowest_free, plan_push_rewrite, push_constant_plan,
    push_constant_to_ubo,
    try_free_binding_across, used_set0_bindings, PushPlan, PushRewrite, PushToUboError,
};
use slang_preview::spirv_model::{OperandVal, SpirvInst, SpirvModel};

fn decorate(target: u32, decoration: u32, literal: u32) -> SpirvInst {
    SpirvInst {
        opcode: 71,
        result_type: None,
        result_id: None,
        operands: vec![
            OperandVal::IdRef(target),
            OperandVal::Decoration(decoration),
            OperandVal::LiteralBit32(literal),
        ],
    }
}

fn set(target: u32, s: u32) -> SpirvInst {
    decorate(target, 34, s)
}

fn binding(target: u32, b: u32) -> SpirvInst {
    decorate(target, 33, b)
}

fn variable(id: u32, storage: u32) -> SpirvInst {
    SpirvInst { opcode: 59, result_type: None, result_id: Some(id), operands: vec![OperandVal::StorageClass(storage)] }
}

fn pointer(id: u32, storage: u32) -> SpirvInst {
    SpirvInst {
        opcode: 32,
        result_type: None,
        result_id: Some(id),
        operands: vec![OperandVal::StorageClass(storage), OperandVal::IdRef(1)],
    }
}

#[test]
fn lowest_free_skips_taken_bindings() {
    let used: HashSet<u32> = [0u32, 1, 2].into_iter().collect();
    assert_eq!(lowest_free(&used), 3);
    assert_eq!(lowest_free(&HashSet::new()), 0);
    let sparse: HashSet<u32> = [0u32, 2].into_iter().collect();
    assert_eq!(lowest_free(&sparse), 1);
}

#[test]
fn invalid_spirv_is_a_parse_error() {
    let err = push_constant_to_ubo(&[0xDEAD_BEEF, 0, 0, 0], 1).unwrap_err();
    assert!(matches!(err, PushToUboError::Parse(_)));
    let err = push_constant_plan(&[0xDEAD_BEEF, 0, 0, 0], 1).unwrap_err();
    assert!(matches!(err, PushToUboError::Parse(_)));
}

#[test]
fn set0_bindings_follow_the_last_decoration_per_target() {
    let annotations = vec![
        binding(10, 0),
        set(10, 0),
        binding(11, 2),
        // Target 12 is in set 1: its binding does not count.
        set(12, 1),
        binding(12, 5),
        // Target 13 is redecorated: only the last binding counts.
        binding(13, 7),
        binding(13, 4),
        // A non-decorate instruction is ignored.
        SpirvInst { opcode: 5, result_type: None, result_id: None, operands: vec![OperandVal::IdRef(14)] },
    ];
    let used = used_set0_bindings(&annotations);
    let expected: HashSet<u32> = [0u32, 2, 4].into_iter().collect();
    assert_eq!(used, expected);
}

#[test]
fn first_free_reports_the_lowest_gap() {
    let used: HashSet<u32> = [0u32, 1, 3].into_iter().collect();
    assert_eq!(first_free(&used), Some(2));
    assert_eq!(first_free(&HashSet::new()), Some(0));
}

#[test]
fn allocation_skips_used_bindings_and_counts_upward() {
    let used: HashSet<u32> = [1u32, 2, 4].into_iter().collect();
    assert_eq!(allocate_bindings(&used, 1, 3), Some(vec![3, 5, 6]));
    assert_eq!(allocate_bindings(&used, 0, 0), Some(vec![]));
    let top: HashSet<u32> = [u32::MAX].into_iter().collect();
    assert_eq!(allocate_bindings(&top, u32::MAX - 1, 1), None);
    assert_eq!(allocate_bindings(&HashSet::new(), u32::MAX, 1), None);
}

#[test]
fn module_without_push_constants_is_unchanged() {
    let model = SpirvModel {
        annotations: vec![binding(10, 0)],
        globals: vec![variable(10, 2), pointer(20, 2)],
    };
    assert_eq!(plan_push_rewrite(&model, 1), PushPlan::Unchanged);
}

#[test]
fn push_block_is_retyped_and_gets_the_first_free_binding() {
    let model = SpirvModel {
        annotations: vec![binding(10, 0), set(10, 0), binding(11, 2), set(11, 0)],
        globals: vec![
            variable(10, 2),
            pointer(20, 9),
            pointer(21, 9),
            variable(30, 9),
            pointer(22, 2),
        ],
    };
    match plan_push_rewrite(&model, 1) {
        PushPlan::Rewrite(r) => {
            assert_eq!(r.retype, vec![1, 2, 3]);
            assert_eq!(r.decorations, vec![(30, 1)]);
        }
        other => panic!("expected a rewrite, got {other:?}"),
    }
    // A target that is taken in this stage is stepped past.
    match plan_push_rewrite(&model, 2) {
        PushPlan::Rewrite(r) => assert_eq!(r.decorations, vec![(30, 3)]),
        other => panic!("expected a rewrite, got {other:?}"),
    }
}

#[test]
fn unloadable_stages_contribute_no_bindings() {
    let garbage: &[u32] = &[1, 2, 3];
    assert_eq!(try_free_binding_across(&[garbage, garbage]), Some(0));
    assert_eq!(try_free_binding_across(&[]), Some(0));
}

/// A stage's SPIR-V words: the `UBO` block at set 0 binding 0, a push-constant
/// block when `push`, and a `Source` texture at binding 2 when `source`.
fn stage_words(push: bool, source: bool) -> Vec<u32> {
    let mut w = vec![0x0723_0203, 0x0001_0000, 0, 16, 0, (2 << 16) | 17, 1, (3 << 16) | 14, 0, 1];
    w.extend([(4 << 16) | 71, 4, 34, 0, (4 << 16) | 71, 4, 33, 0]); // %4: set 0, binding 0
    if source {
        w.extend([(4 << 16) | 71, 9, 34, 0, (4 << 16) | 71, 9, 33, 2]); // %9: set 0, binding 2
    }
    w.extend([
        (3 << 16) | 22, 1, 32,   // %1 = OpTypeFloat 32
        (3 << 16) | 30, 2, 1,    // %2 = OpTypeStruct %1
        (4 << 16) | 32, 3, 2, 2, // %3 = OpTypePointer Uniform %2
        (4 << 16) | 59, 3, 4, 2, // %4 = OpVariable %3 Uniform
    ]);
    if push {
        w.extend([
            (4 << 16) | 32, 5, 9, 2, // %5 = OpTypePointer PushConstant %2
            (4 << 16) | 59, 5, 6, 9, // %6 = OpVariable %5 PushConstant
        ]);
    }
    if source {
        w.extend([
            (9 << 16) | 25, 7, 1, 1, 0, 0, 0, 1, 0, // %7 = OpTypeImage %1 2D
            (4 << 16) | 32, 8, 0, 7,                // %8 = OpTypePointer UniformConstant %7
            (4 << 16) | 59, 8, 9, 0,                // %9 = OpVariable %8 UniformConstant
        ]);
    }
    w
}

#[test]
fn ubo_only_shader_is_unchanged() {
    let frag = stage_words(false, true);
    assert_eq!(push_constant_plan(&frag, 1).unwrap(), PushPlan::Unchanged);
    let out = push_constant_to_ubo(&frag, 1).unwrap();
    assert_eq!(out, frag, "no push constant -> byte-identical passthrough");
}

#[test]
fn free_binding_across_stages_picks_the_union_lowest() {
    // Vertex: UBO@0 (free 1); fragment: UBO@0 and Source@2 (free 1). Across both: 1.
    let vert = stage_words(true, false);
    let frag = stage_words(true, true);
    assert_eq!(free_binding_across(&[vert.as_slice(), frag.as_slice()]), 1);
}

#[test]
fn push_block_becomes_uniform_with_a_free_binding() {
    let frag = stage_words(true, true);
    // The push pointer (global 4) and variable (global 5) become Uniform; the
    // variable %6 lands in set 0 at binding 1, the lowest free (0 = UBO, 2 = Source).
    assert_eq!(
        push_constant_plan(&frag, 1).unwrap(),
        PushPlan::Rewrite(PushRewrite { retype: vec![4, 5], decorations: vec![(6, 1)] })
    );
    let out = push_constant_to_ubo(&frag, 1).unwrap();
    let after = rspirv::dr::load_words(&out).unwrap();
    let push_class = rspirv::spirv::StorageClass::PushConstant;
    let still_push = after
        .types_global_values
        .iter()
        .filter(|i| matches!(i.operands.first(), Some(rspirv::dr::Operand::StorageClass(c)) if *c == push_class))
        .count();
    assert_eq!(still_push, 0, "every push pointer and variable rewritten to Uniform");
    let mut found_set = None;
    let mut found_binding = None;
    for inst in &after.annotations {
        if inst.operands.first() != Some(&rspirv::dr::Operand::IdRef(6)) {
            continue;
        }
        match (inst.operands.get(1), inst.operands.get(2)) {
            (Some(rspirv::dr::Operand::Decoration(rspirv::spirv::Decoration::DescriptorSet)), Some(rspirv::dr::Operand::LiteralBit32(s))) => {
                found_set = Some(*s)
            }
            (Some(rspirv::dr::Operand::Decoration(rspirv::spirv::Decoration::Binding)), Some(rspirv::dr::Operand::LiteralBit32(b))) => {
                found_binding = Some(*b)
            }
            _ => {}
        }
    }
    assert_eq!(found_set, Some(0), "new UBO is in set 0");
    assert_eq!(found_binding, Some(1), "binding 1 is the lowest free (0=UBO, 2=Source taken)");
}

#[test]
fn rewritten_words_insert_the_decorations_and_retype_in_place() {
    let frag = stage_words(true, true);
    let out = push_constant_to_ubo(&frag, 1).unwrap();
    let mut expected = frag[..26].to_vec(); // header, capability, memory model, four decorations
    expected[2] = 0x000F_0000; // the loaded header names rspirv as the generator
    expected.extend([(4 << 16) | 71, 6, 34, 0, (4 << 16) | 71, 6, 33, 1]);
    expected.extend(&frag[26..]);
    // %5 = OpTypePointer Uniform %2, %6 = OpVariable %5 Uniform
    let p5 = 40 + 8;
    assert_eq!(&expected[p5..p5 + 4], &[(4 << 16) | 32, 5, 9, 2]);
    expected[p5 + 2] = 2;
    assert_eq!(&expected[p5 + 4..p5 + 8], &[(4 << 16) | 59, 5, 6, 9]);
    expected[p5 + 7] = 2;
    assert_eq!(out, expected);
}

#[test]
fn no_binding_left_is_reported() {
    let mut frag = stage_words(true, false);
    frag[17] = u32::MAX; // the UBO takes the last binding
    let err = push_constant_to_ubo(&frag, u32::MAX).unwrap_err();
    assert!(matches!(err, PushToUboError::BindingsExhausted));
}
