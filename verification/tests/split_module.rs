use slang_preview::global_order::{def_use_order, DepNode};
use slang_preview::spirv_model::{OperandVal, SpirvInst};
use slang_preview::split::{plan_split, IdAllocator, SplitError, SplitPlan};
use slang_preview::split_module::{
    id_allocator, split_module, GlobalItem, NewName, SpirvModule, SplitOutcome, SAMPLER_NAME_SUFFIX,
};
use slang_preview::split_rewrite::{rewrite_block, BlockItem, RewriteFault, VarSplit};

fn inst(opcode: u32, result_type: Option<u32>, result_id: Option<u32>, operands: Vec<OperandVal>) -> SpirvInst {
    SpirvInst { opcode, result_type, result_id, operands }
}

fn id(x: u32) -> OperandVal {
    OperandVal::IdRef(x)
}

fn decorate(target: u32, decoration: u32, literal: u32) -> SpirvInst {
    inst(71, None, None, vec![id(target), OperandVal::Decoration(decoration), OperandVal::LiteralBit32(literal)])
}

/// float %1, image %2 of %1, sampled image %3 of %2, pointer %4
/// (UniformConstant -> %3), combined variable %5 of %4, vec4 %6 of %1.
fn globals() -> Vec<SpirvInst> {
    vec![
        inst(22, None, Some(1), vec![OperandVal::LiteralBit32(32)]),
        inst(25, None, Some(2), vec![id(1), OperandVal::Other]),
        inst(27, None, Some(3), vec![id(2)]),
        inst(32, None, Some(4), vec![OperandVal::StorageClass(0), id(3)]),
        inst(59, Some(4), Some(5), vec![OperandVal::StorageClass(0)]),
        inst(23, None, Some(6), vec![id(1), OperandVal::LiteralBit32(4)]),
    ]
}

fn module_with(block: Vec<SpirvInst>) -> SpirvModule {
    let names = vec![inst(5, None, None, vec![id(5), OperandVal::Text])];
    let annotations = vec![decorate(5, 34, 0), decorate(5, 33, 1)];
    let mut all = Vec::new();
    all.extend(names.iter().cloned());
    all.extend(annotations.iter().cloned());
    all.extend(globals());
    all.extend(block.iter().cloned());
    SpirvModule { bound: Some(13), all, names, annotations, globals: globals(), blocks: vec![block] }
}

/// `%10 = OpLoad %3 %5`, then `%11 = OpImageSampleImplicitLod %6 %10 %12`.
fn sampling_block() -> Vec<SpirvInst> {
    vec![
        inst(61, Some(3), Some(10), vec![id(5)]),
        inst(87, Some(6), Some(11), vec![id(10), id(12)]),
    ]
}

#[test]
fn combined_sampler_is_split_into_image_and_sampler() {
    let out = split_module(&module_with(sampling_block())).unwrap();
    let SplitOutcome::Rewritten(e) = out else { panic!("expected a rewrite") };
    assert_eq!(
        e.globals,
        vec![
            GlobalItem::Keep(0),
            GlobalItem::Keep(1),
            GlobalItem::Keep(2),
            GlobalItem::Keep(3),
            GlobalItem::Retyped(4, 15),
            GlobalItem::Keep(5),
            GlobalItem::New(inst(26, None, Some(13), vec![])),
            GlobalItem::New(inst(32, None, Some(14), vec![OperandVal::StorageClass(0), id(13)])),
            GlobalItem::New(inst(32, None, Some(15), vec![OperandVal::StorageClass(0), id(2)])),
            GlobalItem::New(inst(59, Some(14), Some(16), vec![OperandVal::StorageClass(0)])),
        ]
    );
    // The retyped variable needs the new pointer %15 first.
    assert_eq!(e.order, vec![0, 1, 2, 3, 8, 4, 5, 6, 7, 9]);
    assert_eq!(e.annotations, vec![decorate(16, 34, 0), decorate(16, 33, 2)]);
    assert_eq!(e.names, vec![NewName { target: 16, from: 0 }]);
    assert_eq!(
        e.blocks,
        vec![vec![
            BlockItem::Retyped(0, 2),
            BlockItem::New(inst(61, Some(13), Some(17), vec![id(16)])),
            BlockItem::New(inst(86, Some(3), Some(18), vec![id(10), id(17)])),
            BlockItem::Repointed(1, 18),
        ]]
    );
    assert_eq!(e.bound, Some(19));
    assert_eq!(SAMPLER_NAME_SUFFIX, "Smp");
}

#[test]
fn texel_fetch_goes_straight_to_the_image_load() {
    // `%20 = OpImage %2 %10` is dropped and forwarded; `OpImageFetch` reads the image load.
    // The block mentions ids up to %22, so fresh ids start at %23.
    let block = vec![
        inst(61, Some(3), Some(10), vec![id(5)]),
        inst(100, Some(2), Some(20), vec![id(10)]),
        inst(95, Some(6), Some(21), vec![id(20), id(12)]),
        inst(104, Some(6), Some(22), vec![id(20)]),
    ];
    let SplitOutcome::Rewritten(e) = split_module(&module_with(block)).unwrap() else { panic!("expected a rewrite") };
    assert_eq!(
        e.blocks,
        vec![vec![
            BlockItem::Retyped(0, 2),
            BlockItem::New(inst(61, Some(23), Some(27), vec![id(26)])),
            BlockItem::Repointed(2, 10),
            BlockItem::Repointed(3, 10),
        ]]
    );
    assert_eq!(e.bound, Some(28));
}

#[test]
fn module_without_combined_sampler_is_unchanged() {
    let m = SpirvModule {
        bound: Some(3),
        all: vec![inst(22, None, Some(1), vec![])],
        names: vec![],
        annotations: vec![],
        globals: vec![inst(22, None, Some(1), vec![]), inst(26, None, Some(2), vec![])],
        blocks: vec![],
    };
    assert!(matches!(split_module(&m), Ok(SplitOutcome::Unchanged)));
}

#[test]
fn combined_sampler_passed_to_function_is_rejected() {
    // `%30 = OpFunctionCall %6 %31 %5`: the variable itself is an argument.
    let block = vec![inst(57, Some(6), Some(30), vec![id(31), id(5)])];
    match split_module(&module_with(block)) {
        Err(SplitError::UnsupportedDeclaration(m)) => assert_eq!(
            m,
            "combined image-sampler variable %5 is used by FunctionCall (operand 1); only an inline \
             `OpLoad` of a scalar `sampler2D` global is supported \u{2014} it was likely passed to a \
             function or aliased through a pointer"
        ),
        _ => panic!("expected an unsupported declaration"),
    }
}

#[test]
fn unknown_consumer_is_rejected() {
    let block = vec![
        inst(61, Some(3), Some(10), vec![id(5)]),
        inst(98, Some(6), Some(11), vec![id(10), id(12)]),
    ];
    assert!(matches!(
        split_module(&module_with(block)),
        Err(SplitError::UnsupportedConsumer { opcode: 98 })
    ));
}

#[test]
fn combined_value_in_a_later_operand_is_rejected() {
    let block = vec![
        inst(61, Some(3), Some(10), vec![id(5)]),
        inst(62, None, None, vec![id(40), id(10)]),
    ];
    match split_module(&module_with(block)) {
        Err(SplitError::UnsupportedDeclaration(m)) => assert_eq!(
            m,
            "a combined image-sampler value flows into operand 1 of Store, which the transform does \
             not handle (e.g. stored, copied, or passed to a function)"
        ),
        _ => panic!("expected an unsupported declaration"),
    }
}

#[test]
fn an_id_at_the_limit_exhausts_the_split() {
    let mut m = module_with(sampling_block());
    m.all.push(inst(22, None, Some(u32::MAX), vec![]));
    assert!(matches!(split_module(&m), Ok(SplitOutcome::Exhausted)));
}

#[test]
fn fresh_ids_start_above_every_mentioned_id() {
    let all = vec![inst(59, Some(4), Some(9), vec![id(30)])];
    assert_eq!(id_allocator(Some(5), &all).unwrap().next_id, 31);
    assert_eq!(id_allocator(None, &vec![]).unwrap().next_id, 1);
    assert_eq!(id_allocator(Some(50), &all).unwrap().next_id, 50);
    assert!(id_allocator(Some(5), &vec![inst(1, None, Some(u32::MAX), vec![])]).is_none());
}

#[test]
fn block_rewrite_draws_ids_from_the_allocator() {
    let plan = vec![VarSplit { var_id: 5, image_type_id: 2, sampler_var_id: 16, sampler_type_id: 13 }];
    let mut ids = IdAllocator { next_id: 100 };
    let items = rewrite_block(&plan, &sampling_block(), &mut ids).unwrap();
    assert_eq!(items[1], BlockItem::New(inst(61, Some(13), Some(100), vec![id(16)])));
    assert_eq!(items[2], BlockItem::New(inst(86, Some(3), Some(101), vec![id(10), id(100)])));
    assert_eq!(ids.next_id, 102);
    let mut full = IdAllocator { next_id: u32::MAX };
    assert_eq!(rewrite_block(&plan, &sampling_block(), &mut full), Err(RewriteFault::IdsExhausted));
}

fn node(result_type: Option<u32>, result_id: Option<u32>, refs: Vec<u32>) -> DepNode {
    DepNode { result_type, result_id, refs }
}

#[test]
fn ordering_puts_definitions_first() {
    // %2 references %1, which is defined after it.
    let nodes = vec![node(None, Some(2), vec![1]), node(None, Some(1), vec![]), node(Some(2), Some(3), vec![])];
    assert_eq!(def_use_order(&nodes), vec![1, 0, 2]);
}

#[test]
fn ordering_keeps_an_ordered_section() {
    let nodes = vec![node(None, Some(1), vec![]), node(None, Some(2), vec![1]), node(Some(2), Some(3), vec![1, 2])];
    assert_eq!(def_use_order(&nodes), vec![0, 1, 2]);
}

#[test]
fn ordering_walks_the_last_reference_first() {
    // %4 references %1 then %2, both defined after it; %2 references %3.
    let nodes = vec![
        node(None, Some(4), vec![1, 2]),
        node(None, Some(3), vec![]),
        node(None, Some(1), vec![]),
        node(None, Some(2), vec![3]),
    ];
    assert_eq!(def_use_order(&nodes), vec![1, 3, 2, 0]);
}

#[test]
fn ordering_terminates_on_a_cycle() {
    let nodes = vec![node(None, Some(1), vec![2]), node(None, Some(2), vec![1])];
    let o = def_use_order(&nodes);
    assert_eq!(o.len(), 2);
    assert!(o.contains(&0) && o.contains(&1));
}

/// A minimal module: `OpCapability Shader`, `OpMemoryModel Logical GLSL450`.
fn header(bound: u32) -> Vec<u32> {
    vec![0x0723_0203, 0x0001_0000, 0, bound, 0, (2 << 16) | 17, 1, (3 << 16) | 14, 0, 1]
}

#[test]
fn minimal_module_plans_no_split() {
    let words = header(1);
    assert_eq!(plan_split(&words).unwrap(), SplitPlan::Unchanged);
}

#[test]
fn array_of_combined_samplers_is_rejected() {
    let mut words = header(9);
    words.extend([
        (3 << 16) | 22, 1, 32,                 // %1 = OpTypeFloat 32
        (9 << 16) | 25, 2, 1, 1, 0, 0, 0, 1, 0, // %2 = OpTypeImage %1 2D
        (3 << 16) | 27, 3, 2,                  // %3 = OpTypeSampledImage %2
        (4 << 16) | 21, 4, 32, 0,              // %4 = OpTypeInt 32 0
        (4 << 16) | 43, 4, 5, 2,               // %5 = OpConstant %4 2
        (4 << 16) | 28, 6, 3, 5,               // %6 = OpTypeArray %3 %5
        (4 << 16) | 32, 7, 0, 6,               // %7 = OpTypePointer UniformConstant %6
        (4 << 16) | 59, 7, 8, 0,               // %8 = OpVariable %7 UniformConstant
    ]);
    match plan_split(&words) {
        Err(SplitError::UnsupportedDeclaration(m)) => assert_eq!(
            m,
            "global variable %8 is an array/aggregate of combined image-samplers (pointee type %6); \
             the sampler-splitting transform only handles a scalar `sampler2D` global"
        ),
        other => panic!("expected an unsupported declaration, got {other:?}"),
    }
}
