use slang_preview::spirv_model::{OperandVal, SpirvInst, SpirvModel};
use slang_preview::split::{
    classify_consumer, find_combined_variables, plan_split, plan_split_model, CombinedVar,
    ConsumerKind, IdAllocator, SamplerBindingAllocator, SamplerSplit, SplitError, SplitPlan,
    TypeIndex,
};

fn inst(opcode: u32, result_type: Option<u32>, result_id: Option<u32>, operands: Vec<OperandVal>) -> SpirvInst {
    SpirvInst { opcode, result_type, result_id, operands }
}

fn id(x: u32) -> OperandVal {
    OperandVal::IdRef(x)
}

fn decorate(target: u32, decoration: u32, literal: u32) -> SpirvInst {
    inst(71, None, None, vec![id(target), OperandVal::Decoration(decoration), OperandVal::LiteralBit32(literal)])
}

/// image %1, sampled image %2 of %1, pointer %3 (UniformConstant -> %2),
/// variable %4 of %3 (UniformConstant); an array %5 of %2, pointer %6 -> %5.
fn globals() -> Vec<SpirvInst> {
    vec![
        inst(25, None, Some(1), vec![OperandVal::Other]),
        inst(27, None, Some(2), vec![id(1)]),
        inst(32, None, Some(3), vec![OperandVal::StorageClass(0), id(2)]),
        inst(59, Some(3), Some(4), vec![OperandVal::StorageClass(0)]),
        inst(28, None, Some(5), vec![id(2), id(9)]),
        inst(32, None, Some(6), vec![OperandVal::StorageClass(0), id(5)]),
        inst(26, None, Some(7), vec![]),
    ]
}

#[test]
fn type_index_finds_sampled_images_through_aggregates() {
    let mut g = globals();
    // A struct %8 that (cyclically) contains itself and the array.
    g.push(inst(30, None, Some(8), vec![id(8), id(5)]));
    g.push(inst(30, None, Some(10), vec![id(10), id(1)]));
    let t = TypeIndex::build(&g);
    assert_eq!(t.sampled_image_to_image, vec![(2, 1)]);
    assert_eq!(t.sampler_type_ids, vec![7]);
    assert!(t.contains_sampled_image(2));
    assert!(t.contains_sampled_image(5));
    assert!(t.contains_sampled_image(8));
    assert!(!t.contains_sampled_image(10), "a cycle without a sampled image terminates");
    assert!(!t.contains_sampled_image(1));
    assert_eq!(t.image_type_of(2), Some(1));
    assert_eq!(t.image_type_of(5), None);
}

#[test]
fn combined_scalar_globals_are_found_and_arrays_rejected() {
    let g = globals();
    let t = TypeIndex::build(&g);
    assert_eq!(
        find_combined_variables(&g, &t).unwrap(),
        vec![CombinedVar { var_id: 4, sampled_image_type_id: 2, image_type_id: 1 }]
    );
    let mut g2 = g.clone();
    g2.push(inst(59, Some(6), Some(11), vec![OperandVal::StorageClass(0)]));
    let t2 = TypeIndex::build(&g2);
    match find_combined_variables(&g2, &t2) {
        Err(SplitError::UnsupportedDeclaration(m)) => assert_eq!(
            m,
            "global variable %11 is an array/aggregate of combined image-samplers (pointee type %5); \
             the sampler-splitting transform only handles a scalar `sampler2D` global"
        ),
        other => panic!("expected a rejection, got {other:?}"),
    }
}

#[test]
fn consumers_are_classified_by_opcode() {
    assert_eq!(classify_consumer(87), Some(ConsumerKind::SampledImage));
    assert_eq!(classify_consumer(96), Some(ConsumerKind::SampledImage));
    assert_eq!(classify_consumer(95), Some(ConsumerKind::Image));
    assert_eq!(classify_consumer(104), Some(ConsumerKind::Image));
    assert_eq!(classify_consumer(100), Some(ConsumerKind::ImageExtract));
    assert_eq!(classify_consumer(61), None);
    assert_eq!(classify_consumer(308), None);
}

#[test]
fn sampler_bindings_go_above_each_sets_largest() {
    let annotations = vec![decorate(4, 34, 0), decorate(4, 33, 1), decorate(12, 33, 3), decorate(13, 34, 2)];
    let mut a = SamplerBindingAllocator::from_annotations(&annotations);
    assert_eq!(a.allocate(0, 1), 4);
    assert_eq!(a.allocate(0, 1), 5);
    assert_eq!(a.allocate(2, 0), 0);
    assert_eq!(a.allocate(7, 0), 0);
}

#[test]
fn split_plan_places_samplers_in_the_variables_set() {
    let model = SpirvModel {
        annotations: vec![decorate(4, 34, 0), decorate(4, 33, 1), decorate(20, 33, 2)],
        globals: globals(),
    };
    let plan = plan_split_model(&model).unwrap();
    assert_eq!(
        plan,
        SplitPlan::Split {
            sampler_type: Some(7),
            splits: vec![SamplerSplit {
                var: CombinedVar { var_id: 4, sampled_image_type_id: 2, image_type_id: 1 },
                set: 0,
                binding: 3,
            }],
        }
    );
    let plain = SpirvModel { annotations: vec![], globals: vec![inst(26, None, Some(7), vec![])] };
    assert_eq!(plan_split_model(&plain).unwrap(), SplitPlan::Unchanged);
    let full = SpirvModel { annotations: vec![decorate(9, 33, u32::MAX)], globals: globals() };
    assert_eq!(plan_split_model(&full).unwrap(), SplitPlan::BindingsExhausted);
}

#[test]
fn unparseable_words_are_a_parse_error() {
    assert!(matches!(plan_split(&[0xDEAD_BEEF, 0, 0, 0]), Err(SplitError::Parse(_))));
}

#[test]
fn ids_are_handed_out_upward() {
    let mut ids = IdAllocator { next_id: 40 };
    assert_eq!(ids.fresh(), 40);
    assert_eq!(ids.fresh(), 41);
    assert_eq!(ids.next_id, 42);
}
