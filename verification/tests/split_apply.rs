use rspirv::binary::Assemble;
use slang_preview::split::SplitError;
use slang_preview::split_apply::split_combined_samplers;

#[test]
fn no_combined_sampler_is_identity() {
    let mut b = rspirv::dr::Builder::new();
    b.set_version(1, 0);
    b.capability(rspirv::spirv::Capability::Shader);
    b.memory_model(rspirv::spirv::AddressingModel::Logical, rspirv::spirv::MemoryModel::GLSL450);
    let module = b.module();
    let words = module.assemble();
    let out = split_combined_samplers(&words).expect("transform");
    assert_eq!(out, words, "no combined sampler must be a verbatim no-op");
}

/// A fragment module sampling a combined `sampler2D Source` at set 0,
/// binding 1.
fn combined_fragment() -> Vec<u32> {
    let mut w = vec![0x0723_0203, 0x0001_0000, 0, 16, 0];
    w.extend([(2 << 16) | 17, 1]); // OpCapability Shader
    w.extend([(3 << 16) | 14, 0, 1]); // OpMemoryModel Logical GLSL450
    w.extend([(4 << 16) | 5, 7, 0x7275_6f53, 0x0000_6563]); // OpName %7 "Source"
    w.extend([(4 << 16) | 71, 7, 34, 0, (4 << 16) | 71, 7, 33, 1]); // set 0, binding 1
    w.extend([
        (2 << 16) | 19, 1,                      // %1 = OpTypeVoid
        (3 << 16) | 33, 2, 1,                   // %2 = OpTypeFunction %1
        (3 << 16) | 22, 3, 32,                  // %3 = OpTypeFloat 32
        (9 << 16) | 25, 4, 3, 1, 0, 0, 0, 1, 0, // %4 = OpTypeImage %3 2D
        (3 << 16) | 27, 5, 4,                   // %5 = OpTypeSampledImage %4
        (4 << 16) | 32, 6, 0, 5,                // %6 = OpTypePointer UniformConstant %5
        (4 << 16) | 59, 6, 7, 0,                // %7 = OpVariable %6 UniformConstant
        (4 << 16) | 23, 8, 3, 4,                // %8 = OpTypeVector %3 4
        (4 << 16) | 23, 9, 3, 2,                // %9 = OpTypeVector %3 2
        (4 << 16) | 43, 3, 10, 0,               // %10 = OpConstant %3 0.0
        (5 << 16) | 44, 9, 11, 10, 10,          // %11 = OpConstantComposite %9 %10 %10
    ]);
    w.extend([
        (5 << 16) | 54, 1, 12, 0, 2,  // %12 = OpFunction %1 None %2
        (2 << 16) | 248, 13,          // %13 = OpLabel
        (4 << 16) | 61, 5, 14, 7,     // %14 = OpLoad %5 %7
        (5 << 16) | 87, 8, 15, 14, 11, // %15 = OpImageSampleImplicitLod %8 %14 %11
        (1 << 16) | 253,              // OpReturn
        (1 << 16) | 56,               // OpFunctionEnd
    ]);
    w
}

#[test]
fn split_output_has_no_combined_sampler_and_is_idempotent() {
    let words = combined_fragment();
    let out = split_combined_samplers(&words).expect("split");
    assert_ne!(out, words);
    let again = split_combined_samplers(&out).expect("re-split");
    assert_eq!(again, out, "the split output must contain no combined sampler (idempotent)");
    let module = rspirv::dr::load_words(&out).expect("parse split output");
    assert!(
        module.types_global_values.iter().any(|i| i.class.opcode == rspirv::spirv::Op::TypeSampler),
        "split output declares an OpTypeSampler"
    );
    let names: Vec<String> = module
        .debug_names
        .iter()
        .filter_map(|i| match i.operands.get(1) {
            Some(rspirv::dr::Operand::LiteralString(s)) => Some(s.clone()),
            _ => None,
        })
        .collect();
    assert!(names.contains(&"Source".to_string()) && names.contains(&"SourceSmp".to_string()));
    assert!(module.header.unwrap().bound > 16, "fresh ids raise the bound");
}

#[test]
fn unloadable_words_are_a_parse_error() {
    let err = split_combined_samplers(&[0xDEAD_BEEF, 0, 0, 0]).unwrap_err();
    assert!(matches!(err, SplitError::Parse(_)));
}
