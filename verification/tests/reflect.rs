use slang_preview::reflect::{
    reflect_stages, AddressSpaceKind, BlockBinding, GlobalDecl, GlobalType, MemberDecl, MemberKind, ScalarKindDecl,
    ScalarType, SpirvReflection, TypeShape,
};

fn member(name: &str, offset: u32, shape: TypeShape) -> MemberDecl {
    MemberDecl { name: Some(name.to_string()), offset, shape }
}

fn mat(columns: u8, rows: u8, size: u32) -> TypeShape {
    TypeShape::Matrix { columns, rows, size }
}

fn vec4() -> TypeShape {
    TypeShape::Vector { size: 4, kind: ScalarKindDecl::Float, width: 4 }
}

fn scalar(kind: ScalarKindDecl) -> TypeShape {
    TypeShape::Scalar { kind, width: 4 }
}

fn block(name: &str, binding: u32, members: Vec<MemberDecl>, span: u32) -> GlobalDecl {
    GlobalDecl {
        name: Some(name.to_string()),
        space: AddressSpaceKind::Uniform,
        binding: Some((0, binding)),
        ty: GlobalType::Struct { members, span },
    }
}

fn handle(name: &str, binding: u32, ty: GlobalType) -> GlobalDecl {
    GlobalDecl { name: Some(name.to_string()), space: AddressSpaceKind::Handle, binding: Some((0, binding)), ty }
}

/// The canonical builtin UBO at binding 0 (the vertex stage sees only `MVP`),
/// the `Params` block at binding 3, a `Source` texture at 1 and a sampler
/// `Smp` at 2.
fn reflect_fixture() -> SpirvReflection {
    let vertex = vec![block("global", 0, vec![member("MVP", 0, mat(4, 4, 64))], 128)];
    let fragment = vec![
        block(
            "global",
            0,
            vec![
                member("MVP", 0, mat(4, 4, 64)),
                member("SourceSize", 64, vec4()),
                member("OriginalSize", 80, vec4()),
                member("OutputSize", 96, vec4()),
                member("FrameCount", 112, scalar(ScalarKindDecl::Uint)),
            ],
            128,
        ),
        block("params", 3, vec![member("LEVEL", 0, scalar(ScalarKindDecl::Float))], 16),
        handle("Source", 1, GlobalType::SampledImage),
        handle("Smp", 2, GlobalType::Sampler),
    ];
    reflect_stages(&vertex, &fragment)
}

#[test]
fn reflects_builtin_member_names_offsets_and_kinds() {
    let r = reflect_fixture();
    let (block, mvp) = r.find_member("MVP").expect("MVP reflected");
    assert!(matches!(block.binding, BlockBinding::Uniform { set: 0, binding: 0 }));
    assert_eq!(mvp.offset, 0);
    assert_eq!(mvp.size, 64);
    assert_eq!(mvp.kind, MemberKind::Matrix { cols: 4, rows: 4 });
    for (name, offset) in [("SourceSize", 64u32), ("OriginalSize", 80), ("OutputSize", 96)] {
        let (_, m) = r.find_member(name).unwrap_or_else(|| panic!("{name}"));
        assert_eq!(m.offset, offset, "{name} offset");
        assert_eq!(m.size, 16, "{name} size");
        assert_eq!(m.kind, MemberKind::Vector { scalar: ScalarType::Float, len: 4 }, "{name} kind");
    }
    let (_, fc) = r.find_member("FrameCount").expect("FrameCount reflected");
    assert_eq!(fc.offset, 112);
    assert_eq!(fc.kind, MemberKind::Scalar(ScalarType::Uint));
}

#[test]
fn reflects_parameter_block_separately() {
    let r = reflect_fixture();
    let (block, level) = r.find_member("LEVEL").expect("LEVEL reflected");
    assert!(matches!(block.binding, BlockBinding::Uniform { set: 0, binding: 3 }));
    assert_eq!(level.offset, 0);
    assert_eq!(level.kind, MemberKind::Scalar(ScalarType::Float));
}

#[test]
fn reflects_texture_and_sampler_bindings_by_name() {
    let r = reflect_fixture();
    assert_eq!(r.textures.len(), 1, "one texture: {:?}", r.textures);
    let src = &r.textures[0];
    assert_eq!(src.name, "Source");
    assert_eq!((src.set, src.binding), (0, 1));
    assert_eq!(r.samplers.len(), 1, "one sampler: {:?}", r.samplers);
    let smp = &r.samplers[0];
    assert_eq!(smp.name, "Smp");
    assert_eq!((smp.set, smp.binding), (0, 2));
}

#[test]
fn merges_stages_into_one_block_per_binding() {
    let r = reflect_fixture();
    let builtin_blocks =
        r.blocks.iter().filter(|b| matches!(b.binding, BlockBinding::Uniform { set: 0, binding: 0 })).count();
    assert_eq!(builtin_blocks, 1, "builtin block must merge to one");
    let (block, _) = r.find_member("MVP").unwrap();
    for name in ["MVP", "SourceSize", "OriginalSize", "OutputSize", "FrameCount"] {
        assert!(block.member(name).is_some(), "{name} present after merge");
    }
}

#[test]
fn mat3_reports_column_aligned_std140_size() {
    let stage = vec![block("global", 0, vec![member("ColorMat", 0, mat(3, 3, 48)), member("Tint", 48, vec4())], 64)];
    let r = reflect_stages(&stage, &stage);
    let (_, m) = r.find_member("ColorMat").expect("ColorMat reflected");
    assert_eq!(m.kind, MemberKind::Matrix { cols: 3, rows: 3 });
    assert_eq!(m.size, 48, "mat3 std140 size is column-aligned (3*16)");
    let (_, tint) = r.find_member("Tint").expect("Tint reflected");
    assert_eq!(tint.offset, 48, "member after a mat3 is column-aligned");
}

#[test]
fn reflects_members_in_non_canonical_order() {
    let stage = vec![block(
        "global",
        0,
        vec![
            member("MVP", 0, mat(4, 4, 64)),
            member("FrameCount", 64, scalar(ScalarKindDecl::Uint)),
            member("OutputSize", 80, vec4()),
        ],
        96,
    )];
    let r = reflect_stages(&stage, &stage);
    let (_, mvp) = r.find_member("MVP").unwrap();
    let (_, fc) = r.find_member("FrameCount").unwrap();
    let (_, os) = r.find_member("OutputSize").unwrap();
    assert_eq!(mvp.offset, 0);
    assert_eq!(fc.offset, 64);
    assert_eq!(os.offset, 80);
}

#[test]
fn push_constant_and_unbound_blocks() {
    let push = GlobalDecl {
        name: Some("registers".to_string()),
        space: AddressSpaceKind::Immediate,
        binding: None,
        ty: GlobalType::Struct { members: vec![member("FrameCount", 0, scalar(ScalarKindDecl::Uint))], span: 16 },
    };
    let unbound = GlobalDecl { binding: None, ..block("loose", 0, vec![], 16) };
    let r = reflect_stages(&[push, unbound], &[]);
    assert_eq!(r.blocks.len(), 1);
    assert_eq!(r.blocks[0].binding, BlockBinding::PushConstant);
}
