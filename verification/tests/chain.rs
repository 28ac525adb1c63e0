use std::collections::{HashSet, VecDeque};

use slang_preview::bindtable::TextureClass;
use slang_preview::chain::{
    param_block_index, uniform_buffer_size, UBO_FALLBACK_SIZE,
    plan_fbos, ChainError, FboPlan,
    history_depth, block_binding, feedback_targets, find_alias, mip_level_count_for, produces_mips, push_history,
    resolve_texture, ChainResources, SamplerChoice, TextureBinding, ViewChoice,
};
use slang_preview::pass::{address_mode, fbo_format, AddressMode, FboFormat, WrapMode};
use slang_preview::reflect::{BlockBinding, UniformBlock};

fn resources() -> ChainResources {
    ChainResources {
        owns_fbo: vec![true, true, false],
        has_feedback: vec![false, true, false],
        aliases: vec![Some("FIRST".to_string()), None, Some("FIRST".to_string())],
        history_len: 2,
        luts: vec!["LUT".to_string(), "NOISE".to_string(), "LUT".to_string()],
    }
}

fn binding(view: ViewChoice, sampler: SamplerChoice) -> TextureBinding {
    TextureBinding { view, sampler }
}

#[test]
fn source_is_the_previous_pass_output_sampled_by_the_consumer() {
    let r = resources();
    let src = binding(ViewChoice::SourceImage, SamplerChoice::Pass(0));
    assert_eq!(resolve_texture(&r, &TextureClass::Source, 0), src);
    assert_eq!(
        resolve_texture(&r, &TextureClass::Source, 1),
        binding(ViewChoice::PassOutput(0), SamplerChoice::Pass(1))
    );
    assert_eq!(
        resolve_texture(&r, &TextureClass::Source, 2),
        binding(ViewChoice::PassOutput(1), SamplerChoice::Pass(2))
    );
    assert_eq!(resolve_texture(&r, &TextureClass::Original, 2), src);
}

#[test]
fn pass_outputs_must_be_causal() {
    let r = resources();
    let placeholder = binding(ViewChoice::Placeholder, SamplerChoice::Pass(0));
    assert_eq!(resolve_texture(&r, &TextureClass::PassOutput(1), 1), placeholder);
    assert_eq!(resolve_texture(&r, &TextureClass::PassOutput(2), 2), placeholder);
    assert_eq!(
        resolve_texture(&r, &TextureClass::PassOutput(0), 2),
        binding(ViewChoice::PassOutput(0), SamplerChoice::Pass(1))
    );
    // A duplicate alias keeps the first pass.
    assert_eq!(
        resolve_texture(&r, &TextureClass::Alias("FIRST".to_string()), 1),
        binding(ViewChoice::PassOutput(0), SamplerChoice::Pass(1))
    );
    assert_eq!(resolve_texture(&r, &TextureClass::Alias("NONE".to_string()), 2), placeholder);
}

#[test]
fn feedback_history_and_luts_resolve_by_index_and_name() {
    let r = resources();
    let placeholder = binding(ViewChoice::Placeholder, SamplerChoice::Pass(0));
    assert_eq!(
        resolve_texture(&r, &TextureClass::PassFeedback(1), 0),
        binding(ViewChoice::PassFeedback(1), SamplerChoice::Pass(2))
    );
    assert_eq!(resolve_texture(&r, &TextureClass::PassFeedback(0), 2), placeholder);
    assert_eq!(resolve_texture(&r, &TextureClass::AliasFeedback("FIRST".to_string()), 2), placeholder);
    assert_eq!(
        resolve_texture(&r, &TextureClass::OriginalHistory(2), 0),
        binding(ViewChoice::History(1), SamplerChoice::Pass(0))
    );
    assert_eq!(resolve_texture(&r, &TextureClass::OriginalHistory(3), 0), placeholder);
    // A later registration of the same LUT name wins.
    assert_eq!(
        resolve_texture(&r, &TextureClass::Lut("LUT".to_string()), 0),
        binding(ViewChoice::Lut(2), SamplerChoice::Lut(2))
    );
    assert_eq!(
        resolve_texture(&r, &TextureClass::Lut("BORDER".to_string()), 0),
        binding(ViewChoice::Resolver, SamplerChoice::Pass(0))
    );
}

#[test]
fn last_pass_feedback_uses_its_own_sampler() {
    let mut r = resources();
    r.has_feedback = vec![false, false, true];
    assert_eq!(
        resolve_texture(&r, &TextureClass::PassFeedback(2), 0),
        binding(ViewChoice::PassFeedback(2), SamplerChoice::Pass(2))
    );
}

#[test]
fn alias_lookup_keeps_the_first_pass() {
    let aliases = vec![None, Some("A".to_string()), Some("A".to_string())];
    assert_eq!(find_alias(&aliases, &"A".to_string()), Some(1));
    assert_eq!(find_alias(&aliases, &"B".to_string()), None);
}

#[test]
fn mips_are_produced_for_the_next_pass_input() {
    assert_eq!(produces_mips(&vec![true, false, true]), vec![false, true, false]);
    assert_eq!(produces_mips(&vec![]), Vec::<bool>::new());
}

#[test]
fn feedback_targets_union_flags_and_references() {
    let flags = vec![false, false, true];
    let aliases = vec![Some("A".to_string()), None, None];
    let slots = vec![
        vec![TextureClass::Source, TextureClass::AliasFeedback("A".to_string())],
        vec![TextureClass::PassFeedback(1), TextureClass::PassFeedback(9)],
        vec![],
    ];
    assert_eq!(feedback_targets(&flags, &slots, &aliases), HashSet::from([0, 1, 2, 9]));
    assert_eq!(feedback_targets(&vec![false, false], &vec![vec![], vec![]], &vec![None, None]), HashSet::new());
}

#[test]
fn history_ring_keeps_the_newest_depth_entries() {
    let mut ring: VecDeque<u32> = VecDeque::new();
    for f in 1..=5 {
        push_history(&mut ring, f, 3);
    }
    assert_eq!(ring, VecDeque::from(vec![5, 4, 3]));
    push_history(&mut ring, 6, 0);
    assert_eq!(ring, VecDeque::from(vec![5, 4, 3]), "depth 0 leaves the ring alone");
}

#[test]
fn mip_chain_length_is_log2_of_the_larger_side_plus_one() {
    assert_eq!(mip_level_count_for((1, 1)), 1);
    assert_eq!(mip_level_count_for((0, 0)), 1);
    assert_eq!(mip_level_count_for((256, 16)), 9);
    assert_eq!(mip_level_count_for((3, 255)), 8);
    assert_eq!(mip_level_count_for((u32::MAX, 1)), 32);
}

#[test]
fn block_binding_only_reports_set_zero_uniforms() {
    let block = |binding| UniformBlock { name: None, binding, size: 16, members: vec![] };
    assert_eq!(block_binding(Some(&block(BlockBinding::Uniform { set: 0, binding: 3 }))), Some(3));
    assert_eq!(block_binding(Some(&block(BlockBinding::Uniform { set: 1, binding: 3 }))), None);
    assert_eq!(block_binding(Some(&block(BlockBinding::PushConstant))), None);
    assert_eq!(block_binding(None), None);
}

#[test]
fn pass_formats_and_address_modes() {
    assert_eq!(fbo_format(true, true), FboFormat::Rgba16Float);
    assert_eq!(fbo_format(false, true), FboFormat::Rgba8UnormSrgb);
    assert_eq!(fbo_format(false, false), FboFormat::Rgba8Unorm);
    assert_eq!(WrapMode::default(), WrapMode::ClampToBorder);
    assert_eq!(address_mode(WrapMode::ClampToBorder, true), AddressMode::ClampToBorder);
    assert_eq!(address_mode(WrapMode::ClampToBorder, false), AddressMode::ClampToEdge);
    assert_eq!(address_mode(WrapMode::MirroredRepeat, false), AddressMode::MirrorRepeat);
    assert_eq!(address_mode(WrapMode::Repeat, true), AddressMode::Repeat);
}

#[test]
fn history_depth_is_the_deepest_original_history() {
    let slots = vec![
        vec![TextureClass::Source, TextureClass::OriginalHistory(2)],
        vec![TextureClass::OriginalHistory(5), TextureClass::PassFeedback(0)],
        vec![],
    ];
    assert_eq!(history_depth(&slots), 5);
    assert_eq!(history_depth(&vec![vec![TextureClass::Original]]), 0);
    assert_eq!(history_depth(&vec![]), 0);
}

#[test]
fn an_empty_chain_is_refused() {
    assert_eq!(plan_fbos(&vec![], &HashSet::new()), Err(ChainError::EmptyChain));
}

#[test]
fn only_an_unscaled_final_pass_renders_straight_to_the_target() {
    let plans = plan_fbos(&vec![false, true, false], &HashSet::new()).unwrap();
    assert!(plans[0].owns_fbo && !plans[0].final_owns_fbo);
    assert!(plans[1].owns_fbo && !plans[1].final_owns_fbo);
    assert_eq!(
        plans[2],
        FboPlan { owns_fbo: false, final_owns_fbo: false, viewport_scale: false, is_feedback_target: false }
    );
    let scaled = plan_fbos(&vec![false, true], &HashSet::new()).unwrap();
    assert_eq!(
        scaled[1],
        FboPlan { owns_fbo: true, final_owns_fbo: true, viewport_scale: false, is_feedback_target: false }
    );
}

#[test]
fn an_unscaled_final_feedback_target_gets_a_viewport_sized_fbo() {
    let plans = plan_fbos(&vec![false, false], &HashSet::from([0, 1])).unwrap();
    assert_eq!(
        plans[0],
        FboPlan { owns_fbo: true, final_owns_fbo: false, viewport_scale: false, is_feedback_target: true }
    );
    assert_eq!(
        plans[1],
        FboPlan { owns_fbo: true, final_owns_fbo: true, viewport_scale: true, is_feedback_target: true }
    );
}

#[test]
fn uniform_buffers_are_at_least_one_vec4() {
    let block = |size| UniformBlock { name: None, binding: BlockBinding::Uniform { set: 0, binding: 0 }, size, members: vec![] };
    assert_eq!(uniform_buffer_size(None), UBO_FALLBACK_SIZE);
    assert_eq!(uniform_buffer_size(Some(&block(0))), 16);
    assert_eq!(uniform_buffer_size(Some(&block(96))), 96);
}

#[test]
fn the_parameter_block_is_the_first_that_is_not_the_builtin_block() {
    let block = |binding| UniformBlock { name: None, binding: BlockBinding::Uniform { set: 0, binding }, size: 16, members: vec![] };
    let blocks = vec![block(0), block(3), block(4)];
    let builtin = Some(BlockBinding::Uniform { set: 0, binding: 0 });
    assert_eq!(param_block_index(&blocks, builtin), Some(1));
    assert_eq!(param_block_index(&blocks, None), Some(0));
    assert_eq!(param_block_index(&vec![block(0)], builtin), None);
}
