use slang_preview::chain::ChainError;
use slang_preview::frame_plan::{FboDesc, PassFrameState};
use slang_preview::pass::FboFormat;
use slang_preview::render_state::{
    alias_feedback_size, alias_size, builtin_sizes, lut_size, output_sizes, visible_frame_count, RenderGate, RenderState,
};

#[test]
fn render_needs_a_source_and_a_chain() {
    let mut s = RenderState::new();
    assert_eq!(s.begin_render(), Err(RenderGate::NotReady));
    assert_eq!(s.render_frame(), Err(RenderGate::NotReady));
    s.set_source((8, 8));
    assert_eq!(s.begin_render(), Err(RenderGate::NotReady));
    assert_eq!(s.set_chain(0, 0), Err(ChainError::EmptyChain));
    assert_eq!(s.begin_render(), Err(RenderGate::NotReady));
    assert_eq!(s.set_chain(1, 0), Ok(()));
    assert_eq!(s.begin_render(), Ok(()));

    let mut no_source = RenderState::new();
    assert_eq!(no_source.set_chain(2, 0), Ok(()));
    assert_eq!(no_source.begin_render(), Err(RenderGate::NotReady));
}

#[test]
fn frame_counter_advances_once_per_successful_render() {
    let mut s = RenderState::new();
    assert_eq!(s.render_frame(), Err(RenderGate::NotReady));
    assert_eq!(s.frame_count(), 0);
    s.set_source((8, 8));
    s.set_chain(1, 0).unwrap();
    assert_eq!(s.render_frame(), Ok(0));
    assert_eq!(s.render_frame(), Ok(1));
    s.finish_render();
    assert_eq!(s.frame_count(), 3);
}

#[test]
fn advancing_the_source_fills_the_history_ring_newest_first() {
    let mut s = RenderState::new();
    s.set_chain(1, 2).unwrap();
    s.advance_source((1, 1));
    assert_eq!(s.history_sizes(), Vec::<(u32, u32)>::new());
    s.advance_source((2, 2));
    assert_eq!(s.history_sizes(), vec![(1, 1)]);
    s.advance_source((3, 3));
    assert_eq!(s.history_sizes(), vec![(2, 2), (1, 1)]);
    s.advance_source((4, 4));
    assert_eq!(s.history_sizes(), vec![(3, 3), (2, 2)]);
    assert_eq!(s.source_size(), Some((4, 4)));
    s.set_source((5, 5));
    assert_eq!(s.history_sizes(), Vec::<(u32, u32)>::new());

    let mut off = RenderState::new();
    off.set_chain(1, 0).unwrap();
    off.set_source((1, 1));
    off.advance_source((2, 2));
    assert_eq!(off.history_sizes(), Vec::<(u32, u32)>::new());
}

#[test]
fn installing_a_chain_resets_history() {
    let mut s = RenderState::new();
    s.set_chain(1, 3).unwrap();
    s.set_source((1, 1));
    s.advance_source((2, 2));
    assert_eq!(s.history_sizes(), vec![(1, 1)]);
    s.set_chain(2, 3).unwrap();
    assert_eq!(s.history_sizes(), Vec::<(u32, u32)>::new());
}

#[test]
fn pass_sizes_are_causal_and_cold_history_reports_the_source() {
    let outputs = vec![(200, 100), (400, 200), (800, 600)];
    let history = vec![(10, 10)];
    let b = builtin_sizes(1, &outputs, &history, 3, (100, 50), (800, 600));
    assert_eq!(b.source, (200, 100));
    assert_eq!(b.original, (100, 50));
    assert_eq!(b.output, (400, 200));
    assert_eq!(b.final_viewport, (800, 600));
    assert_eq!(b.pass_outputs, vec![(200, 100)]);
    assert_eq!(b.pass_feedbacks, outputs);
    assert_eq!(b.original_history, vec![(10, 10), (100, 50), (100, 50)]);

    let first = builtin_sizes(0, &outputs, &history, 0, (100, 50), (800, 600));
    assert_eq!(first.source, (100, 50));
    assert_eq!(first.pass_outputs, Vec::<(u32, u32)>::new());
    assert_eq!(first.original_history, Vec::<(u32, u32)>::new());
}

#[test]
fn output_size_is_the_fbo_or_the_viewport() {
    let fbo = FboDesc { size: (64, 32), format: FboFormat::Rgba8Unorm, mip_levels: 1 };
    let owned = PassFrameState {
        owns_fbo: true,
        has_scale: false,
        produces_mips: false,
        is_feedback_target: false,
        target_format: FboFormat::Rgba8Unorm,
        fbo: Some(fbo),
        feedback_fbo: None,
    };
    let direct = PassFrameState { owns_fbo: false, fbo: None, ..owned };
    assert_eq!(output_sizes(&vec![owned, direct], (640, 480)), vec![(64, 32), (640, 480)]);
}

#[test]
fn alias_size_is_visible_only_after_the_aliased_pass() {
    let aliases = vec![None, Some("blur".to_string()), None];
    let outputs = vec![(10, 10), (20, 20), (30, 30)];
    let name = "blur".to_string();
    assert_eq!(alias_size(&aliases, &name, 2, &outputs), Some((20, 20)));
    assert_eq!(alias_size(&aliases, &name, 1, &outputs), None);
    assert_eq!(alias_size(&aliases, &name, 0, &outputs), None);
    assert_eq!(alias_feedback_size(&aliases, &name, &outputs), Some((20, 20)));
    let other = "sharp".to_string();
    assert_eq!(alias_size(&aliases, &other, 2, &outputs), None);
    assert_eq!(alias_feedback_size(&aliases, &other, &outputs), None);
}

#[test]
fn frame_count_mod_wraps_the_visible_counter_exactly() {
    let seen: Vec<u32> = (0..10u32).map(|i| visible_frame_count(i, 4)).collect();
    assert_eq!(seen, vec![0, 1, 2, 3, 0, 1, 2, 3, 0, 1]);
    assert_eq!(visible_frame_count(10, 0), 10);
}

#[test]
fn lut_size_reads_the_last_lut_of_that_name() {
    let names = vec!["noise".to_string(), "mask".to_string(), "noise".to_string()];
    let sizes = vec![(16, 16), (4, 2), (64, 64)];
    assert_eq!(lut_size(&names, &sizes, &"noise".to_string()), Some((64, 64)));
    assert_eq!(lut_size(&names, &sizes, &"mask".to_string()), Some((4, 2)));
    assert_eq!(lut_size(&names, &sizes, &"grain".to_string()), None);
}
