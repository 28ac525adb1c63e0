use slang_preview::frame_plan::{apply_plan, plan_pass, source_mips, ChainFrame, FboDesc, PassFrameState, PassPlan};
use slang_preview::pass::FboFormat;

fn pass(owns_fbo: bool, has_scale: bool, feedback: bool) -> PassFrameState {
    PassFrameState {
        owns_fbo,
        has_scale,
        produces_mips: false,
        is_feedback_target: feedback,
        target_format: FboFormat::Rgba8Unorm,
        fbo: None,
        feedback_fbo: None,
    }
}

fn desc(w: u32, h: u32) -> FboDesc {
    FboDesc { size: (w, h), format: FboFormat::Rgba8Unorm, mip_levels: 1 }
}

#[test]
fn intermediate_pass_allocates_at_its_scale_then_keeps_it() {
    let mut p = pass(true, false, false);
    let plan = plan_pass(&p, false, false, (640, 480), (800, 600), (320, 240));
    assert_eq!(
        plan,
        PassPlan { target: Some(desc(320, 240)), reallocate: true, reallocate_twin: false, swap: false, next_input: (320, 240) }
    );
    apply_plan(&mut p, &plan);
    assert_eq!(p.fbo, Some(desc(320, 240)));
    assert_eq!(p.feedback_fbo, None);

    let again = plan_pass(&p, false, false, (640, 480), (800, 600), (320, 240));
    assert!(!again.reallocate);
    assert_eq!(again.target, Some(desc(320, 240)));
}

#[test]
fn size_or_format_change_reallocates() {
    let mut p = pass(true, false, false);
    p.fbo = Some(desc(320, 240));
    let bigger = plan_pass(&p, false, false, (640, 480), (800, 600), (321, 240));
    assert!(bigger.reallocate);
    assert_eq!(bigger.target, Some(desc(321, 240)));

    p.target_format = FboFormat::Rgba16Float;
    let reformatted = plan_pass(&p, false, false, (640, 480), (800, 600), (320, 240));
    assert!(reformatted.reallocate);
    assert_eq!(
        reformatted.target,
        Some(FboDesc { size: (320, 240), format: FboFormat::Rgba16Float, mip_levels: 1 })
    );
}

#[test]
fn mip_producing_pass_gets_a_full_chain() {
    let mut p = pass(true, false, false);
    p.produces_mips = true;
    let plan = plan_pass(&p, false, false, (640, 480), (800, 600), (640, 480));
    assert_eq!(plan.target.map(|d| d.mip_levels), Some(10));
}

#[test]
fn unscaled_final_pass_draws_to_the_pane_and_drops_its_fbo() {
    let mut p = pass(false, false, false);
    p.fbo = Some(desc(64, 64));
    let plan = plan_pass(&p, true, false, (640, 480), (800, 600), (100, 100));
    assert_eq!(
        plan,
        PassPlan { target: None, reallocate: false, reallocate_twin: false, swap: false, next_input: (800, 600) }
    );
    apply_plan(&mut p, &plan);
    assert_eq!(p.fbo, None);
}

#[test]
fn simulated_viewport_gives_the_final_pass_a_viewport_sized_fbo() {
    let p = pass(false, false, false);
    let plan = plan_pass(&p, true, true, (640, 480), (800, 600), (100, 100));
    assert_eq!(plan.target, Some(desc(640, 480)));
    assert!(plan.reallocate);
    assert_eq!(plan.next_input, (640, 480));

    // An explicitly scaled final pass keeps its scale resolution.
    let scaled = pass(true, true, false);
    let plan = plan_pass(&scaled, true, true, (640, 480), (800, 600), (100, 100));
    assert_eq!(plan.target, Some(desc(100, 100)));
}

#[test]
fn feedback_target_clears_a_fresh_twin_then_ping_pongs() {
    let mut p = pass(true, false, true);
    let first = plan_pass(&p, false, false, (640, 480), (800, 600), (64, 32));
    assert!(first.reallocate && first.reallocate_twin && first.swap);
    apply_plan(&mut p, &first);
    assert_eq!(p.fbo, Some(desc(64, 32)));
    assert_eq!(p.feedback_fbo, Some(desc(64, 32)));

    let second = plan_pass(&p, false, false, (640, 480), (800, 600), (64, 32));
    assert!(!second.reallocate && !second.reallocate_twin && second.swap);

    // Losing the twin (a feedback reset) reallocates and clears it again.
    p.feedback_fbo = None;
    let reset = plan_pass(&p, false, false, (640, 480), (800, 600), (64, 32));
    assert!(!reset.reallocate && reset.reallocate_twin);
}

#[test]
fn chain_walk_threads_each_output_into_the_next_input() {
    let mut passes = vec![pass(true, false, false), pass(true, true, false), pass(false, false, false)];
    let mut frame = ChainFrame::start((100, 50), (640, 480), (800, 600), false, passes.len());
    assert_eq!(frame.input_size(), (100, 50));

    let p0 = frame.plan_next(&mut passes[0], (100, 50));
    assert_eq!(p0.target, Some(desc(100, 50)));
    assert_eq!(frame.input_size(), (100, 50));

    let p1 = frame.plan_next(&mut passes[1], (200, 100));
    assert_eq!(p1.target, Some(desc(200, 100)));
    assert_eq!(frame.input_size(), (200, 100));
    assert!(!frame.is_done());

    let p2 = frame.plan_next(&mut passes[2], (200, 100));
    assert_eq!(p2.target, None);
    assert_eq!(frame.input_size(), (800, 600));
    assert!(frame.is_done());
    assert_eq!(passes[1].fbo, Some(desc(200, 100)));
}

#[test]
fn source_gets_a_mip_chain_only_when_pass_zero_reads_mips() {
    assert_eq!(source_mips(true, (640, 480), Some(1)), (10, true));
    assert_eq!(source_mips(true, (640, 480), Some(10)), (10, false));
    assert_eq!(source_mips(false, (640, 480), Some(10)), (1, true));
    assert_eq!(source_mips(false, (640, 480), None), (1, true));
}
