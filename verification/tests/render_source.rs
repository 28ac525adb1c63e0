use slang_preview::frame::FRAME_HEADER_LEN;
use slang_preview::render_source::{
    build_pump, EngineEvent, EngineStatus, PositionUpdate, PumpController, RenderOutcome, SourceAction, SourceSpec,
    WAITING_RGBA,
};
use slang_preview::source::{test_pattern, Frame, FramePump, TestPattern, MOTION_SWEEP_FRAMES};

fn frames(n: u8) -> Vec<Frame> {
    (0..n).map(|i| Frame::new(1, 1, vec![i, 0, 0, 255])).collect()
}

#[test]
fn a_new_pump_is_primed_on_the_first_render_then_held_while_paused() {
    let mut c = PumpController::new();
    assert!(!c.ready());
    c.install(SourceSpec::PngSequence(frames(3)));
    c.set_have_shader();
    assert!(c.ready());
    let s = c.pace();
    assert_eq!(s.action, SourceAction::SetSource);
    assert_eq!(s.position, Some(PositionUpdate { index: 0, len: 3 }));
    // Paused: nothing happens on later renders.
    let s = c.pace();
    assert_eq!(s.action, SourceAction::Nothing);
    assert_eq!(s.position, None);
    assert_eq!(c.current_frame().unwrap().rgba[0], 0);
}

#[test]
fn playing_advances_once_per_period_and_loops() {
    let mut c = PumpController::new();
    c.install(SourceSpec::PngSequence(frames(3)));
    assert_eq!(c.pace().action, SourceAction::SetSource);
    c.set_advance_period(2);
    c.play();
    let mut seen = Vec::new();
    for _ in 0..8 {
        let s = c.pace();
        if s.action == SourceAction::AdvanceSource {
            seen.push(s.position.unwrap().index);
        }
    }
    // Every second tick advances: 1, 2, 0 (looped), 1.
    assert_eq!(seen, vec![1, 2, 0, 1]);
    c.pause();
    assert_eq!(c.pace().action, SourceAction::Nothing);
}

#[test]
fn step_advances_one_frame_even_when_paused() {
    let mut c = PumpController::new();
    c.install(SourceSpec::PngSequence(frames(2)));
    // Before priming, a step primes instead of advancing.
    let s = c.step();
    assert_eq!(s.action, SourceAction::SetSource);
    assert_eq!(s.position, Some(PositionUpdate { index: 0, len: 2 }));
    let s = c.step();
    assert_eq!(s.action, SourceAction::AdvanceSource);
    assert_eq!(s.position, Some(PositionUpdate { index: 1, len: 2 }));
    assert_eq!(c.current_frame().unwrap().rgba[0], 1);
}

#[test]
fn seek_jumps_modulo_len_and_resets_feedback() {
    let mut c = PumpController::new();
    c.install(SourceSpec::PngSequence(frames(4)));
    let s = c.seek(6);
    assert_eq!(s.action, SourceAction::Reseek);
    assert_eq!(s.position, Some(PositionUpdate { index: 2, len: 4 }));
    // Seeking to the same position reports nothing new.
    assert_eq!(c.seek(2).position, None);
    assert_eq!(c.current_frame().unwrap().rgba[0], 2);
}

#[test]
fn one_frame_pumps_only_prime() {
    let mut c = PumpController::new();
    c.install(SourceSpec::StillImage(Frame::new(1, 1, vec![9, 9, 9, 255])));
    c.play();
    assert_eq!(c.step().action, SourceAction::SetSource);
    assert_eq!(c.step().action, SourceAction::Nothing);
    assert_eq!(c.pace().action, SourceAction::Nothing);
}

#[test]
fn without_a_pump_nothing_happens() {
    let mut c = PumpController::new();
    assert_eq!(c.pace().action, SourceAction::Nothing);
    assert_eq!(c.step().action, SourceAction::Nothing);
    assert_eq!(c.seek(3).action, SourceAction::Nothing);
    assert!(c.current_frame().is_none());
}

#[test]
fn status_reports_only_transitions() {
    let mut c = PumpController::new();
    assert_eq!(c.report_status(EngineStatus::LastGood), Some(EngineStatus::LastGood));
    assert_eq!(c.report_status(EngineStatus::LastGood), None);
    assert_eq!(c.report_status(EngineStatus::Live), Some(EngineStatus::Live));
    assert_eq!(c.report_status(EngineStatus::Live), None);
}

#[test]
fn built_pumps_start_at_frame_zero() {
    let p = build_pump(SourceSpec::TestPattern { pattern: TestPattern::MotionSweep, width: 0, height: 4 });
    assert_eq!(p.len(), MOTION_SWEEP_FRAMES);
    assert_eq!(p.position(), 0);
    assert_eq!(p.current().width, 1, "size clamped to at least 1");
}

#[test]
fn reinstalling_resets_the_reported_position() {
    let mut c = PumpController::new();
    c.install(SourceSpec::PngSequence(frames(2)));
    assert_eq!(c.pace().position, Some(PositionUpdate { index: 0, len: 2 }));
    c.install(SourceSpec::PngSequence(frames(2)));
    // The same position is reported again for the new pump.
    assert_eq!(c.pace().position, Some(PositionUpdate { index: 0, len: 2 }));
}

/// Three 1x1 frames whose red channel is 10, 20, 30.
fn rgb_sequence() -> Vec<Frame> {
    [10u8, 20, 30].iter().map(|&r| Frame::new(1, 1, vec![r, 0, 0, 255])).collect()
}

fn red(c: &PumpController) -> u8 {
    c.current_frame().unwrap().rgba[0]
}

#[test]
fn pump_play_advances_through_the_sequence_and_pause_holds() {
    let mut c = PumpController::new();
    c.set_have_shader();
    c.install(SourceSpec::PngSequence(rgb_sequence()));
    // One advance per render tick.
    c.set_advance_period(1);
    c.play();
    c.pace();
    assert_eq!(red(&c), 10, "primed at frame 0");
    c.pace();
    assert_eq!(red(&c), 20, "advanced to frame 1");
    c.pace();
    assert_eq!(red(&c), 30, "advanced to frame 2");
    c.pace();
    assert_eq!(red(&c), 10, "looped to frame 0");
    c.pause();
    c.pace();
    let held = red(&c);
    c.pace();
    assert_eq!(red(&c), held, "paused frame holds");
    c.pace();
    assert_eq!(red(&c), held, "still held");
}

#[test]
fn pump_step_advances_one_frame_even_when_paused() {
    let mut c = PumpController::new();
    c.set_have_shader();
    c.install(SourceSpec::PngSequence(rgb_sequence()));
    c.pace();
    assert_eq!(red(&c), 10, "paused, primed at 0");
    c.pace();
    assert_eq!(red(&c), 10, "paused: no advance");
    c.step();
    c.pace();
    assert_eq!(red(&c), 20, "step advanced one frame");
    c.pace();
    assert_eq!(red(&c), 20, "still paused after step");
    c.step();
    c.pace();
    assert_eq!(red(&c), 30, "second step");
}

#[test]
fn pump_seek_jumps_position_and_streams_that_frame() {
    let mut c = PumpController::new();
    c.set_have_shader();
    c.install(SourceSpec::PngSequence(rgb_sequence()));
    c.pace();
    assert_eq!(red(&c), 10, "primed at 0");
    c.seek(2);
    c.pace();
    assert_eq!(red(&c), 30, "seek jumped to frame 2");
    c.seek(4);
    c.pace();
    assert_eq!(red(&c), 20, "seek wraps modulo len");
}

#[test]
fn position_updates_are_reported_on_advance_step_and_seek() {
    let mut c = PumpController::new();
    c.set_have_shader();
    c.install(SourceSpec::PngSequence(rgb_sequence()));
    c.set_advance_period(1);
    c.play();
    let mut reported = Vec::new();
    for _ in 0..4 {
        if let Some(u) = c.pace().position {
            reported.push(u.index);
        }
    }
    assert_eq!(reported, vec![0, 1, 2, 0], "play advances should each emit a position update");
    c.pause();
    let s = c.seek(2);
    assert_eq!(s.position, Some(PositionUpdate { index: 2, len: 3 }), "seek must report position 2 of len 3");
}

#[test]
fn engine_status_reports_last_good_before_ready_then_live() {
    let mut c = PumpController::new();
    let mut events = Vec::new();
    let mut render = |c: &mut PumpController| {
        let status = if c.ready() { EngineStatus::Live } else { EngineStatus::LastGood };
        if let Some(e) = c.report_status(status) {
            events.push(e);
        }
    };
    render(&mut c);
    render(&mut c);
    c.set_have_shader();
    c.install(SourceSpec::StillImage(test_pattern(8, 8)));
    render(&mut c);
    render(&mut c);
    assert_eq!(events, vec![EngineStatus::LastGood, EngineStatus::Live]);
}

#[test]
fn motion_sweep_pattern_pump_animates_when_played() {
    let mut c = PumpController::new();
    c.set_have_shader();
    c.install(SourceSpec::TestPattern { pattern: TestPattern::MotionSweep, width: 32, height: 8 });
    c.set_advance_period(1);
    c.play();
    c.pace();
    let frame_a = c.current_frame().unwrap().rgba.clone();
    for _ in 1..6 {
        c.pace();
    }
    let frame_b = c.current_frame().unwrap().rgba.clone();
    assert_ne!(frame_a, frame_b, "the motion-sweep pattern must animate");
}

fn frame_dims(buf: &[u8]) -> (u32, u32) {
    let w = u32::from_le_bytes([buf[8], buf[9], buf[10], buf[11]]);
    let h = u32::from_le_bytes([buf[12], buf[13], buf[14], buf[15]]);
    (w, h)
}

fn pixels(buf: &[u8]) -> &[u8] {
    &buf[FRAME_HEADER_LEN..]
}

#[test]
fn emits_waiting_frame_before_ready() {
    // No source/shader loaded: a valid, pane-sized, solid waiting frame.
    let mut c = PumpController::new();
    let mut buf = Vec::new();
    c.emit_frame(RenderOutcome::NotReady, 8, 6, 0, &mut buf);

    assert_eq!(frame_dims(&buf), (8, 6));
    assert_eq!(buf.len(), FRAME_HEADER_LEN + 8 * 6 * 4);
    let px = pixels(&buf);
    assert!(
        px.chunks_exact(4).all(|p| p == WAITING_RGBA.as_slice()),
        "every pixel should be the waiting color until ready"
    );
}

#[test]
fn a_rendered_frame_streams_as_is_and_reports_live_once() {
    let mut c = PumpController::new();
    let mut buf = vec![9, 9, 9];
    let frame = Frame::new(2, 1, vec![1, 2, 3, 4, 5, 6, 7, 8]);
    let events = c.emit_frame(RenderOutcome::Rendered(frame.clone()), 8, 6, 7, &mut buf);
    assert_eq!(events, vec![EngineEvent::Status(EngineStatus::Live)]);
    assert_eq!(frame_dims(&buf), (2, 1));
    assert_eq!(u64::from_le_bytes(buf[16..24].try_into().unwrap()), 7);
    assert_eq!(pixels(&buf), &[1, 2, 3, 4, 5, 6, 7, 8][..]);
    let again = c.emit_frame(RenderOutcome::Rendered(frame), 8, 6, 8, &mut buf);
    assert_eq!(again, Vec::<EngineEvent>::new());
}

#[test]
fn a_failed_render_reports_its_error_and_holds_the_last_good_frame() {
    let mut c = PumpController::new();
    let mut buf = Vec::new();
    let failed = RenderOutcome::Failed { code: "readback".to_string(), message: "lost".to_string() };
    let events = c.emit_frame(failed.clone(), 4, 2, 1, &mut buf);
    assert_eq!(
        events,
        vec![
            EngineEvent::Error { code: "readback".to_string(), message: "lost".to_string() },
            EngineEvent::Status(EngineStatus::LastGood),
        ]
    );
    assert_eq!(frame_dims(&buf), (4, 2));
    assert!(pixels(&buf).chunks_exact(4).all(|p| p == WAITING_RGBA.as_slice()));
    let again = c.emit_frame(failed, 4, 2, 2, &mut buf);
    assert_eq!(again, vec![EngineEvent::Error { code: "readback".to_string(), message: "lost".to_string() }]);
    assert_eq!(buf.len(), FRAME_HEADER_LEN + 4 * 2 * 4);
}
