use slang_preview::source::{
    test_pattern, trailing_number, Frame, FramePump, PngSequencePump, StillImage, TestPattern,
    TestPatternPump, MOTION_SWEEP_FRAMES,
};

#[test]
fn test_pattern_is_valid_rgba() {
    let frame = test_pattern(64, 48);
    assert_eq!(frame.width, 64);
    assert_eq!(frame.height, 48);
    assert_eq!(frame.rgba.len(), 64 * 48 * 4);
}

#[test]
fn still_image_is_one_frame_and_ignores_advance_seek() {
    let frame = Frame::new(2, 2, vec![1, 2, 3, 4, 5, 6, 7, 8, 9, 10, 11, 12, 13, 14, 15, 16]);
    let mut pump = StillImage::new(frame.clone());
    assert_eq!(pump.len(), 1);
    assert_eq!(pump.position(), 0);
    assert_eq!(pump.current(), &frame);
    pump.advance();
    pump.seek(7);
    assert_eq!(pump.position(), 0, "still image never moves");
    assert_eq!(pump.current(), &frame);
}

#[test]
fn static_patterns_are_valid_rgba_and_single_frame() {
    for pattern in [TestPattern::SmpteBars, TestPattern::Checkerboard, TestPattern::Gradient] {
        let mut pump = TestPatternPump::new(pattern, 64, 48);
        assert_eq!(pump.len(), 1, "{pattern:?} is static");
        let frame = pump.current();
        assert_eq!((frame.width, frame.height), (64, 48), "{pattern:?} size");
        assert_eq!(frame.rgba.len(), 64 * 48 * 4, "{pattern:?} RGBA length");
        let before = frame.clone();
        pump.advance();
        pump.seek(5);
        assert_eq!(pump.position(), 0);
        assert_eq!(pump.current(), &before, "{pattern:?} static across advance");
    }
}

#[test]
fn smpte_bars_have_multiple_distinct_columns() {
    let pump = TestPatternPump::new(TestPattern::SmpteBars, 70, 4);
    let f = pump.current();
    let left = &f.rgba[0..4];
    let right_x = (f.width - 1) as usize;
    let right = &f.rgba[right_x * 4..right_x * 4 + 4];
    assert_ne!(left, right, "SMPTE bars must vary across the width");
}

#[test]
fn motion_sweep_frames_differ_and_loop() {
    let mut pump = TestPatternPump::new(TestPattern::MotionSweep, 64, 16);
    assert_eq!(pump.len(), MOTION_SWEEP_FRAMES);
    let f0 = pump.current().clone();
    assert_eq!(f0.rgba.len(), 64 * 16 * 4);
    pump.advance();
    assert_eq!(pump.position(), 1);
    let f1 = pump.current().clone();
    assert_ne!(f0.rgba, f1.rgba, "MotionSweep frame 1 must differ from frame 0");
    for _ in 1..MOTION_SWEEP_FRAMES {
        pump.advance();
    }
    assert_eq!(pump.position(), 0, "MotionSweep loops after its cycle");
    assert_eq!(pump.current().rgba, f0.rgba, "looped frame matches frame 0");
}

#[test]
fn motion_sweep_seek_jumps_and_wraps() {
    let mut pump = TestPatternPump::new(TestPattern::MotionSweep, 64, 16);
    pump.seek(MOTION_SWEEP_FRAMES + 3);
    assert_eq!(pump.position(), 3);
    let at3 = pump.current().clone();
    pump.seek(3);
    assert_eq!(pump.current().rgba, at3.rgba, "seek is deterministic by index");
}

#[test]
fn png_sequence_from_decoded_frames() {
    let frames = vec![Frame::new(1, 1, vec![1, 0, 0, 255]), Frame::new(1, 1, vec![2, 0, 0, 255])];
    let mut pump = PngSequencePump::from_frames(frames);
    assert_eq!(pump.len(), 2);
    assert_eq!(pump.current().rgba[0], 1);
    pump.advance();
    assert_eq!(pump.current().rgba[0], 2);
    pump.advance();
    assert_eq!(pump.current().rgba[0], 1, "loops");
}

#[test]
fn trailing_number_parses_padded_and_unpadded() {
    assert_eq!(trailing_number("frame_0007"), Some(7));
    assert_eq!(trailing_number("0010"), Some(10));
    assert_eq!(trailing_number("frame_2"), Some(2));
    assert_eq!(trailing_number("noframe"), None);
    assert_eq!(trailing_number("img12_3"), Some(3));
}

#[test]
fn png_sequence_seek_wraps_and_into_frames_keeps_order() {
    let frames: Vec<Frame> = (0..3u8).map(|i| Frame::new(1, 1, vec![i, 0, 0, 255])).collect();
    let mut pump = PngSequencePump::from_frames(frames.clone());
    pump.seek(5);
    assert_eq!(pump.position(), 2);
    assert_eq!(pump.current().rgba[0], 2);
    assert_eq!(pump.into_frames(), frames);
}

#[test]
fn pattern_render_matches_the_free_functions() {
    assert_eq!(TestPattern::Checkerboard.render(10, 6, 0), test_pattern(10, 6));
    assert_eq!(TestPattern::Gradient.len(), 1);
    assert_eq!(TestPattern::MotionSweep.len(), MOTION_SWEEP_FRAMES);
    // Render index is taken modulo the cycle.
    assert_eq!(
        TestPattern::MotionSweep.render(8, 2, MOTION_SWEEP_FRAMES + 1),
        TestPattern::MotionSweep.render(8, 2, 1)
    );
}

#[test]
fn checkerboard_pixels_follow_the_cell_grid() {
    let f = test_pattern(16, 16);
    // Cell edge = min(16,16)/8 = 2; (0,0) is a checker cell, (2,0) is dark.
    assert_eq!(&f.rgba[0..4], &[0, 0, 32, 255]);
    let x2 = 2 * 4;
    assert_eq!(&f.rgba[x2..x2 + 4], &[16, 16, 16, 255]);
}

#[test]
fn trailing_number_of_huge_runs_saturates() {
    assert_eq!(trailing_number("f99999999999999999999999"), Some(u64::MAX));
    assert_eq!(trailing_number(""), None);
}

#[test]
fn navigation_never_alters_sequence_frames() {
    let frames: Vec<Frame> = (0..3u8).map(|i| Frame::new(1, 1, vec![i, i, i, 255])).collect();
    let mut pump = PngSequencePump::from_frames(frames.clone());
    pump.advance();
    pump.seek(7);
    pump.advance();
    pump.advance();
    pump.seek(2);
    assert_eq!(pump.position(), 2);
    assert_eq!(pump.current(), &frames[2]);
    assert_eq!(pump.into_frames(), frames);
}

#[test]
fn pattern_pump_position_follows_the_last_seek_and_renders_it() {
    let mut pump = TestPatternPump::new(TestPattern::MotionSweep, 32, 8);
    pump.advance();
    pump.advance();
    pump.seek(63);
    assert_eq!(pump.len(), MOTION_SWEEP_FRAMES);
    assert_eq!(pump.position(), 3);
    assert_eq!(pump.current(), &TestPattern::MotionSweep.render(32, 8, 3));
    pump.advance();
    assert_eq!(pump.position(), 4);
    assert_eq!(pump.current(), &TestPattern::MotionSweep.render(32, 8, 64));

    let mut bars = TestPatternPump::new(TestPattern::SmpteBars, 16, 4);
    bars.seek(63);
    bars.advance();
    assert_eq!(bars.position(), 0);
    assert_eq!(bars.current(), &TestPattern::SmpteBars.render(16, 4, 99));
}
