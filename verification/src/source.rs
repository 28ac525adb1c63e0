//! CPU source frames: the decoded [`Frame`] type and the built-in procedural
//! test patterns that produce one without touching the filesystem.

use vstd::prelude::*;
use crate::text::{chars_of, count_trailing_digits, parse_decimal, decimal_value, trailing_digit_count, lemma_trailing_all_digits};
use crate::raster::{raster, raster_prefix, lemma_raster_step, lemma_row_end, lemma_raster_len, lemma_raster_pixel,
    lemma_row_major_index};

verus! {

/// This component's identity marker.
pub const NAME: &'static str = "source";


/// A decoded source frame: tightly packed RGBA8, `rgba.len() == width*height*4`.
#[derive(Debug, Clone, PartialEq, Eq)]
pub struct Frame {
    /// Width in pixels.
    pub width: u32,
    /// Height in pixels.
    pub height: u32,
    /// Row-major RGBA8 pixels (4 bytes/pixel, no padding).
    pub rgba: Vec<u8>,
}

impl View for Frame {
    type V = (u32, u32, Seq<u8>);

    open spec fn view(&self) -> (u32, u32, Seq<u8>) {
        (self.width, self.height, self.rgba@)
    }
}

/// A frame's buffer holds exactly four bytes per pixel.
pub open spec fn frame_wf(f: (u32, u32, Seq<u8>)) -> bool {
    f.2.len() == f.0 * f.1 * 4
}

impl Frame {
    /// Construct a frame; the buffer must hold exactly `width * height * 4` bytes.
    pub fn new(width: u32, height: u32, rgba: Vec<u8>) -> (f: Frame)
        requires
            rgba@.len() == width * height * 4,
        ensures
            f@ == (width, height, rgba@),
            frame_wf(f@),
    {
        Frame { width, height, rgba }
    }
}

/// Dimensions for which a generated pattern's arithmetic stays in range and its
/// buffer is addressable: the `x * 255` / `y * 255` ramps fit a `u32` and the
/// byte count fits a `usize`.
pub open spec fn pattern_dims_ok(width: u32, height: u32) -> bool {
    &&& (width as int - 1) * 255 <= u32::MAX
    &&& (height as int - 1) * 255 <= u32::MAX
    &&& width * height * 4 <= usize::MAX
}

/// `max(v, 1)`.
pub open spec fn at_least_one(v: u32) -> u32 {
    if v == 0 { 1 } else { v }
}

/// The checkerboard's cell edge: an eighth of the smaller side, at least 1.
pub open spec fn checker_cell(width: u32, height: u32) -> nat {
    let m = if width <= height { width } else { height };
    if m / 8 == 0 { 1 } else { (m / 8) as nat }
}

/// One checkerboard pixel: a position-tinted bright cell or a dark cell.
pub open spec fn checker_pixel(width: u32, height: u32, x: nat, y: nat) -> Seq<u8> {
    let cell = checker_cell(width, height);
    if ((x / cell) + (y / cell)) % 2 == 0 {
        seq![(x * 255 / (width as nat)) as u8, (y * 255 / (height as nat)) as u8, 32u8, 255u8]
    } else {
        seq![16u8, 16u8, 16u8, 255u8]
    }
}

/// The checkerboard pixel function at a given size.
pub open spec fn checker_fn(width: u32, height: u32) -> spec_fn(nat, nat) -> Seq<u8> {
    |x: nat, y: nat| checker_pixel(width, height, x, y)
}

/// The checkerboard raster of the given (already clamped) size.
pub open spec fn checker_raster(width: u32, height: u32) -> Seq<u8> {
    raster(width as nat, height as nat, checker_fn(width, height))
}

/// The seven SMPTE-style bar colors, left to right: white (75%), yellow, cyan,
/// green, magenta, red, blue.
pub open spec fn smpte_color(bar: nat) -> Seq<u8> {
    if bar == 0 {
        seq![192u8, 192u8, 192u8, 255u8]
    } else if bar == 1 {
        seq![192u8, 192u8, 0u8, 255u8]
    } else if bar == 2 {
        seq![0u8, 192u8, 192u8, 255u8]
    } else if bar == 3 {
        seq![0u8, 192u8, 0u8, 255u8]
    } else if bar == 4 {
        seq![192u8, 0u8, 192u8, 255u8]
    } else if bar == 5 {
        seq![192u8, 0u8, 0u8, 255u8]
    } else {
        seq![0u8, 0u8, 192u8, 255u8]
    }
}

/// Which of the seven bars column `x` falls in.
pub open spec fn smpte_bar(width: u32, x: nat) -> nat {
    let b = x * 7 / (width as nat);
    if b < 6 { b } else { 6 }
}

/// One SMPTE-bars pixel.
pub open spec fn smpte_pixel(width: u32, x: nat) -> Seq<u8> {
    smpte_color(smpte_bar(width, x))
}

/// One gradient pixel: red ramps with `x`, green with `y`, blue fixed at 128.
pub open spec fn gradient_pixel(width: u32, height: u32, x: nat, y: nat) -> Seq<u8> {
    seq![(x * 255 / (width as nat)) as u8, (y * 255 / (height as nat)) as u8, 128u8, 255u8]
}

/// The number of frames in the motion-sweep cycle.
pub const MOTION_SWEEP_FRAMES: usize = 60;

/// The sweep bar's width: an eighth of the frame width, at least 1.
pub open spec fn sweep_bar_width(width: u32) -> nat {
    if width / 8 == 0 { 1 } else { (width / 8) as nat }
}

/// The sweep bar's left edge at `phase` of the cycle.
pub open spec fn sweep_left(width: u32, phase: nat) -> nat {
    (phase * (width as nat) / 60) % (width as nat)
}

/// `x - s` wrapped into `u32` range.
pub open spec fn wrapped_distance(x: nat, s: nat) -> nat {
    if x >= s { (x - s) as nat } else { (x + 0x1_0000_0000 - s) as nat }
}

/// One motion-sweep pixel: white inside the bar (which wraps at the right
/// edge), dark blue-gray elsewhere.
pub open spec fn sweep_pixel(width: u32, phase: nat, x: nat) -> Seq<u8> {
    if wrapped_distance(x, sweep_left(width, phase)) % (width as nat) < sweep_bar_width(width) {
        seq![255u8, 255u8, 255u8, 255u8]
    } else {
        seq![16u8, 16u8, 24u8, 255u8]
    }
}

/// The pixel generators behind the procedural patterns.
#[derive(Clone, Copy)]
enum Shade {
    Checker,
    Bars,
    Ramp,
    Sweep(u32),
}

spec fn shade_pixel(shade: Shade, width: u32, height: u32, x: nat, y: nat) -> Seq<u8> {
    match shade {
        Shade::Checker => checker_pixel(width, height, x, y),
        Shade::Bars => smpte_pixel(width, x),
        Shade::Ramp => gradient_pixel(width, height, x, y),
        Shade::Sweep(phase) => sweep_pixel(width, phase as nat, x),
    }
}

spec fn shade_fn(shade: Shade, width: u32, height: u32) -> spec_fn(nat, nat) -> Seq<u8> {
    |x: nat, y: nat| shade_pixel(shade, width, height, x, y)
}

/// Append the four bytes of pixel `(x, y)` of `shade`.
fn push_shade_pixel(rgba: &mut Vec<u8>, shade: Shade, width: u32, height: u32, x: u32, y: u32, cell: u32)
    requires
        x < width,
        y < height,
        pattern_dims_ok(width, height),
        cell == checker_cell(width, height),
        shade matches Shade::Sweep(p) ==> p < 60,
    ensures
        final(rgba)@ == old(rgba)@ + shade_pixel(shade, width, height, x as nat, y as nat),
{
    let ghost before = rgba@;
    match shade {
        Shade::Checker => {
            if ((x / cell) + (y / cell)) % 2 == 0 {
                assert((x as int) * 255 / (width as int) < 256) by (nonlinear_arith)
                    requires x < width;
                assert((y as int) * 255 / (height as int) < 256) by (nonlinear_arith)
                    requires y < height;
                rgba.push((x * 255 / width) as u8);
                rgba.push((y * 255 / height) as u8);
                rgba.push(32);
                rgba.push(255);
            } else {
                rgba.push(16);
                rgba.push(16);
                rgba.push(16);
                rgba.push(255);
            }
        },
        Shade::Bars => {
            let b = (x as usize) * 7 / (width as usize);
            let bar = if b < 6 { b } else { 6 };
            let (r, g, bl): (u8, u8, u8) = if bar == 0 {
                (192, 192, 192)
            } else if bar == 1 {
                (192, 192, 0)
            } else if bar == 2 {
                (0, 192, 192)
            } else if bar == 3 {
                (0, 192, 0)
            } else if bar == 4 {
                (192, 0, 192)
            } else if bar == 5 {
                (192, 0, 0)
            } else {
                (0, 0, 192)
            };
            rgba.push(r);
            rgba.push(g);
            rgba.push(bl);
            rgba.push(255);
        },
        Shade::Ramp => {
            assert((x as int) * 255 / (width as int) < 256) by (nonlinear_arith)
                requires x < width;
            assert((y as int) * 255 / (height as int) < 256) by (nonlinear_arith)
                requires y < height;
            rgba.push((x * 255 / width) as u8);
            rgba.push((y * 255 / height) as u8);
            rgba.push(128);
            rgba.push(255);
        },
        Shade::Sweep(phase) => {
            let bar_w = if width / 8 == 0 { 1 } else { width / 8 };
            assert((phase as int) * (width as int) <= 59 * (width as int)) by (nonlinear_arith)
                requires phase < 60;
            let sweep_x = (phase * width / 60) % width;
            let within = x.wrapping_sub(sweep_x) % width < bar_w;
            if within {
                rgba.push(255);
                rgba.push(255);
                rgba.push(255);
                rgba.push(255);
            } else {
                rgba.push(16);
                rgba.push(16);
                rgba.push(24);
                rgba.push(255);
            }
        },
    }
    assert(rgba@ =~= before + shade_pixel(shade, width, height, x as nat, y as nat));
}

/// Render a whole `width × height` raster of `shade`.
fn render_shade(shade: Shade, width: u32, height: u32) -> (f: Frame)
    requires
        0 < width,
        0 < height,
        pattern_dims_ok(width, height),
        shade matches Shade::Sweep(p) ==> p < 60,
    ensures
        f.width == width,
        f.height == height,
        f.rgba@ == raster(width as nat, height as nat, shade_fn(shade, width, height)),
        frame_wf(f@),
{
    let m = if width <= height { width } else { height };
    let cell = if m / 8 == 0 { 1 } else { m / 8 };
    let ghost pixel = shade_fn(shade, width, height);
    let mut rgba: Vec<u8> = Vec::new();
    let mut y: u32 = 0;
    while y < height
        invariant
            0 < width,
            0 < height,
            y <= height,
            pattern_dims_ok(width, height),
            cell == checker_cell(width, height),
            shade matches Shade::Sweep(p) ==> p < 60,
            pixel == shade_fn(shade, width, height),
            rgba@ == raster_prefix(width as nat, (y * width) as nat, pixel),
        decreases height - y,
    {
        let mut x: u32 = 0;
        while x < width
            invariant
                0 < width,
                0 < height,
                y < height,
                x <= width,
                pattern_dims_ok(width, height),
                cell == checker_cell(width, height),
                shade matches Shade::Sweep(p) ==> p < 60,
                pixel == shade_fn(shade, width, height),
                rgba@ == raster_prefix(width as nat, (y * width + x) as nat, pixel),
            decreases width - x,
        {
            push_shade_pixel(&mut rgba, shade, width, height, x, y, cell);
            proof {
                lemma_raster_step(width as nat, x as nat, y as nat, pixel);
            }
            x = x + 1;
        }
        proof {
            lemma_row_end(width as nat, y as nat);
        }
        y = y + 1;
    }
    proof {
        vstd::arithmetic::mul::lemma_mul_is_commutative(width as int, height as int);
        lemma_raster_len(width as nat, (width * height) as nat, pixel);
    }
    Frame { width, height, rgba }
}


/// A built-in checkerboard test pattern: bright position-tinted cells alternate
/// with dark ones, each cell an eighth of the smaller side. A zero dimension is
/// treated as 1.
pub fn test_pattern(width: u32, height: u32) -> (f: Frame)
    requires
        pattern_dims_ok(at_least_one(width), at_least_one(height)),
    ensures
        f.width == at_least_one(width),
        f.height == at_least_one(height),
        f.rgba@ == checker_raster(f.width, f.height),
        frame_wf(f@),
{
    let width = if width == 0 { 1 } else { width };
    let height = if height == 0 { 1 } else { height };
    let f = render_shade(Shade::Checker, width, height);
    assert(shade_fn(Shade::Checker, width, height) =~= checker_fn(width, height));
    f
}

/// The SMPTE-bars raster.
pub open spec fn smpte_raster(width: u32, height: u32) -> Seq<u8> {
    raster(width as nat, height as nat, |x: nat, y: nat| smpte_pixel(width, x))
}

/// The gradient raster.
pub open spec fn gradient_raster(width: u32, height: u32) -> Seq<u8> {
    raster(width as nat, height as nat, |x: nat, y: nat| gradient_pixel(width, height, x, y))
}

/// The motion-sweep raster at `phase` of its cycle.
pub open spec fn sweep_raster(width: u32, height: u32, phase: nat) -> Seq<u8> {
    raster(width as nat, height as nat, |x: nat, y: nat| sweep_pixel(width, phase, x))
}

/// Classic SMPTE-style vertical color bars: seven equal columns across the width.
fn smpte_bars(width: u32, height: u32) -> (f: Frame)
    requires
        0 < width,
        0 < height,
        pattern_dims_ok(width, height),
    ensures
        f@ == (width, height, smpte_raster(width, height)),
        frame_wf(f@),
{
    let f = render_shade(Shade::Bars, width, height);
    assert(shade_fn(Shade::Bars, width, height) =~= (|x: nat, y: nat| smpte_pixel(width, x)));
    f
}

/// A two-axis RGB gradient: red ramps left to right, green top to bottom.
fn gradient(width: u32, height: u32) -> (f: Frame)
    requires
        0 < width,
        0 < height,
        pattern_dims_ok(width, height),
    ensures
        f@ == (width, height, gradient_raster(width, height)),
        frame_wf(f@),
{
    let f = render_shade(Shade::Ramp, width, height);
    assert(shade_fn(Shade::Ramp, width, height) =~= (|x: nat, y: nat| gradient_pixel(width, height, x, y)));
    f
}

/// A vertical white bar over a dark field, its left edge at `phase / 60` of the width.
fn motion_sweep(width: u32, height: u32, phase: usize) -> (f: Frame)
    requires
        0 < width,
        0 < height,
        phase < 60,
        pattern_dims_ok(width, height),
    ensures
        f@ == (width, height, sweep_raster(width, height, phase as nat)),
        frame_wf(f@),
{
    let p = phase as u32;
    let f = render_shade(Shade::Sweep(p), width, height);
    assert(shade_fn(Shade::Sweep(p), width, height) =~= (|x: nat, y: nat| sweep_pixel(width, phase as nat, x)));
    f
}

/// The built-in procedural test patterns. The static ones are a single frame;
/// [`TestPattern::MotionSweep`] is animated with a [`MOTION_SWEEP_FRAMES`] cycle.
#[derive(Debug, Clone, Copy, PartialEq, Eq, Structural)]
pub enum TestPattern {
    /// SMPTE-style vertical color bars (static).
    SmpteBars,
    /// A high-contrast checkerboard (static), as [`test_pattern`].
    Checkerboard,
    /// A two-axis RGB gradient (static).
    Gradient,
    /// A vertical bar sweeping across the frame (animated).
    MotionSweep,
}

/// The cycle length of a pattern.
pub open spec fn pattern_len(p: TestPattern) -> nat {
    match p {
        TestPattern::MotionSweep => MOTION_SWEEP_FRAMES as nat,
        _ => 1,
    }
}

/// Frame `index` of pattern `p` at the (already clamped) size.
pub open spec fn pattern_frame(p: TestPattern, width: u32, height: u32, index: nat) -> (u32, u32, Seq<u8>) {
    (width, height, match p {
        TestPattern::SmpteBars => smpte_raster(width, height),
        TestPattern::Checkerboard => checker_raster(width, height),
        TestPattern::Gradient => gradient_raster(width, height),
        TestPattern::MotionSweep => sweep_raster(width, height, index % (MOTION_SWEEP_FRAMES as nat)),
    })
}

/// The four bytes of pixel `(x, y)` in a row-major RGBA8 raster of `width`
/// columns.
pub open spec fn rgba_at(bytes: Seq<u8>, width: u32, x: nat, y: nat) -> Seq<u8> {
    bytes.subrange(4 * (y * width + x) as int, 4 * (y * width + x) as int + 4)
}

/// The SMPTE bar colors at 75% level, left to right: white, yellow, cyan,
/// green, magenta, red, blue.
pub open spec fn smpte_palette() -> Seq<Seq<u8>> {
    seq![
        seq![192u8, 192u8, 192u8, 255u8],
        seq![192u8, 192u8, 0u8, 255u8],
        seq![0u8, 192u8, 192u8, 255u8],
        seq![0u8, 192u8, 0u8, 255u8],
        seq![192u8, 0u8, 192u8, 255u8],
        seq![192u8, 0u8, 0u8, 255u8],
        seq![0u8, 0u8, 192u8, 255u8],
    ]
}

proof fn lemma_bar_index(width: nat, x: nat)
    requires
        7 <= width,
        x < width,
    ensures
        7 * x / width < 7,
{
    assert(7 * x / width < 7) by (nonlinear_arith)
        requires 7 <= width, x < width;
}

proof fn lemma_bar_start(width: nat, b: nat)
    requires
        7 <= width,
        b < 7,
    ensures
        (b * width + 6) / 7 < width,
        7 * ((b * width + 6) / 7) / width == b,
{
    let c = (b * width + 6) / 7;
    assert(c < width && 7 * c / width == b) by (nonlinear_arith)
        requires 7 <= width, b < 7, c == (b * width + 6) / 7;
}

/// The SMPTE bars are seven equal columns: in a frame at least seven pixels
/// wide, every pixel of column `x` (in any row) has the color of bar
/// `⌊7x / width⌋` of [`smpte_palette`] (white, yellow, cyan, green, magenta,
/// red, blue); so the last column is blue and each of the seven colors fills
/// some column.
pub proof fn lemma_smpte_seven_equal_bars(width: u32, height: u32, x: nat, y: nat)
    requires
        7 <= width,
        x < width,
        y < height,
    ensures
        rgba_at(pattern_frame(TestPattern::SmpteBars, width, height, 0).2, width, x, y)
            == smpte_palette()[(7 * x / (width as nat)) as int],
        rgba_at(pattern_frame(TestPattern::SmpteBars, width, height, 0).2, width, (width - 1) as nat, y)
            == seq![0u8, 0u8, 192u8, 255u8],
        forall|b: nat| #![trigger smpte_palette()[b as int]] b < 7 ==> exists|c: nat| c < width
            && #[trigger] rgba_at(pattern_frame(TestPattern::SmpteBars, width, height, 0).2, width, c, y) == smpte_palette()[b as int],
{
    let w = width as nat;
    let f = |xx: nat, yy: nat| smpte_pixel(width, xx);
    let bytes = pattern_frame(TestPattern::SmpteBars, width, height, 0).2;
    assert(bytes == raster_prefix(w, w * height as nat, f));
    assert forall|xx: nat, yy: nat| #[trigger] f(xx, yy).len() == 4 by {
        assert(smpte_color(smpte_bar(width, xx)).len() == 4);
    }
    assert forall|c: nat, b: nat| c < w && b < 7 && 7 * c / w == b implies
        #[trigger] rgba_at(bytes, width, c, y) == #[trigger] smpte_palette()[b as int] by {
        assert(y * w + c < w * height as nat) by (nonlinear_arith)
            requires c < w, y < height as nat;
        lemma_raster_pixel(w, w * height as nat, f, y * w + c);
        lemma_row_major_index(w, c, y);
        assert(smpte_bar(width, c) == b);
        assert(smpte_palette()[b as int] == smpte_color(b));
    }
    lemma_bar_index(w, x);
    lemma_bar_index(w, (w - 1) as nat);
    assert(7 * ((w - 1) as nat) / w == 6) by (nonlinear_arith)
        requires 7 <= w;
    assert(smpte_palette()[6] == seq![0u8, 0u8, 192u8, 255u8]);
    assert(rgba_at(bytes, width, (w - 1) as nat, y) == smpte_palette()[6]);
    assert forall|b: nat| #![trigger smpte_palette()[b as int]] b < 7 implies exists|c: nat| c < width
        && #[trigger] rgba_at(bytes, width, c, y) == smpte_palette()[b as int] by {
        lemma_bar_start(w, b);
        let c = (b * w + 6) / 7;
        assert(rgba_at(bytes, width, c, y) == smpte_palette()[b as int]);
        assert(c < width && rgba_at(pattern_frame(TestPattern::SmpteBars, width, height, 0).2, width, c, y) == smpte_palette()[b as int]);
    }
}

impl TestPattern {
    /// The number of distinct frames in this pattern's cycle: 1 for the static
    /// patterns, [`MOTION_SWEEP_FRAMES`] for the sweep.
    pub fn len(&self) -> (n: usize)
        ensures
            n == pattern_len(*self),
    {
        match self {
            TestPattern::MotionSweep => MOTION_SWEEP_FRAMES,
            _ => 1,
        }
    }

    /// Render frame `index` of this pattern at `width × height` (each clamped to
    /// at least 1). `index` is taken modulo the cycle; static patterns ignore it.
    pub fn render(&self, width: u32, height: u32, index: usize) -> (f: Frame)
        requires
            pattern_dims_ok(at_least_one(width), at_least_one(height)),
        ensures
            f@ == pattern_frame(*self, at_least_one(width), at_least_one(height), index as nat),
            frame_wf(f@),
    {
        let width = if width == 0 { 1 } else { width };
        let height = if height == 0 { 1 } else { height };
        match self {
            TestPattern::SmpteBars => smpte_bars(width, height),
            TestPattern::Checkerboard => test_pattern(width, height),
            TestPattern::Gradient => gradient(width, height),
            TestPattern::MotionSweep => motion_sweep(width, height, index % MOTION_SWEEP_FRAMES),
        }
    }
}

/// A producer of source frames: a current frame plus looping
/// `advance`/`seek`. Every pump has at least one frame.
pub trait FramePump {
    /// The number of frames the pump cycles through.
    spec fn frame_count(&self) -> nat;

    /// The current frame index.
    spec fn frame_index(&self) -> nat;

    /// Frame `i` of the cycle.
    spec fn frame_at(&self, i: nat) -> (u32, u32, Seq<u8>);

    /// The pump's internal invariant.
    spec fn pump_wf(&self) -> bool;

    /// The frame currently presented.
    fn current(&self) -> (f: &Frame)
        requires
            self.pump_wf(),
        ensures
            f@ == self.frame_at(self.frame_index()),
    ;

    /// Step to the next frame, looping back to 0 at the end.
    fn advance(&mut self)
        requires
            old(self).pump_wf(),
        ensures
            final(self).pump_wf(),
            final(self).frame_count() == old(self).frame_count(),
            final(self).frame_index() == (old(self).frame_index() + 1) % old(self).frame_count(),
            forall|i: nat| #[trigger] final(self).frame_at(i) == old(self).frame_at(i),
    ;

    /// Jump to frame `index % len()`.
    fn seek(&mut self, index: usize)
        requires
            old(self).pump_wf(),
        ensures
            final(self).pump_wf(),
            final(self).frame_count() == old(self).frame_count(),
            final(self).frame_index() == index as nat % old(self).frame_count(),
            forall|i: nat| #[trigger] final(self).frame_at(i) == old(self).frame_at(i),
    ;

    /// The current frame index, in `0..len()`.
    fn position(&self) -> (p: usize)
        requires
            self.pump_wf(),
        ensures
            p == self.frame_index(),
            p < self.frame_count(),
    ;

    /// The number of frames (at least 1).
    fn len(&self) -> (n: usize)
        requires
            self.pump_wf(),
        ensures
            n == self.frame_count(),
            n >= 1,
    ;
}

/// A single still image presented forever: one frame, `advance`/`seek` do
/// nothing.
pub struct StillImage(Frame);

impl StillImage {
    /// Wrap a decoded frame as a one-frame pump.
    pub fn new(frame: Frame) -> (s: StillImage)
        ensures
            s.pump_wf(),
            s.frame_count() == 1,
            s.frame_index() == 0,
            s.frame_at(0) == frame@,
    {
        StillImage(frame)
    }
}

impl FramePump for StillImage {
    open spec fn frame_count(&self) -> nat {
        1
    }

    open spec fn frame_index(&self) -> nat {
        0
    }

    closed spec fn frame_at(&self, i: nat) -> (u32, u32, Seq<u8>) {
        self.0@
    }

    open spec fn pump_wf(&self) -> bool {
        true
    }

    fn current(&self) -> (f: &Frame) {
        &self.0
    }

    fn advance(&mut self) {
    }

    fn seek(&mut self, index: usize) {
    }

    fn position(&self) -> (p: usize) {
        0
    }

    fn len(&self) -> (n: usize) {
        1
    }
}

/// A pump rendering a [`TestPattern`] at a fixed size. Static patterns are one
/// frame; the sweep cycles through its frames, re-rendering on each position
/// change.
pub struct TestPatternPump {
    pattern: TestPattern,
    width: u32,
    height: u32,
    position: usize,
    len: usize,
    current: Frame,
}

impl TestPatternPump {
    /// The pattern this pump renders.
    pub closed spec fn spec_pattern(&self) -> TestPattern {
        self.pattern
    }

    /// The (clamped) size this pump renders at.
    pub closed spec fn spec_size(&self) -> (u32, u32) {
        (self.width, self.height)
    }

    /// Build a pump for `pattern` at `width × height` (each clamped to at least
    /// 1), positioned at frame 0.
    pub fn new(pattern: TestPattern, width: u32, height: u32) -> (p: TestPatternPump)
        requires
            pattern_dims_ok(at_least_one(width), at_least_one(height)),
        ensures
            p.pump_wf(),
            p.spec_pattern() == pattern,
            p.spec_size() == (at_least_one(width), at_least_one(height)),
            p.frame_count() == pattern_len(pattern),
            p.frame_index() == 0,
            forall|i: nat| #[trigger] p.frame_at(i) == pattern_frame(pattern, at_least_one(width), at_least_one(height), i),
    {
        let width = if width == 0 { 1 } else { width };
        let height = if height == 0 { 1 } else { height };
        let len = pattern.len();
        let current = pattern.render(width, height, 0);
        TestPatternPump { pattern, width, height, position: 0, len, current }
    }

    /// Re-render the current phase after a position change.
    fn refresh(&mut self)
        requires
            0 < old(self).width,
            0 < old(self).height,
            pattern_dims_ok(old(self).width, old(self).height),
        ensures
            final(self).current@ == pattern_frame(old(self).pattern, old(self).width, old(self).height, old(self).position as nat),
            final(self).pattern == old(self).pattern,
            final(self).width == old(self).width,
            final(self).height == old(self).height,
            final(self).position == old(self).position,
            final(self).len == old(self).len,
    {
        self.current = self.pattern.render(self.width, self.height, self.position);
    }
}

impl FramePump for TestPatternPump {
    closed spec fn frame_count(&self) -> nat {
        self.len as nat
    }

    closed spec fn frame_index(&self) -> nat {
        self.position as nat
    }

    closed spec fn frame_at(&self, i: nat) -> (u32, u32, Seq<u8>) {
        pattern_frame(self.pattern, self.width, self.height, i)
    }

    closed spec fn pump_wf(&self) -> bool {
        &&& 0 < self.width
        &&& 0 < self.height
        &&& pattern_dims_ok(self.width, self.height)
        &&& self.len as nat == pattern_len(self.pattern)
        &&& self.position < self.len
        &&& self.current@ == pattern_frame(self.pattern, self.width, self.height, self.position as nat)
    }

    fn current(&self) -> (f: &Frame) {
        &self.current
    }

    fn advance(&mut self)
        ensures
            final(self).spec_pattern() == old(self).spec_pattern(),
            final(self).spec_size() == old(self).spec_size(),
    {
        if self.len <= 1 {
            return;
        }
        self.position = (self.position + 1) % self.len;
        self.refresh();
    }

    fn seek(&mut self, index: usize)
        ensures
            final(self).spec_pattern() == old(self).spec_pattern(),
            final(self).spec_size() == old(self).spec_size(),
    {
        if self.len <= 1 {
            return;
        }
        let pos = index % self.len;
        if pos != self.position {
            self.position = pos;
            self.refresh();
        }
    }

    fn position(&self) -> (p: usize) {
        self.position
    }

    fn len(&self) -> (n: usize) {
        self.len
    }
}

/// A numbered image-sequence player over already-decoded frames: `advance`
/// steps modulo the frame count (looping); `seek` jumps to `index % len`.
pub struct PngSequencePump {
    frames: Vec<Frame>,
    position: usize,
}

impl PngSequencePump {
    /// The frames, in sequence order.
    pub closed spec fn spec_frames(&self) -> Seq<Frame> {
        self.frames@
    }

    /// Build a sequence pump from decoded frames; `frames` must be non-empty.
    pub fn from_frames(frames: Vec<Frame>) -> (p: PngSequencePump)
        requires
            frames@.len() >= 1,
        ensures
            p.pump_wf(),
            p.spec_frames() == frames@,
            p.frame_count() == frames@.len(),
            p.frame_index() == 0,
            forall|i: nat| i < frames@.len() ==> #[trigger] p.frame_at(i) == frames@[i as int]@,
    {
        PngSequencePump { frames, position: 0 }
    }

    /// Consume the pump, yielding its frames in sequence order.
    pub fn into_frames(self) -> (v: Vec<Frame>)
        ensures
            v@ == self.spec_frames(),
    {
        self.frames
    }
}

impl FramePump for PngSequencePump {
    closed spec fn frame_count(&self) -> nat {
        self.frames@.len()
    }

    closed spec fn frame_index(&self) -> nat {
        self.position as nat
    }

    closed spec fn frame_at(&self, i: nat) -> (u32, u32, Seq<u8>) {
        self.frames@[i as int]@
    }

    closed spec fn pump_wf(&self) -> bool {
        &&& self.frames@.len() >= 1
        &&& self.position < self.frames@.len()
    }

    fn current(&self) -> (f: &Frame) {
        &self.frames[self.position]
    }

    fn advance(&mut self)
        ensures
            final(self).spec_frames() == old(self).spec_frames(),
    {
        let n = self.frames.len();
        self.position = (self.position + 1) % n;
    }

    fn seek(&mut self, index: usize)
        ensures
            final(self).spec_frames() == old(self).spec_frames(),
    {
        self.position = index % self.frames.len();
    }

    fn position(&self) -> (p: usize) {
        self.position
    }

    fn len(&self) -> (n: usize) {
        self.frames.len()
    }
}

/// A navigation call on a [`FramePump`].
#[derive(Debug, Clone, Copy, PartialEq, Eq, Structural)]
pub enum PumpOp {
    /// [`FramePump::advance`].
    Advance,
    /// [`FramePump::seek`] with this index.
    Seek(usize),
}

/// The frame index reached from `start` by `ops` in a cycle of `count` frames.
pub open spec fn index_after(start: nat, count: nat, ops: Seq<PumpOp>) -> nat
    decreases ops.len(),
{
    if ops.len() == 0 {
        start
    } else {
        let prev = index_after(start, count, ops.drop_last());
        match ops.last() {
            PumpOp::Advance => (prev + 1) % count,
            PumpOp::Seek(k) => k as nat % count,
        }
    }
}

/// `after` is what `op` leaves of `before`, as the [`FramePump`] contracts of
/// `advance` and `seek` state it.
pub open spec fn pump_step<P: FramePump>(before: P, after: P, op: PumpOp) -> bool {
    &&& after.pump_wf()
    &&& after.frame_count() == before.frame_count()
    &&& forall|i: nat| #[trigger] after.frame_at(i) == before.frame_at(i)
    &&& after.frame_index() == match op {
        PumpOp::Advance => (before.frame_index() + 1) % before.frame_count(),
        PumpOp::Seek(k) => k as nat % before.frame_count(),
    }
}

/// `states` is a run of navigation calls `ops` on a well-formed pump: each
/// state is what the call leaves of the one before.
pub open spec fn pump_run<P: FramePump>(states: Seq<P>, ops: Seq<PumpOp>) -> bool {
    &&& states.len() == ops.len() + 1
    &&& states[0].pump_wf()
    &&& forall|i: int| 0 <= i < ops.len() ==> #[trigger] pump_step(states[i], states[i + 1], ops[i])
}

/// Navigation never changes a pump's frames or their number: after any run of
/// `advance`/`seek` calls the pump is well formed, has the frames it started
/// with, and stands at the index the calls lead to (the last seek's index
/// modulo the frame count, then one further per later advance, looping).
pub proof fn lemma_navigation_keeps_frames<P: FramePump>(states: Seq<P>, ops: Seq<PumpOp>)
    requires
        pump_run(states, ops),
    ensures
        states.last().pump_wf(),
        states.last().frame_count() == states[0].frame_count(),
        forall|i: nat| #[trigger] states.last().frame_at(i) == states[0].frame_at(i),
        states.last().frame_index() == index_after(states[0].frame_index(), states[0].frame_count(), ops),
    decreases ops.len(),
{
    if ops.len() > 0 {
        let n = ops.len() - 1;
        let pre = states.take(n + 1);
        assert(ops.drop_last() =~= ops.take(n));
        assert forall|i: int| 0 <= i < ops.drop_last().len() implies #[trigger] pump_step(pre[i], pre[i + 1], ops.drop_last()[i]) by {
            assert(pump_step(states[i], states[i + 1], ops[i]));
        }
        lemma_navigation_keeps_frames(pre, ops.drop_last());
        assert(pump_step(states[n], states[n + 1], ops[n]));
        assert(states.last() == states[n + 1]);
        assert(pre.last() == states[n]);
    }
}

/// A seek lands on its index modulo the cycle, whatever came before it.
pub proof fn lemma_seek_lands_modulo(start: nat, count: nat, ops: Seq<PumpOp>, k: usize)
    ensures
        index_after(start, count, ops.push(PumpOp::Seek(k))) == k as nat % count,
{
    assert(ops.push(PumpOp::Seek(k)).drop_last() =~= ops);
}

/// One navigation call of a sequence pump: everything its `advance` and
/// `seek` ensure, the [`FramePump`] step and the frames kept.
pub open spec fn sequence_step(before: PngSequencePump, after: PngSequencePump, op: PumpOp) -> bool {
    pump_step(before, after, op) && after.spec_frames() == before.spec_frames()
}

/// `states` is a run of navigation calls `ops` on a sequence pump.
pub open spec fn sequence_run(states: Seq<PngSequencePump>, ops: Seq<PumpOp>) -> bool {
    &&& states.len() == ops.len() + 1
    &&& states[0].pump_wf()
    &&& forall|i: int| 0 <= i < ops.len() ==> #[trigger] sequence_step(states[i], states[i + 1], ops[i])
}

/// A run of a sequence pump keeps exactly the frames it was built from, in
/// order: what [`PngSequencePump::into_frames`] returns after any navigation is
/// what [`PngSequencePump::from_frames`] was given, and the pump stands at the
/// index the calls lead to.
pub proof fn lemma_sequence_run_keeps_frames(states: Seq<PngSequencePump>, ops: Seq<PumpOp>)
    requires
        sequence_run(states, ops),
    ensures
        states.last().spec_frames() == states[0].spec_frames(),
        states.last().pump_wf(),
        states.last().frame_index() == index_after(states[0].frame_index(), states[0].frame_count(), ops),
    decreases ops.len(),
{
    assert forall|i: int| 0 <= i < ops.len() implies #[trigger] pump_step(states[i], states[i + 1], ops[i]) by {
        assert(sequence_step(states[i], states[i + 1], ops[i]));
    }
    lemma_navigation_keeps_frames(states, ops);
    if ops.len() > 0 {
        let n = ops.len() - 1;
        let pre = states.take(n + 1);
        assert(ops.drop_last() =~= ops.take(n));
        assert forall|i: int| 0 <= i < ops.drop_last().len() implies #[trigger] sequence_step(pre[i], pre[i + 1], ops.drop_last()[i]) by {
            assert(sequence_step(states[i], states[i + 1], ops[i]));
        }
        lemma_sequence_run_keeps_frames(pre, ops.drop_last());
        assert(sequence_step(states[n], states[n + 1], ops[n]));
        assert(states.last() == states[n + 1]);
        assert(pre.last() == states[n]);
    }
}

/// A sequence pump's frames, as images, after any run of `advance`/`seek`
/// calls are the ones it started with: navigation alone, as the pump
/// contracts state it, cannot change what the pump shows.
pub proof fn lemma_sequence_run_shows_same_frames(states: Seq<PngSequencePump>, ops: Seq<PumpOp>)
    requires
        pump_run(states, ops),
    ensures
        states.last().spec_frames().map_values(|f: Frame| f@) == states[0].spec_frames().map_values(|f: Frame| f@),
{
    lemma_navigation_keeps_frames(states, ops);
    let a = states.last().spec_frames().map_values(|f: Frame| f@);
    let b = states[0].spec_frames().map_values(|f: Frame| f@);
    assert forall|i: int| 0 <= i < a.len() implies a[i] == b[i] by {
        assert(states.last().frame_at(i as nat) == states[0].frame_at(i as nat));
    }
    assert(a =~= b);
}

/// One navigation call of a test-pattern pump: everything its `advance` and
/// `seek` ensure, the [`FramePump`] step and the pattern and size kept.
pub open spec fn pattern_step(before: TestPatternPump, after: TestPatternPump, op: PumpOp) -> bool {
    &&& pump_step(before, after, op)
    &&& after.spec_pattern() == before.spec_pattern()
    &&& after.spec_size() == before.spec_size()
}

/// `states` is a run of navigation calls `ops` on a test-pattern pump.
pub open spec fn pattern_run(states: Seq<TestPatternPump>, ops: Seq<PumpOp>) -> bool {
    &&& states.len() == ops.len() + 1
    &&& states[0].pump_wf()
    &&& forall|i: int| 0 <= i < ops.len() ==> #[trigger] pattern_step(states[i], states[i + 1], ops[i])
}

proof fn lemma_pattern_run_keeps(states: Seq<TestPatternPump>, ops: Seq<PumpOp>)
    requires
        pattern_run(states, ops),
    ensures
        states.last().spec_pattern() == states[0].spec_pattern(),
        states.last().spec_size() == states[0].spec_size(),
    decreases ops.len(),
{
    if ops.len() > 0 {
        let n = ops.len() - 1;
        let pre = states.take(n + 1);
        assert(ops.drop_last() =~= ops.take(n));
        assert forall|i: int| 0 <= i < ops.drop_last().len() implies #[trigger] pattern_step(pre[i], pre[i + 1], ops.drop_last()[i]) by {
            assert(pattern_step(states[i], states[i + 1], ops[i]));
        }
        lemma_pattern_run_keeps(pre, ops.drop_last());
        assert(pattern_step(states[n], states[n + 1], ops[n]));
        assert(states.last() == states[n + 1]);
        assert(pre.last() == states[n]);
    }
}

/// A test-pattern pump built by [`TestPatternPump::new`] for `pattern` at
/// `width × height`, after any run of `advance`/`seek` calls, still renders
/// that pattern at the clamped size and cycles through its frames, stands at
/// the index the calls lead to from 0 (a seek's index modulo the pattern's
/// length, then one further per later advance), and presents frame
/// [`pattern_frame`] of that index, which is what [`TestPattern::render`]
/// gives for it.
pub proof fn lemma_pattern_pump_run(pattern: TestPattern, width: u32, height: u32, states: Seq<TestPatternPump>, ops: Seq<PumpOp>)
    requires
        pattern_run(states, ops),
        states[0].spec_pattern() == pattern,
        states[0].spec_size() == (at_least_one(width), at_least_one(height)),
        states[0].frame_count() == pattern_len(pattern),
        states[0].frame_index() == 0,
        forall|i: nat| #[trigger] states[0].frame_at(i) == pattern_frame(pattern, at_least_one(width), at_least_one(height), i),
    ensures
        states.last().spec_pattern() == pattern,
        states.last().spec_size() == (at_least_one(width), at_least_one(height)),
        states.last().frame_count() == pattern_len(pattern),
        states.last().frame_index() == index_after(0, pattern_len(pattern), ops),
        states.last().frame_index() < pattern_len(pattern),
        states.last().frame_at(states.last().frame_index())
            == pattern_frame(pattern, at_least_one(width), at_least_one(height), states.last().frame_index()),
{
    assert forall|i: int| 0 <= i < ops.len() implies #[trigger] pump_step(states[i], states[i + 1], ops[i]) by {
        assert(pattern_step(states[i], states[i + 1], ops[i]));
    }
    lemma_navigation_keeps_frames(states, ops);
    lemma_pattern_run_keeps(states, ops);
    let last = states.last();
    assert(last.frame_at(last.frame_index()) == states[0].frame_at(last.frame_index()));
}

/// The static patterns are one frame whatever the index; the sweep repeats
/// every [`MOTION_SWEEP_FRAMES`] frames.
pub proof fn lemma_pattern_frame_periodic(pattern: TestPattern, width: u32, height: u32, i: nat, j: nat)
    ensures
        pattern == TestPattern::MotionSweep ==> pattern_frame(pattern, width, height, i)
            == pattern_frame(pattern, width, height, i % (MOTION_SWEEP_FRAMES as nat)),
        pattern == TestPattern::MotionSweep ==> pattern_frame(pattern, width, height, i)
            == pattern_frame(pattern, width, height, i + MOTION_SWEEP_FRAMES as nat),
        pattern != TestPattern::MotionSweep ==> pattern_frame(pattern, width, height, i)
            == pattern_frame(pattern, width, height, j),
{
    vstd::arithmetic::div_mod::lemma_mod_twice(i as int, 60);
    vstd::arithmetic::div_mod::lemma_mod_add_multiples_vanish(i as int, 60);
}

/// The saturated value of the trailing digit run of `s`, or `None` if `s` does
/// not end in a digit.
pub open spec fn trailing_number_spec(s: Seq<char>) -> Option<u64> {
    let k = trailing_digit_count(s);
    if k == 0 {
        None
    } else {
        let v = decimal_value(s.subrange(s.len() - k, s.len() as int));
        Some(if v <= u64::MAX { v as u64 } else { u64::MAX })
    }
}

/// The trailing number of `chars` (see [`trailing_number_spec`]).
pub(crate) fn trailing_number_of(chars: &Vec<char>) -> (r: Option<u64>)
    ensures
        r == trailing_number_spec(chars@),
{
    let n = chars.len();
    let k = count_trailing_digits(chars, n);
    assert(chars@.take(n as int) =~= chars@);
    if k == 0 {
        return None;
    }
    proof { lemma_trailing_all_digits(chars@); }
    match parse_decimal(chars, n - k, n, u64::MAX) {
        Some(v) => Some(v),
        None => Some(u64::MAX),
    }
}

/// Parse the trailing run of ASCII digits of a file stem (`frame_0007` → 7,
/// `0010` → 10), or `None` when it ends in a non-digit. Saturates at
/// `u64::MAX` on overflow.
pub fn trailing_number(stem: &str) -> (r: Option<u64>)
    ensures
        r == trailing_number_spec(stem@),
{
    let chars = chars_of(stem);
    trailing_number_of(&chars)
}

/// The frame index after `k` advances from frame `i` of a `count`-frame cycle.
pub open spec fn advanced(i: nat, count: nat, k: nat) -> nat
    decreases k,
{
    if k == 0 { i } else { (advanced(i, count, (k - 1) as nat) + 1) % count }
}

/// Advancing a pump `k` times moves it `k` frames on, modulo its length; in
/// particular, `len` advances bring it back to where it was.
pub proof fn lemma_advance_cycle(i: nat, count: nat, k: nat)
    requires
        i < count,
    ensures
        advanced(i, count, k) == (i + k) % count,
        advanced(i, count, count) == i,
{
    lemma_advance_cycle_mod(i, count, k);
    lemma_advance_cycle_full(i, count);
}

proof fn lemma_advance_cycle_full(i: nat, count: nat)
    requires
        i < count,
    ensures
        advanced(i, count, count) == i,
{
    lemma_advance_cycle_mod(i, count, count);
    vstd::arithmetic::div_mod::lemma_mod_add_multiples_vanish(i as int, count as int);
    vstd::arithmetic::div_mod::lemma_small_mod(i, count);
}

proof fn lemma_advance_cycle_mod(i: nat, count: nat, k: nat)
    requires
        i < count,
    ensures
        advanced(i, count, k) == (i + k) % count,
    decreases k,
{
    if k > 0 {
        lemma_advance_cycle_mod(i, count, (k - 1) as nat);
        vstd::arithmetic::div_mod::lemma_add_mod_noop((i + k - 1) as int, 1, count as int);
        if count > 1 {
            assert(1int % (count as int) == 1) by (nonlinear_arith)
                requires count > 1;
        } else {
            assert(((i + k - 1) as int % 1 + 1) % 1 == 0 && (i + k) as int % 1 == 0);
        }
    } else {
        vstd::arithmetic::div_mod::lemma_small_mod(i, count);
    }
}

} // verus!
