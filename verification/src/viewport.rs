//! The simulated viewport and its content-rectangle math: fitting a source
//! into an output resolution aspect-correct or at the largest integer
//! multiple, centered with black bars, and mapping preview-pane pixels back to
//! viewport pixels.

use vstd::prelude::*;

verus! {

/// The simulated viewport: the output resolution the final pass renders at,
/// plus the integer-scale toggle.
#[derive(Debug, Clone, Copy, PartialEq, Eq, Structural)]
pub struct ViewportConfig {
    /// Output resolution width in pixels.
    pub width: u32,
    /// Output resolution height in pixels.
    pub height: u32,
    /// Snap the content to the largest integer multiple of the source that fits;
    /// otherwise fit preserving the source aspect ratio.
    pub integer_scale: bool,
}

/// The content rectangle within the output: its size and the top-left offset
/// that centers it.
#[derive(Debug, Clone, Copy, PartialEq, Eq, Structural)]
pub struct ViewportRect {
    /// Content width in pixels.
    pub width: u32,
    /// Content height in pixels.
    pub height: u32,
    /// Left black-bar width.
    pub offset_x: u32,
    /// Top black-bar height.
    pub offset_y: u32,
}

/// `max(v, 1)`.
pub open spec fn one_or(v: u32) -> nat {
    if v == 0 { 1 } else { v as nat }
}

/// `a / b` rounded to the nearest integer, halves rounding up.
pub open spec fn round_div(a: nat, b: nat) -> nat
    recommends
        b > 0,
{
    (2 * a + b) / (2 * b)
}

/// `v` clamped into `[1, hi]`.
pub open spec fn clamp1(v: nat, hi: nat) -> nat {
    if v < 1 { 1 } else if v > hi { hi } else { v }
}

/// The unclamped content size: the largest integer multiple of the source
/// that fits (at least 1×), or the aspect-preserving fit scaled by the
/// tighter axis ratio `s = min(out_w / src_w, out_h / src_h)` and rounded.
pub open spec fn raw_content(out_w: nat, out_h: nat, src_w: nat, src_h: nat, integer_scale: bool) -> (nat, nat) {
    if integer_scale {
        let m = if out_w / src_w <= out_h / src_h { out_w / src_w } else { out_h / src_h };
        let n = if m < 1 { 1 } else { m };
        (src_w * n, src_h * n)
    } else if out_w * src_h <= out_h * src_w {
        (round_div(src_w * out_w, src_w), round_div(src_h * out_w, src_w))
    } else {
        (round_div(src_w * out_h, src_h), round_div(src_h * out_h, src_h))
    }
}

/// The content rectangle of `source` within `cfg` (zero dimensions read as 1).
pub open spec fn content_rect_spec(cfg: ViewportConfig, source: (u32, u32)) -> ViewportRect {
    let out_w = one_or(cfg.width);
    let out_h = one_or(cfg.height);
    let raw = raw_content(out_w, out_h, one_or(source.0), one_or(source.1), cfg.integer_scale);
    let w = clamp1(raw.0, out_w);
    let h = clamp1(raw.1, out_h);
    ViewportRect {
        width: w as u32,
        height: h as u32,
        offset_x: ((out_w - w) / 2) as u32,
        offset_y: ((out_h - h) / 2) as u32,
    }
}

/// `round_div` on machine integers.
fn round_div_u64(a: u64, b: u64) -> (r: u64)
    requires
        b > 0,
    ensures
        r == round_div(a as nat, b as nat),
{
    assert((2 * (a as int) + (b as int)) / (2 * (b as int)) <= a as int + 1) by (nonlinear_arith)
        requires b > 0, a >= 0;
    let q = (2 * a as u128 + b as u128) / (2 * b as u128);
    if q > u64::MAX as u128 {
        assert(false) by {
            assert((2 * (a as int) + (b as int)) / (2 * (b as int)) <= a as int) by (nonlinear_arith)
                requires b > 0, a >= 0;
        }
    }
    q as u64
}

impl ViewportConfig {
    /// Resolve the content rectangle for a `source` size: with integer scale the
    /// largest multiple `n = max(1, min(out_w / src_w, out_h / src_h))` of the
    /// source; otherwise the source scaled by `min(out_w / src_w, out_h / src_h)`
    /// and rounded. The content is clamped into the output (at least 1×1) and
    /// centered, each offset half the remainder rounded down. Zero dimensions are
    /// treated as 1.
    pub fn content_rect(&self, source: (u32, u32)) -> (r: ViewportRect)
        ensures
            r == content_rect_spec(*self, source),
            1 <= r.width,
            1 <= r.height,
            r.offset_x + r.width <= one_or(self.width),
            r.offset_y + r.height <= one_or(self.height),
            r.offset_x == (one_or(self.width) - r.width) / 2,
            r.offset_y == (one_or(self.height) - r.height) / 2,
    {
        let out_w = if self.width == 0 { 1u32 } else { self.width };
        let out_h = if self.height == 0 { 1u32 } else { self.height };
        let src_w = if source.0 == 0 { 1u32 } else { source.0 };
        let src_h = if source.1 == 0 { 1u32 } else { source.1 };
        let (cw, ch): (u64, u64) = if self.integer_scale {
            let a = out_w / src_w;
            let b = out_h / src_h;
            let m = if a <= b { a } else { b };
            let n = if m < 1 { 1 } else { m };
            assert((src_w as int) * (n as int) <= 0xffff_ffff * 0xffff_ffff) by (nonlinear_arith)
                requires src_w <= 0xffff_ffffu32, n <= 0xffff_ffffu32;
            assert((src_h as int) * (n as int) <= 0xffff_ffff * 0xffff_ffff) by (nonlinear_arith)
                requires src_h <= 0xffff_ffffu32, n <= 0xffff_ffffu32;
            (src_w as u64 * n as u64, src_h as u64 * n as u64)
        } else {
            assert((out_w as int) * (src_h as int) <= 0xffff_ffff * 0xffff_ffff) by (nonlinear_arith)
                requires out_w <= 0xffff_ffffu32, src_h <= 0xffff_ffffu32;
            assert((out_h as int) * (src_w as int) <= 0xffff_ffff * 0xffff_ffff) by (nonlinear_arith)
                requires out_h <= 0xffff_ffffu32, src_w <= 0xffff_ffffu32;
            assert((src_w as int) * (out_w as int) <= 0xffff_ffff * 0xffff_ffff) by (nonlinear_arith)
                requires out_w <= 0xffff_ffffu32, src_w <= 0xffff_ffffu32;
            assert((src_h as int) * (out_w as int) <= 0xffff_ffff * 0xffff_ffff) by (nonlinear_arith)
                requires out_w <= 0xffff_ffffu32, src_h <= 0xffff_ffffu32;
            assert((src_w as int) * (out_h as int) <= 0xffff_ffff * 0xffff_ffff) by (nonlinear_arith)
                requires out_h <= 0xffff_ffffu32, src_w <= 0xffff_ffffu32;
            assert((src_h as int) * (out_h as int) <= 0xffff_ffff * 0xffff_ffff) by (nonlinear_arith)
                requires out_h <= 0xffff_ffffu32, src_h <= 0xffff_ffffu32;
            if (out_w as u64) * (src_h as u64) <= (out_h as u64) * (src_w as u64) {
                (
                    round_div_u64(src_w as u64 * out_w as u64, src_w as u64),
                    round_div_u64(src_h as u64 * out_w as u64, src_w as u64),
                )
            } else {
                (
                    round_div_u64(src_w as u64 * out_h as u64, src_h as u64),
                    round_div_u64(src_h as u64 * out_h as u64, src_h as u64),
                )
            }
        };
        let content_w: u32 = if cw < 1 { 1 } else if cw > out_w as u64 { out_w } else { cw as u32 };
        let content_h: u32 = if ch < 1 { 1 } else if ch > out_h as u64 { out_h } else { ch as u32 };
        ViewportRect {
            width: content_w,
            height: content_h,
            offset_x: (out_w - content_w) / 2,
            offset_y: (out_h - content_h) / 2,
        }
    }
}

/// Where the content was composited in the preview pane and how big it is in
/// simulated-viewport pixels.
#[derive(Debug, Clone, Copy, PartialEq, Eq)]
pub struct PaneMapping {
    /// The content's rectangle in pane pixels `(x, y, width, height)`.
    pub pane_rect: (u32, u32, u32, u32),
    /// The content's size in simulated-viewport pixels `(width, height)`.
    pub content_size: (u32, u32),
}

/// One mapped pixel: whether the pane coordinate landed on the content, and the
/// viewport pixel it maps to (`(0, 0)` when outside).
#[derive(Debug, Clone, Copy, PartialEq, Eq, Structural)]
pub struct MappedPixel {
    /// `true` when the pane coordinate is inside the content rectangle.
    pub inside: bool,
    /// The viewport pixel X.
    pub x: u32,
    /// The viewport pixel Y.
    pub y: u32,
}

/// The viewport coordinate of the center of pane offset `d` within a span of
/// `span` pane pixels scaled onto `content` viewport pixels, clamped to the last
/// index: `min(floor((d + 0.5) / span * content), content - 1)`.
pub open spec fn map_axis(d: nat, span: nat, content: nat) -> nat {
    let v = ((2 * d + 1) * content) / (2 * span);
    if v < content { v } else { (content - 1) as nat }
}

/// The mapping of pane pixel `(px, py)`.
pub open spec fn map_pane_pixel_spec(m: PaneMapping, px: u32, py: u32) -> MappedPixel {
    let (rx, ry, rw, rh) = m.pane_rect;
    if rw == 0 || rh == 0 || px < rx || py < ry || px >= rx + rw || py >= ry + rh {
        MappedPixel { inside: false, x: 0, y: 0 }
    } else {
        MappedPixel {
            inside: true,
            x: map_axis((px - rx) as nat, rw as nat, one_or(m.content_size.0)) as u32,
            y: map_axis((py - ry) as nat, rh as nat, one_or(m.content_size.1)) as u32,
        }
    }
}

fn map_axis_exec(d: u32, span: u32, content: u32) -> (v: u32)
    requires
        d < span,
        content > 0,
    ensures
        v == map_axis(d as nat, span as nat, content as nat),
        v < content,
{
    assert(((2 * (d as int) + 1) * (content as int)) <= 0x1_ffff_ffff * 0xffff_ffff) by (nonlinear_arith)
        requires d < span, span <= 0xffff_ffffu32, content <= 0xffff_ffffu32;
    let num = (2 * d as u128 + 1) * content as u128;
    let v = num / (2 * span as u128);
    if v < content as u128 { v as u32 } else { content - 1 }
}

impl PaneMapping {
    /// Map a pane pixel to a simulated-viewport pixel. Outside the content
    /// rectangle (a letterbox bar) or for a zero-size rectangle it reports
    /// `inside == false` at `(0, 0)`. Inside, the pane pixel's center is
    /// normalized within the rectangle, scaled onto the content size, floored
    /// and clamped to the last valid index.
    pub fn map_pane_pixel(&self, px: u32, py: u32) -> (r: MappedPixel)
        ensures
            r == map_pane_pixel_spec(*self, px, py),
            r.inside ==> r.x < one_or(self.content_size.0) && r.y < one_or(self.content_size.1),
    {
        let (rx, ry, rw, rh) = self.pane_rect;
        if rw == 0 || rh == 0 || px < rx || py < ry || px as u64 >= rx as u64 + rw as u64
            || py as u64 >= ry as u64 + rh as u64 {
            return MappedPixel { inside: false, x: 0, y: 0 };
        }
        let cw = if self.content_size.0 == 0 { 1 } else { self.content_size.0 };
        let ch = if self.content_size.1 == 0 { 1 } else { self.content_size.1 };
        MappedPixel {
            inside: true,
            x: map_axis_exec(px - rx, rw, cw),
            y: map_axis_exec(py - ry, rh, ch),
        }
    }
}

/// The renderer's pane / simulated-viewport bookkeeping: the preview-pane
/// size (the read-back target), the optional simulated viewport, and the
/// current source size.
pub struct ViewportState {
    width: u32,
    height: u32,
    simulated: Option<ViewportConfig>,
    source_size: Option<(u32, u32)>,
}

/// The size viewport-relative sizing resolves against: the content rectangle
/// of the source (or the pane, before a source exists) under a simulated
/// viewport, else the pane.
pub open spec fn viewport_size_spec(pane: (u32, u32), simulated: Option<ViewportConfig>, source: Option<(u32, u32)>) -> (u32, u32) {
    match simulated {
        Some(cfg) => {
            let src = match source { Some(s) => s, None => pane };
            let r = content_rect_spec(cfg, src);
            (r.width, r.height)
        },
        None => pane,
    }
}

/// `max(v, 1)` for a pane extent.
pub open spec fn at_least_1(v: nat) -> nat {
    if v < 1 { 1 } else { v }
}

/// The pane rectangle the final content is composited into under a simulated
/// viewport: the content rectangle mapped from output space into the pane
/// (offset and size scaled by `pane / output` and rounded), clamped into the
/// pane and at least 1×1.
pub open spec fn composite_rect_spec(pane: (u32, u32), simulated: Option<ViewportConfig>, source: Option<(u32, u32)>) -> Option<(u32, u32, u32, u32)> {
    match simulated {
        Some(cfg) => {
            let src = match source { Some(s) => s, None => pane };
            let r = content_rect_spec(cfg, src);
            let ow = one_or(cfg.width);
            let oh = one_or(cfg.height);
            let x = round_div(r.offset_x as nat * pane.0 as nat, ow);
            let y = round_div(r.offset_y as nat * pane.1 as nat, oh);
            let rw = round_div(r.width as nat * pane.0 as nat, ow);
            let rh = round_div(r.height as nat * pane.1 as nat, oh);
            let room_w: nat = if x <= pane.0 { (pane.0 - x) as nat } else { 0 };
            let room_h: nat = if y <= pane.1 { (pane.1 - y) as nat } else { 0 };
            let w = if rw <= room_w { rw } else { room_w };
            let h = if rh <= room_h { rh } else { room_h };
            Some((x as u32, y as u32, at_least_1(w) as u32, at_least_1(h) as u32))
        },
        None => None,
    }
}

/// `round_div(a, b)` is the integer nearest `a / b`, halves rounding up.
proof fn lemma_round_div_nearest(a: nat, b: nat)
    requires
        b > 0,
    ensures
        (2 * round_div(a, b) - 1) * b <= 2 * a,
        2 * a < (2 * round_div(a, b) + 1) * b,
{
    let q = round_div(a, b);
    vstd::arithmetic::div_mod::lemma_fundamental_div_mod((2 * a + b) as int, (2 * b) as int);
    let r = (2 * a + b) as int % (2 * b) as int;
    assert(0 <= r < 2 * b);
    assert((2 * a + b) as int == (2 * b) as int * q + r);
    assert((2 * q - 1) * b <= 2 * a && 2 * a < (2 * q + 1) * b) by (nonlinear_arith)
        requires (2 * a + b) as int == (2 * b) as int * q + r, 0 <= r < 2 * b, b > 0;
}

proof fn lemma_content_rect_fits(cfg: ViewportConfig, source: (u32, u32))
    ensures
        1 <= content_rect_spec(cfg, source).width <= one_or(cfg.width),
        1 <= content_rect_spec(cfg, source).height <= one_or(cfg.height),
        2 * content_rect_spec(cfg, source).offset_x + 1 <= one_or(cfg.width),
        2 * content_rect_spec(cfg, source).offset_y + 1 <= one_or(cfg.height),
{
}

proof fn lemma_offset_in_pane(offset: u32, pane: u32, out: nat)
    requires
        2 * offset + 1 <= out,
        pane >= 1,
    ensures
        round_div(offset as nat * pane as nat, out) < pane,
{
    let a = offset as nat * pane as nat;
    assert((2 * a + out) / (2 * out) < pane as int) by (nonlinear_arith)
        requires out >= 1, pane >= 1, 2 * (offset as int) + 1 <= out as int, a == offset as int * pane as int;
}

/// The composite rectangle is the content rectangle carried from output
/// pixels into pane pixels: its offset is the content offset times
/// `pane / output` rounded to the nearest pixel on each axis, and its size is
/// the content size times `pane / output` rounded to the nearest pixel,
/// cut to the room the pane leaves after the offset when it does not fit
/// there, and raised to one pixel when it rounds to zero; the rectangle lies
/// within the pane.
pub proof fn lemma_composite_is_scaled_content(pane: (u32, u32), cfg: ViewportConfig, source: Option<(u32, u32)>)
    requires
        pane.0 >= 1,
        pane.1 >= 1,
    ensures ({
        let r = content_rect_spec(cfg, match source { Some(s) => s, None => pane });
        let ow = one_or(cfg.width);
        let oh = one_or(cfg.height);
        let cw = 2 * (r.width as nat) * (pane.0 as nat);
        let ch = 2 * (r.height as nat) * (pane.1 as nat);
        composite_rect_spec(pane, Some(cfg), source) matches Some((x, y, w, h)) && {
            &&& (2 * x - 1) * ow <= 2 * (r.offset_x as nat) * (pane.0 as nat) < (2 * x + 1) * ow
            &&& (2 * y - 1) * oh <= 2 * (r.offset_y as nat) * (pane.1 as nat) < (2 * y + 1) * oh
            &&& (ow <= cw && cw < (2 * (pane.0 - x) + 1) * ow ==> (2 * w - 1) * ow <= cw < (2 * w + 1) * ow)
            &&& (oh <= ch && ch < (2 * (pane.1 - y) + 1) * oh ==> (2 * h - 1) * oh <= ch < (2 * h + 1) * oh)
            &&& (cw >= (2 * (pane.0 - x) + 1) * ow ==> w == pane.0 - x)
            &&& (ch >= (2 * (pane.1 - y) + 1) * oh ==> h == pane.1 - y)
            &&& (cw < ow ==> w == 1)
            &&& (ch < oh ==> h == 1)
            &&& 1 <= w && x + w <= pane.0
            &&& 1 <= h && y + h <= pane.1
        }
    }),
{
    let src = match source { Some(s) => s, None => pane };
    let r = content_rect_spec(cfg, src);
    let ow = one_or(cfg.width);
    let oh = one_or(cfg.height);
    lemma_content_rect_fits(cfg, src);
    lemma_round_div_nearest(r.offset_x as nat * pane.0 as nat, ow);
    lemma_round_div_nearest(r.offset_y as nat * pane.1 as nat, oh);
    lemma_round_div_nearest(r.width as nat * pane.0 as nat, ow);
    lemma_round_div_nearest(r.height as nat * pane.1 as nat, oh);
    lemma_offset_in_pane(r.offset_x, pane.0, ow);
    lemma_offset_in_pane(r.offset_y, pane.1, oh);
    let x = round_div(r.offset_x as nat * pane.0 as nat, ow);
    let y = round_div(r.offset_y as nat * pane.1 as nat, oh);
    let rw = round_div(r.width as nat * pane.0 as nat, ow);
    let rh = round_div(r.height as nat * pane.1 as nat, oh);
    let room_w: nat = (pane.0 - x) as nat;
    let room_h: nat = (pane.1 - y) as nat;
    let w = if rw <= room_w { rw } else { room_w };
    let h = if rh <= room_h { rh } else { room_h };
    let cw = 2 * (r.width as nat) * (pane.0 as nat);
    let ch = 2 * (r.height as nat) * (pane.1 as nat);
    assert(cw == 2 * (r.width as nat * pane.0 as nat)) by (nonlinear_arith)
        requires cw == 2 * (r.width as nat) * (pane.0 as nat);
    assert(ch == 2 * (r.height as nat * pane.1 as nat)) by (nonlinear_arith)
        requires ch == 2 * (r.height as nat) * (pane.1 as nat);
    assert(2 * (r.offset_x as nat) * (pane.0 as nat) == 2 * (r.offset_x as nat * pane.0 as nat)) by (nonlinear_arith);
    assert(2 * (r.offset_y as nat) * (pane.1 as nat) == 2 * (r.offset_y as nat * pane.1 as nat)) by (nonlinear_arith);
    if ow <= cw && cw < (2 * room_w + 1) * ow {
        assert(rw >= 1 && rw <= room_w) by (nonlinear_arith)
            requires (2 * rw - 1) * ow <= cw, cw < (2 * rw + 1) * ow, ow <= cw, cw < (2 * room_w + 1) * ow, ow >= 1;
    }
    if oh <= ch && ch < (2 * room_h + 1) * oh {
        assert(rh >= 1 && rh <= room_h) by (nonlinear_arith)
            requires (2 * rh - 1) * oh <= ch, ch < (2 * rh + 1) * oh, oh <= ch, ch < (2 * room_h + 1) * oh, oh >= 1;
    }
    if cw >= (2 * room_w + 1) * ow {
        assert(rw > room_w) by (nonlinear_arith)
            requires cw < (2 * rw + 1) * ow, cw >= (2 * room_w + 1) * ow, ow >= 1;
    }
    if ch >= (2 * room_h + 1) * oh {
        assert(rh > room_h) by (nonlinear_arith)
            requires ch < (2 * rh + 1) * oh, ch >= (2 * room_h + 1) * oh, oh >= 1;
    }
    if cw < ow {
        assert(rw == 0) by (nonlinear_arith)
            requires (2 * rw - 1) * ow <= cw, cw < ow, ow >= 1;
    }
    if ch < oh {
        assert(rh == 0) by (nonlinear_arith)
            requires (2 * rh - 1) * oh <= ch, ch < oh, oh >= 1;
    }
    assert(composite_rect_spec(pane, Some(cfg), source)
        == Some((x as u32, y as u32, at_least_1(w) as u32, at_least_1(h) as u32)));
}

/// Scale an output-space offset into pane space: `round(offset * pane / out)`,
/// which stays below `pane` for a centering offset.
fn scale_into_pane(offset: u32, pane: u32, out: u32) -> (r: u32)
    requires
        out >= 1,
        pane >= 1,
        2 * (offset as int) <= out as int - 1,
    ensures
        r == round_div(offset as nat * pane as nat, out as nat),
        r < pane,
{
    assert((offset as int) * (pane as int) <= 0xffff_ffff * 0xffff_ffff) by (nonlinear_arith)
        requires offset <= 0xffff_ffffu32, pane <= 0xffff_ffffu32;
    let q = round_div_u64(offset as u64 * pane as u64, out as u64);
    let ghost a: int = offset as int * pane as int;
    assert((2 * a + (out as int)) / (2 * (out as int)) < pane as int) by (nonlinear_arith)
        requires out >= 1, pane >= 1, 2 * (offset as int) <= out as int - 1, a == offset as int * pane as int;
    assert(q == (2 * a + (out as int)) / (2 * (out as int)));
    q as u32
}

impl ViewportState {
    /// The pane size.
    pub closed spec fn pane(&self) -> (u32, u32) {
        (self.width, self.height)
    }

    /// The simulated viewport, if any.
    pub closed spec fn spec_simulated(&self) -> Option<ViewportConfig> {
        self.simulated
    }

    /// The current source size, if a source is loaded.
    pub closed spec fn spec_source_size(&self) -> Option<(u32, u32)> {
        self.source_size
    }

    /// The invariant: the pane is at least 1×1.
    pub closed spec fn inv(&self) -> bool {
        self.width >= 1 && self.height >= 1
    }

    /// A pane of `width × height` (each clamped to at least 1), no simulated
    /// viewport, no source.
    pub fn new(width: u32, height: u32) -> (v: ViewportState)
        ensures
            v.inv(),
            v.pane() == ((if width == 0 { 1 } else { width }) as u32, (if height == 0 { 1 } else { height }) as u32),
            v.spec_simulated() is None,
            v.spec_source_size() is None,
    {
        ViewportState {
            width: if width == 0 { 1 } else { width },
            height: if height == 0 { 1 } else { height },
            simulated: None,
            source_size: None,
        }
    }

    /// The current pane size.
    pub fn viewport(&self) -> (d: (u32, u32))
        ensures
            d == self.pane(),
    {
        (self.width, self.height)
    }

    /// Resize the pane (each side clamped to at least 1); returns whether the
    /// size actually changed (so the caller reallocates its pane target).
    pub fn set_viewport(&mut self, width: u32, height: u32) -> (changed: bool)
        ensures
            final(self).inv(),
            final(self).pane() == ((if width == 0 { 1 } else { width }) as u32, (if height == 0 { 1 } else { height }) as u32),
            changed == (final(self).pane() != old(self).pane()),
            final(self).spec_simulated() == old(self).spec_simulated(),
            final(self).spec_source_size() == old(self).spec_source_size(),
    {
        let width = if width == 0 { 1 } else { width };
        let height = if height == 0 { 1 } else { height };
        if width != self.width || height != self.height {
            self.width = width;
            self.height = height;
            true
        } else {
            false
        }
    }

    /// Set or clear the simulated viewport.
    pub fn set_simulated_viewport(&mut self, config: Option<ViewportConfig>)
        ensures
            final(self).pane() == old(self).pane(),
            final(self).inv() == old(self).inv(),
            final(self).spec_simulated() == config,
            final(self).spec_source_size() == old(self).spec_source_size(),
    {
        self.simulated = config;
    }

    /// The simulated viewport, if one is set.
    pub fn simulated_viewport(&self) -> (c: Option<ViewportConfig>)
        ensures
            c == self.spec_simulated(),
    {
        self.simulated
    }

    /// Record the size of the newly current source frame.
    pub fn set_source_size(&mut self, width: u32, height: u32)
        ensures
            final(self).pane() == old(self).pane(),
            final(self).inv() == old(self).inv(),
            final(self).spec_simulated() == old(self).spec_simulated(),
            final(self).spec_source_size() == Some((width, height)),
    {
        self.source_size = Some((width, height));
    }

    /// The current source size, if any.
    pub fn source_size(&self) -> (s: Option<(u32, u32)>)
        ensures
            s == self.spec_source_size(),
    {
        self.source_size
    }

    /// The size all viewport-relative sizing resolves against: the content
    /// rectangle size under a simulated viewport, else the pane.
    pub fn viewport_size(&self) -> (d: (u32, u32))
        ensures
            d == viewport_size_spec(self.pane(), self.spec_simulated(), self.spec_source_size()),
    {
        match self.simulated {
            Some(cfg) => {
                let source = match self.source_size { Some(s) => s, None => (self.width, self.height) };
                let rect = cfg.content_rect(source);
                (rect.width, rect.height)
            },
            None => (self.width, self.height),
        }
    }

    /// The pane rectangle `(x, y, w, h)` the final content is composited into,
    /// or `None` without a simulated viewport. The rectangle always lies within
    /// the pane.
    pub fn final_composite_rect(&self) -> (r: Option<(u32, u32, u32, u32)>)
        requires
            self.inv(),
        ensures
            r == composite_rect_spec(self.pane(), self.spec_simulated(), self.spec_source_size()),
            r matches Some(q) ==> q.0 + q.2 <= self.pane().0 && q.1 + q.3 <= self.pane().1
                && q.2 >= 1 && q.3 >= 1,
    {
        let cfg = match self.simulated { Some(c) => c, None => return None };
        let source = match self.source_size { Some(s) => s, None => (self.width, self.height) };
        let rect = cfg.content_rect(source);
        let out_w = if cfg.width == 0 { 1u32 } else { cfg.width };
        let out_h = if cfg.height == 0 { 1u32 } else { cfg.height };
        let x = scale_into_pane(rect.offset_x, self.width, out_w);
        let y = scale_into_pane(rect.offset_y, self.height, out_h);
        assert((rect.width as int) * (self.width as int) <= 0xffff_ffff * 0xffff_ffff) by (nonlinear_arith)
            requires rect.width <= 0xffff_ffffu32, self.width <= 0xffff_ffffu32;
        assert((rect.height as int) * (self.height as int) <= 0xffff_ffff * 0xffff_ffff) by (nonlinear_arith)
            requires rect.height <= 0xffff_ffffu32, self.height <= 0xffff_ffffu32;
        let rw = round_div_u64(rect.width as u64 * self.width as u64, out_w as u64);
        let rh = round_div_u64(rect.height as u64 * self.height as u64, out_h as u64);
        let room_w = self.width - x;
        let room_h = self.height - y;
        let w: u32 = if rw <= room_w as u64 { rw as u32 } else { room_w };
        let h: u32 = if rh <= room_h as u64 { rh as u32 } else { room_h };
        Some((x, y, if w < 1 { 1 } else { w }, if h < 1 { 1 } else { h }))
    }

    /// The pane ↔ viewport mapping for the pixel inspector: the composite
    /// rectangle and the content's viewport size under a simulated viewport,
    /// else the identity over the whole pane.
    pub fn pane_mapping(&self) -> (m: PaneMapping)
        requires
            self.inv(),
        ensures
            m == (match composite_rect_spec(self.pane(), self.spec_simulated(), self.spec_source_size()) {
                Some(rect) => PaneMapping {
                    pane_rect: rect,
                    content_size: viewport_size_spec(self.pane(), self.spec_simulated(), self.spec_source_size()),
                },
                None => PaneMapping {
                    pane_rect: (0, 0, self.pane().0, self.pane().1),
                    content_size: self.pane(),
                },
            }),
    {
        match self.final_composite_rect() {
            Some(rect) => PaneMapping { pane_rect: rect, content_size: self.viewport_size() },
            None => PaneMapping {
                pane_rect: (0, 0, self.width, self.height),
                content_size: (self.width, self.height),
            },
        }
    }
}

} // verus!
