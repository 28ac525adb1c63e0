//! The producer seam of the preview transport ([`FrameSource`]) and the
//! CPU-generated animated gradient used before any GPU rendering exists.

use vstd::prelude::*;
use crate::frame::{FrameHeader, FRAME_HEADER_LEN, header_bytes};
use crate::raster::{raster, raster_prefix, lemma_raster_step, lemma_row_end, lemma_raster_len};

verus! {

/// A producer of preview frames (24-byte header + RGBA8 payload).
pub trait FrameSource {
    /// Whether the source can render (its sizes keep the arithmetic in range).
    spec fn renderable(&self) -> bool;

    /// The `(width, height)` of frames this source produces.
    fn dimensions(&self) -> (u32, u32);

    /// Render frame `index` as a complete binary frame into `buf`, which is
    /// cleared first.
    fn render_into(&mut self, index: u64, buf: &mut Vec<u8>)
        requires
            old(self).renderable(),
    ;
}

/// An animated-gradient preview source: red ramps across, green down, and
/// blue scrolls diagonally with the frame index.
#[derive(Debug, Clone, Copy)]
pub struct GradientSource {
    width: u32,
    height: u32,
}

/// One gradient pixel of frame `index`.
pub open spec fn gradient_source_pixel(width: u32, height: u32, index: u64, x: nat, y: nat) -> Seq<u8> {
    let t = (index % 256) as nat;
    seq![
        (x * 255 / (width as nat)) as u8,
        (y * 255 / (height as nat)) as u8,
        ((x + y + t * 2) % 256) as u8,
        255u8,
    ]
}

/// The gradient pixel function of frame `index`.
pub open spec fn gradient_source_fn(width: u32, height: u32, index: u64) -> spec_fn(nat, nat) -> Seq<u8> {
    |x: nat, y: nat| gradient_source_pixel(width, height, index, x, y)
}

/// Sizes for which the gradient's arithmetic stays within `u32` and its frame
/// is addressable.
pub open spec fn gradient_dims_ok(width: u32, height: u32) -> bool {
    &&& 0 < width
    &&& 0 < height
    &&& (width as int - 1) * 255 <= u32::MAX
    &&& (height as int - 1) * 255 <= u32::MAX
    &&& width + height + 510 <= u32::MAX
    &&& width * height * 4 + FRAME_HEADER_LEN <= usize::MAX
}

impl GradientSource {
    /// The source's frame size.
    pub closed spec fn size(&self) -> (u32, u32) {
        (self.width, self.height)
    }

    /// A gradient source of the given size (each clamped to at least 1). It
    /// can render exactly when its size keeps the gradient's arithmetic in
    /// range.
    pub fn new(width: u32, height: u32) -> (g: GradientSource)
        ensures
            g.size() == (if width == 0 { 1u32 } else { width }, if height == 0 { 1u32 } else { height }),
            g.renderable() <==> gradient_dims_ok(g.size().0, g.size().1),
    {
        GradientSource {
            width: if width == 0 { 1 } else { width },
            height: if height == 0 { 1 } else { height },
        }
    }
}

impl FrameSource for GradientSource {
    closed spec fn renderable(&self) -> bool {
        gradient_dims_ok(self.width, self.height)
    }

    fn dimensions(&self) -> (d: (u32, u32))
        ensures
            d == self.size(),
    {
        (self.width, self.height)
    }

    fn render_into(&mut self, index: u64, buf: &mut Vec<u8>)
        ensures
            final(self).size() == old(self).size(),
            final(buf)@ == header_bytes(FrameHeader::rgba8_spec(old(self).size().0, old(self).size().1, index))
                + raster(old(self).size().0 as nat, old(self).size().1 as nat,
                    gradient_source_fn(old(self).size().0, old(self).size().1, index)),
    {
        let width = self.width;
        let height = self.height;
        let header = FrameHeader::rgba8(width, height, index);
        buf.clear();
        header.write_to(buf);
        let t = (index % 256) as u32;
        let ghost pixel = gradient_source_fn(width, height, index);
        let ghost head = buf@;
        let mut y: u32 = 0;
        while y < height
            invariant
                gradient_dims_ok(width, height),
                y <= height,
                t == index % 256,
                pixel == gradient_source_fn(width, height, index),
                buf@ == head + raster_prefix(width as nat, (y * width) as nat, pixel),
            decreases height - y,
        {
            assert((y as int) * 255 / (height as int) < 256) by (nonlinear_arith)
                requires y < height;
            let g = (y * 255 / height) as u8;
            let mut x: u32 = 0;
            while x < width
                invariant
                    gradient_dims_ok(width, height),
                    y < height,
                    x <= width,
                    t == index % 256,
                    g == (y as nat * 255 / (height as nat)) as u8,
                    pixel == gradient_source_fn(width, height, index),
                    buf@ == head + raster_prefix(width as nat, (y * width + x) as nat, pixel),
                decreases width - x,
            {
                assert((x as int) * 255 / (width as int) < 256) by (nonlinear_arith)
                    requires x < width;
                let r = (x * 255 / width) as u8;
                let b = ((x + y + t * 2) % 256) as u8;
                let ghost before = buf@;
                buf.push(r);
                buf.push(g);
                buf.push(b);
                buf.push(255);
                proof {
                    lemma_raster_step(width as nat, x as nat, y as nat, pixel);
                    assert(buf@ =~= before + pixel(x as nat, y as nat));
                }
                x = x + 1;
            }
            proof {
                lemma_row_end(width as nat, y as nat);
            }
            y = y + 1;
        }
        proof {
            vstd::arithmetic::mul::lemma_mul_is_commutative(width as int, height as int);
        }
    }
}

impl FrameHeader {
    /// The header [`FrameHeader::rgba8`] builds.
    pub open spec fn rgba8_spec(width: u32, height: u32, frame_index: u64) -> FrameHeader {
        FrameHeader { width, height, frame_index, format: crate::frame::PIXEL_FORMAT_RGBA8 }
    }
}

/// A pixel of a solid-color frame.
pub open spec fn solid_fn(rgba: [u8; 4]) -> spec_fn(nat, nat) -> Seq<u8> {
    |x: nat, y: nat| rgba@
}

/// Append a header plus a solid-color RGBA8 payload of `width * height` pixels.
pub fn write_solid_frame(buf: &mut Vec<u8>, width: u32, height: u32, index: u64, rgba: [u8; 4])
    ensures
        final(buf)@ == old(buf)@ + header_bytes(FrameHeader::rgba8_spec(width, height, index))
            + raster(width as nat, height as nat, solid_fn(rgba)),
{
    let header = FrameHeader::rgba8(width, height, index);
    header.write_to(buf);
    let ghost head = buf@;
    assert((width as int) * (height as int) <= 0xffff_ffff * 0xffff_ffff) by (nonlinear_arith)
        requires width <= 0xffff_ffffu32, height <= 0xffff_ffffu32;
    let n = width as u64 * height as u64;
    let mut i: u64 = 0;
    while i < n
        invariant
            i <= n,
            n == width * height,
            buf@ == head + raster_prefix(width as nat, i as nat, solid_fn(rgba)),
        decreases n - i,
    {
        let ghost prev = buf@;
        buf.push(rgba[0]);
        buf.push(rgba[1]);
        buf.push(rgba[2]);
        buf.push(rgba[3]);
        proof {
            assert(width > 0);
            assert(((i + 1) - 1) as nat == i as nat);
            assert(raster_prefix(width as nat, (i + 1) as nat, solid_fn(rgba)) == raster_prefix(width as nat, i as nat, solid_fn(rgba)) + rgba@);
            assert(buf@ =~= head + raster_prefix(width as nat, (i + 1) as nat, solid_fn(rgba)));
        }
        i = i + 1;
    }
}

} // verus!
