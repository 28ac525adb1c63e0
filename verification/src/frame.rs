//! Binary preview-frame format: a little-endian 24-byte header followed by
//! tightly packed RGBA8 pixels (`width * height * 4` bytes).
//!
//! | offset | size | field        | notes                  |
//! |--------|------|--------------|------------------------|
//! | 0      | 4    | magic        | ASCII `"SBF1"`         |
//! | 4      | 2    | version      | `u16`, currently 1     |
//! | 6      | 1    | pixel format | `0` = RGBA8            |
//! | 7      | 1    | reserved     | `0`                    |
//! | 8      | 4    | width        | `u32` pixels           |
//! | 12     | 4    | height       | `u32` pixels           |
//! | 16     | 8    | frame index  | `u64`, per frame       |

use vstd::prelude::*;

verus! {

/// Magic bytes at the start of every frame: ASCII `"SBF1"`.
pub const FRAME_MAGIC: [u8; 4] = [0x53, 0x42, 0x46, 0x31];

/// Current frame-format version.
pub const FRAME_VERSION: u16 = 1;

/// Size of the fixed binary header in bytes.
pub const FRAME_HEADER_LEN: usize = 24;

/// Pixel-format tag for tightly packed 8-bit RGBA.
pub const PIXEL_FORMAT_RGBA8: u8 = 0;

/// Little-endian bytes of the low `n` bytes of `v`.
pub open spec fn le_bytes(v: nat, n: nat) -> Seq<u8>
    decreases n,
{
    if n == 0 {
        Seq::empty()
    } else {
        seq![(v % 256) as u8] + le_bytes(v / 256, (n - 1) as nat)
    }
}

/// Header describing one streamed frame.
#[derive(Debug, Clone, Copy, PartialEq, Eq, Structural)]
pub struct FrameHeader {
    /// Frame width in pixels.
    pub width: u32,
    /// Frame height in pixels.
    pub height: u32,
    /// Monotonically increasing frame index.
    pub frame_index: u64,
    /// Pixel format tag; see [`PIXEL_FORMAT_RGBA8`].
    pub format: u8,
}

/// The 24 header bytes of `h`.
pub open spec fn header_bytes(h: FrameHeader) -> Seq<u8> {
    seq![0x53u8, 0x42u8, 0x46u8, 0x31u8]
        + le_bytes(FRAME_VERSION as nat, 2)
        + seq![h.format, 0u8]
        + le_bytes(h.width as nat, 4)
        + le_bytes(h.height as nat, 4)
        + le_bytes(h.frame_index as nat, 8)
}

/// Append the low `n` bytes of `v` little-endian.
fn push_le(buf: &mut Vec<u8>, v: u64, n: usize)
    requires
        n <= 8,
    ensures
        final(buf)@ == old(buf)@ + le_bytes(v as nat, n as nat),
{
    let mut rest = v;
    let mut i: usize = 0;
    while i < n
        invariant
            i <= n,
            old(buf)@ + le_bytes(v as nat, n as nat) == buf@ + le_bytes(rest as nat, (n - i) as nat),
        decreases n - i,
    {
        let ghost prev = buf@;
        buf.push((rest % 256) as u8);
        assert(le_bytes(rest as nat, (n - i) as nat) == seq![(rest % 256) as u8] + le_bytes(
            rest as nat / 256,
            (n - i - 1) as nat,
        ));
        assert(buf@ + le_bytes((rest / 256) as nat, (n - i - 1) as nat) =~= prev + le_bytes(
            rest as nat,
            (n - i) as nat,
        ));
        rest = rest / 256;
        i = i + 1;
    }
    assert(buf@ + le_bytes(rest as nat, 0) =~= buf@);
}

impl FrameHeader {
    /// A header for an RGBA8 frame.
    pub fn rgba8(width: u32, height: u32, frame_index: u64) -> (h: FrameHeader)
        ensures
            h == (FrameHeader { width, height, frame_index, format: PIXEL_FORMAT_RGBA8 }),
    {
        FrameHeader { width, height, frame_index, format: PIXEL_FORMAT_RGBA8 }
    }

    /// Number of pixel bytes that must follow this header.
    pub fn payload_len(&self) -> (n: usize)
        requires
            self.width * self.height * 4 <= usize::MAX,
        ensures
            n == self.width * self.height * 4,
    {
        assert(self.width as int * self.height as int <= self.width as int * self.height as int * 4)
            by (nonlinear_arith);
        self.width as usize * self.height as usize * 4
    }

    /// Append the 24-byte header to `buf`.
    pub fn write_to(&self, buf: &mut Vec<u8>)
        ensures
            final(buf)@ == old(buf)@ + header_bytes(*self),
            header_bytes(*self).len() == FRAME_HEADER_LEN,
    {
        let ghost start = buf@;
        buf.push(FRAME_MAGIC[0]);
        buf.push(FRAME_MAGIC[1]);
        buf.push(FRAME_MAGIC[2]);
        buf.push(FRAME_MAGIC[3]);
        push_le(buf, FRAME_VERSION as u64, 2);
        buf.push(self.format);
        buf.push(0);
        push_le(buf, self.width as u64, 4);
        push_le(buf, self.height as u64, 4);
        push_le(buf, self.frame_index, 8);
        proof {
            reveal_with_fuel(le_bytes, 9);
            assert(buf@ =~= start + header_bytes(*self));
        }
    }
}

} // verus!
