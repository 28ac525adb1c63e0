//! Per-pass settings of the render chain that involve no floating point: how
//! an FBO's size is derived (the scale type), how a pass's input is sampled at
//! its edges (the wrap mode), and which pixel format its FBO uses.

use vstd::prelude::*;

verus! {

/// How a pass's FBO size is derived from the available size inputs.
#[derive(Debug, Clone, Copy, PartialEq, Eq, Structural)]
pub enum ScaleType {
    /// Factor × this pass's input size (`OriginalSize` for pass 0, else the
    /// previous FBO size).
    Source,
    /// Factor × the simulated final viewport size.
    Viewport,
    /// A literal integer pixel count; the input and viewport are ignored.
    Absolute,
}

/// Sampler wrap mode for a pass's input texture. The default is
/// [`WrapMode::ClampToBorder`].
#[derive(Debug, Clone, Copy, PartialEq, Eq, Structural)]
pub enum WrapMode {
    /// `clamp_to_border`: the border colour outside the texture (falls back to
    /// clamping to the edge where the device cannot clamp to a border).
    ClampToBorder,
    /// `clamp_to_edge`.
    ClampToEdge,
    /// `repeat`.
    Repeat,
    /// `mirrored_repeat`.
    MirroredRepeat,
}

impl Default for WrapMode {
    /// `clamp_to_border`.
    fn default() -> (w: WrapMode)
        ensures
            w == WrapMode::ClampToBorder,
    {
        WrapMode::ClampToBorder
    }
}

/// The sampler address mode a wrap mode selects on a device.
#[derive(Debug, Clone, Copy, PartialEq, Eq, Structural)]
pub enum AddressMode {
    ClampToBorder,
    ClampToEdge,
    Repeat,
    MirrorRepeat,
}

/// Map a [`WrapMode`] to the sampler address mode: `ClampToBorder` needs the
/// device feature and falls back to `ClampToEdge` without it.
pub fn address_mode(wrap: WrapMode, clamp_to_border_supported: bool) -> (m: AddressMode)
    ensures
        m == match wrap {
            WrapMode::Repeat => AddressMode::Repeat,
            WrapMode::MirroredRepeat => AddressMode::MirrorRepeat,
            WrapMode::ClampToEdge => AddressMode::ClampToEdge,
            WrapMode::ClampToBorder => if clamp_to_border_supported {
                AddressMode::ClampToBorder
            } else {
                AddressMode::ClampToEdge
            },
        },
{
    match wrap {
        WrapMode::Repeat => AddressMode::Repeat,
        WrapMode::MirroredRepeat => AddressMode::MirrorRepeat,
        WrapMode::ClampToEdge => AddressMode::ClampToEdge,
        WrapMode::ClampToBorder => {
            if clamp_to_border_supported {
                AddressMode::ClampToBorder
            } else {
                AddressMode::ClampToEdge
            }
        },
    }
}

/// The pixel format of an intermediate pass's FBO.
#[derive(Debug, Clone, Copy, PartialEq, Eq, Structural)]
pub enum FboFormat {
    /// 16-bit float RGBA (keeps values above 1.0).
    Rgba16Float,
    /// 8-bit sRGB-encoded RGBA.
    Rgba8UnormSrgb,
    /// 8-bit linear RGBA (the default).
    Rgba8Unorm,
}

/// The FBO format a pass asks for: a float framebuffer wins over an sRGB one;
/// without either, 8-bit linear.
pub fn fbo_format(float_framebuffer: bool, srgb_framebuffer: bool) -> (f: FboFormat)
    ensures
        f == if float_framebuffer {
            FboFormat::Rgba16Float
        } else if srgb_framebuffer {
            FboFormat::Rgba8UnormSrgb
        } else {
            FboFormat::Rgba8Unorm
        },
{
    if float_framebuffer {
        FboFormat::Rgba16Float
    } else if srgb_framebuffer {
        FboFormat::Rgba8UnormSrgb
    } else {
        FboFormat::Rgba8Unorm
    }
}

} // verus!
