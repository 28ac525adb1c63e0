//! Decoding an encoded still image (PNG or JPEG bytes) into an RGBA8
//! [`Frame`], and the errors a source load can end in. Reading the file is the
//! caller's; decoding is the `image` crate's.

use vstd::prelude::*;
use crate::source::{Frame, frame_wf};

verus! {

#[verifier::external_type_specification]
#[verifier::external_body]
pub struct ExImageError(image::ImageError);

/// Errors loading a source image or sequence.
#[derive(Debug)]
pub enum SourceError {
    /// The file could not be read.
    Io(std::io::Error),
    /// The image bytes could not be decoded.
    Decode(image::ImageError),
    /// A PNG-sequence directory contained no numbered PNG frames.
    NoFrames,
}

/// The still-image encodings a source can be in.
#[derive(Clone, Copy, Debug, PartialEq, Eq, Structural)]
pub enum ImageKind {
    Png,
    Jpeg,
}

/// The eight-byte signature every PNG file starts with.
pub open spec fn png_signature() -> Seq<u8> {
    seq![0x89u8, 0x50u8, 0x4eu8, 0x47u8, 0x0du8, 0x0au8, 0x1au8, 0x0au8]
}

/// The three bytes every JPEG file starts with (SOI marker, then a marker).
pub open spec fn jpeg_signature() -> Seq<u8> {
    seq![0xffu8, 0xd8u8, 0xffu8]
}

/// The encoding `bytes` are in, told by their leading signature.
pub open spec fn image_kind(bytes: Seq<u8>) -> Option<ImageKind> {
    if bytes.len() >= 8 && bytes.take(8) == png_signature() {
        Some(ImageKind::Png)
    } else if bytes.len() >= 3 && bytes.take(3) == jpeg_signature() {
        Some(ImageKind::Jpeg)
    } else {
        None
    }
}

/// Tell a PNG from a JPEG by the leading signature; `None` for anything else.
pub fn image_kind_of(bytes: &[u8]) -> (k: Option<ImageKind>)
    ensures
        k == image_kind(bytes@),
{
    let n = bytes.len();
    if n >= 8 && bytes[0] == 0x89u8 && bytes[1] == 0x50u8 && bytes[2] == 0x4eu8 && bytes[3] == 0x47u8
        && bytes[4] == 0x0du8 && bytes[5] == 0x0au8 && bytes[6] == 0x1au8 && bytes[7] == 0x0au8 {
        assert(bytes@.take(8) =~= png_signature());
        return Some(ImageKind::Png);
    }
    if n >= 8 {
        assert(bytes@.take(8) != png_signature()) by {
            if bytes@.take(8) == png_signature() {
                assert(bytes@.take(8)[0] == bytes@[0]);
                assert(bytes@.take(8)[1] == bytes@[1]);
                assert(bytes@.take(8)[2] == bytes@[2]);
                assert(bytes@.take(8)[3] == bytes@[3]);
                assert(bytes@.take(8)[4] == bytes@[4]);
                assert(bytes@.take(8)[5] == bytes@[5]);
                assert(bytes@.take(8)[6] == bytes@[6]);
                assert(bytes@.take(8)[7] == bytes@[7]);
            }
        }
    }
    if n >= 3 && bytes[0] == 0xffu8 && bytes[1] == 0xd8u8 && bytes[2] == 0xffu8 {
        assert(bytes@.take(3) =~= jpeg_signature());
        return Some(ImageKind::Jpeg);
    }
    if n >= 3 {
        assert(bytes@.take(3) != jpeg_signature()) by {
            if bytes@.take(3) == jpeg_signature() {
                assert(bytes@.take(3)[0] == bytes@[0]);
                assert(bytes@.take(3)[1] == bytes@[1]);
                assert(bytes@.take(3)[2] == bytes@[2]);
            }
        }
    }
    None
}

/// Decode `bytes` as the given format with `image::load_from_memory_with_format`
/// (which consults no format-guessing or decoding hooks) and convert to RGBA8
/// (`DynamicImage::to_rgba8`), returning the dimensions and the raw pixel
/// buffer (`ImageBuffer::into_raw`). The contract states only what holds of
/// every outcome: a decoded buffer holds exactly four bytes per pixel, as an
/// RGBA8 buffer built by the crate always does. Which pixels come out is not
/// stated: the JPEG decoder chooses between vector and scalar code paths at
/// run time, and their results are not shown to be identical.
#[verifier::external_body]
fn decode_rgba8(kind: ImageKind, bytes: &[u8]) -> (r: Result<(u32, u32, Vec<u8>), image::ImageError>)
    ensures
        r matches Ok((w, h, px)) ==> px@.len() == w * h * 4,
{
    let format = match kind {
        ImageKind::Png => image::ImageFormat::Png,
        ImageKind::Jpeg => image::ImageFormat::Jpeg,
    };
    let img = image::load_from_memory_with_format(bytes, format)?.to_rgba8();
    let (w, h) = img.dimensions();
    Ok((w, h, img.into_raw()))
}

/// The `image` crate's error for bytes that are no PNG or JPEG:
/// `ImageError::Unsupported` naming the format `image::guess_format` (the
/// crate's built-in signature table, no hooks) finds in them, or an unknown
/// format when it finds none. Nothing is stated of the error.
#[verifier::external_body]
fn unsupported_format_error(bytes: &[u8]) -> (e: image::ImageError) {
    let hint = match image::guess_format(bytes) {
        Ok(f) => image::error::ImageFormatHint::Exact(f),
        Err(_) => image::error::ImageFormatHint::Unknown,
    };
    image::ImageError::Unsupported(hint.into())
}

/// Decode an encoded still image (PNG or JPEG, told by its signature) into a
/// [`Frame`]. Bytes in neither format are a [`SourceError::Decode`] error;
/// bytes in one of them are handed to the decoder, and what it gives back is
/// returned as a well-formed frame, or its error as [`SourceError::Decode`].
pub fn decode_image(bytes: &[u8]) -> (r: Result<Frame, SourceError>)
    ensures
        image_kind(bytes@) is None ==> r matches Err(SourceError::Decode(_)),
        r matches Ok(f) ==> frame_wf(f@),
        r is Err ==> r matches Err(SourceError::Decode(_)),
{
    match image_kind_of(bytes) {
        None => Err(SourceError::Decode(unsupported_format_error(bytes))),
        Some(k) => match decode_rgba8(k, bytes) {
            Ok((w, h, px)) => Ok(Frame::new(w, h, px)),
            Err(e) => Err(SourceError::Decode(e)),
        },
    }
}

} // verus!
