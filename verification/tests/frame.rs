use slang_preview::frame::{FrameHeader, FRAME_HEADER_LEN, FRAME_MAGIC, FRAME_VERSION, PIXEL_FORMAT_RGBA8};
use slang_preview::frame_source::{write_solid_frame, FrameSource, GradientSource};

#[test]
fn header_serializes_to_24_le_bytes() {
    let mut buf = Vec::new();
    FrameHeader::rgba8(320, 240, 7).write_to(&mut buf);
    assert_eq!(buf.len(), FRAME_HEADER_LEN);
    assert_eq!(&buf[0..4], b"SBF1");
    assert_eq!(u16::from_le_bytes([buf[4], buf[5]]), FRAME_VERSION);
    assert_eq!(buf[6], PIXEL_FORMAT_RGBA8);
    assert_eq!(u32::from_le_bytes([buf[8], buf[9], buf[10], buf[11]]), 320);
    assert_eq!(u32::from_le_bytes([buf[12], buf[13], buf[14], buf[15]]), 240);
    assert_eq!(buf[16], 7);
}

#[test]
fn payload_len_matches_rgba8() {
    assert_eq!(FrameHeader::rgba8(4, 3, 0).payload_len(), 48);
}

#[test]
fn lib_smoke() {
    assert_eq!(slang_preview::NAME, "preview-engine");
    assert_eq!(slang_preview::preprocess::NAME, "slang-compile");
    assert_eq!(slang_preview::source::NAME, "source");
}

#[test]
fn gradient_frame_has_header_plus_rgba_payload() {
    let mut src = GradientSource::new(8, 4);
    assert_eq!(src.dimensions(), (8, 4));
    let mut buf = Vec::new();
    src.render_into(3, &mut buf);
    assert_eq!(buf.len(), FRAME_HEADER_LEN + 8 * 4 * 4);
    assert_eq!(&buf[0..4], &FRAME_MAGIC);
    assert_eq!(buf[16], 3);
}

#[test]
fn gradient_animates_between_frames() {
    let mut src = GradientSource::new(16, 16);
    let (mut a, mut b) = (Vec::new(), Vec::new());
    src.render_into(0, &mut a);
    src.render_into(10, &mut b);
    assert_eq!(a.len(), b.len());
    assert_ne!(a[FRAME_HEADER_LEN..], b[FRAME_HEADER_LEN..]);
}

#[test]
fn header_fields_are_little_endian_including_the_high_index_bytes() {
    let mut buf = vec![0xAAu8];
    FrameHeader::rgba8(0x0102_0304, 0x0A0B_0C0D, 0x1122_3344_5566_7788).write_to(&mut buf);
    // The header is appended after existing content.
    assert_eq!(buf[0], 0xAA);
    let h = &buf[1..];
    assert_eq!(h.len(), FRAME_HEADER_LEN);
    assert_eq!(h[7], 0, "reserved byte");
    assert_eq!(&h[8..12], &[0x04, 0x03, 0x02, 0x01]);
    assert_eq!(&h[12..16], &[0x0D, 0x0C, 0x0B, 0x0A]);
    assert_eq!(&h[16..24], &[0x88, 0x77, 0x66, 0x55, 0x44, 0x33, 0x22, 0x11]);
}

#[test]
fn gradient_size_is_clamped_to_at_least_one() {
    let src = GradientSource::new(0, 0);
    assert_eq!(src.dimensions(), (1, 1));
}

#[test]
fn solid_frame_repeats_the_color() {
    let mut buf = Vec::new();
    write_solid_frame(&mut buf, 3, 2, 9, [32, 32, 32, 255]);
    assert_eq!(buf.len(), FRAME_HEADER_LEN + 3 * 2 * 4);
    assert_eq!(buf[16], 9);
    for px in buf[FRAME_HEADER_LEN..].chunks(4) {
        assert_eq!(px, &[32, 32, 32, 255]);
    }
}
