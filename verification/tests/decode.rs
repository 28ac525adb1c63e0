use slang_preview::decode::{decode_image, image_kind_of, ImageKind, SourceError};

fn encode(img: &image::RgbaImage, format: image::ImageFormat) -> Vec<u8> {
    let mut bytes = std::io::Cursor::new(Vec::new());
    img.write_to(&mut bytes, format).unwrap();
    bytes.into_inner()
}

#[test]
fn loads_a_png_fixture() {
    let img = image::RgbaImage::from_pixel(5, 3, image::Rgba([10, 20, 30, 255]));
    let bytes = encode(&img, image::ImageFormat::Png);
    let frame = decode_image(&bytes).unwrap();
    assert_eq!((frame.width, frame.height), (5, 3));
    assert_eq!(frame.rgba.len(), 5 * 3 * 4);
    assert_eq!(&frame.rgba[0..4], &[10, 20, 30, 255]);
}

#[test]
fn a_jpeg_decodes_to_rgba8_of_its_size() {
    let rgb = image::RgbImage::from_pixel(8, 4, image::Rgb([200, 100, 50]));
    let mut bytes = std::io::Cursor::new(Vec::new());
    rgb.write_to(&mut bytes, image::ImageFormat::Jpeg).unwrap();
    let bytes = bytes.into_inner();
    assert_eq!(image_kind_of(&bytes), Some(ImageKind::Jpeg));
    let frame = decode_image(&bytes).unwrap();
    assert_eq!((frame.width, frame.height), (8, 4));
    assert_eq!(frame.rgba.len(), 8 * 4 * 4);
    assert_eq!(frame.rgba[3], 255);
}

#[test]
fn signatures_tell_png_from_jpeg() {
    assert_eq!(image_kind_of(&[0x89, b'P', b'N', b'G', 0x0d, 0x0a, 0x1a, 0x0a, 0]), Some(ImageKind::Png));
    assert_eq!(image_kind_of(&[0xff, 0xd8, 0xff]), Some(ImageKind::Jpeg));
    assert_eq!(image_kind_of(&[0x89, b'P', b'N', b'G']), None);
    assert_eq!(image_kind_of(b"GIF89a"), None);
    assert_eq!(image_kind_of(&[]), None);
}

#[test]
fn bytes_in_no_known_format_are_a_decode_error() {
    let err = decode_image(b"not an image at all").unwrap_err();
    assert!(matches!(err, SourceError::Decode(_)));
}

#[test]
fn a_truncated_png_is_a_decode_error() {
    let img = image::RgbaImage::from_pixel(4, 4, image::Rgba([1, 2, 3, 4]));
    let bytes = encode(&img, image::ImageFormat::Png);
    let err = decode_image(&bytes[..20]).unwrap_err();
    assert!(matches!(err, SourceError::Decode(_)));
}

#[test]
fn another_known_format_is_reported_by_name() {
    match decode_image(b"GIF89a\x01\x00\x01\x00").unwrap_err() {
        SourceError::Decode(image::ImageError::Unsupported(u)) => {
            assert_eq!(u.format_hint(), image::error::ImageFormatHint::Exact(image::ImageFormat::Gif));
        }
        other => panic!("expected an unsupported-format error, got {other:?}"),
    }
    match decode_image(b"not an image at all").unwrap_err() {
        SourceError::Decode(image::ImageError::Unsupported(u)) => {
            assert_eq!(u.format_hint(), image::error::ImageFormatHint::Unknown);
        }
        other => panic!("expected an unsupported-format error, got {other:?}"),
    }
}
