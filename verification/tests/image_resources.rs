use std::io::Cursor;

use image::codecs::gif::GifEncoder;
use image::{DynamicImage, Frame, Rgba, RgbaImage};

use termleaf::image::{
    decode_bounded, decode_bounded_with_limits, resolve_format, sniff_format, ImageFormat, ImageLimits,
    ImageResourceError,
};

fn encode_image(format: image::ImageFormat, picture: &DynamicImage) -> Vec<u8> {
    let mut cursor = Cursor::new(Vec::new());
    picture.write_to(&mut cursor, format).unwrap_or_else(|error| panic!("encode {format:?}: {error}"));
    cursor.into_inner()
}

fn encode_rgba(format: image::ImageFormat, color: [u8; 4]) -> Vec<u8> {
    encode_image(format, &DynamicImage::ImageRgba8(RgbaImage::from_pixel(2, 2, Rgba(color))))
}

fn red_png() -> Vec<u8> {
    encode_rgba(image::ImageFormat::Png, [255, 0, 0, 255])
}

#[test]
fn img_005_default_policy_matches_the_locked_image_table() {
    let limits = ImageLimits::default();
    assert_eq!(limits.max_input_bytes, 32 * 1024 * 1024);
    assert_eq!(limits.max_dimension, 16_384);
    assert_eq!(limits.max_pixels, 64_000_000);
    assert_eq!(limits.max_allocation_bytes, 256 * 1024 * 1024);
    assert_eq!(limits.max_svg_xml_bytes, 8 * 1024 * 1024);
}

#[test]
fn resolution_is_extension_first_with_magic_winning_when_present() {
    let png = red_png();
    assert_eq!(resolve_format(&png, Some(ImageFormat::Jpeg)), Ok(ImageFormat::Png));
    let tga = encode_rgba(image::ImageFormat::Tga, [255, 0, 0, 255]);
    assert_eq!(resolve_format(&tga, Some(ImageFormat::Tga)), Ok(ImageFormat::Tga));
    assert_eq!(resolve_format(&tga, None), Err(ImageResourceError::UnsupportedFormat));
}

#[test]
fn img_002_animated_gif_previews_only_its_first_frame() {
    let mut cursor = Cursor::new(Vec::new());
    {
        let mut encoder = GifEncoder::new(&mut cursor);
        let first = Frame::new(RgbaImage::from_pixel(2, 2, Rgba([255, 0, 0, 255])));
        let second = Frame::new(RgbaImage::from_pixel(2, 2, Rgba([0, 0, 255, 255])));
        encoder.encode_frame(first).expect("first frame encodes");
        encoder.encode_frame(second).expect("second frame encodes");
    }
    let bytes = cursor.into_inner();
    assert_eq!(sniff_format(&bytes), Ok(ImageFormat::Gif));
    let decoded = decode_bounded(&bytes).expect("animated GIF decodes");
    assert_eq!((decoded.width(), decoded.height()), (2, 2));
    let top_left: [u8; 4] = decoded.rgba()[..4].try_into().expect("four channels");
    assert!(top_left[0] > top_left[2], "first frame stays visible: {top_left:?}");
}

#[test]
fn img_012_truncated_corrupt_and_foreign_inputs_fail_typed_without_panicking() {
    assert_eq!(decode_bounded(&[]), Err(ImageResourceError::UnsupportedFormat));
    assert_eq!(decode_bounded(&[0x89, b'P']), Err(ImageResourceError::UnsupportedFormat));
    let mut spoofed = Vec::from(&b"\x89PNG\r\n\x1a\n"[..]);
    spoofed.extend_from_slice(&[0xFF; 64]);
    assert!(matches!(decode_bounded(&spoofed), Err(ImageResourceError::DecodeFailed { .. })));
    let fixture = red_png();
    let truncated = &fixture[..fixture.len() / 2];
    if let Ok(decoded) = decode_bounded(truncated) {
        assert_eq!(decoded.rgba().len(), 2 * 2 * 4);
    }
    let mut corrupted = fixture.clone();
    let middle = corrupted.len() / 2;
    corrupted[middle] ^= 0xFF;
    corrupted[middle + 1] ^= 0xFF;
    assert!(matches!(decode_bounded(&corrupted), Err(ImageResourceError::DecodeFailed { .. })));
}

#[test]
fn error_messages_name_failure_value_and_recovery() {
    let cases = [
        ImageResourceError::InputTooLarge { size: 40, limit: 32 }.message(),
        ImageResourceError::UnsupportedFormat.message(),
        ImageResourceError::DimensionTooLarge { width: 99, height: 1, limit: 98 }.message(),
        ImageResourceError::TooManyPixels { pixels: 65, limit: 64 }.message(),
        ImageResourceError::AllocationTooLarge { bytes: 300, limit: 256 }.message(),
        ImageResourceError::DecodeFailed { detail: "unexpected end".to_owned() }.message(),
    ];
    for message in &cases {
        assert!(message.contains(';') || message.contains(':'), "states a reason or recovery: {message}");
    }
    assert!(cases[0].contains("40 bytes") && cases[0].contains("32 byte"));
    assert!(cases[2].contains("99x1") && cases[2].contains("98"));
    assert!(cases[3].contains("65 decoded pixels") && cases[3].contains("64"));
    assert!(cases[4].contains("300 bytes") && cases[4].contains("256 byte"));
    assert!(cases[5].contains("truncated or corrupt"));
}

#[test]
fn img_005_input_byte_gate_rejects_before_any_parsing() {
    let fixture = red_png();
    let size = fixture.len() as u64;
    let exact = ImageLimits { max_input_bytes: size, ..ImageLimits::default() };
    assert!(decode_bounded_with_limits(&fixture, &exact, None).is_ok());
    let below = ImageLimits { max_input_bytes: size - 1, ..ImageLimits::default() };
    assert_eq!(
        decode_bounded_with_limits(&fixture, &below, None),
        Err(ImageResourceError::InputTooLarge { size, limit: size - 1 })
    );
    assert_eq!(
        decode_bounded_with_limits(&[0u8; 9], &ImageLimits { max_input_bytes: 8, ..ImageLimits::default() }, None),
        Err(ImageResourceError::InputTooLarge { size: 9, limit: 8 })
    );
}

#[test]
fn img_006_width_and_height_reject_independently_at_the_boundary() {
    let wide = encode_image(image::ImageFormat::Png, &DynamicImage::ImageRgba8(RgbaImage::from_pixel(5, 2, Rgba([1, 2, 3, 255]))));
    let at = ImageLimits { max_dimension: 5, ..ImageLimits::default() };
    assert!(decode_bounded_with_limits(&wide, &at, None).is_ok());
    let below = ImageLimits { max_dimension: 4, ..ImageLimits::default() };
    assert_eq!(
        decode_bounded_with_limits(&wide, &below, None),
        Err(ImageResourceError::DimensionTooLarge { width: 5, height: 2, limit: 4 })
    );
}

#[test]
fn img_007_pixel_and_allocation_budgets_reject_exactly_at_the_boundary() {
    let png = red_png();
    let pixels = ImageLimits { max_pixels: 3, ..ImageLimits::default() };
    assert_eq!(
        decode_bounded_with_limits(&png, &pixels, None),
        Err(ImageResourceError::TooManyPixels { pixels: 4, limit: 3 })
    );
    // PNG reserves eight bytes per pixel: 2x2 needs 32.
    let exact = ImageLimits { max_allocation_bytes: 32, ..ImageLimits::default() };
    assert!(decode_bounded_with_limits(&png, &exact, None).is_ok());
    let short = ImageLimits { max_allocation_bytes: 31, ..ImageLimits::default() };
    assert_eq!(
        decode_bounded_with_limits(&png, &short, None),
        Err(ImageResourceError::AllocationTooLarge { bytes: 32, limit: 31 })
    );
}

#[test]
fn decoded_pixels_are_rgba8() {
    let decoded = decode_bounded(&red_png()).expect("png decodes");
    assert_eq!(decoded.rgba().len(), 16);
    assert_eq!(&decoded.rgba()[..4], &[255, 0, 0, 255]);
}

#[test]
fn listed_extensions_round_trip() {
    for format in [ImageFormat::Png, ImageFormat::Jpeg, ImageFormat::Tga, ImageFormat::Pnm, ImageFormat::OpenExr] {
        assert_eq!(ImageFormat::from_listed_extension(format.extension()), Some(format));
    }
    assert_eq!(ImageFormat::from_listed_extension("jpeg"), None);
}
