use std::io::Cursor;
use std::io::Write;

use image::{DynamicImage, Rgba, RgbaImage};

use termleaf::image::{ImageFormat, ImageLimits, ImageResourceError};
use termleaf::image_job::{
    declared_image_format, decode_image_bytes, dimensions_from_error, process_image, submit_reason,
    DeclaredImageFormat, ImageFailure, PreparedImage,
};
use termleaf::terminal_image::{CellRenderError, ImageBackend, ImageId, NativeEncodeError, Rgb};
use termleaf::vector::VectorFormat;
use termleaf::worker::SubmitError;

fn png(width: u32, height: u32) -> Vec<u8> {
    let picture = DynamicImage::ImageRgba8(RgbaImage::from_pixel(width, height, Rgba([0, 128, 255, 255])));
    let mut cursor = Cursor::new(Vec::new());
    picture.write_to(&mut cursor, image::ImageFormat::Png).expect("png encodes");
    cursor.into_inner()
}

#[test]
fn references_declare_formats_by_extension_in_any_case() {
    assert!(matches!(
        declared_image_format("images/cover.PNG"),
        Some(DeclaredImageFormat::Raster(ImageFormat::Png))
    ));
    assert!(matches!(
        declared_image_format("art/figure.svg"),
        Some(DeclaredImageFormat::Vector(VectorFormat::Svg))
    ));
    assert!(matches!(
        declared_image_format("art/figure.SvgZ"),
        Some(DeclaredImageFormat::Vector(VectorFormat::Svgz))
    ));
    assert!(declared_image_format("images/cover").is_none());
    assert!(declared_image_format("images/.hidden").is_none());
    assert!(declared_image_format("notes.unknownformat").is_none());
}

#[test]
fn failures_give_short_caption_reasons() {
    assert_eq!(
        ImageFailure::Decode(ImageResourceError::UnsupportedFormat).short_reason(),
        "decode: unsupported format"
    );
    assert_eq!(
        ImageFailure::Decode(ImageResourceError::DimensionTooLarge { width: 9, height: 2, limit: 4 }).short_reason(),
        "decode: dimension limit"
    );
    assert_eq!(ImageFailure::Read("gone".to_owned()).short_reason(), "read: gone");
    assert_eq!(
        ImageFailure::Render(CellRenderError::InvalidBuffer { expected: 16, actual: 3 }).short_reason(),
        "render: RGBA buffer has 3 bytes, expected 16"
    );
    assert_eq!(
        ImageFailure::Native(NativeEncodeError::OutputTooLarge { limit: 7 }).short_reason(),
        "native transport: native image output exceeds the 7 byte limit"
    );
}

#[test]
fn dimension_rejections_report_the_declared_size() {
    let failure = ImageFailure::Decode(ImageResourceError::DimensionTooLarge { width: 9, height: 2, limit: 4 });
    assert_eq!(dimensions_from_error(&failure), Some((9, 2)));
    assert_eq!(dimensions_from_error(&ImageFailure::Decode(ImageResourceError::UnsupportedFormat)), None);
}

#[test]
fn refused_submissions_give_short_reasons() {
    assert_eq!(submit_reason(SubmitError::QueueFull), "queue full");
    assert_eq!(
        submit_reason(SubmitError::ByteBudgetExceeded { in_flight: 1, requested: 2, limit: 2 }),
        "worker byte budget exceeded"
    );
    assert_eq!(submit_reason(SubmitError::StaleGeneration), "stale generation");
    assert_eq!(submit_reason(SubmitError::ShutDown), "workers shut down");
}

#[test]
fn decoding_routes_by_declaration_and_signature() {
    let limits = ImageLimits::default();
    let bytes = png(3, 2);
    let decoded = decode_image_bytes(&bytes, &limits, None).expect("png decodes");
    assert_eq!((decoded.width(), decoded.height()), (3, 2));
    // A vector declaration does not override a raster signature.
    let decoded = decode_image_bytes(&bytes, &limits, Some(DeclaredImageFormat::Vector(VectorFormat::Svg)))
        .expect("png decodes despite the svg name");
    assert_eq!((decoded.width(), decoded.height()), (3, 2));
    assert!(matches!(
        decode_image_bytes(b"plain words", &limits, None),
        Err(ImageFailure::Decode(ImageResourceError::UnsupportedFormat))
    ));
    assert!(matches!(
        decode_image_bytes(b"plain words", &limits, Some(DeclaredImageFormat::Vector(VectorFormat::Svg))),
        Err(ImageFailure::Vector(_))
    ));
}

#[test]
fn image_jobs_prepare_cells_or_report_the_size() {
    let bytes = png(4, 4);
    let id = ImageId::new(1).expect("id");
    match process_image(&bytes, None, ImageBackend::TrueColorCells, id, 2, 2, Rgb(0, 0, 0), None) {
        Ok(PreparedImage::Cells(frame)) => assert_eq!((frame.width(), frame.height()), (2, 1)),
        other => panic!("expected cells, got {other:?}"),
    }
    let failed = process_image(&bytes, None, ImageBackend::Caption, id, 2, 2, Rgb(0, 0, 0), None)
        .expect_err("the caption backend shows no image");
    assert_eq!(failed.dimensions, Some((4, 4)));
    assert!(matches!(failed.reason, ImageFailure::Native(NativeEncodeError::NotNative)));
    let failed = process_image(b"junk", None, ImageBackend::TrueColorCells, id, 2, 2, Rgb(0, 0, 0), None)
        .expect_err("junk does not decode");
    assert_eq!(failed.dimensions, None);
    assert_eq!(failed.reason.short_reason(), "decode: unsupported format");
}

#[test]
fn img_004_declared_extensions_enable_tga_svg_and_svgz_with_magic_precedence() {
    let limits = ImageLimits::default();
    let tga = {
        let source = image::RgbaImage::from_pixel(2, 2, image::Rgba([90, 80, 70, 255]));
        let mut cursor = Cursor::new(Vec::new());
        image::DynamicImage::ImageRgba8(source).write_to(&mut cursor, image::ImageFormat::Tga).expect("tga encodes");
        cursor.into_inner()
    };
    let decoded = decode_image_bytes(&tga, &limits, declared_image_format("safe/plate.tga")).expect("tga decodes");
    assert_eq!((decoded.width(), decoded.height()), (2, 2));

    let svg = br#"<svg xmlns="http://www.w3.org/2000/svg" width="2" height="3"><rect width="2" height="3" fill="red"/></svg>"#;
    let decoded = decode_image_bytes(svg, &limits, declared_image_format("plate.svg")).expect("svg decodes");
    assert_eq!((decoded.width(), decoded.height()), (2, 3));

    let mut encoder = flate2::write::GzEncoder::new(Vec::new(), flate2::Compression::default());
    encoder.write_all(svg).expect("gzip writes");
    let svgz = encoder.finish().expect("gzip finishes");
    let decoded = decode_image_bytes(&svgz, &limits, declared_image_format("plate.svgz")).expect("svgz decodes");
    assert_eq!((decoded.width(), decoded.height()), (2, 3));

    let png = {
        let source = image::RgbaImage::from_pixel(1, 1, image::Rgba([1, 2, 3, 255]));
        let mut cursor = Cursor::new(Vec::new());
        image::DynamicImage::ImageRgba8(source).write_to(&mut cursor, image::ImageFormat::Png).expect("png encodes");
        cursor.into_inner()
    };
    let decoded = decode_image_bytes(&png, &limits, declared_image_format("wrong.tga")).expect("png decodes");
    assert_eq!(decoded.rgba(), &vec![1, 2, 3, 255]);
}
