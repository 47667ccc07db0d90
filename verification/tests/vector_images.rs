use std::io::Write;

use termleaf::image::ImageLimits;
use termleaf::structured::{XmlLimits, XmlStructureError};
use termleaf::vector::{
    decode_vector_bounded, decode_vector_bounded_with_limits, preflight_svg, sniff_vector_format, VectorFormat,
    VectorImageError, VectorLimits, VectorWork,
};

fn gzip(data: &[u8]) -> Vec<u8> {
    let mut encoder = flate2::write::GzEncoder::new(Vec::new(), flate2::Compression::default());
    encoder.write_all(data).expect("compress");
    encoder.finish().expect("finish")
}

const SQUARE: &str =
    "<svg xmlns=\"http://www.w3.org/2000/svg\" width=\"4\" height=\"3\"><rect width=\"4\" height=\"3\" fill=\"#ff0000\"/></svg>";

#[test]
fn sniffing_uses_gzip_magic_and_svg_roots_after_the_prolog() {
    assert_eq!(sniff_vector_format(&[0x1f, 0x8b, 0, 0]), Some(VectorFormat::Svgz));
    assert_eq!(sniff_vector_format(SQUARE.as_bytes()), Some(VectorFormat::Svg));
    let prolog = "\u{feff}  <?xml version=\"1.0\"?>\n<!-- made by hand -->\n<SVG>";
    assert_eq!(sniff_vector_format(prolog.as_bytes()), Some(VectorFormat::Svg));
    assert_eq!(sniff_vector_format(b"<!DOCTYPE svg><svg/>"), Some(VectorFormat::Svg));
    assert_eq!(sniff_vector_format(b"<svgx>"), None);
    assert_eq!(sniff_vector_format(b"<?xml version=\"1.0\""), None);
    assert_eq!(sniff_vector_format(b"<html></html>"), None);
    assert_eq!(sniff_vector_format(&[0xff, 0xfe]), None);
}

#[test]
fn preflight_rejects_scripts_animation_and_style_sheets() {
    let limits = VectorLimits::default();
    let script = preflight_svg("<svg><script>alert(1)</script></svg>", &limits);
    assert_eq!(script, Err(VectorImageError::ForbiddenElement { name: "script".to_owned() }));
    let animate = preflight_svg("<svg><svg:Animate/></svg>", &limits);
    assert_eq!(animate, Err(VectorImageError::ForbiddenElement { name: "animate".to_owned() }));
    let style = preflight_svg("<svg><style>rect{}</style></svg>", &limits);
    assert_eq!(style, Err(VectorImageError::UnsupportedFeature { feature: "style sheet" }));
    let filter = preflight_svg("<svg><feGaussianBlur/></svg>", &limits);
    assert_eq!(filter, Err(VectorImageError::UnsupportedFeature { feature: "filter" }));
    let handler = preflight_svg("<svg onload=\"x()\"></svg>", &limits);
    assert_eq!(handler, Err(VectorImageError::ForbiddenAttribute { name: "onload".to_owned() }));
    let timing = preflight_svg("<svg><rect dur='1s'/></svg>", &limits);
    assert_eq!(timing, Err(VectorImageError::ForbiddenAttribute { name: "dur".to_owned() }));
    assert_eq!(preflight_svg("<svg><rect fill='red'/></svg>", &limits), Ok(()));
    let animated_style = preflight_svg("<svg><rect style='transition: all 1s'/></svg>", &limits);
    assert_eq!(animated_style, Err(VectorImageError::ForbiddenAttribute { name: "style".to_owned() }));
}

#[test]
fn preflight_allows_only_local_references() {
    let limits = VectorLimits::default();
    assert_eq!(preflight_svg("<svg><use href=' #shape'/></svg>", &limits), Ok(()));
    assert_eq!(
        preflight_svg("<svg><image xlink:href='http://x/y.png'/></svg>", &limits),
        Err(VectorImageError::ExternalReference { attribute: "href".to_owned() })
    );
    assert_eq!(preflight_svg("<svg><rect fill=\"url('#grad')\"/></svg>", &limits), Ok(()));
    assert_eq!(
        preflight_svg("<svg><rect fill='URL(http://x)'/></svg>", &limits),
        Err(VectorImageError::ExternalReference { attribute: "fill".to_owned() })
    );
    assert_eq!(
        preflight_svg("<svg><rect fill='url(#a'/></svg>", &limits),
        Err(VectorImageError::ExternalReference { attribute: "fill".to_owned() })
    );
    assert_eq!(
        preflight_svg("<svg><g class='@import x'/></svg>", &limits),
        Err(VectorImageError::ExternalReference { attribute: "class".to_owned() })
    );
    assert_eq!(preflight_svg("<!-- <script> --><svg/><![CDATA[<script>]]>", &limits), Ok(()));
}

#[test]
fn preflight_work_limits_are_inclusive() {
    let limits = VectorLimits { max_path_commands: 3, max_path_data_bytes: 9, ..VectorLimits::default() };
    assert_eq!(preflight_svg("<svg><path d='M1 1L2 2Z'/></svg>", &limits), Ok(()));
    assert_eq!(
        preflight_svg("<svg><path d='M1 1L2 2ZZ'/></svg>", &limits),
        Err(VectorImageError::WorkLimit { work: VectorWork::PathDataBytes, observed: 10, limit: 9 })
    );
    assert_eq!(
        preflight_svg("<svg><path d='M1L2Z'/><path d='M'/></svg>", &limits),
        Err(VectorImageError::WorkLimit { work: VectorWork::PathCommands, observed: 4, limit: 3 })
    );
    let transforms = VectorLimits { max_transform_operations: 2, ..VectorLimits::default() };
    assert_eq!(
        preflight_svg("<svg><g transform='scale(2) rotate(3) translate(1)'/></svg>", &transforms),
        Err(VectorImageError::WorkLimit { work: VectorWork::TransformOperations, observed: 3, limit: 2 })
    );
    let attributes = VectorLimits { max_attribute_bytes: 3, ..VectorLimits::default() };
    assert_eq!(
        preflight_svg("<svg><g id='\u{e9}ab'/></svg>", &attributes),
        Err(VectorImageError::WorkLimit { work: VectorWork::AttributeBytes, observed: 4, limit: 3 })
    );
}

#[test]
fn plain_svg_decodes_to_straight_rgba() {
    let image = decode_vector_bounded(SQUARE.as_bytes()).expect("decodes");
    assert_eq!((image.width(), image.height()), (4, 3));
    assert_eq!(image.rgba().len(), 48);
    assert_eq!(&image.rgba()[0..4], &[255, 0, 0, 255]);
}

#[test]
fn svgz_decodes_and_rejects_trailing_or_oversized_streams() {
    let packed = gzip(SQUARE.as_bytes());
    let image = decode_vector_bounded(&packed).expect("svgz decodes");
    assert_eq!((image.width(), image.height()), (4, 3));

    let mut trailing = packed.clone();
    trailing.extend_from_slice(b"junk");
    assert_eq!(decode_vector_bounded(&trailing), Err(VectorImageError::GzipTrailingData));

    let tight = ImageLimits { max_svg_xml_bytes: SQUARE.len() as u64 - 1, ..ImageLimits::default() };
    assert_eq!(
        decode_vector_bounded_with_limits(&packed, &tight, &VectorLimits::default(), None),
        Err(VectorImageError::XmlTooLarge { limit: SQUARE.len() as u64 - 1 })
    );
    let exact = ImageLimits { max_svg_xml_bytes: SQUARE.len() as u64, ..ImageLimits::default() };
    assert!(decode_vector_bounded_with_limits(&packed, &exact, &VectorLimits::default(), None).is_ok());

    let truncated = &packed[..packed.len() - 6];
    assert_eq!(decode_vector_bounded(truncated), Err(VectorImageError::GzipTruncated));
}

#[test]
fn gates_run_in_order_before_any_parsing() {
    let limits = ImageLimits { max_input_bytes: 4, ..ImageLimits::default() };
    assert_eq!(
        decode_vector_bounded_with_limits(SQUARE.as_bytes(), &limits, &VectorLimits::default(), None),
        Err(VectorImageError::InputTooLarge { size: SQUARE.len() as u64, limit: 4 })
    );
    assert_eq!(decode_vector_bounded(b"plain words"), Err(VectorImageError::UnsupportedFormat));
    assert_eq!(
        decode_vector_bounded_with_limits(&[0x3c, 0xff], &ImageLimits::default(), &VectorLimits::default(), Some(VectorFormat::Svg)),
        Err(VectorImageError::InvalidUtf8)
    );
    let deep = VectorLimits { xml: XmlLimits { max_depth: 1, max_nodes: 10 }, ..VectorLimits::default() };
    assert_eq!(
        decode_vector_bounded_with_limits(b"<svg><g/></svg>", &ImageLimits::default(), &deep, None),
        Err(VectorImageError::UnsafeXml { source: XmlStructureError::TooDeep { depth: 2, limit: 1 } })
    );
    let small = ImageLimits { max_dimension: 3, ..ImageLimits::default() };
    assert_eq!(
        decode_vector_bounded_with_limits(SQUARE.as_bytes(), &small, &VectorLimits::default(), None),
        Err(VectorImageError::DimensionTooLarge { width: 4, height: 3, limit: 3 })
    );
    let few = ImageLimits { max_pixels: 11, ..ImageLimits::default() };
    assert_eq!(
        decode_vector_bounded_with_limits(SQUARE.as_bytes(), &few, &VectorLimits::default(), None),
        Err(VectorImageError::TooManyPixels { pixels: 12, limit: 11 })
    );
    let cramped = ImageLimits { max_allocation_bytes: 47, ..ImageLimits::default() };
    assert_eq!(
        decode_vector_bounded_with_limits(SQUARE.as_bytes(), &cramped, &VectorLimits::default(), None),
        Err(VectorImageError::AllocationTooLarge { bytes: 48, limit: 47 })
    );
    assert!(matches!(decode_vector_bounded(b"<svg><rect"), Err(VectorImageError::ParseFailed { .. })));
}

#[test]
fn vector_messages_name_the_work_and_the_limit() {
    let error = VectorImageError::WorkLimit { work: VectorWork::PathCommands, observed: 4, limit: 3 };
    assert_eq!(error.message(), "SVG PathCommands work 4 exceeds the 3 limit");
    let error = VectorImageError::ForbiddenElement { name: "script".to_owned() };
    assert_eq!(error.message(), "SVG element 'script' is not allowed in a static image");
    assert_eq!(VectorImageError::GzipTrailingData.message(), "SVGZ contains trailing or concatenated data");
}
