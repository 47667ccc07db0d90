use std::io::Write;

use termleaf::archive::{ArchiveError, ArchiveLimits, PreflightedArchive};
use termleaf::epub::build_document;
use termleaf::error::DocumentError;
use zip::CompressionMethod;

const PATH: &str = "book.epub";

const CONTAINER: &str = r#"<?xml version="1.0"?>
<container version="1.0" xmlns="urn:oasis:names:tc:opendocument:xmlns:container"><rootfiles><rootfile full-path="OEBPS/content.opf" media-type="application/oebps-package+xml"/></rootfiles></container>"#;

const NAV: &str = r#"<?xml version="1.0" encoding="UTF-8"?>
<html xmlns="http://www.w3.org/1999/xhtml" xmlns:epub="http://www.idpf.org/2007/ops"><head><title>Contents</title></head><body><nav epub:type="toc"><ol><li><a href="ch1.xhtml">First</a></li><li><a href="ch2.xhtml">Second</a></li></ol></nav></body></html>"#;

fn opf(layout: &str, spine: &str) -> String {
    format!(
        r#"<?xml version="1.0" encoding="UTF-8"?>
<package xmlns="http://www.idpf.org/2007/opf" version="3.0" unique-identifier="id"><metadata xmlns:dc="http://purl.org/dc/elements/1.1/"><dc:identifier id="id">urn:test</dc:identifier><dc:title>  Test Book  </dc:title><dc:language>en</dc:language><meta property="dcterms:modified">2020-01-01T00:00:00Z</meta>{layout}</metadata><manifest><item id="nav" href="nav.xhtml" media-type="application/xhtml+xml" properties="nav"/><item id="c1" href="ch1.xhtml" media-type="application/xhtml+xml"/><item id="c2" href="ch2.xhtml" media-type="application/xhtml+xml"/></manifest><spine>{spine}</spine></package>"#
    )
}

fn chapter(body: &str) -> String {
    format!(r#"<?xml version="1.0" encoding="UTF-8"?><html xmlns="http://www.w3.org/1999/xhtml"><head><title>c</title></head><body>{body}</body></html>"#)
}

fn epub(members: &[(&str, &str)]) -> Vec<u8> {
    let mut buffer = std::io::Cursor::new(Vec::new());
    {
        let mut writer = zip::ZipWriter::new(&mut buffer);
        let options = zip::write::SimpleFileOptions::default().compression_method(CompressionMethod::Stored);
        for (name, text) in members {
            writer.start_file(*name, options).expect("start");
            writer.write_all(text.as_bytes()).expect("body");
        }
        writer.finish().expect("finish");
    }
    buffer.into_inner()
}

fn book(layout: &str, spine: &str, extra: &[(&str, &str)], with_second: bool) -> Result<termleaf::model::Document, DocumentError> {
    let package = opf(layout, spine);
    let first = chapter("<p>Hello</p>");
    let second = chapter("<p>World</p>");
    let mut members: Vec<(&str, &str)> = vec![
        ("mimetype", "application/epub+zip"),
        ("META-INF/container.xml", CONTAINER),
        ("OEBPS/content.opf", package.as_str()),
        ("OEBPS/nav.xhtml", NAV),
        ("OEBPS/ch1.xhtml", first.as_str()),
    ];
    if with_second {
        members.push(("OEBPS/ch2.xhtml", second.as_str()));
    }
    members.extend_from_slice(extra);
    let archive = PreflightedArchive::open(epub(&members), PATH, &ArchiveLimits::default()).expect("archive passes preflight");
    build_document(PATH, &archive)
}

const SPINE: &str = r#"<itemref idref="c1"/><itemref idref="nav" linear="no"/><itemref idref="c2"/>"#;

#[test]
fn linear_spine_chapters_join_in_order_with_contents_titles() {
    let document = book("", SPINE, &[], true).expect("the book builds");
    assert_eq!(document.canonical(), "Hello\nWorld");
    assert_eq!(document.title(), "Test Book");
    assert_eq!(document.id().as_str(), "book.epub:epub");
    let titles: Vec<Option<&str>> = document.sections().iter().map(|section| section.title()).collect();
    assert_eq!(titles, vec![Some("First"), Some("Second")]);
    let points: Vec<(&str, usize, usize, usize)> = document
        .navigation_points()
        .iter()
        .map(|point| (point.title(), point.position().section(), point.position().block(), point.position().offset()))
        .collect();
    assert_eq!(points, vec![("First", 0, 0, 0), ("Second", 1, 0, 0)]);
}

#[test]
fn chapters_without_blocks_make_no_section_and_non_linear_items_are_skipped() {
    let spine = r#"<itemref idref="nav" linear="no"/><itemref idref="c2"/>"#;
    let document = book("", spine, &[], true).expect("the book builds");
    assert_eq!(document.canonical(), "World");
    let titles: Vec<Option<&str>> = document.sections().iter().map(|section| section.title()).collect();
    assert_eq!(titles, vec![Some("Second")]);
}

#[test]
fn an_encryption_declaration_refuses_the_book() {
    let error = book("", SPINE, &[("META-INF/encryption.xml", "<encryption/>")], true).expect_err("encrypted");
    match error {
        DocumentError::Archive(ArchiveError::EncryptedMember { path, member }) => {
            assert_eq!(path, PATH);
            assert_eq!(member, "META-INF/encryption.xml");
        },
        other => panic!("expected an encrypted member, got {other:?}"),
    }
}

#[test]
fn a_fixed_layout_declaration_refuses_the_book() {
    let layout = r#"<meta property="rendition:layout">pre-paginated</meta>"#;
    let error = book(layout, SPINE, &[], true).expect_err("fixed layout");
    assert!(matches!(error, DocumentError::UnsupportedFixedLayout { ref path } if path == PATH), "{error:?}");
}

#[test]
fn a_spine_item_without_its_resource_is_an_invalid_package() {
    let error = book("", SPINE, &[], false).expect_err("missing chapter");
    match error {
        DocumentError::InvalidPackage { path, detail } => {
            assert_eq!(path, PATH);
            assert_eq!(detail, "the spine references missing resource 'OEBPS/ch2.xhtml'");
        },
        other => panic!("expected an invalid package, got {other:?}"),
    }
}

#[test]
fn a_snapshot_preflights_once_and_builds_from_the_inspected_bytes() {
    let package = opf("", SPINE);
    let first = chapter("<p>Hello</p>");
    let second = chapter("<p>World</p>");
    let members: Vec<(&str, &str)> = vec![
        ("mimetype", "application/epub+zip"),
        ("META-INF/container.xml", CONTAINER),
        ("OEBPS/content.opf", package.as_str()),
        ("OEBPS/nav.xhtml", NAV),
        ("OEBPS/ch1.xhtml", first.as_str()),
        ("OEBPS/ch2.xhtml", second.as_str()),
    ];
    let snapshot = termleaf::epub::EpubSnapshot::open(PATH, epub(&members), &ArchiveLimits::default()).expect("preflight");
    let document = snapshot.build().expect("the book builds");
    assert_eq!(document.canonical(), "Hello\nWorld");
    let refused = termleaf::epub::EpubSnapshot::open(PATH, b"not a zip".to_vec(), &ArchiveLimits::default());
    assert!(matches!(refused, Err(DocumentError::Archive(_))));
}
