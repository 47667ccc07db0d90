use termleaf::error::DocumentError;
use termleaf::model::{Block, BlockKind, Document, DocumentId};
use termleaf::text::{document_from_text, load_text_bytes, normalize_newlines, TextLimits};

const PATH: &str = "sample.txt";

fn kinds(document: &Document) -> Vec<BlockKind> {
    document.sections()[0].blocks().iter().map(Block::kind).collect()
}

fn paragraph_texts(document: &Document) -> Vec<String> {
    document.sections()[0]
        .blocks()
        .iter()
        .enumerate()
        .filter(|(_, b)| b.kind() == BlockKind::Paragraph)
        .map(|(i, _)| document.block_text(0, i).expect("paragraph text").to_owned())
        .collect()
}

#[test]
fn txt_001_valid_utf8_without_bom_decodes_exactly() {
    let document = load_text_bytes(PATH, "héllo\nwörld\n".as_bytes(), &TextLimits::default()).expect("valid UTF-8 loads");
    assert_eq!(document.canonical(), "héllo\nwörld\n");
    assert_eq!(paragraph_texts(&document), ["héllo\nwörld\n"]);
    assert_eq!(document.title(), "sample");
}

#[test]
fn txt_002_utf8_bom_is_removed_once_and_content_is_unchanged() {
    let plain = load_text_bytes(PATH, "content\n".as_bytes(), &TextLimits::default()).expect("plain loads");
    let marked = load_text_bytes(
        PATH,
        [0xEF, 0xBB, 0xBF].iter().copied().chain(b"content\n".iter().copied()).collect::<Vec<u8>>().as_slice(),
        &TextLimits::default(),
    )
    .expect("BOM-marked loads");
    assert_eq!(marked.canonical(), plain.canonical());
    assert_eq!(kinds(&marked), kinds(&plain));
    assert!(!marked.canonical().starts_with('\u{feff}'));
}

fn utf16_bytes(text: &str, big_endian: bool) -> Vec<u8> {
    let mut units = vec![0xFEFF_u16];
    units.extend(text.encode_utf16());
    units
        .iter()
        .flat_map(|unit| if big_endian { unit.to_be_bytes() } else { unit.to_le_bytes() })
        .collect()
}

#[test]
fn txt_003_marked_utf16_le_and_be_decode_without_replacement() {
    for big_endian in [false, true] {
        let bytes = utf16_bytes("Zoë\ncafé\n", big_endian);
        let document = load_text_bytes(PATH, &bytes, &TextLimits::default()).expect("marked UTF-16 decodes");
        assert_eq!(document.canonical(), "Zoë\ncafé\n");
        assert!(!document.canonical().contains('\u{FFFD}'));
    }
}

#[test]
fn txt_004_invalid_utf8_and_unmarked_utf16_are_rejected_with_reasons() {
    let invalid = load_text_bytes(PATH, &[0x68, 0xFF, 0x6F], &TextLimits::default()).expect_err("invalid UTF-8 is rejected");
    let DocumentError::InvalidEncoding { path, offset, cause } = invalid else {
        panic!("expected InvalidEncoding, got {invalid:?}");
    };
    assert_eq!(path, PATH);
    assert_eq!(offset, 1);
    assert_eq!(cause, "invalid UTF-8 sequence");

    let mut unmarked = String::from("hi").encode_utf16().collect::<Vec<u16>>();
    unmarked.insert(0, 0x68);
    let bytes = unmarked.iter().flat_map(|unit| unit.to_le_bytes()).collect::<Vec<u8>>();
    let rejected = load_text_bytes(PATH, &bytes, &TextLimits::default()).expect_err("unmarked UTF-16 is rejected");
    let DocumentError::InvalidEncoding { offset, cause, .. } = rejected else {
        panic!("expected InvalidEncoding, got {rejected:?}");
    };
    assert_eq!(offset, 1);
    assert_eq!(cause, "the content appears to be UTF-16 without a byte-order mark");
}

#[test]
fn txt_005_lf_crlf_and_cr_variants_produce_equivalent_documents() {
    let base = load_text_bytes(PATH, b"a\nb\n", &TextLimits::default()).expect("LF loads");
    for variant in [&b"a\r\nb\r\n"[..], &b"a\rb\r"[..]] {
        let other = load_text_bytes(PATH, variant, &TextLimits::default()).expect("variant loads");
        assert_eq!(other.canonical(), base.canonical());
        assert_eq!(kinds(&other), kinds(&base));
    }
}

#[test]
fn txt_006_paragraphs_and_repeated_blank_lines_survive_conversion() {
    let document =
        load_text_bytes(PATH, b"first para line one\nline two\n\n\nsecond para\n", &TextLimits::default()).expect("parses");
    assert_eq!(
        kinds(&document),
        [BlockKind::Paragraph, BlockKind::BlankLine, BlockKind::BlankLine, BlockKind::Paragraph]
    );
    assert_eq!(paragraph_texts(&document), ["first para line one\nline two\n", "second para\n"]);
}

#[test]
fn txt_007_empty_and_whitespace_only_files_are_stable() {
    let empty = load_text_bytes(PATH, b"", &TextLimits::default()).expect("empty file parses");
    assert!(empty.is_empty());
    assert!(empty.sections()[0].blocks().is_empty());
    assert!(empty.first_position().is_err());
    assert_eq!(empty.navigation_points()[0].title(), "Section 1");
    assert_eq!(empty.navigation_points()[0].position().absolute_byte(&empty), 0);

    let blanks = load_text_bytes(PATH, b"  \n\t\n", &TextLimits::default()).expect("whitespace-only parses");
    assert_eq!(kinds(&blanks), [BlockKind::BlankLine, BlockKind::BlankLine]);
    let start = blanks.first_position().expect("blank lines are navigable");
    assert_eq!(start.absolute_byte(&blanks), 0);
}

#[test]
fn txt_008_byte_limit_holds_at_below_and_above_the_boundary() {
    let limits = TextLimits { max_bytes: 10 };
    let below = load_text_bytes(PATH, b"012345678", &limits);
    assert!(below.is_ok());
    let exact = load_text_bytes(PATH, b"0123456789", &limits);
    assert!(exact.is_ok());
    let above = load_text_bytes(PATH, b"0123456789A", &limits).expect_err("over-limit input is rejected");
    assert!(matches!(above, DocumentError::TooLarge { .. }));
    assert!(above.message().contains("limit is 10 bytes"));
}

#[test]
fn txt_009_extremely_long_line_parses_with_progress_and_no_panic() {
    let long_line = "x".repeat(300_000);
    let source = format!("{long_line}\n");
    let document =
        document_from_text(DocumentId::new("long".to_owned()), None, &source).expect("bounded long line parses");
    let blocks = document.sections()[0].blocks();
    assert_eq!(blocks.len(), 1);
    assert_eq!(blocks[0].range().len(), source.len());
    let end = document.position(0, 0, source.len()).expect("end boundary is valid");
    assert_eq!(end.absolute_byte(&document), source.len());
}

#[test]
fn model_002_traversal_is_deterministic_complete_and_unduplicated() {
    let source = "one\n\n\ntwo three\nfour\nfive\n\nsix\n";
    let document = document_from_text(DocumentId::new("traverse".to_owned()), None, source).expect("fixture parses");
    let mut visited_kinds = Vec::new();
    let mut reconstructed = String::new();
    for section in document.sections() {
        for (index, block) in section.blocks().iter().enumerate() {
            visited_kinds.push((index, block.kind()));
            reconstructed.push_str(document.block_text(0, index).expect("block text"));
        }
    }
    assert_eq!(
        visited_kinds.iter().map(|(_, kind)| *kind).collect::<Vec<_>>(),
        [
            BlockKind::Paragraph,
            BlockKind::BlankLine,
            BlockKind::BlankLine,
            BlockKind::Paragraph,
            BlockKind::BlankLine,
            BlockKind::Paragraph,
        ]
    );
    assert_eq!(reconstructed, source);
    let again: Vec<_> =
        document.sections()[0].blocks().iter().map(|block| (block.kind(), block.range().clone())).collect();
    assert_eq!(
        again,
        document.sections()[0].blocks().iter().map(|block| (block.kind(), block.range().clone())).collect::<Vec<_>>()
    );
}

#[test]
fn carriage_returns_normalize_to_line_feeds() {
    assert_eq!(normalize_newlines("a\r\nb\rc\n"), "a\nb\nc\n");
    assert_eq!(normalize_newlines("\r\r\n"), "\n\n");
}

#[test]
fn title_comes_from_the_file_stem() {
    let document = load_text_bytes("/books/war-and-peace.txt", b"x\n", &TextLimits::default()).expect("loads");
    assert_eq!(document.title(), "war-and-peace");
}

#[test]
fn default_text_limit_is_thirty_two_mebibytes() {
    assert_eq!(TextLimits::default().max_bytes, 32 * 1024 * 1024);
}
