use termleaf::model::{Block, BlockKind, Document, DocumentId, InlineKind, InlineSpan, PositionError, Section};

fn sample() -> Document {
    Document::from_single_section(
        DocumentId::new("model-sample".to_owned()),
        Some("Sample".to_owned()),
        "ab\ncdé\n".to_owned(),
        vec![
            Block::new(BlockKind::Paragraph, 0..3),
            Block::new(BlockKind::BlankLine, 3..4),
            Block::new(BlockKind::Paragraph, 4..8),
        ],
    )
    .expect("sample blocks tile the canonical text")
}

#[test]
fn model_003_positions_resolve_at_every_valid_block_boundary() {
    let document = sample();
    let blocks = document.sections()[0].blocks();
    for (index, block) in blocks.iter().enumerate() {
        let start = document.position(0, index, 0).expect("block start is valid");
        let end = document.position(0, index, block.range().len()).expect("block end is valid");
        assert_eq!(start.absolute_byte(&document), block.range().start);
        assert_eq!(end.absolute_byte(&document), block.range().end);
    }
    let mid = document.position(0, 2, 1).expect("mid-paragraph offset");
    assert_eq!(document.block_text(0, 2).expect("text").chars().next(), Some('d'));
    assert_eq!(mid.absolute_byte(&document), 5);
}

#[test]
fn model_004_invalid_sections_blocks_and_offsets_are_rejected() {
    let document = sample();
    assert_eq!(document.position(9, 0, 0), Err(PositionError::Section { section: 9 }));
    assert_eq!(document.position(0, 7, 0), Err(PositionError::Block { section: 0, block: 7 }));
    assert_eq!(
        document.position(0, 0, 4),
        Err(PositionError::OffsetOutsideBlock { block: 0, offset: 4 })
    );
    assert_eq!(document.position(0, 2, 2), Err(PositionError::NotCharBoundary { offset: 2 }));
    assert!(document.first_position().is_ok());
}

#[test]
fn logical_line_numbers_count_canonical_newlines_only() {
    let document = sample();
    assert_eq!(document.logical_line_number(0), 1);
    assert_eq!(document.logical_line_number(2), 1);
    assert_eq!(document.logical_line_number(4), 2);
    assert_eq!(document.logical_line_number(6), 2);
    assert_eq!(document.logical_line_number(usize::MAX), 3, "offsets past the end clamp instead of panicking");
}

#[test]
fn from_single_section_rejects_non_tiling_ranges_without_panic() {
    let result = Document::from_single_section(
        DocumentId::new("broken".to_owned()),
        None,
        "abc".to_owned(),
        vec![Block::new(BlockKind::Paragraph, 0..1), Block::new(BlockKind::Paragraph, 2..4)],
    );
    let message = result.expect_err("gap and overflow are rejected");
    assert!(message.contains("does not continue coverage"));
}

#[test]
fn model_001_multi_section_documents_tile_across_sections() {
    let canonical = "Title One\nbody one\nTitle Two\nbody two\n".to_owned();
    let sections = vec![
        Section::new(
            Some("One".to_owned()),
            vec![Block::new(BlockKind::Heading { level: 1 }, 0..10), Block::new(BlockKind::Paragraph, 10..19)],
        ),
        Section::new(
            Some("Two".to_owned()),
            vec![Block::new(BlockKind::Heading { level: 1 }, 19..29), Block::new(BlockKind::Paragraph, 29..38)],
        ),
    ];
    let document = Document::from_sections(DocumentId::new("multi".to_owned()), None, canonical.clone(), sections)
        .expect("tiling sections assemble");
    assert_eq!(document.sections().len(), 2);
    assert_eq!(document.sections()[0].title(), Some("One"));
    assert_eq!(document.block_text(1, 0), Some("Title Two\n"));
    let position = document.position(1, 0, 0).expect("section two starts");
    assert_eq!(position.absolute_byte(&document), 19);
    let broken = vec![
        Section::new(None, vec![Block::new(BlockKind::Paragraph, 0..4)]),
        Section::new(None, vec![Block::new(BlockKind::Paragraph, 6..8)]),
    ];
    let error = Document::from_sections(DocumentId::new("x".to_owned()), None, canonical, broken).expect_err("gaps reject");
    assert!(error.contains("does not continue coverage"));
}

#[test]
fn inline_spans_report_their_role_inside_the_range_only() {
    let document = sample()
        .with_inline(vec![InlineSpan::new(InlineKind::Strong, 4..5)])
        .expect("span inside one block");
    assert_eq!(document.inline_kind_at(4), Some(InlineKind::Strong));
    assert_eq!(document.inline_kind_at(5), None);
    assert_eq!(document.inline_kind_at(0), None);
}

#[test]
fn inline_spans_outside_the_text_are_rejected() {
    assert!(sample().with_inline(vec![InlineSpan::new(InlineKind::Emphasis, 6..20)]).is_err());
}

#[test]
fn document_title_falls_back_to_the_identifier_stem() {
    let untitled = Document::from_single_section(
        DocumentId::new("plain-id".to_owned()),
        None,
        "x".to_owned(),
        vec![Block::new(BlockKind::Paragraph, 0..1)],
    )
    .expect("tiles");
    assert_eq!(untitled.id().as_str(), "plain-id");
    assert_eq!(untitled.title(), "plain-id");
    assert_eq!(sample().title(), "Sample");
    assert_eq!(sample().len(), 8);
    assert!(!sample().is_empty());
}

#[test]
fn untitled_documents_show_the_stem_of_their_identifier() {
    let with_id = |id: &str| {
        Document::from_single_section(
            DocumentId::new(id.to_owned()),
            None,
            "abc".to_owned(),
            vec![Block::new(BlockKind::Paragraph, 0..3)],
        )
        .expect("tiles")
    };
    assert_eq!(with_id("notes").title(), "notes");
    assert_eq!(with_id("books/novel.txt:1234").title(), "novel");
    assert_eq!(with_id(".hidden").title(), ".hidden");
    assert_eq!(with_id("dir/").title(), "Untitled");
}
