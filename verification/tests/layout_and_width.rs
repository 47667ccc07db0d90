use std::collections::HashSet;

use unicode_segmentation::UnicodeSegmentation;

use termleaf::layout::{layout_document, PageLayout, VisualRow};
use termleaf::model::{Block, BlockKind, Document, DocumentId, InlineKind};
use termleaf::text::document_from_text;
use termleaf::viewport::{plan_visible_images, viewport_row_texts, ImageSlot, RowCell};
use termleaf::width::{caret_notation, display_width, tab_advance, visible_text};

fn doc(text: &str) -> Document {
    document_from_text(DocumentId::new("layout-test".to_owned()), None, text).expect("test text parses")
}

fn rendered(layout: &PageLayout, document: &Document) -> Vec<String> {
    layout.rows().iter().map(|row| row.text(document)).collect()
}

#[test]
fn tabs_expand_to_eight_cell_stops() {
    assert_eq!(tab_advance(0), 8);
    assert_eq!(tab_advance(7), 1);
    assert_eq!(tab_advance(8), 8);
}

#[test]
fn wide_and_narrow_characters_measure_in_cells() {
    assert_eq!(display_width("abc", 0), 3);
    assert_eq!(display_width("漢字", 0), 4);
    assert_eq!(display_width("a\tb", 0), 9);
}

#[test]
fn measurement_matches_rendered_visible_text() {
    for (raw, column) in [
        ("plain words", 0),
        ("a\ttabbed\trow", 3),
        ("jo\nined", 0),
        ("\u{1}[ok\u{7F}", 2),
        ("漢字テスト", 5),
    ] {
        let rendered = visible_text(raw, column);
        assert_eq!(display_width(raw, column), display_width(&rendered, column));
        assert!(!rendered.contains('\n'));
        assert!(!rendered.chars().any(|c| matches!(u32::from(c), 0x00..=0x1F | 0x7F)));
    }
}

#[test]
fn control_bytes_count_caret_cells_without_leaking() {
    assert_eq!(visible_text("\u{1}[", 0), "^A[");
    assert_eq!(visible_text("ok\u{7F}", 0), "ok^?");
    assert!(caret_notation(0x41).is_none());
    assert_eq!(caret_notation(0x01), Some(['^', 'A']));
    assert_eq!(caret_notation(0x07), Some(['^', 'G']));
    assert_eq!(caret_notation(0x7F), Some(['^', '?']));
}

#[test]
fn lay_011_ambiguous_width_characters_measure_narrow_deterministically() {
    for character in ['\u{B1}', '\u{25CB}', '\u{A4}', '\u{2190}'] {
        let first = display_width(&character.to_string(), 0);
        assert_eq!(first, 1, "{character:?} measures narrow");
        assert_eq!(first, display_width(&character.to_string(), 37), "{character:?} measurement never depends on the column");
    }
    let text = "\u{B1}\u{25CB} value \u{2190} previous\n".repeat(4);
    let document = document_from_text(DocumentId::new("ambiguous".to_owned()), None, &text).expect("ambiguous fixture parses");
    let rows = layout_document(&document, 21);
    let again = layout_document(&document, 21);
    assert_eq!(rows.rows(), again.rows());
}

#[test]
fn lay_001_no_row_exceeds_available_cells_across_widths() {
    let document = doc("The quick brown fox jumps over the lazy dog.\n\n\
         漢字の文章は二倍の幅を使います。\n\n\
         supersupersupersupersupersupersupersuper long unbreakable run\n");
    for width in [2u16, 3, 5, 8, 13, 21, 40, 79, 80, 120, 200] {
        let layout = layout_document(&document, width);
        for row in layout.rows() {
            assert!(row.cells() <= width, "width {width}: row used {} cells", row.cells());
        }
    }
}

#[test]
fn lay_002_grapheme_clusters_are_never_split_or_clipped() {
    let sample = "emoji \u{1F468}\u{200D}\u{1F469}\u{200D}\u{1F467}\u{200D}\u{1F466} family\n\
                  flag \u{1F1FA}\u{1F1F8} and e\u{301}acute\n";
    let document = doc(sample);
    let block_base = document.sections()[0].blocks()[0].range().start;
    let paragraph = document.block_text(0, 0).expect("paragraph");
    let starts: HashSet<usize> =
        paragraph.grapheme_indices(true).map(|(index, _)| index).chain(std::iter::once(paragraph.len())).collect();
    for width in [2u16, 4, 7, 11] {
        let layout = layout_document(&document, width);
        for row in &layout.rows()[..layout.rows().len()] {
            for span in row.spans() {
                let relative_end = span.range().end - block_base;
                assert!(starts.contains(&relative_end), "width {width}: span ends inside cluster at byte {relative_end}");
            }
        }
    }
    let narrow = rendered(&layout_document(&document, 4), &document).join("");
    assert!(narrow.contains('\u{1F468}'));
    assert!(narrow.contains('\u{1F1FA}'));
}

#[test]
fn lay_003_cjk_lines_break_deterministically_at_opportunities() {
    let document = doc("漢字のテスト。\n");
    let rows = rendered(&layout_document(&document, 6), &document);
    assert_eq!(rows, ["漢字の", "テス", "ト。"]);
}

#[test]
fn lay_004_tabs_and_control_bytes_render_as_safe_visible_text() {
    let document = doc("col\tumn\u{1B}end\n");
    let rows = rendered(&layout_document(&document, 40), &document);
    assert_eq!(rows.len(), 1);
    let text = &rows[0];
    assert!(text.contains("col     umn"), "tab expands: {text}");
    assert!(text.contains("^[end"), "escape becomes caret: {text}");
    assert!(!text.chars().any(|c| matches!(u32::from(c), 0x00..=0x1F | 0x7F)));
}

#[test]
fn lay_005_span_ranges_are_ordered_in_bounds_and_reconstruct_content() {
    let document = doc("first paragraph wraps here\n\nsecond one follows after blanks\n");
    let layout = layout_document(&document, 12);
    let canonical_len = document.len();
    let mut last_end = 0usize;
    for row in layout.rows() {
        for span in row.spans() {
            let range = span.range();
            assert!(range.start >= last_end, "ranges stay ordered");
            assert!(range.end <= canonical_len, "ranges stay in bounds");
            last_end = range.end;
        }
    }
    for (index, block) in document.sections()[0].blocks().iter().enumerate() {
        if block.kind() != BlockKind::Paragraph {
            continue;
        }
        let mut reconstructed = String::new();
        for row in layout.rows().iter().filter(|row| row.block() == index) {
            for span in row.spans() {
                reconstructed.push_str(&span.visible(&document, 0));
            }
        }
        let mut expected = visible_text(document.block_text(0, index).expect("block text"), 0);
        if expected.ends_with(' ') {
            expected.pop();
        }
        assert_eq!(reconstructed, expected, "block {index} reconstructs");
    }
}

#[test]
fn lay_006_resizing_keeps_the_anchor_passage_located() {
    let document = doc("alpha beta gamma delta epsilon zeta eta theta iota kappa\n");
    let anchor_byte = 24usize;
    for width in [40u16, 15, 60, 9] {
        let layout = layout_document(&document, width);
        let index = layout.row_after(anchor_byte);
        assert!(index < layout.rows().len());
        let covered: usize = layout.rows()[..=index]
            .iter()
            .flat_map(VisualRow::spans)
            .map(|span| span.range().end)
            .max()
            .unwrap_or_default();
        assert!(covered > anchor_byte, "width {width} covers the anchor");
    }
}

#[test]
fn lay_008_degenerate_geometry_makes_progress_without_panicking() {
    let cases = [("", 5_u16), ("unbreakableunbreakableunbreakable", 1), ("      deeply indented", 3), ("a", 1), ("word word word", 2)];
    for (text, width) in cases {
        let document = doc(text);
        let layout = layout_document(&document, width);
        for row in layout.rows() {
            assert!(row.cells() <= width.max(1));
        }
    }
    let long_run = format!("{}\n", "x".repeat(500));
    let document = doc(&long_run);
    let layout = layout_document(&document, 16);
    assert_eq!(layout.rows().len(), 500 / 16 + 1);
}

#[test]
fn hard_wrapped_lines_reflow_into_flowing_paragraphs() {
    let document = doc("one two\nthree four\n\nnext para\n");
    let rows = rendered(&layout_document(&document, 80), &document);
    assert_eq!(rows, ["one two three four", "", "next para"]);
}

#[test]
fn zero_width_layout_is_empty_for_the_too_small_state() {
    let document = doc("content\n");
    assert!(layout_document(&document, 0).rows().is_empty());
}

#[test]
fn nav_011_default_open_pages_from_the_first_content_row() {
    let document = document_from_text(DocumentId::new("v".into()), None, "one\n\ntwo\n\nthree\n").expect("fixture");
    let layout = layout_document(&document, 40);
    let anchor = document.first_position().expect("start");
    let rows = viewport_row_texts(&document, &layout, anchor.absolute_byte(&document), 2);
    assert_eq!(rows, [vec![RowCell { text: "one".to_owned(), decoration: None }], Vec::new()]);
}

#[test]
fn viewport_clamps_at_the_end_without_panicking() {
    let document = document_from_text(DocumentId::new("v".into()), None, "only line\n").expect("fixture");
    let layout = layout_document(&document, 40);
    let rows = viewport_row_texts(&document, &layout, 0, 50);
    assert_eq!(rows.len(), 1);
    let empty = viewport_row_texts(&document, &layout, 0, 0);
    assert!(empty.is_empty());
}

#[test]
fn zero_width_documents_yield_no_rows() {
    let document = document_from_text(DocumentId::new("v".into()), None, "").expect("e");
    let layout = layout_document(&document, 40);
    assert!(viewport_row_texts(&document, &layout, 0, 10).is_empty());
}

#[test]
fn decorated_spans_reach_viewport_cells() {
    let document = document_from_text(DocumentId::new("d".into()), None, "plain heavy tail\n")
        .expect("fixture")
        .with_inline(vec![termleaf::model::InlineSpan::new(InlineKind::Strong, 6..11)])
        .expect("span inside the paragraph");
    let layout = layout_document(&document, 40);
    let rows = viewport_row_texts(&document, &layout, 0, 1);
    let flat: Vec<(String, Option<InlineKind>)> =
        rows.iter().flatten().map(|cell| (cell.text.clone(), cell.decoration)).collect();
    assert!(flat.contains(&("heavy".to_owned(), Some(InlineKind::Strong))), "{flat:?}");
}

#[test]
fn row_after_past_the_end_clamps_to_the_last_row() {
    let document = doc("one\n\ntwo\n");
    let layout = layout_document(&document, 10);
    assert_eq!(layout.row_after(usize::MAX), layout.rows().len() - 1);
    assert_eq!(layout.width(), 10);
}

#[test]
fn ordered_list_numbering_restarts_after_an_intervening_paragraph() {
    let canonical = "first\nsecond\n\ntext\n\nrestarts\n".to_owned();
    let ordered = BlockKind::ListItem { depth: 0, ordered: true };
    let document = Document::from_single_section(
        DocumentId::new("lists".to_owned()),
        None,
        canonical,
        vec![
            Block::new(ordered, 0..6),
            Block::new(ordered, 6..13),
            Block::new(BlockKind::BlankLine, 13..14),
            Block::new(BlockKind::Paragraph, 14..19),
            Block::new(BlockKind::BlankLine, 19..20),
            Block::new(ordered, 20..29),
        ],
    )
    .expect("tiles");
    let layout = layout_document(&document, 24);
    let shown: Vec<String> = layout.rows().iter().map(|row| row.text(&document)).collect();
    assert_eq!(shown, ["1. first", "2. second", "", "text", "", "1. restarts"]);
    assert!(layout.rows()[2].spans().is_empty());
}

#[test]
fn aligned_tables_pad_columns_to_their_widest_cell_and_keep_every_cell() {
    let canonical = "Tree | Age\nOak | 300 years\nFig | 9";
    let cells = vec![0..4, 7..10, 11..14, 17..26, 27..30, 33..34];
    let document = Document::from_single_section(
        DocumentId::new("table".to_owned()),
        None,
        canonical.to_owned(),
        vec![Block::table(0..canonical.len(), cells)],
    )
    .expect("table document");
    let layout = layout_document(&document, 40);
    assert_eq!(rendered(&layout, &document), vec!["Tree | Age ", "Oak  | 300 years ", "Fig  | 9"]);
    for row in layout.rows() {
        assert_eq!(row.padding().len(), 2);
        assert_eq!(row.padding()[1], 0);
        assert!(row.cells() <= 40);
    }
    assert_eq!(layout.rows()[0].padding()[0], 0);
    assert_eq!(layout.rows()[1].padding()[0], 1);
    assert_eq!(layout.rows()[2].padding()[0], 1);
    let joined: String = layout
        .rows()
        .iter()
        .flat_map(|row| row.spans().iter())
        .map(|span| &canonical[span.range().clone()])
        .collect();
    assert_eq!(joined, canonical);
}

#[test]
fn a_word_wider_than_the_row_is_split_between_grapheme_clusters() {
    let document = doc("abcdefghij\n");
    let layout = layout_document(&document, 4);
    assert_eq!(rendered(&layout, &document), vec!["abcd", "efgh", "ij"]);
    assert!(layout.rows().iter().all(|row| row.cells() <= 4));
}

#[test]
fn visible_image_previews_start_at_their_reserved_blank_rows() {
    let canonical = "intro\n\ncaption\n";
    let document = Document::from_single_section(
        DocumentId::new("images".to_owned()),
        None,
        canonical.to_owned(),
        vec![
            Block::new(BlockKind::Paragraph, 0..6),
            Block::new(BlockKind::BlankLine, 6..7),
            Block::new(BlockKind::Image, 7..15),
        ],
    )
    .expect("image document");
    let layout = layout_document(&document, 40);
    let slots = plan_visible_images(&document, &layout, 0, 10);
    assert_eq!(slots, vec![ImageSlot { row: 3, section: 0, block: 2 }]);
    assert!(plan_visible_images(&document, &layout, 0, 0).is_empty());
    let short = plan_visible_images(&document, &layout, 0, 3);
    assert_eq!(short, vec![ImageSlot { row: 3, section: 0, block: 2 }]);
}

#[test]
fn rows_break_at_opportunities_and_fill_greedily() {
    let document = doc("alpha beta gamma delta");
    let layout = layout_document(&document, 11);
    assert_eq!(rendered(&layout, &document), vec!["alpha beta ", "gamma delta"]);
    let narrow = layout_document(&document, 10);
    assert_eq!(rendered(&narrow, &document), vec!["alpha ", "beta ", "gamma ", "delta"]);
}

#[test]
fn a_word_wider_than_the_row_is_cut_alone() {
    let document = doc("ab abcdefghij cd");
    let layout = layout_document(&document, 4);
    assert_eq!(rendered(&layout, &document), vec!["ab ", "abcd", "efgh", "ij ", "cd"]);
}
