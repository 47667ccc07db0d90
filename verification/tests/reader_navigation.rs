use termleaf::layout::{layout_document, PageLayout};
use termleaf::model::{Block, BlockKind, Document, DocumentId, NavigationPoint, Position, PositionError, Section};
use termleaf::reader::{
    absolute_to_position, jump_document_end, jump_document_start, jump_section_end, jump_section_start, location_line,
    percent, step_line, step_page, step_section, Direction, Mode,
};
use termleaf::text::document_from_text;

const TEXT: &str = "alpha beta gamma\ndelta epsilon zeta\n\n\
                    eta theta iota\nkappa lambda mu\nnu xi omicron\n";

fn fixture(width: u16) -> (Document, PageLayout, Position) {
    let document = document_from_text(DocumentId::new("nav".to_owned()), None, TEXT).expect("fixture parses");
    let layout = layout_document(&document, width);
    let start = document.first_position().expect("start");
    (document, layout, start)
}

fn anchor_at(document: &Document, layout: &PageLayout, byte: usize) -> Position {
    let index = layout.row_after(byte);
    let row = &layout.rows()[index];
    let span = row.spans().first().expect("content row");
    absolute_to_position(document, span.range().start).expect("valid")
}

#[test]
fn nav_001_next_then_previous_line_restores_the_anchor() {
    let (document, layout, start) = fixture(20);
    let forward = step_line(&layout, &document, start, Direction::TowardEnd).expect("moves away from start");
    assert_ne!(forward, start);
    let restored = step_line(&layout, &document, forward, Direction::TowardStart).expect("returns");
    assert_eq!(restored, start);
}

#[test]
fn nav_001_line_steps_land_on_content_not_blank_rows() {
    let (document, layout, start) = fixture(20);
    let mut anchor = start;
    for _ in 0..6 {
        let Some(next) = step_line(&layout, &document, anchor, Direction::TowardEnd) else {
            break;
        };
        let row = layout.row_after(next.absolute_byte(&document));
        assert!(!layout.rows()[row].spans().is_empty());
        anchor = next;
    }
}

#[test]
fn nav_002_repeated_next_page_advances_until_the_clamp() {
    let (document, layout, start) = fixture(18);
    let mut anchor = start;
    let mut movements = 0;
    while let Some(next) = step_page(&layout, &document, anchor, 3, Direction::TowardEnd) {
        assert!(next.absolute_byte(&document) >= anchor.absolute_byte(&document));
        if next == anchor {
            break;
        }
        anchor = next;
        movements += 1;
        assert!(movements < 50, "no loop");
    }
    assert!(movements > 0);
    let end = anchor_at(&document, &layout, document.len().saturating_sub(1));
    assert_eq!(anchor, end, "clamps at the final content");
}

#[test]
fn nav_003_previous_page_after_next_page_returns_without_resize() {
    let (document, layout, start) = fixture(18);
    let paged_down = step_page(&layout, &document, start, 4, Direction::TowardEnd).expect("page down");
    let back = step_page(&layout, &document, paged_down, 4, Direction::TowardStart).expect("page up");
    assert_eq!(back, start);
}

#[test]
fn nav_004_boundary_navigation_clamps_safely() {
    let (document, layout, start) = fixture(20);
    assert_eq!(step_line(&layout, &document, start, Direction::TowardStart), None);
    assert_eq!(step_page(&layout, &document, start, 5, Direction::TowardStart), None);
    let end = jump_document_end(&document).expect("end exists");
    assert_eq!(
        step_line(&layout, &document, end, Direction::TowardEnd),
        None,
        "the last row has no successor"
    );
}

#[test]
fn nav_012_continuous_mode_moves_exactly_one_visual_row() {
    let (document, layout, start) = fixture(24);
    let first = step_line(&layout, &document, start, Direction::TowardEnd).expect("one row forward");
    let rows_moved = i64::try_from(layout.row_after(first.absolute_byte(&document))).unwrap_or(i64::MAX)
        - i64::try_from(layout.row_after(start.absolute_byte(&document))).unwrap_or(i64::MAX);
    assert_eq!(rows_moved, 1);
    let back = step_line(&layout, &document, first, Direction::TowardStart).expect("one row backward");
    assert_eq!(back, start);
}

#[test]
fn mode_toggle_preserves_labels_and_round_trip() {
    assert_eq!(Mode::default(), Mode::Paged);
    assert_eq!(Mode::Paged.label(), "PAGED");
    assert_eq!(Mode::Continuous.label(), "CONT");
    assert_eq!(Mode::Paged.toggled().toggled(), Mode::Paged);
}

#[test]
fn progress_percent_is_floored_and_monotonic() {
    let (document, _, _) = fixture(80);
    let layout = layout_document(&document, 80);
    let start = document.first_position().expect("start");
    let mid = anchor_at(&document, &layout, document.len() / 2);
    let end = jump_document_end(&document).expect("end");
    let low = percent(&document, start);
    let middle = percent(&document, mid);
    let high = percent(&document, end);
    assert!(low <= middle && middle <= high);
    assert_eq!(low, 0);
    assert_eq!(high, 100);
}

#[test]
fn positions_survive_width_changes_for_the_same_passage() {
    let (document, _, start) = fixture(60);
    let byte = start.absolute_byte(&document);
    let narrow_layout = layout_document(&document, 14);
    let relocated = anchor_at(&document, &narrow_layout, byte);
    let rebuilt = document.position(0, relocated.block(), relocated.offset()).expect("relocated stays valid");
    assert_eq!(rebuilt.absolute_byte(&document), byte);
}

#[test]
fn nav_014_section_and_document_jumps_are_four_distinct_actions() {
    let (document, layout, _) = fixture(40);
    let section_start = jump_section_start(&layout, &document, 0).expect("section start");
    let document_start = document.first_position().expect("document start");
    assert_eq!(section_start, document_start);
    let section_end = jump_section_end(&layout, &document, 0).expect("section end");
    let document_end = jump_document_end(&document).expect("document end");
    assert_eq!(section_end, document_end);
    assert_ne!(section_start, section_end);
}

#[test]
fn nav_005_section_steps_follow_declared_order_with_duplicate_positions() {
    let base = Document::from_sections(
        DocumentId::new("nav005".to_owned()),
        None,
        "one\ntwo\nthree".to_owned(),
        vec![
            Section::new(None, vec![Block::new(BlockKind::Paragraph, 0..4)]),
            Section::new(None, vec![Block::new(BlockKind::Paragraph, 4..8)]),
            Section::new(None, vec![Block::new(BlockKind::Paragraph, 8..13)]),
        ],
    )
    .expect("tiles");
    let first = base.position(0, 0, 0).expect("first");
    let exact_middle = base.position(1, 0, 1).expect("fragment offset");
    let last = base.position(2, 0, 0).expect("last");
    let document = base.with_navigation(vec![
        NavigationPoint::new("Three first", last),
        NavigationPoint::new("One", first),
        NavigationPoint::new("One duplicate", first),
        NavigationPoint::new("Two detail", exact_middle),
    ]);
    let expected = [("Three first", last), ("One", first), ("One duplicate", first), ("Two detail", exact_middle)];
    for (point, (title, position)) in document.navigation_points().iter().zip(expected) {
        assert_eq!(point.title(), title);
        assert_eq!(point.position(), position);
    }
    for index in 0..expected.len() - 1 {
        assert_eq!(
            step_section(&document, Some(index), Direction::TowardEnd),
            Some((index + 1, expected[index + 1].1))
        );
        assert_eq!(
            step_section(&document, Some(index + 1), Direction::TowardStart),
            Some((index, expected[index].1))
        );
    }
    assert_eq!(step_section(&document, None, Direction::TowardEnd), Some((0, last)));
    assert_eq!(
        step_section(&document, None, Direction::TowardStart),
        Some((expected.len() - 1, exact_middle))
    );
}

#[test]
fn section_steps_cross_empty_sections_with_the_same_absolute_byte() {
    let document = Document::from_sections(
        DocumentId::new("empty-sections".to_owned()),
        None,
        "one".to_owned(),
        vec![
            Section::new(None, vec![Block::new(BlockKind::Paragraph, 0..3)]),
            Section::new(None, Vec::new()),
            Section::new(None, Vec::new()),
        ],
    )
    .expect("empty sections are valid");
    let points = document.navigation_points();
    assert_eq!(points[1].position().absolute_byte(&document), 3);
    assert_eq!(points[2].position().absolute_byte(&document), 3);
    let second = step_section(&document, Some(0), Direction::TowardEnd).expect("second point");
    let third = step_section(&document, Some(second.0), Direction::TowardEnd).expect("third point");
    assert_eq!(second, (1, points[1].position()));
    assert_eq!(third, (2, points[2].position()));
    assert_eq!(step_section(&document, Some(third.0), Direction::TowardStart), Some(second));
}

#[test]
fn invalid_positions_surface_typed_errors_not_panics() {
    let (document, _, _) = fixture(40);
    assert_eq!(document.position(0, 999, 0), Err(PositionError::Block { section: 0, block: 999 }));
}

#[test]
fn document_start_jump_lands_on_the_first_content_row() {
    let (document, layout, start) = fixture(20);
    assert_eq!(jump_document_start(&layout, &document), Some(start));
}

#[test]
fn location_line_counts_canonical_newlines_before_the_anchor() {
    let (document, _, start) = fixture(20);
    assert_eq!(location_line(&document, start), 1);
    let end = jump_document_end(&document).expect("end");
    assert!(location_line(&document, end) > 1);
}

#[test]
fn line_steps_forward_then_back_restore_every_content_row_anchor() {
    let (document, layout, start) = fixture(20);
    let mut anchor = start;
    let mut visited = 0;
    while let Some(next) = step_line(&layout, &document, anchor, Direction::TowardEnd) {
        let back = step_line(&layout, &document, next, Direction::TowardStart).expect("returns");
        assert_eq!(back, anchor);
        anchor = next;
        visited += 1;
        assert!(visited < 50, "no loop");
    }
    assert!(visited >= 4);
}

#[test]
fn block_starting_rows_anchor_in_their_own_block() {
    let (document, layout, start) = fixture(40);
    // Row 0 is "alpha beta gamma"; stepping down lands on the next row's own
    // block, never on the end of the block before it.
    let mut anchor = start;
    while let Some(next) = step_line(&layout, &document, anchor, Direction::TowardEnd) {
        let row = layout.row_after(next.absolute_byte(&document));
        assert_eq!(layout.rows()[row].block(), next.block());
        anchor = next;
    }
}

#[test]
fn page_back_restores_the_prior_anchor_when_the_hop_fit_and_skipped_no_blank_row() {
    let d = document_from_text(DocumentId::new("p".into()), None, "aaa bbb ccc\n\nddd eee\n").unwrap();
    let layout = layout_document(&d, 4);
    let anchor = d.position(0, 0, 4).unwrap();
    let f = step_page(&layout, &d, anchor, 3, Direction::TowardEnd).expect("forward");
    assert_eq!(f.absolute_byte(&d), 13);
    assert_eq!(step_page(&layout, &d, f, 3, Direction::TowardStart), Some(anchor));
}
