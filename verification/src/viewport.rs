//! Viewport slicing: which laid-out rows appear on screen.
//!
//! Converts a layout plus an anchor into per-row cells carrying visible
//! text and its inline role. Staying string-based keeps this module free of
//! any UI dependency while giving the renderer exactly what it must paint.
use vstd::prelude::*;

use crate::layout::{PageLayout, Span, VisualRow, cap, span_visible, spec_row_after};
use crate::model::{BlockKind, Document, InlineKind};
use crate::strings::push_char;
use crate::width::{capped_width, width_from};

verus! {

/// One paintable piece of a row: text plus its semantic role.
#[derive(Clone, Debug, PartialEq, Eq)]
pub struct RowCell {
    /// Visible text already transformed (tabs expanded, controls escaped).
    pub text: String,
    /// Inline role for styling; plain when absent.
    pub decoration: Option<InlineKind>,
}

/// A cell as plain values: its text and role.
pub open spec fn cell_view(c: RowCell) -> (Seq<char>, Option<InlineKind>) {
    (c.text@, c.decoration)
}

/// The cells of the spans `spans` of a row, starting at `column`: each
/// non-empty visible text with its role, then a padding cell of spaces when
/// the span's padding is positive. Columns advance by measured cells,
/// capped at `u16::MAX`; the row prefix does not count.
pub open spec fn span_cells(doc: &Document, spans: Seq<Span>, padding: Seq<u16>, column: int) -> (
    Seq<(Seq<char>, Option<InlineKind>)>,
    int,
)
    decreases spans.len(),
{
    if spans.len() == 0 {
        (Seq::empty(), column)
    } else {
        let (before, c) = span_cells(doc, spans.drop_last(), padding, column);
        let i = spans.len() - 1;
        let v = span_visible(doc, spans.last(), c);
        let with_text = if v.len() > 0 {
            before.push((v, spans.last().spec_decoration()))
        } else {
            before
        };
        let c1 = cap(c + cap(width_from(v, c)));
        if i < padding.len() && padding[i] > 0 {
            (with_text.push((Seq::new(padding[i] as nat, |j: int| ' '), None)), c1)
        } else {
            (with_text, c1)
        }
    }
}

/// The paintable cells of one row: its prefix, when any, then its spans.
pub open spec fn row_cells(doc: &Document, row: VisualRow) -> Seq<(Seq<char>, Option<InlineKind>)> {
    let head = if row.spec_prefix().len() > 0 {
        seq![(row.spec_prefix(), None::<InlineKind>)]
    } else {
        Seq::empty()
    };
    head + span_cells(doc, row.spec_spans(), row.spec_padding(), 0).0
}

/// The first row a viewport anchored at `anchor` shows.
pub open spec fn viewport_top(rows: Seq<VisualRow>, anchor: int) -> int {
    let after = spec_row_after(rows, anchor);
    if after < rows.len() - 1 { after } else { rows.len() - 1 }
}

/// `n` spaces.
fn spaces(n: u16) -> (s: String)
    ensures
        s@ == Seq::new(n as nat, |j: int| ' '),
{
    let mut s = String::new();
    let mut k: u16 = 0;
    while k < n
        invariant
            k <= n,
            s@ == Seq::new(k as nat, |j: int| ' '),
        decreases n - k,
    {
        push_char(&mut s, ' ');
        k = k + 1;
        assert(s@ =~= Seq::new(k as nat, |j: int| ' '));
    }
    s
}

/// The paintable cells of one row.
fn cells_of_row(document: &Document, row: &VisualRow) -> (cells: Vec<RowCell>)
    ensures
        cells@.map_values(|c: RowCell| cell_view(c)) == row_cells(document, *row),
{
    let mut cells: Vec<RowCell> = Vec::new();
    let ghost head = if row.spec_prefix().len() > 0 {
        seq![(row.spec_prefix(), None::<InlineKind>)]
    } else {
        Seq::<(Seq<char>, Option<InlineKind>)>::empty()
    };
    let prefix = row.prefix();
    if !prefix.is_empty() {
        cells.push(RowCell { text: prefix.to_owned(), decoration: None });
    }
    assert(cells@.map_values(|c: RowCell| cell_view(c)) =~= head);
    let spans = row.spans();
    let padding = row.padding();
    let mut column: u16 = 0;
    let mut i: usize = 0;
    assert(spans@.take(0) =~= Seq::<Span>::empty());
    while i < spans.len()
        invariant
            i <= spans@.len(),
            spans@ == row.spec_spans(),
            padding@ == row.spec_padding(),
            head == (if row.spec_prefix().len() > 0 {
                seq![(row.spec_prefix(), None::<InlineKind>)]
            } else {
                Seq::<(Seq<char>, Option<InlineKind>)>::empty()
            }),
            cells@.map_values(|c: RowCell| cell_view(c)) == head + span_cells(
                document,
                spans@.take(i as int),
                padding@,
                0,
            ).0,
            column as int == span_cells(document, spans@.take(i as int), padding@, 0).1,
        decreases spans@.len() - i,
    {
        let ghost before = cells@.map_values(|c: RowCell| cell_view(c));
        proof {
            assert(spans@.take(i as int + 1).drop_last() =~= spans@.take(i as int));
        }
        let span = &spans[i];
        let visible = span.visible(document, column);
        let ghost v = visible@;
        assert(v == span_visible(document, spans@.take(i as int + 1).last(), column as int));
        let w = capped_width(visible.as_str(), column);
        let next_column = if column as u32 + w as u32 > u16::MAX as u32 { u16::MAX } else { column + w };
        let ghost prev = span_cells(document, spans@.take(i as int), padding@, 0).0;
        let ghost with_text = if v.len() > 0 {
            prev.push((v, span.spec_decoration()))
        } else {
            prev
        };
        if !visible.as_str().is_empty() {
            let ghost old_cells = cells@;
            cells.push(RowCell { text: visible, decoration: span.decoration() });
            assert(cells@.map_values(|c: RowCell| cell_view(c)) =~= old_cells.map_values(
                |c: RowCell| cell_view(c),
            ).push((v, span.spec_decoration())));
        }
        assert(cells@.map_values(|c: RowCell| cell_view(c)) =~= head + with_text);
        if i < padding.len() && padding[i] > 0 {
            let ghost old_cells = cells@;
            let pad = spaces(padding[i]);
            cells.push(RowCell { text: pad, decoration: None });
            assert(cells@.map_values(|c: RowCell| cell_view(c)) =~= old_cells.map_values(
                |c: RowCell| cell_view(c),
            ).push((Seq::new(padding@[i as int] as nat, |j: int| ' '), None)));
        }
        column = next_column;
        proof {
            let now = cells@.map_values(|c: RowCell| cell_view(c));
            let (sc, _) = span_cells(document, spans@.take(i as int + 1), padding@, 0);
            assert(now =~= head + sc);
        }
        i = i + 1;
    }
    proof {
        assert(spans@.take(spans@.len() as int) =~= spans@);
    }
    cells
}

/// Builds the visible row cells for one viewport of `height` rows.
///
/// The anchor's row becomes the first visible row; when fewer rows remain,
/// the window ends at the last row. No rows, or a zero height, give nothing.
pub fn viewport_row_texts(document: &Document, layout: &PageLayout, anchor_byte: usize, height: u16) -> (viewport: Vec<Vec<RowCell>>)
    ensures
        ({
            let rows = layout.spec_rows();
            if rows.len() == 0 || height == 0 {
                viewport@.len() == 0
            } else {
                let top = viewport_top(rows, anchor_byte as int);
                let end = if top + height < rows.len() { top + height } else { rows.len() as int };
                &&& viewport@.len() == end - top
                &&& forall|k: int|
                    0 <= k < viewport@.len() ==> (#[trigger] viewport@[k])@.map_values(
                        |c: RowCell| cell_view(c),
                    ) == row_cells(document, rows[top + k])
            }
        }),
{
    let rows = layout.rows();
    if rows.len() == 0 || height == 0 {
        return Vec::new();
    }
    let after = layout.row_after(anchor_byte);
    let top = if after < rows.len() - 1 { after } else { rows.len() - 1 };
    let remaining = rows.len() - top;
    let end = if (height as usize) < remaining { top + height as usize } else { rows.len() };
    let mut viewport: Vec<Vec<RowCell>> = Vec::new();
    let mut r = top;
    while r < end
        invariant
            rows@ == layout.spec_rows(),
            top <= r <= end <= rows@.len(),
            viewport@.len() == r - top,
            forall|k: int|
                0 <= k < viewport@.len() ==> (#[trigger] viewport@[k])@.map_values(
                    |c: RowCell| cell_view(c),
                ) == row_cells(document, rows@[top + k]),
        decreases end - r,
    {
        let cells = cells_of_row(document, &rows[r]);
        viewport.push(cells);
        r = r + 1;
    }
    viewport
}


/// Where an image preview goes on screen: the viewport row it starts at and
/// the image block it shows.
#[derive(Clone, Copy, Debug, PartialEq, Eq, Structural)]
pub struct ImageSlot {
    pub row: u16,
    pub section: usize,
    pub block: usize,
}

/// The first row from `j` on, before `end`, that leaves the block owning
/// row `i` or carries no span: where that block's preview goes.
pub open spec fn overlay_row(rows: Seq<VisualRow>, i: int, j: int, end: int) -> int
    decreases end - j,
{
    if j >= end || j < 0 || rows[j].spec_section() != rows[i].spec_section() || rows[j].spec_block()
        != rows[i].spec_block() || rows[j].spec_spans().len() == 0 {
        j
    } else {
        overlay_row(rows, i, j + 1, end)
    }
}

/// Whether row `i` is the first on screen (from `top`) of its block.
pub open spec fn opens_block(rows: Seq<VisualRow>, top: int, i: int) -> bool {
    i == top || rows[i - 1].spec_section() != rows[i].spec_section() || rows[i - 1].spec_block()
        != rows[i].spec_block()
}

/// Whether `row` belongs to an image block of `doc`.
pub open spec fn shows_image(doc: &Document, row: VisualRow) -> bool {
    &&& row.spec_section() < doc.spec_sections().len()
    &&& row.spec_block() < doc.spec_sections()[row.spec_section() as int].spec_blocks().len()
    &&& doc.spec_sections()[row.spec_section() as int].spec_blocks()[row.spec_block() as int].spec_kind()
        == BlockKind::Image
}

/// The preview slots of the image blocks that open on screen among rows
/// `i..end`, in row order.
pub open spec fn image_slots(doc: &Document, rows: Seq<VisualRow>, top: int, end: int, i: int) -> Seq<ImageSlot>
    decreases end - i,
{
    if i >= end || i < top {
        Seq::empty()
    } else {
        let rest = image_slots(doc, rows, top, end, i + 1);
        if opens_block(rows, top, i) && shows_image(doc, rows[i]) {
            seq![
                ImageSlot {
                    row: (overlay_row(rows, i, i, end) - top) as u16,
                    section: rows[i].spec_section(),
                    block: rows[i].spec_block(),
                },
            ] + rest
        } else {
            rest
        }
    }
}

/// The image previews to place for a viewport of `height` rows anchored at
/// `anchor_byte`: for every image block whose rows open on screen, its
/// preview goes at the first of its rows, from there on, that carries no
/// span (its reserved blank rows), or at the viewport's end.
pub fn plan_visible_images(document: &Document, layout: &PageLayout, anchor_byte: usize, height: u16) -> (slots: Vec<
    ImageSlot,
>)
    ensures
        ({
            let rows = layout.spec_rows();
            if rows.len() == 0 || height == 0 {
                slots@.len() == 0
            } else {
                let top = viewport_top(rows, anchor_byte as int);
                let end = if top + height < rows.len() { top + height } else { rows.len() as int };
                slots@ == image_slots(document, rows, top, end, top)
            }
        }),
{
    let rows = layout.rows();
    if rows.len() == 0 || height == 0 {
        return Vec::new();
    }
    let after = layout.row_after(anchor_byte);
    let top = if after < rows.len() - 1 { after } else { rows.len() - 1 };
    let remaining = rows.len() - top;
    let end = if (height as usize) < remaining { top + height as usize } else { rows.len() };
    let sections = document.sections();
    let ghost target = image_slots(document, rows@, top as int, end as int, top as int);
    let mut slots: Vec<ImageSlot> = Vec::new();
    let mut i = top;
    while i < end
        invariant
            rows@ == layout.spec_rows(),
            sections@ == document.spec_sections(),
            top <= i <= end <= rows@.len(),
            end - top <= height,
            target == image_slots(document, rows@, top as int, end as int, top as int),
            slots@ + image_slots(document, rows@, top as int, end as int, i as int) == target,
        decreases end - i,
    {
        let row = &rows[i];
        let opens = i == top || rows[i - 1].section() != row.section() || rows[i - 1].block() != row.block();
        let image = row.section() < sections.len() && row.block() < sections[row.section()].blocks().len()
            && sections[row.section()].blocks()[row.block()].kind() == BlockKind::Image;
        if opens && image {
            let mut j = i;
            while j < end && rows[j].section() == row.section() && rows[j].block() == row.block()
                && rows[j].spans().len() > 0
                invariant
                    rows@ == layout.spec_rows(),
                    i <= j <= end <= rows@.len(),
                    *row == rows@[i as int],
                    overlay_row(rows@, i as int, j as int, end as int) == overlay_row(
                        rows@,
                        i as int,
                        i as int,
                        end as int,
                    ),
                decreases end - j,
            {
                j = j + 1;
            }
            let slot = ImageSlot { row: (j - top) as u16, section: row.section(), block: row.block() };
            proof {
                assert(slots@.push(slot) + image_slots(document, rows@, top as int, end as int, i + 1) =~= slots@
                    + image_slots(document, rows@, top as int, end as int, i as int));
            }
            slots.push(slot);
        }
        i = i + 1;
    }
    proof {
        assert(image_slots(document, rows@, top as int, end as int, i as int) =~= Seq::<ImageSlot>::empty());
        assert(slots@ + Seq::<ImageSlot>::empty() =~= slots@);
    }
    slots
}

} // verus!
