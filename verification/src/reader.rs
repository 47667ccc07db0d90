//! Reading state: the logical anchor, reading modes, and navigation.
//!
//! Every navigation action moves one validated logical position; viewports
//! are derived later from that anchor plus a layout. Nothing here depends on
//! a terminal, so all movement rules are stated and proved over plain values.
use vstd::prelude::*;

use crate::layout::{PageLayout, Span, VisualRow, covered, rows_chain, rows_end, span_link, spans_end, spans_max_end, spans_ok, spec_row_after};
use crate::model::{
    Document,
    Position,
    absolute_fits,
    count_newlines,
    lemma_block_facts,
    position_check,
    spec_absolute,
    valid_position,
};
use crate::strings::char_boundary;

verus! {

/// How the viewport advances through the document.
#[derive(Clone, Copy, Debug, PartialEq, Eq, Structural)]
pub enum Mode {
    /// One content viewport per step; the default reading mode.
    Paged,
    /// Scrolling by visual rows through the same layout.
    Continuous,
}

impl Default for Mode {
    fn default() -> (m: Self)
        ensures
            m == Mode::Paged,
    {
        Mode::Paged
    }
}

impl Mode {
    /// Short label for the status line; never color-encoded.
    pub fn label(self) -> (l: &'static str)
        ensures
            l@ == match self {
                Mode::Paged => "PAGED"@,
                Mode::Continuous => "CONT"@,
            },
    {
        match self {
            Mode::Paged => "PAGED",
            Mode::Continuous => "CONT",
        }
    }

    /// The other mode, for single-key toggling; toggling twice is the
    /// identity.
    pub fn toggled(self) -> (m: Self)
        ensures
            m != self,
            m == spec_toggled(self),
            spec_toggled(m) == self,
    {
        match self {
            Mode::Paged => Mode::Continuous,
            Mode::Continuous => Mode::Paged,
        }
    }
}

/// The other reading mode.
pub open spec fn spec_toggled(m: Mode) -> Mode {
    match m {
        Mode::Paged => Mode::Continuous,
        Mode::Continuous => Mode::Paged,
    }
}

/// Direction for line, page, and section steps.
#[derive(Clone, Copy, Debug, PartialEq, Eq, Structural)]
pub enum Direction {
    TowardStart,
    TowardEnd,
}

/// Whether row `k` of `rows` shows content (it has at least one span).
pub open spec fn has_content(rows: Seq<VisualRow>, k: int) -> bool {
    rows[k].spec_spans().len() > 0
}

/// The first content row at or after `from`.
pub open spec fn next_content(rows: Seq<VisualRow>, from: int) -> Option<int>
    decreases rows.len() - from,
{
    if from < 0 || from >= rows.len() {
        None
    } else if has_content(rows, from) {
        Some(from)
    } else {
        next_content(rows, from + 1)
    }
}

/// The last content row at or before `from`.
pub open spec fn prev_content(rows: Seq<VisualRow>, from: int) -> Option<int>
    decreases from + 1,
{
    if from < 0 || from >= rows.len() {
        None
    } else if has_content(rows, from) {
        Some(from)
    } else {
        prev_content(rows, from - 1)
    }
}

proof fn lemma_next_content(rows: Seq<VisualRow>, from: int)
    requires
        0 <= from,
    ensures
        match next_content(rows, from) {
            Some(k) => from <= k < rows.len() && has_content(rows, k) && forall|j: int|
                from <= j < k ==> !has_content(rows, j),
            None => forall|j: int| from <= j < rows.len() ==> !has_content(rows, j),
        },
    decreases rows.len() - from,
{
    if from < rows.len() && !has_content(rows, from) {
        lemma_next_content(rows, from + 1);
    }
}

proof fn lemma_prev_content(rows: Seq<VisualRow>, from: int)
    requires
        from < rows.len(),
    ensures
        match prev_content(rows, from) {
            Some(k) => 0 <= k <= from && has_content(rows, k) && forall|j: int|
                k < j <= from ==> !has_content(rows, j),
            None => forall|j: int| 0 <= j <= from ==> !has_content(rows, j),
        },
    decreases from + 1,
{
    if from >= 0 && !has_content(rows, from) {
        lemma_prev_content(rows, from - 1);
    }
}

fn next_content_row(layout: &PageLayout, from: usize) -> (r: Option<usize>)
    ensures
        match r {
            Some(k) => next_content(layout.spec_rows(), from as int) == Some(k as int),
            None => next_content(layout.spec_rows(), from as int) is None,
        },
{
    let rows = layout.rows();
    let mut k = from;
    while k < rows.len()
        invariant
            rows@ == layout.spec_rows(),
            from <= k,
            next_content(rows@, from as int) == next_content(rows@, k as int),
        decreases rows@.len() - k,
    {
        if rows[k].spans().len() > 0 {
            return Some(k);
        }
        k = k + 1;
    }
    None
}

fn previous_content_row(layout: &PageLayout, from: usize) -> (r: Option<usize>)
    ensures
        ({
            let rows = layout.spec_rows();
            let start = if from < rows.len() { from as int } else { rows.len() - 1 };
            match r {
                Some(k) => prev_content(rows, start) == Some(k as int),
                None => prev_content(rows, start) is None,
            }
        }),
{
    let rows = layout.rows();
    if rows.len() == 0 {
        return None;
    }
    let mut k = if from < rows.len() { from } else { rows.len() - 1 };
    let ghost start = k as int;
    loop
        invariant
            rows@ == layout.spec_rows(),
            k < rows@.len(),
            start == (if from < rows@.len() { from as int } else { rows@.len() - 1 }),
            prev_content(rows@, start) == prev_content(rows@, k as int),
        decreases k,
    {
        if rows[k].spans().len() > 0 {
            return Some(k);
        }
        if k == 0 {
            return None;
        }
        k = k - 1;
    }
}

/// Whether `(s, b)` is the first block, in reading order, whose range
/// (ends included) contains `byte`.
pub open spec fn first_containing(doc: Document, byte: int, s: int, b: int) -> bool {
    &&& contains_byte(doc, byte, s, b)
    &&& forall|s2: int, b2: int|
        (s2 < s || (s2 == s && b2 < b)) ==> !#[trigger] contains_byte(doc, byte, s2, b2)
}

/// Whether block `b` of section `s` exists and its range, ends included,
/// contains `byte`.
pub open spec fn contains_byte(doc: Document, byte: int, s: int, b: int) -> bool {
    &&& 0 <= s < doc.spec_sections().len()
    &&& 0 <= b < doc.spec_sections()[s].spec_blocks().len()
    &&& doc.spec_sections()[s].spec_blocks()[b].spec_range().start <= byte
    &&& byte <= doc.spec_sections()[s].spec_blocks()[b].spec_range().end
}

/// The position that `absolute_to_position` gives for `byte`: in the
/// first block containing it, at the last character boundary at or before
/// it.
pub open spec fn position_for(doc: Document, byte: int, p: Position) -> bool {
    let start = doc.spec_sections()[p.spec_section() as int].spec_blocks()[p.spec_block() as int].spec_range().start;
    &&& first_containing(doc, byte, p.spec_section() as int, p.spec_block() as int)
    &&& valid_position(p, doc)
    &&& start + p.spec_offset() <= byte
    &&& forall|o: int|
        start + p.spec_offset() < o <= byte ==> !char_boundary(doc.spec_bytes(), o)
}

/// Maps an absolute canonical byte to the validated position of the first
/// block containing it, backing off to the nearest character boundary.
///
/// Returns `None` when no block contains the byte.
pub fn absolute_to_position(document: &Document, byte: usize) -> (r: Option<Position>)
    ensures
        r is Some <==> exists|s: int, b: int| contains_byte(*document, byte as int, s, b),
        r matches Some(p) ==> position_for(*document, byte as int, p),
{
    let sections = document.sections();
    let mut s: usize = 0;
    while s < sections.len()
        invariant
            sections@ == document.spec_sections(),
            document.wf(),
            s <= sections@.len(),
            forall|s2: int, b2: int| s2 < s ==> !#[trigger] contains_byte(*document, byte as int, s2, b2),
        decreases sections@.len() - s,
    {
        let blocks = sections[s].blocks();
        let mut b: usize = 0;
        while b < blocks.len()
            invariant
                sections@ == document.spec_sections(),
                document.wf(),
                s < sections@.len(),
                blocks@ == sections@[s as int].spec_blocks(),
                b <= blocks@.len(),
                forall|s2: int, b2: int|
                    (s2 < s || (s2 == s && b2 < b)) ==> !#[trigger] contains_byte(
                        *document,
                        byte as int,
                        s2,
                        b2,
                    ),
            decreases blocks@.len() - b,
        {
            let range = blocks[b].range();
            if range.start <= byte && byte <= range.end {
                proof {
                    lemma_block_facts(*document, s as int, b as int);
                }
                let mut offset = byte - range.start;
                while offset > 0
                    invariant
                        sections@ == document.spec_sections(),
                        document.wf(),
                        s < sections@.len(),
                        b < blocks@.len(),
                        blocks@ == sections@[s as int].spec_blocks(),
                        *range == blocks@[b as int].spec_range(),
                        range.start <= byte <= range.end <= document.spec_bytes().len(),
                        offset <= byte - range.start,
                        forall|o: int|
                            range.start + offset < o <= byte ==> !char_boundary(document.spec_bytes(), o),
                        first_containing(*document, byte as int, s as int, b as int),
                    decreases offset,
                {
                    match document.position(s, b, offset) {
                        Ok(p) => {
                            return Some(p);
                        },
                        Err(_) => {},
                    }
                    offset = offset - 1;
                }
                let r = document.position(s, b, 0);
                proof {
                    assert(position_check(*document, s, b, 0) is None);
                }
                return match r {
                    Ok(p) => Some(p),
                    Err(_) => None,
                };
            }
            b = b + 1;
        }
        s = s + 1;
    }
    None
}

/// Whether `byte` is a valid position inside the block that owns `row`.
pub open spec fn owner_holds(doc: Document, row: VisualRow, byte: int) -> bool {
    let s = row.spec_section();
    let b = row.spec_block();
    &&& s < doc.spec_sections().len()
    &&& b < doc.spec_sections()[s as int].spec_blocks().len()
    &&& doc.spec_sections()[s as int].spec_blocks()[b as int].spec_range().start <= byte
    &&& position_check(
        doc,
        s,
        b,
        (byte - doc.spec_sections()[s as int].spec_blocks()[b as int].spec_range().start) as usize,
    ) is None
}

/// Whether `r` is what anchoring the start of row `k` gives: the position
/// of its first span's start inside the block that owns the row, so the
/// anchor of a row is always that row's own; only when the owner cannot
/// hold the byte, the first block containing it.
pub open spec fn row_start_result(doc: Document, rows: Seq<VisualRow>, k: int, r: Option<Position>) -> bool {
    if 0 <= k < rows.len() && has_content(rows, k) {
        let byte = rows[k].spec_spans()[0].spec_range().start as int;
        if owner_holds(doc, rows[k], byte) {
            r matches Some(p) && p.spec_section() == rows[k].spec_section() && p.spec_block()
                == rows[k].spec_block() && p.spec_offset() == byte
                - doc.spec_sections()[p.spec_section() as int].spec_blocks()[p.spec_block() as int].spec_range().start
        } else {
            &&& (r is Some <==> exists|s: int, b: int| contains_byte(doc, byte, s, b))
            &&& (r matches Some(p) ==> position_for(doc, byte, p))
        }
    } else {
        r is None
    }
}

/// Anchors the start of row `index`.
fn row_start_position(layout: &PageLayout, document: &Document, index: usize) -> (r: Option<Position>)
    ensures
        row_start_result(*document, layout.spec_rows(), index as int, r),
{
    let rows = layout.rows();
    if index >= rows.len() {
        return None;
    }
    let spans = rows[index].spans();
    if spans.len() == 0 {
        return None;
    }
    let byte = spans[0].range().start;
    let s = rows[index].section();
    let b = rows[index].block();
    let sections = document.sections();
    if s < sections.len() {
        let blocks = sections[s].blocks();
        if b < blocks.len() {
            let start = blocks[b].range().start;
            if start <= byte {
                match document.position(s, b, byte - start) {
                    Ok(p) => {
                        return Some(p);
                    },
                    Err(_) => {},
                }
            }
        }
    }
    absolute_to_position(document, byte)
}

/// Where a step lands: anchoring the target row, or nothing.
pub open spec fn step_result(doc: Document, rows: Seq<VisualRow>, target: Option<int>, r: Option<Position>) -> bool {
    match target {
        Some(t) => row_start_result(doc, rows, t, r),
        None => r is None,
    }
}

/// The row the anchor sits in.
pub open spec fn anchor_row(doc: Document, rows: Seq<VisualRow>, anchor: Position) -> int {
    spec_row_after(rows, spec_absolute(anchor, doc))
}

/// The row a line step targets.
pub open spec fn line_target(rows: Seq<VisualRow>, current: int, direction: Direction) -> Option<int> {
    match direction {
        Direction::TowardEnd => next_content(rows, current + 1),
        Direction::TowardStart => if current == 0 {
            None
        } else {
            prev_content(rows, if current - 1 < rows.len() { current - 1 } else { rows.len() - 1 })
        },
    }
}

/// Moves the anchor to the start of the next or previous content row.
///
/// Blank spacer rows never become anchors, so a forward step followed by a
/// backward step returns to the exact original position. Returns `None` at
/// the corresponding document boundary.
pub fn step_line(layout: &PageLayout, document: &Document, anchor: Position, direction: Direction) -> (r: Option<Position>)
    requires
        absolute_fits(anchor, *document),
    ensures
        step_result(
            *document,
            layout.spec_rows(),
            line_target(layout.spec_rows(), anchor_row(*document, layout.spec_rows(), anchor), direction),
            r,
        ),
{
    let count = layout.rows().len();
    let current = layout.row_after(anchor.absolute_byte(document));
    assert(current < count || current == 0);
    let target = match direction {
        Direction::TowardEnd => next_content_row(layout, current + 1),
        Direction::TowardStart => {
            if current == 0 {
                return None;
            }
            previous_content_row(layout, current - 1)
        },
    };
    match target {
        Some(t) => row_start_position(layout, document, t),
        None => None,
    }
}

/// The smallest content row in `c..=upper` whose forward page step of
/// `rows_per_page` rows lands exactly on `current`.
pub open spec fn inverse_from(rows: Seq<VisualRow>, current: int, rows_per_page: int, c: int, upper: int) -> Option<int>
    decreases upper + 1 - c,
{
    if c > upper || c < 0 {
        None
    } else if c < rows.len() && has_content(rows, c) && next_content(
        rows,
        if c + rows_per_page < rows.len() - 1 { c + rows_per_page } else { rows.len() - 1 },
    ) == Some(current) {
        Some(c)
    } else {
        inverse_from(rows, current, rows_per_page, c + 1, upper)
    }
}

/// The rows below `current` searched for an exact inverse page step.
pub open spec fn inverse_window(rows_per_page: int) -> int {
    (if rows_per_page < 65535 { rows_per_page } else { 65535 }) * 2 + 8
}

/// The row a backward page step restores, when a forward step from it
/// lands exactly on `current` (the smallest such row; used when the hop
/// straight back does not land on content).
pub open spec fn spec_inverse(rows: Seq<VisualRow>, current: int, rows_per_page: int) -> Option<int> {
    let upper = if current >= 1 { current - 1 } else { 0 };
    let lower = if current >= inverse_window(rows_per_page) { current - inverse_window(rows_per_page) } else { 0 };
    inverse_from(rows, current, rows_per_page, lower, upper)
}

/// The row a page step targets.
pub open spec fn page_target(rows: Seq<VisualRow>, current: int, rows_per_page: int, direction: Direction) -> Option<int> {
    let last = rows.len() - 1;
    match direction {
        Direction::TowardEnd => next_content(
            rows,
            if current + rows_per_page < last { current + rows_per_page } else { last },
        ),
        Direction::TowardStart => if current == 0 {
            None
        } else if rows_per_page <= current && current < rows.len() && has_content(rows, current)
            && has_content(rows, current - rows_per_page) {
            Some(current - rows_per_page)
        } else {
            match spec_inverse(rows, current, rows_per_page) {
                Some(c) => Some(c),
                None => prev_content(
                    rows,
                    current - if rows_per_page < current { rows_per_page } else { current },
                ),
            }
        },
    }
}

proof fn lemma_prev_content_skips(rows: Seq<VisualRow>, c: int, from: int)
    requires
        0 <= c <= from < rows.len(),
        has_content(rows, c),
        forall|j: int| c < j <= from ==> !has_content(rows, j),
    ensures
        prev_content(rows, from) == Some(c),
    decreases from - c,
{
    if from > c {
        lemma_prev_content_skips(rows, c, from - 1);
    }
}

/// A line step toward the end from a content row, followed by a line step
/// back, returns to that row: blank rows in between are never anchors.
pub proof fn lemma_line_steps_invert(rows: Seq<VisualRow>, c: int)
    requires
        0 <= c < rows.len(),
        has_content(rows, c),
    ensures
        line_target(rows, c, Direction::TowardEnd) matches Some(t) ==> line_target(rows, t, Direction::TowardStart)
            == Some(c),
{
    lemma_next_content(rows, c + 1);
    if let Some(t) = next_content(rows, c + 1) {
        lemma_prev_content_skips(rows, c, t - 1);
    }
}

/// Chained spans end no later than their last one, which is past `floor`.
proof fn lemma_spans_max_end(bytes: Seq<u8>, spans: Seq<Span>, floor: int)
    requires
        spans_ok(bytes, spans, floor),
        floor >= 0,
    ensures
        spans_max_end(spans) <= spans_end(spans, floor),
        spans_end(spans, floor) >= floor,
        forall|i: int| 0 <= i < spans.len() ==> (#[trigger] spans[i]).spec_range().end <= spans_max_end(spans),
    decreases spans.len(),
{
    if spans.len() > 0 {
        let d = spans.drop_last();
        assert forall|j: int| 0 <= j < d.len() implies #[trigger] span_link(bytes, d, floor, j) by {
            assert(span_link(bytes, spans, floor, j));
            if j > 0 {
                assert(d[j - 1] == spans[j - 1]);
            }
        }
        lemma_spans_max_end(bytes, d, floor);
        assert(span_link(bytes, spans, floor, spans.len() - 1));
        assert forall|i: int| 0 <= i < spans.len() implies (#[trigger] spans[i]).spec_range().end <= spans_max_end(
            spans,
        ) by {
            if i < d.len() {
                assert(spans[i] == d[i]);
            }
        }
    }
}

/// The content covered by the first `k` rows of a chain ends where those
/// rows end, and the rows' end only grows.
proof fn lemma_covered_chain(bytes: Seq<u8>, rows: Seq<VisualRow>, k: int)
    requires
        rows_chain(bytes, rows, 0),
        0 <= k <= rows.len(),
    ensures
        covered(rows.take(k)) <= rows_end(rows.take(k), 0),
        rows_end(rows.take(k), 0) >= 0,
        forall|j: int| 0 <= j <= k ==> rows_end(#[trigger] rows.take(j), 0) <= rows_end(rows.take(k), 0),
    decreases k,
{
    if k == 0 {
        assert(rows.take(0) =~= Seq::<VisualRow>::empty());
    } else {
        lemma_covered_chain(bytes, rows, k - 1);
        crate::layout::lemma_chain_at(bytes, rows, 0, k - 1);
        assert(rows.take(k).drop_last() =~= rows.take(k - 1));
        assert(rows.take(k).last() == rows[k - 1]);
        lemma_spans_max_end(bytes, rows[k - 1].spec_spans(), rows_end(rows.take(k - 1), 0));
    }
}

/// The row that the first span of a content row starts in is that row,
/// when that span is not empty.
proof fn lemma_row_after_start(bytes: Seq<u8>, rows: Seq<VisualRow>, t: int)
    requires
        rows_chain(bytes, rows, 0),
        0 <= t < rows.len(),
        rows[t].spec_spans().len() > 0,
        rows[t].spec_spans()[0].spec_range().start < rows[t].spec_spans()[0].spec_range().end,
    ensures
        spec_row_after(rows, rows[t].spec_spans()[0].spec_range().start as int) == t,
{
    let byte = rows[t].spec_spans()[0].spec_range().start as int;
    lemma_covered_chain(bytes, rows, t);
    crate::layout::lemma_chain_at(bytes, rows, 0, t);
    assert(span_link(bytes, rows[t].spec_spans(), rows_end(rows.take(t), 0), 0));
    assert forall|j: int| 0 <= j < t implies covered(#[trigger] rows.take(j + 1)) <= byte by {
        lemma_covered_chain(bytes, rows, j + 1);
    }
    lemma_spans_max_end(bytes, rows[t].spec_spans(), rows_end(rows.take(t), 0));
    assert(rows.take(t + 1).drop_last() =~= rows.take(t));
    assert(rows.take(t + 1).last() == rows[t]);
    assert(covered(rows.take(t + 1)) > byte);
    let k = spec_row_after(rows, byte);
    assert(k == t) by {
        let w = choose|k: int|
            0 <= k < rows.len() && covered(#[trigger] rows.take(k + 1)) > byte && forall|j: int|
                0 <= j < k ==> covered(#[trigger] rows.take(j + 1)) <= byte;
        if w < t {
            assert(covered(rows.take(w + 1)) <= byte);
        } else if w > t {
            assert(covered(rows.take(t + 1)) <= byte);
        }
    }
}

/// Whether every content row of `rows` starts with a span that is not empty.
pub open spec fn rows_start_nonempty(rows: Seq<VisualRow>) -> bool {
    forall|k: int|
        0 <= k < rows.len() && has_content(rows, k) ==> (#[trigger] rows[k]).spec_spans()[0].spec_range().start
            < rows[k].spec_spans()[0].spec_range().end
}

/// A line step toward the end from the anchor at the start of a content
/// row, followed by a line step back from where it landed, returns exactly
/// the position it started from; the steps are stated by `step_line`'s
/// contract. The layout is a reading-order chain (as `layout_document`
/// gives) whose content rows start with non-empty spans.
pub proof fn lemma_step_line_round_trip(
    doc: Document,
    rows: Seq<VisualRow>,
    c: int,
    anchor: Position,
    landed: Position,
    back: Option<Position>,
)
    requires
        rows_chain(doc.spec_bytes(), rows, 0),
        rows_start_nonempty(rows),
        0 <= c < rows.len(),
        has_content(rows, c),
        owner_holds(doc, rows[c], rows[c].spec_spans()[0].spec_range().start as int),
        row_start_result(doc, rows, c, Some(anchor)),
        step_result(
            doc,
            rows,
            line_target(rows, anchor_row(doc, rows, anchor), Direction::TowardEnd),
            Some(landed),
        ),
        step_result(doc, rows, line_target(rows, anchor_row(doc, rows, landed), Direction::TowardStart), back),
    ensures
        back == Some(anchor),
{
    let bytes = doc.spec_bytes();
    assert(has_content(rows, c));
    lemma_row_after_start(bytes, rows, c);
    assert(anchor_row(doc, rows, anchor) == c);
    let t = line_target(rows, c, Direction::TowardEnd)->Some_0;
    lemma_next_content(rows, c + 1);
    assert(0 <= t < rows.len() && has_content(rows, t) && t > c);
    let byte = rows[t].spec_spans()[0].spec_range().start as int;
    crate::layout::lemma_chain_at(bytes, rows, 0, t);
    assert(span_link(bytes, rows[t].spec_spans(), rows_end(rows.take(t), 0), 0));
    assert(spec_absolute(landed, doc) == byte) by {
        if !owner_holds(doc, rows[t], byte) {
            assert(position_for(doc, byte, landed));
            let start = doc.spec_sections()[landed.spec_section() as int].spec_blocks()[landed.spec_block() as int].spec_range().start;
            if start + landed.spec_offset() < byte {
                assert(char_boundary(bytes, byte));
            }
        }
    }
    lemma_row_after_start(bytes, rows, t);
    lemma_line_steps_invert(rows, c);
    if let Some(p) = back {
        Position::lemma_parts_determine(p, anchor);
    }
}

/// A page step toward the end that fits inside the layout and lands on
/// content without skipping blank rows, followed by a page step back,
/// restores the row it started from.
pub proof fn lemma_page_steps_invert(rows: Seq<VisualRow>, c: int, n: int)
    requires
        0 <= c,
        0 < n,
        c + n < rows.len(),
        has_content(rows, c),
        has_content(rows, c + n),
    ensures
        page_target(rows, c, n, Direction::TowardEnd) == Some(c + n),
        page_target(rows, c + n, n, Direction::TowardStart) == Some(c),
{
}

/// Finds the smallest content row whose forward page step lands exactly on
/// `current`, making the backward step a true inverse of the forward step.
///
/// The search stays inside one bounded window below the anchor; layouts with
/// more consecutive blank rows than the window fall back to the plain hop.
fn inverse_page_step(layout: &PageLayout, current: usize, viewport_rows: usize) -> (r: Option<usize>)
    requires
        layout.spec_rows().len() > 0,
    ensures
        match r {
            Some(c) => spec_inverse(layout.spec_rows(), current as int, viewport_rows as int) == Some(c as int),
            None => spec_inverse(layout.spec_rows(), current as int, viewport_rows as int) is None,
        },
{
    let rows = layout.rows();
    let capped: usize = if viewport_rows < 65535 { viewport_rows } else { 65535 };
    let window = capped * 2 + 8;
    let upper = if current >= 1 { current - 1 } else { 0 };
    let lower = if current >= window { current - window } else { 0 };
    let last = rows.len() - 1;
    let mut candidate = lower;
    while candidate <= upper
        invariant
            rows@ == layout.spec_rows(),
            rows@.len() > 0,
            last == rows@.len() - 1,
            lower <= candidate,
            upper < usize::MAX,
            spec_inverse(rows@, current as int, viewport_rows as int) == inverse_from(
                rows@,
                current as int,
                viewport_rows as int,
                candidate as int,
                upper as int,
            ),
        decreases upper + 1 - candidate,
    {
        if candidate < rows.len() && rows[candidate].spans().len() > 0 {
            let jumped = if candidate < last && viewport_rows < last - candidate {
                candidate + viewport_rows
            } else {
                last
            };
            if next_content_row(layout, jumped) == Some(current) {
                return Some(candidate);
            }
        }
        candidate = candidate + 1;
    }
    None
}

/// Moves the anchor by one viewport of rows, clamping at the ends.
///
/// Paging counts visual rows from the anchor's own row, so repeated
/// next-page steps advance until the clamp. The backward step is defined as
/// the inverse of the unclamped forward step: it restores the prior anchor
/// exactly whenever that forward hop fit inside the document and no blank
/// spacer rows were skipped past. Blank joiners may otherwise shorten the
/// hop, and the step never moves toward the end or below the document start.
pub fn step_page(
    layout: &PageLayout,
    document: &Document,
    anchor: Position,
    viewport_rows: usize,
    direction: Direction,
) -> (r: Option<Position>)
    requires
        absolute_fits(anchor, *document),
    ensures
        layout.spec_rows().len() == 0 || viewport_rows == 0 ==> r is None,
        layout.spec_rows().len() > 0 && viewport_rows > 0 ==> step_result(
            *document,
            layout.spec_rows(),
            page_target(
                layout.spec_rows(),
                anchor_row(*document, layout.spec_rows(), anchor),
                viewport_rows as int,
                direction,
            ),
            r,
        ),
{
    let rows = layout.rows();
    if rows.len() == 0 || viewport_rows == 0 {
        return None;
    }
    let current = layout.row_after(anchor.absolute_byte(document));
    let last = rows.len() - 1;
    let target = match direction {
        Direction::TowardEnd => {
            let jumped = if current < last && viewport_rows < last - current {
                current + viewport_rows
            } else {
                last
            };
            next_content_row(layout, jumped)
        },
        Direction::TowardStart => {
            if current == 0 {
                return None;
            }
            if viewport_rows <= current && current < rows.len() && rows[current].spans().len() > 0
                && rows[current - viewport_rows].spans().len() > 0 {
                return row_start_position(layout, document, current - viewport_rows);
            }
            match inverse_page_step(layout, current, viewport_rows) {
                Some(c) => Some(c),
                None => {
                    let hop = if viewport_rows < current { viewport_rows } else { current };
                    previous_content_row(layout, current - hop)
                },
            }
        },
    };
    match target {
        Some(t) => row_start_position(layout, document, t),
        None => None,
    }
}

/// The end position of block `b` of section `s`, when that block exists.
pub open spec fn end_result(doc: Document, s: int, b: int, r: Option<Position>) -> bool {
    if 0 <= s < doc.spec_sections().len() && 0 <= b < doc.spec_sections()[s].spec_blocks().len() {
        let byte = doc.spec_sections()[s].spec_blocks()[b].spec_range().end as int;
        &&& r is Some
        &&& (r matches Some(p) ==> position_for(doc, byte, p))
    } else {
        r is None
    }
}

fn end_of_block(document: &Document, section: usize, block: usize) -> (r: Option<Position>)
    ensures
        end_result(*document, section as int, block as int, r),
{
    let sections = document.sections();
    if section >= sections.len() {
        return None;
    }
    let blocks = sections[section].blocks();
    if block >= blocks.len() {
        return None;
    }
    let end = blocks[block].range().end;
    proof {
        lemma_block_facts(*document, section as int, block as int);
        assert(contains_byte(*document, end as int, section as int, block as int));
    }
    absolute_to_position(document, end)
}

/// Anchors the first content row of the document.
pub fn jump_document_start(layout: &PageLayout, document: &Document) -> (r: Option<Position>)
    ensures
        row_start_result(*document, layout.spec_rows(), 0, r),
{
    row_start_position(layout, document, 0)
}

/// Anchors the very end of the document's logical text: the end of the
/// last block of the last section.
///
/// The position sits on the final byte boundary, so progress reads one
/// hundred percent when the reader reaches the end of the book.
pub fn jump_document_end(document: &Document) -> (r: Option<Position>)
    ensures
        ({
            let n = document.spec_sections().len();
            if n == 0 {
                r is None
            } else {
                end_result(
                    *document,
                    n - 1,
                    document.spec_sections()[n - 1].spec_blocks().len() - 1,
                    r,
                )
            }
        }),
{
    let sections = document.sections();
    if sections.len() == 0 {
        return None;
    }
    let last = sections.len() - 1;
    let blocks = sections[last].blocks();
    if blocks.len() == 0 {
        return None;
    }
    end_of_block(document, last, blocks.len() - 1)
}

/// The start of section `section`, when it holds a block.
pub open spec fn section_start_result(doc: Document, section: int, r: Option<Position>) -> bool {
    if 0 <= section < doc.spec_sections().len() && doc.spec_sections()[section].spec_blocks().len() > 0 {
        r matches Some(p) && p.spec_section() == section && p.spec_block() == 0 && p.spec_offset() == 0
    } else {
        r is None
    }
}

fn first_block_start(document: &Document, section: usize) -> (r: Option<Position>)
    ensures
        section_start_result(*document, section as int, r),
{
    let sections = document.sections();
    if section >= sections.len() {
        return None;
    }
    let blocks = sections[section].blocks();
    if blocks.len() == 0 {
        return None;
    }
    proof {
        lemma_block_facts(*document, section as int, 0);
        assert(position_check(*document, section, 0, 0) is None);
    }
    match document.position(section, 0, 0) {
        Ok(p) => Some(p),
        Err(_) => None,
    }
}

/// Anchors the start of section `section`.
///
/// Plain-text books carry exactly one section, so this is also the
/// document start; the action stays distinct so other formats reuse the
/// same key map.
pub fn jump_section_start(layout: &PageLayout, document: &Document, section: usize) -> (r: Option<Position>)
    ensures
        section_start_result(*document, section as int, r),
{
    first_block_start(document, section)
}

/// Anchors the end of section `section`: the end of its last block.
pub fn jump_section_end(layout: &PageLayout, document: &Document, section: usize) -> (r: Option<Position>)
    ensures
        section < document.spec_sections().len() && document.spec_sections()[section as int].spec_blocks().len()
            > 0 ==> end_result(
            *document,
            section as int,
            document.spec_sections()[section as int].spec_blocks().len() - 1,
            r,
        ),
        !(section < document.spec_sections().len() && document.spec_sections()[section as int].spec_blocks().len()
            > 0) ==> r is None,
{
    let sections = document.sections();
    if section >= sections.len() {
        return None;
    }
    let blocks = sections[section].blocks();
    if blocks.len() == 0 {
        return None;
    }
    end_of_block(document, section, blocks.len() - 1)
}

/// The navigation entry a section step selects.
pub open spec fn section_target(count: int, current: Option<usize>, direction: Direction) -> Option<int> {
    let selected = match current {
        Some(i) => if i < count { Some(i as int) } else { None },
        None => None,
    };
    match (selected, direction) {
        (Some(i), Direction::TowardStart) => if i >= 1 { Some(i - 1) } else { None },
        (Some(i), Direction::TowardEnd) => if i + 1 < count { Some(i + 1) } else { None },
        (None, Direction::TowardStart) => if count >= 1 { Some(count - 1) } else { None },
        (None, Direction::TowardEnd) => if count >= 1 { Some(0) } else { None },
    }
}

/// Selects the exact previous or next navigation point in declared order.
///
/// The selected index is part of the reading state because distinct entries
/// may have the same destination. With no current selection, or one out of
/// range, movement enters the list at the corresponding end.
pub fn step_section(document: &Document, current: Option<usize>, direction: Direction) -> (r: Option<(usize, Position)>)
    ensures
        match section_target(document.spec_navigation().len() as int, current, direction) {
            Some(t) => r == Some((t as usize, document.spec_navigation()[t].spec_position())),
            None => r is None,
        },
{
    let points = document.navigation_points();
    let n = points.len();
    let selected = match current {
        Some(i) => if i < n { Some(i) } else { None },
        None => None,
    };
    let target = match (selected, direction) {
        (Some(i), Direction::TowardStart) => if i >= 1 { i - 1 } else { return None },
        (Some(i), Direction::TowardEnd) => if i + 1 < n { i + 1 } else { return None },
        (None, Direction::TowardStart) => if n >= 1 { n - 1 } else { return None },
        (None, Direction::TowardEnd) => if n >= 1 { 0 } else { return None },
    };
    Some((target, points[target].position()))
}

/// Whole-number percentage of `len` bytes read at `byte`, floored, and
/// 0 for an empty book.
pub open spec fn spec_percent(len: int, byte: int) -> int {
    if len <= 0 {
        0
    } else {
        (if byte < len { byte } else { len }) * 100 / len
    }
}

/// Progress is floored, never above one hundred, never moves backwards as
/// the reader advances, reads zero at the start and one hundred at the end.
pub proof fn lemma_percent_laws(len: int, a: int, b: int)
    requires
        0 <= a <= b,
        len >= 0,
    ensures
        0 <= spec_percent(len, a) <= 100,
        spec_percent(len, a) <= spec_percent(len, b),
        spec_percent(len, 0) == 0,
        len > 0 && b >= len ==> spec_percent(len, b) == 100,
{
    if len > 0 {
        let ca = if a < len { a } else { len };
        let cb = if b < len { b } else { len };
        assert(0 <= ca * 100 / len <= 100) by (nonlinear_arith)
            requires
                0 <= ca <= len,
                len > 0,
        ;
        assert(ca * 100 / len <= cb * 100 / len) by (nonlinear_arith)
            requires
                0 <= ca <= cb,
                len > 0,
        ;
        assert(len * 100 / len == 100) by (nonlinear_arith)
            requires
                len > 0,
        ;
    }
}

/// Whole-number percentage of the book read at `anchor`, floored.
///
/// Forward movement never lowers it, and resize or theme changes never
/// alter it because it depends on the logical position alone.
pub fn percent(document: &Document, anchor: Position) -> (p: u8)
    requires
        absolute_fits(anchor, *document),
    ensures
        p == spec_percent(document.spec_bytes().len() as int, spec_absolute(anchor, *document)),
{
    let total = document.len();
    if total == 0 {
        return 0;
    }
    let byte = anchor.absolute_byte(document);
    let clamped = if byte < total { byte } else { total };
    let whole: u128 = (clamped as u128) * 100 / (total as u128);
    proof {
        lemma_percent_laws(total as int, clamped as int, clamped as int);
    }
    whole as u8
}

/// One-based logical line containing the anchor.
pub fn location_line(document: &Document, anchor: Position) -> (line: usize)
    requires
        absolute_fits(anchor, *document),
        document.spec_bytes().len() < usize::MAX,
    ensures
        ({
            let byte = spec_absolute(anchor, *document);
            let len = document.spec_bytes().len() as int;
            line == 1 + count_newlines(document.spec_bytes().take(if byte <= len { byte } else { len }))
        }),
{
    document.logical_line_number(anchor.absolute_byte(document))
}

} // verus!
