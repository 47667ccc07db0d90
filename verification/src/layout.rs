//! Grapheme-aware, cell-width-aware layout with source mapping.
//!
//! One layout pass turns the canonical logical text into visual rows for one
//! viewport width. Every row records the byte ranges it renders, ordered and
//! in bounds, so navigation can always map a visual row back to logical
//! content and resize can relocate the same passage.
use vstd::prelude::*;
use vstd::string::*;
use core::ops::Range;

use unicode_linebreak::linebreaks;
use unicode_segmentation::UnicodeSegmentation;

use crate::model::{
    BlockKind,
    Document,
    InlineKind,
    expected_start,
    flat_ranges,
    lemma_block_facts,
    lemma_block_in_flat,
    lemma_flat_take_step,
    lemma_inline_facts,
    link_ok,
    ranges_of,
};
use crate::strings::{char_boundary, push_char, push_decimal, push_str, spec_decimal, str_range};
use crate::width::{capped_width, visible_from, visible_text, width_from, width_within};

verus! {

/// Rows reserved by an image block while its bounded preview is loading.
pub const IMAGE_PLACEHOLDER_ROWS: usize = 6;

/// One rendered piece of a row: the raw byte range it displays.
///
/// Rendering applies [`visible_text`] with the running column, so tabs,
/// control bytes, and newline join markers transform identically here and in
/// the UI without storing duplicated strings. An optional decoration carries
/// the inline semantic role that styling layers may apply.
#[derive(Debug, PartialEq, Eq)]
pub struct Span {
    range: Range<usize>,
    decoration: Option<InlineKind>,
}

impl Clone for Span {
    fn clone(&self) -> (c: Self)
        ensures
            c == *self,
    {
        Span { range: Range { start: self.range.start, end: self.range.end }, decoration: self.decoration }
    }
}

impl Span {
    pub closed spec fn spec_range(&self) -> Range<usize> {
        self.range
    }

    pub closed spec fn spec_decoration(&self) -> Option<InlineKind> {
        self.decoration
    }

    /// The span `start..end` with role `decoration`.
    pub closed spec fn new_spec_range(start: usize, end: usize, decoration: Option<InlineKind>) -> Span {
        Span { range: Range { start, end }, decoration }
    }

    /// A span rendering `range` with an optional inline role.
    pub fn new(range: Range<usize>, decoration: Option<InlineKind>) -> (s: Self)
        ensures
            s.spec_range() == range,
            s.spec_decoration() == decoration,
            s == Span::new_spec_range(range.start, range.end, decoration),
    {
        Span { range, decoration }
    }

    /// The raw canonical bytes this span renders.
    pub fn range(&self) -> (r: &Range<usize>)
        ensures
            *r == self.spec_range(),
    {
        &self.range
    }

    /// The inline semantic role carried by this span, if any.
    pub fn decoration(&self) -> (d: Option<InlineKind>)
        ensures
            d == self.spec_decoration(),
    {
        self.decoration
    }

    /// The exact visible string for this span starting at `column`.
    ///
    /// A range that does not lie on character boundaries inside the
    /// document renders as nothing.
    pub fn visible(&self, document: &Document, column: u16) -> (v: String)
        ensures
            span_in(document.spec_bytes(), *self) ==> v@ == visible_from(
                span_chars(document, *self),
                column as int,
            ),
            !span_in(document.spec_bytes(), *self) ==> v@ == Seq::<char>::empty(),
    {
        proof {
            reveal(char_boundary);
        }
        match str_range(document.canonical(), self.range.start, self.range.end) {
            Some(raw) => {
                proof {
                    vstd::utf8::encode_utf8_decode_utf8(raw@);
                }
                visible_text(raw, column)
            },
            None => String::new(),
        }
    }
}

/// Whether a span's range lies inside `bytes` on character boundaries.
pub open spec fn span_in(bytes: Seq<u8>, s: Span) -> bool {
    &&& s.spec_range().start <= s.spec_range().end <= bytes.len()
    &&& char_boundary(bytes, s.spec_range().start as int)
    &&& char_boundary(bytes, s.spec_range().end as int)
}

/// The characters a span covers in `doc`.
pub open spec fn span_chars(doc: &Document, s: Span) -> Seq<char> {
    vstd::utf8::decode_utf8(
        doc.spec_bytes().subrange(s.spec_range().start as int, s.spec_range().end as int),
    )
}

/// One visual row of laid-out content.
///
/// `prefix` holds synthesized leading text such as list markers or quote
/// bars; it is presentation only and never part of the canonical text or of
/// any position. `padding` spaces align table columns after each span.
#[derive(Clone, Debug, PartialEq, Eq)]
pub struct VisualRow {
    section: usize,
    block: usize,
    prefix: String,
    spans: Vec<Span>,
    padding: Vec<u16>,
    cells: u16,
}

impl VisualRow {
    pub closed spec fn spec_section(&self) -> usize {
        self.section
    }

    pub closed spec fn spec_block(&self) -> usize {
        self.block
    }

    pub closed spec fn spec_prefix(&self) -> Seq<char> {
        self.prefix@
    }

    pub closed spec fn spec_spans(&self) -> Seq<Span> {
        self.spans@
    }

    pub closed spec fn spec_padding(&self) -> Seq<u16> {
        self.padding@
    }

    pub closed spec fn spec_cells(&self) -> u16 {
        self.cells
    }

    /// An empty row owned by block `block` of section `section`.
    pub fn empty(section: usize, block: usize) -> (r: Self)
        ensures
            r.spec_section() == section,
            r.spec_block() == block,
            r.spec_prefix() == Seq::<char>::empty(),
            r.spec_spans() == Seq::<Span>::empty(),
            r.spec_padding() == Seq::<u16>::empty(),
            r.spec_cells() == 0,
    {
        VisualRow {
            section,
            block,
            prefix: String::new(),
            spans: Vec::new(),
            padding: Vec::new(),
            cells: 0,
        }
    }

    /// Owning section ordinal; every format produces at least one section.
    pub fn section(&self) -> (s: usize)
        ensures
            s == self.spec_section(),
    {
        self.section
    }

    /// Owning block ordinal within its section; blank rows reference their
    /// blank-line block.
    pub fn block(&self) -> (b: usize)
        ensures
            b == self.spec_block(),
    {
        self.block
    }

    /// Synthesized leading text, such as list markers or quote bars.
    pub fn prefix(&self) -> (p: &str)
        ensures
            p@ == self.spec_prefix(),
    {
        self.prefix.as_str()
    }

    /// Padding cells inserted after each span for table alignment.
    pub fn padding(&self) -> (p: &Vec<u16>)
        ensures
            p@ == self.spec_padding(),
    {
        &self.padding
    }

    /// Spans in left-to-right order.
    pub fn spans(&self) -> (s: &Vec<Span>)
        ensures
            s@ == self.spec_spans(),
    {
        &self.spans
    }

    /// Measured cell count of the row's content.
    pub fn cells(&self) -> (c: u16)
        ensures
            c == self.spec_cells(),
    {
        self.cells
    }

    /// The complete visible text of this row, including its prefix.
    ///
    /// Padding spaces after each span reproduce aligned table columns; the
    /// result is exactly what the renderer paints.
    pub fn text(&self, document: &Document) -> (t: String)
        ensures
            t@ == row_text(document, *self),
    {
        let mut out = String::new();
        push_str(&mut out, self.prefix.as_str());
        let mut column = capped_width(self.prefix.as_str(), 0);
        let mut i: usize = 0;
        proof {
            assert(self.spans@.take(0) =~= Seq::<Span>::empty());
        }
        while i < self.spans.len()
            invariant
                i <= self.spans@.len(),
                text_fold(
                    document,
                    self.spans@.take(i as int),
                    self.padding@,
                    self.prefix@,
                    cap(width_from(self.prefix@, 0)),
                ) == (out@, column as int),
            decreases self.spans@.len() - i,
        {
            let visible = self.spans[i].visible(document, column);
            let w = capped_width(visible.as_str(), column);
            column = if column as u32 + w as u32 > u16::MAX as u32 { u16::MAX } else { column + w };
            push_str(&mut out, visible.as_str());
            if i < self.padding.len() {
                let pad = self.padding[i];
                let mut k: u16 = 0;
                let ghost before = out@;
                while k < pad
                    invariant
                        k <= pad,
                        out@ == before + Seq::new(k as nat, |j: int| ' '),
                    decreases pad - k,
                {
                    push_char(&mut out, ' ');
                    k = k + 1;
                    assert(out@ =~= before + Seq::new(k as nat, |j: int| ' '));
                }
                column = if column as u32 + pad as u32 > u16::MAX as u32 { u16::MAX } else { column + pad };
            }
            proof {
                assert(self.spans@.take(i as int + 1).drop_last() =~= self.spans@.take(i as int));
            }
            i = i + 1;
        }
        proof {
            assert(self.spans@.take(self.spans@.len() as int) =~= self.spans@);
        }
        out
    }
}

/// `n` capped at `u16::MAX`.
pub open spec fn cap(n: int) -> int {
    if n <= u16::MAX { n } else { u16::MAX as int }
}

/// The visible text a span renders as at `column` in `doc`.
pub open spec fn span_visible(doc: &Document, s: Span, column: int) -> Seq<char> {
    if span_in(doc.spec_bytes(), s) {
        visible_from(span_chars(doc, s), column)
    } else {
        Seq::empty()
    }
}

/// Rendering the spans `spans` after `out` at `column`: each span's visible
/// text, then its padding spaces; the column advances by the measured cells,
/// capped at `u16::MAX`.
pub open spec fn text_fold(
    doc: &Document,
    spans: Seq<Span>,
    padding: Seq<u16>,
    out: Seq<char>,
    column: int,
) -> (Seq<char>, int)
    decreases spans.len(),
{
    if spans.len() == 0 {
        (out, column)
    } else {
        let (o, c) = text_fold(doc, spans.drop_last(), padding, out, column);
        let i = spans.len() - 1;
        let v = span_visible(doc, spans.last(), c);
        let c1 = cap(c + cap(width_from(v, c)));
        if i < padding.len() {
            (o + v + Seq::new(padding[i] as nat, |j: int| ' '), cap(c1 + padding[i]))
        } else {
            (o + v, c1)
        }
    }
}

/// The complete visible text of a row.
pub open spec fn row_text(doc: &Document, row: VisualRow) -> Seq<char> {
    text_fold(
        doc,
        row.spec_spans(),
        row.spec_padding(),
        row.spec_prefix(),
        cap(width_from(row.spec_prefix(), 0)),
    ).0
}

/// Layout output for one document at one width.
#[derive(Clone, Debug, PartialEq, Eq)]
pub struct PageLayout {
    width: u16,
    rows: Vec<VisualRow>,
}

/// The largest span end among the rows `rows`, or 0.
pub open spec fn covered(rows: Seq<VisualRow>) -> int
    decreases rows.len(),
{
    if rows.len() == 0 {
        0
    } else {
        let before = covered(rows.drop_last());
        let here = spans_max_end(rows.last().spec_spans());
        if here > before { here } else { before }
    }
}

/// The largest end among `spans`, or 0.
pub open spec fn spans_max_end(spans: Seq<Span>) -> int
    decreases spans.len(),
{
    if spans.len() == 0 {
        0
    } else {
        let before = spans_max_end(spans.drop_last());
        let here = spans.last().spec_range().end as int;
        if here > before { here } else { before }
    }
}

/// The first row whose covered content reaches past `byte`, or the last row.
pub open spec fn spec_row_after(rows: Seq<VisualRow>, byte: int) -> int {
    if exists|k: int| 0 <= k < rows.len() && covered(#[trigger] rows.take(k + 1)) > byte {
        choose|k: int|
            0 <= k < rows.len() && covered(#[trigger] rows.take(k + 1)) > byte && forall|j: int|
                0 <= j < k ==> covered(#[trigger] rows.take(j + 1)) <= byte
    } else if rows.len() == 0 {
        0
    } else {
        rows.len() - 1
    }
}

/// The largest end among `spans`, or 0.
fn max_end(spans: &Vec<Span>) -> (top: usize)
    ensures
        top == spans_max_end(spans@),
{
    let mut top: usize = 0;
    let mut j: usize = 0;
    assert(spans@.take(0) =~= Seq::<Span>::empty());
    while j < spans.len()
        invariant
            j <= spans@.len(),
            top == spans_max_end(spans@.take(j as int)),
        decreases spans@.len() - j,
    {
        assert(spans@.take(j as int + 1).drop_last() =~= spans@.take(j as int));
        if spans[j].range.end > top {
            top = spans[j].range.end;
        }
        j = j + 1;
    }
    assert(spans@.take(spans@.len() as int) =~= spans@);
    top
}

impl PageLayout {
    pub closed spec fn spec_width(&self) -> u16 {
        self.width
    }

    pub closed spec fn spec_rows(&self) -> Seq<VisualRow> {
        self.rows@
    }

    /// The width this layout was produced for.
    pub fn width(&self) -> (w: u16)
        ensures
            w == self.spec_width(),
    {
        self.width
    }

    /// All visual rows in reading order.
    pub fn rows(&self) -> (r: &Vec<VisualRow>)
        ensures
            r@ == self.spec_rows(),
    {
        &self.rows
    }

    /// Index of the first visual row whose content ends after `byte`.
    ///
    /// Anchors map to this row, which keeps the same passage visible across
    /// any width change. Returns the final row when the byte sits at or past
    /// the end of the document (and 0 for an empty layout).
    pub fn row_after(&self, byte: usize) -> (index: usize)
        ensures
            index == spec_row_after(self.spec_rows(), byte as int),
            self.spec_rows().len() > 0 ==> index < self.spec_rows().len(),
            self.spec_rows().len() == 0 ==> index == 0,
            index > 0 ==> covered(self.spec_rows().take(index as int)) <= byte,
    {
        let rows = &self.rows;
        let mut best: usize = 0;
        let mut index: usize = 0;
        assert(rows@.take(0) =~= Seq::<VisualRow>::empty());
        while index < rows.len()
            invariant
                index <= rows@.len(),
                rows@ == self.spec_rows(),
                best == covered(rows@.take(index as int)),
                best <= byte,
                forall|j: int| 0 <= j < index ==> covered(#[trigger] rows@.take(j + 1)) <= byte,
            decreases rows@.len() - index,
        {
            let top = max_end(&rows[index].spans);
            assert(rows@.take(index as int + 1).drop_last() =~= rows@.take(index as int));
            if top > best {
                best = top;
            }
            if best > byte {
                proof {
                    let k = index as int;
                    assert(covered(rows@.take(k + 1)) > byte);
                    assert(0 <= k < rows@.len() && covered(rows@.take(k + 1)) > byte && forall|j: int|
                        0 <= j < k ==> covered(#[trigger] rows@.take(j + 1)) <= byte);
                    assert(exists|k: int| 0 <= k < rows@.len() && covered(#[trigger] rows@.take(k + 1)) > byte);
                    let c = choose|k: int|
                        0 <= k < rows@.len() && covered(#[trigger] rows@.take(k + 1)) > byte && forall|j: int|
                            0 <= j < k ==> covered(#[trigger] rows@.take(j + 1)) <= byte;
                    if c < k {
                        assert(covered(rows@.take(c + 1)) <= byte);
                    } else if c > k {
                        assert(covered(rows@.take(k + 1)) <= byte);
                    }
                }
                return index;
            }
            index = index + 1;
        }
        proof {
            if exists|k: int| 0 <= k < rows@.len() && covered(#[trigger] rows@.take(k + 1)) > byte {
                let k = choose|k: int| 0 <= k < rows@.len() && covered(#[trigger] rows@.take(k + 1)) > byte;
                assert(covered(rows@.take(k + 1)) <= byte);
            }
            assert(rows@.take(rows@.len() as int) =~= rows@);
        }
        if rows.len() == 0 {
            0
        } else {
            rows.len() - 1
        }
    }
}

/// Byte offsets that `unicode-linebreak` reports as break opportunities in
/// a text: each is the index of the character that follows the break.
pub uninterp spec fn break_positions(text: Seq<char>) -> Seq<usize>;

/// Calls `unicode_linebreak::linebreaks` and keeps each opportunity's
/// offset; the offsets are named `break_positions`. Claimed besides, as the
/// crate computes them from `char_indices` and the text's length: they rise
/// strictly, and each is a character boundary of the text, at most its end.
#[verifier::external_body]
fn break_opportunities(text: &str) -> (offsets: Vec<usize>)
    ensures
        offsets@ == break_positions(text@),
        forall|k: int|
            0 <= k < offsets@.len() ==> (#[trigger] offsets@[k]) <= text.spec_bytes().len()
                && vstd::utf8::is_char_boundary(text.spec_bytes(), offsets@[k] as int),
        forall|i: int, j: int| 0 <= i < j < offsets@.len() ==> #[trigger] offsets@[i] < #[trigger] offsets@[j],
{
    linebreaks(text).map(|(after, _)| after).collect()
}

/// The bytes `la..lb` are one line of the text `lo..hi`: the line starts
/// the text or follows a newline, ends it or stops at a newline, and holds
/// no newline.
pub open spec fn line_in(bytes: Seq<u8>, lo: int, hi: int, la: int, lb: int) -> bool {
    &&& lo <= la < lb <= hi <= bytes.len()
    &&& (la == lo || bytes[la - 1] == 10)
    &&& (lb == hi || bytes[lb] == 10)
    &&& forall|j: int| la <= j < lb ==> bytes[j] != 10
}

/// The break opportunities of the line `la..lb`, as offsets into the line.
pub open spec fn line_breaks(bytes: Seq<u8>, la: int, lb: int) -> Seq<usize> {
    break_positions(vstd::utf8::decode_utf8(bytes.subrange(la, lb)))
}

/// Byte `e` is a break opportunity of the line `la..lb`.
pub open spec fn breaks_at(bytes: Seq<u8>, la: int, lb: int, e: int) -> bool {
    exists|i: int| 0 <= i < line_breaks(bytes, la, lb).len() && #[trigger] line_breaks(bytes, la, lb)[i] == e - la
}

/// No break opportunity of the line `la..lb` lies strictly between `s`
/// and `t`.
pub open spec fn unbroken(bytes: Seq<u8>, la: int, lb: int, s: int, t: int) -> bool {
    forall|i: int|
        0 <= i < line_breaks(bytes, la, lb).len() ==> !(s < la + #[trigger] line_breaks(bytes, la, lb)[i] < t)
}

/// Byte `e` is where an inline decoration of `doc` starts or ends.
pub open spec fn decoration_edge(doc: &Document, e: int) -> bool {
    exists|i: int|
        0 <= i < doc.spec_inline().len() && ((#[trigger] doc.spec_inline()[i]).spec_range().start == e
            || doc.spec_inline()[i].spec_range().end == e)
}

/// Where a row may end in the text `lo..hi`: at the end of its line, at a
/// break opportunity of its line, or where an inline decoration starts or
/// ends.
pub open spec fn soft_end(doc: &Document, lo: int, hi: int, e: int) -> bool {
    exists|la: int, lb: int|
        #[trigger] line_in(doc.spec_bytes(), lo, hi, la, lb) && la < e <= lb && (e == lb || breaks_at(
            doc.spec_bytes(),
            la,
            lb,
            e,
        ) || decoration_edge(doc, e))
}

/// The bytes `s..e` start a piece `s..t` of the line `la..lb` of the text
/// `lo..hi` that holds no break opportunity, and stop inside it.
pub open spec fn cut_in(bytes: Seq<u8>, lo: int, hi: int, s: int, e: int, la: int, lb: int, t: int) -> bool {
    &&& line_in(bytes, lo, hi, la, lb)
    &&& la <= s < e < t <= lb
    &&& unbroken(bytes, la, lb, s, t)
}

/// A row whose only span cuts an unbreakable piece of a line.
pub open spec fn hard_cut(doc: &Document, lo: int, hi: int, row: VisualRow) -> bool {
    let spans = row.spec_spans();
    &&& spans.len() == 1
    &&& exists|la: int, lb: int, t: int|
        #[trigger] cut_in(
            doc.spec_bytes(),
            lo,
            hi,
            spans[0].spec_range().start as int,
            spans[0].spec_range().end as int,
            la,
            lb,
            t,
        )
}

/// Where a row of flowing text `lo..hi` ends: nowhere, when it holds no
/// span; else at a soft end, or inside an unbreakable piece that it holds
/// alone.
pub open spec fn row_ends_ok(doc: &Document, lo: int, hi: int, row: VisualRow) -> bool {
    let spans = row.spec_spans();
    ||| spans.len() == 0
    ||| soft_end(doc, lo, hi, spans.last().spec_range().end as int)
    ||| hard_cut(doc, lo, hi, row)
}

/// Every row of `rows` from `from` on ends as `row_ends_ok` allows.
pub open spec fn rows_end_ok(doc: &Document, lo: int, hi: int, rows: Seq<VisualRow>, from: int) -> bool {
    forall|k: int| from <= k < rows.len() ==> row_ends_ok(doc, lo, hi, #[trigger] rows[k])
}

/// The characters of the bytes `s..t`.
pub open spec fn text_at(bytes: Seq<u8>, s: int, t: int) -> Seq<char> {
    vstd::utf8::decode_utf8(bytes.subrange(s, t))
}

/// A row holding one span whose text alone is wider than `width` cells.
pub open spec fn wide_alone(doc: &Document, width: int, row: VisualRow) -> bool {
    let spans = row.spec_spans();
    &&& spans.len() == 1
    &&& width_from(
        text_at(doc.spec_bytes(), spans[0].spec_range().start as int, spans[0].spec_range().end as int),
        0,
    ) > width
}

/// The bytes `s..t` are a piece of the line `la..lb` of the text `lo..hi`
/// that holds no break opportunity.
pub open spec fn piece_from(bytes: Seq<u8>, lo: int, hi: int, la: int, lb: int, s: int, t: int) -> bool {
    &&& line_in(bytes, lo, hi, la, lb)
    &&& la <= s < t <= lb
    &&& unbroken(bytes, la, lb, s, t)
}

/// After `row`, the unbreakable piece that starts at `s` does not fit in
/// `width` cells: the row's cells, plus one for the newline that joins the
/// piece when it starts on a later line, leave too little room for it.
pub open spec fn piece_overflows(doc: &Document, lo: int, hi: int, width: int, row: VisualRow, s: int) -> bool {
    let bytes = doc.spec_bytes();
    let e = row.spec_spans().last().spec_range().end as int;
    let c = row.spec_cells() + if s > e {
        1int
    } else {
        0int
    };
    ||| c > width
    ||| exists|la: int, lb: int, t: int|
        #[trigger] piece_from(bytes, lo, hi, la, lb, s, t) && width_from(text_at(bytes, s, t), c) > width - c
}

/// Row `next` follows row `row` of flowing text `lo..hi` at `width` cells
/// only as greedy filling allows: `row` was cut inside an unbreakable piece
/// or is wider than the width on its own, or the piece that starts `next`
/// did not fit after it.
pub open spec fn pair_ok(doc: &Document, lo: int, hi: int, width: int, row: VisualRow, next: VisualRow) -> bool {
    ||| next.spec_spans().len() == 0
    ||| hard_cut(doc, lo, hi, row)
    ||| wide_alone(doc, width, row)
    ||| piece_overflows(doc, lo, hi, width, row, next.spec_spans()[0].spec_range().start as int)
}

/// Every two consecutive rows of `rows` from `from` on follow as greedy
/// filling allows.
pub open spec fn rows_greedy(doc: &Document, lo: int, hi: int, width: int, rows: Seq<VisualRow>, from: int) -> bool {
    forall|k: int| from <= k && k + 1 < rows.len() ==> pair_ok(doc, lo, hi, width, #[trigger] rows[k], rows[k + 1])
}

/// Byte offsets at which `unicode-segmentation` starts each extended
/// grapheme cluster of a text.
pub uninterp spec fn grapheme_starts(text: Seq<char>) -> Seq<usize>;

/// Cluster start offsets that cut `bytes` into whole clusters: none for an
/// empty text, else the first at 0, each later one past the one before,
/// every one inside the text on a character boundary.
pub open spec fn clusters_tile(bytes: Seq<u8>, starts: Seq<usize>) -> bool {
    &&& (bytes.len() == 0) == (starts.len() == 0)
    &&& starts.len() > 0 ==> starts[0] == 0
    &&& forall|k: int|
        0 <= k < starts.len() ==> (#[trigger] starts[k]) < bytes.len() && vstd::utf8::is_char_boundary(
            bytes,
            starts[k] as int,
        )
    &&& forall|k: int| 0 < k < starts.len() ==> starts[k - 1] < #[trigger] starts[k]
}

/// Where the first grapheme cluster of the UTF-8 text `bytes` ends.
pub open spec fn first_cluster_end(bytes: Seq<u8>) -> int {
    let starts = grapheme_starts(vstd::utf8::decode_utf8(bytes));
    if starts.len() > 1 {
        starts[1] as int
    } else {
        bytes.len() as int
    }
}

/// The bytes `a..b` of `bytes` are one whole grapheme cluster: the first
/// cluster of the text that runs from `a` to some later point.
pub open spec fn lone_cluster(bytes: Seq<u8>, a: int, b: int) -> bool {
    exists|e: int| b <= e <= bytes.len() && #[trigger] first_cluster_end(bytes.subrange(a, e)) == b - a
}

/// Calls `UnicodeSegmentation::grapheme_indices` (extended clusters) and
/// keeps each cluster's offset; the offsets are named `grapheme_starts`.
/// Claimed besides: the clusters are the string's consecutive slices, so
/// their offsets tile the text (`clusters_tile`).
#[verifier::external_body]
fn grapheme_offsets(text: &str) -> (offsets: Vec<usize>)
    ensures
        offsets@ == grapheme_starts(text@),
        clusters_tile(text.spec_bytes(), offsets@),
{
    text.grapheme_indices(true).map(|(index, _)| index).collect()
}

/// Span `j` of `spans` lies in `bytes` and starts where its predecessor
/// ended or later (at `floor` or later for the first span).
pub open spec fn span_link(bytes: Seq<u8>, spans: Seq<Span>, floor: int, j: int) -> bool {
    &&& span_in(bytes, spans[j])
    &&& spans[j].spec_range().start >= if j == 0 {
        floor
    } else {
        spans[j - 1].spec_range().end as int
    }
}

/// Spans in reading order: inside `bytes`, on boundaries, never overlapping
/// or moving backwards, the first at `floor` or later.
pub open spec fn spans_ok(bytes: Seq<u8>, spans: Seq<Span>, floor: int) -> bool {
    forall|j: int| 0 <= j < spans.len() ==> #[trigger] span_link(bytes, spans, floor, j)
}

/// Where reading stands after `spans`: the last span's end, or `floor`.
pub open spec fn spans_end(spans: Seq<Span>, floor: int) -> int {
    if spans.len() == 0 {
        floor
    } else {
        spans.last().spec_range().end as int
    }
}

/// Where reading stands after `rows`, starting from `floor`.
pub open spec fn rows_end(rows: Seq<VisualRow>, floor: int) -> int
    decreases rows.len(),
{
    if rows.len() == 0 {
        floor
    } else {
        spans_end(rows.last().spec_spans(), rows_end(rows.drop_last(), floor))
    }
}

/// Every span of `rows`, row after row, continues reading order from
/// `floor`: in bounds, on boundaries, never overlapping or moving back.
pub open spec fn rows_chain(bytes: Seq<u8>, rows: Seq<VisualRow>, floor: int) -> bool
    decreases rows.len(),
{
    if rows.len() == 0 {
        true
    } else {
        rows_chain(bytes, rows.drop_last(), floor) && spans_ok(
            bytes,
            rows.last().spec_spans(),
            rows_end(rows.drop_last(), floor),
        )
    }
}

/// Whether row `row` is owned by an existing block of `doc`.
pub open spec fn owned(doc: &Document, row: VisualRow) -> bool {
    &&& row.spec_section() < doc.spec_sections().len()
    &&& row.spec_block() < doc.spec_sections()[row.spec_section() as int].spec_blocks().len()
}

/// A row stays inside `width` cells, unless its only span is one grapheme
/// cluster wider than the row, or nothing but its own prefix overflows.
pub open spec fn row_fits(bytes: Seq<u8>, row: VisualRow, width: int) -> bool {
    ||| row.spec_cells() <= width
    ||| row.spec_spans().len() == 1 && lone_cluster(
        bytes,
        row.spec_spans()[0].spec_range().start as int,
        row.spec_spans()[0].spec_range().end as int,
    )
    ||| row.spec_cells() <= width_from(row.spec_prefix(), 0)
}

/// The kind of the block that owns `row`.
pub open spec fn owner_kind(doc: &Document, row: VisualRow) -> BlockKind {
    doc.spec_sections()[row.spec_section() as int].spec_blocks()[row.spec_block() as int].spec_kind()
}

/// Whether a block's text flows as prose, broken into rows at line-break
/// opportunities: every kind but tables, code blocks and blank lines.
pub open spec fn prose(kind: BlockKind) -> bool {
    kind != BlockKind::Table && kind != BlockKind::CodeBlock && kind != BlockKind::BlankLine
}

/// A row of a prose block ends as `row_ends_ok` allows within the text of
/// the block that owns it.
pub open spec fn breaks_well(doc: &Document, row: VisualRow) -> bool {
    let r = doc.spec_sections()[row.spec_section() as int].spec_blocks()[row.spec_block() as int].spec_range();
    prose(owner_kind(doc, row)) ==> row_ends_ok(doc, r.start as int, r.end as int, row)
}

/// Whether a block's text flows without a row prefix, so that its rows fill
/// the full width: paragraphs, separators, headings and image captions.
pub open spec fn unprefixed(kind: BlockKind) -> bool {
    kind is Paragraph || kind is Separator || kind is Heading || kind is Image
}

/// Rows `k` and `k + 1` of `rows`, when one unprefixed block owns both,
/// follow as greedy filling allows within that block's text at `width`
/// cells.
pub open spec fn fills_well(doc: &Document, width: int, rows: Seq<VisualRow>, k: int) -> bool {
    let row = rows[k];
    let next = rows[k + 1];
    let r = doc.spec_sections()[row.spec_section() as int].spec_blocks()[row.spec_block() as int].spec_range();
    row.spec_section() == next.spec_section() && row.spec_block() == next.spec_block() && unprefixed(
        owner_kind(doc, row),
    ) ==> pair_ok(doc, r.start as int, r.end as int, width, row, next)
}

/// Per-row facts of a layout: each row belongs to an existing block, and
/// rows outside tables fit their width.
pub open spec fn rows_props(doc: &Document, width: int, rows: Seq<VisualRow>) -> bool {
    forall|k: int|
        0 <= k < rows.len() ==> owned(doc, #[trigger] rows[k]) && (owner_kind(doc, rows[k])
            != BlockKind::Table ==> row_fits(doc.spec_bytes(), rows[k], width))
}

/// Whether no row of `rows` carries a prefix.
pub open spec fn all_plain(rows: Seq<VisualRow>) -> bool {
    forall|k: int| 0 <= k < rows.len() ==> (#[trigger] rows[k]).spec_prefix() == Seq::<char>::empty()
}

/// Appending a row whose spans continue reading order extends the chain.
proof fn lemma_rows_push(bytes: Seq<u8>, rows: Seq<VisualRow>, floor: int, row: VisualRow)
    requires
        rows_chain(bytes, rows, floor),
        spans_ok(bytes, row.spec_spans(), rows_end(rows, floor)),
    ensures
        rows_chain(bytes, rows.push(row), floor),
        rows_end(rows.push(row), floor) == spans_end(row.spec_spans(), rows_end(rows, floor)),
{
    assert(rows.push(row).drop_last() =~= rows);
}

/// Appending a row keeps the per-row facts of the rows before it.
proof fn lemma_props_push(doc: &Document, width: int, rows: Seq<VisualRow>, row: VisualRow)
    requires
        rows_props(doc, width, rows),
        owned(doc, row),
        owner_kind(doc, row) != BlockKind::Table ==> row_fits(doc.spec_bytes(), row, width),
    ensures
        rows_props(doc, width, rows.push(row)),
{
    let next = rows.push(row);
    assert forall|k: int| 0 <= k < next.len() implies owned(doc, #[trigger] next[k]) && (owner_kind(doc, next[k])
        != BlockKind::Table ==> row_fits(doc.spec_bytes(), next[k], width)) by {
        if k < rows.len() {
            assert(next[k] == rows[k]);
        }
    }
}

/// `rows` keeps every row of `before` in place and adds only rows owned by
/// block `block` of section `section`.
pub open spec fn extends(rows: Seq<VisualRow>, before: Seq<VisualRow>, section: usize, block: usize) -> bool {
    &&& before.len() <= rows.len()
    &&& forall|k: int| 0 <= k < before.len() ==> #[trigger] rows[k] == before[k]
    &&& forall|k: int|
        before.len() <= k < rows.len() ==> (#[trigger] rows[k]).spec_section() == section
            && rows[k].spec_block() == block
}

proof fn lemma_extends_refl(rows: Seq<VisualRow>, section: usize, block: usize)
    ensures
        extends(rows, rows, section, block),
{
}

proof fn lemma_extends_trans(a: Seq<VisualRow>, b: Seq<VisualRow>, c: Seq<VisualRow>, section: usize, block: usize)
    requires
        extends(b, a, section, block),
        extends(c, b, section, block),
    ensures
        extends(c, a, section, block),
{
    assert forall|k: int| 0 <= k < a.len() implies #[trigger] c[k] == a[k] by {
        assert(c[k] == b[k]);
    }
    assert forall|k: int| a.len() <= k < c.len() implies (#[trigger] c[k]).spec_section() == section
        && c[k].spec_block() == block by {
        if k < b.len() {
            assert(c[k] == b[k]);
        }
    }
}

proof fn lemma_extends_push(rows: Seq<VisualRow>, row: VisualRow, section: usize, block: usize)
    requires
        row.spec_section() == section,
        row.spec_block() == block,
    ensures
        extends(rows.push(row), rows, section, block),
{
    assert forall|k: int| 0 <= k < rows.len() implies #[trigger] rows.push(row)[k] == rows[k] by {}
}

/// Rows that extend others with the same reading end and no more rows are
/// the same rows; so a changed reading end means rows were added.
proof fn lemma_extends_grows(rows: Seq<VisualRow>, before: Seq<VisualRow>, section: usize, block: usize, floor: int)
    requires
        extends(rows, before, section, block),
        rows_end(rows, floor) != rows_end(before, floor),
    ensures
        rows.len() > before.len(),
        rows[before.len() as int].spec_section() == section,
        rows[before.len() as int].spec_block() == block,
{
    if rows.len() == before.len() {
        assert(rows =~= before);
    }
}

/// The reading end after the content of `lo..j`: just past its last byte
/// other than a newline, or `e0` when every byte there is a newline.
pub open spec fn content_end(bytes: Seq<u8>, lo: int, j: int, e0: int) -> int
    decreases j - lo,
{
    if j <= lo {
        e0
    } else if bytes[j - 1] != 10 {
        j
    } else {
        content_end(bytes, lo, j - 1, e0)
    }
}

/// Appending a span at or after the current end keeps spans ordered.
proof fn lemma_spans_push(bytes: Seq<u8>, spans: Seq<Span>, floor: int, span: Span)
    requires
        spans_ok(bytes, spans, floor),
        span_in(bytes, span),
        span.spec_range().start >= spans_end(spans, floor),
    ensures
        spans_ok(bytes, spans.push(span), floor),
        spans_end(spans.push(span), floor) == span.spec_range().end,
{
    let next = spans.push(span);
    assert forall|j: int| 0 <= j < next.len() implies #[trigger] span_link(bytes, next, floor, j) by {
        if j < spans.len() {
            assert(span_link(bytes, spans, floor, j));
            assert(next[j] == spans[j]);
            if j > 0 {
                assert(next[j - 1] == spans[j - 1]);
            }
        } else if j > 0 {
            assert(next[j - 1] == spans[j - 1]);
        }
    }
}

/// The bytes `a..b` of `text`, which lie on character boundaries.
fn slice(text: &str, a: usize, b: usize) -> (piece: &str)
    requires
        a <= b <= text.spec_bytes().len(),
        char_boundary(text.spec_bytes(), a as int),
        char_boundary(text.spec_bytes(), b as int),
    ensures
        piece.spec_bytes() == text.spec_bytes().subrange(a as int, b as int),
{
    proof {
        reveal(char_boundary);
    }
    str_range(text, a, b).unwrap()
}

/// How far the clusters starting at `starts[k]` extend a fit that so far
/// ends at byte `end` after `used` of `free` cells: each cluster must start
/// where the fit ends and end on a character boundary; one that fits joins
/// (stopping once the cells are used up), the first one that does not fit
/// ends the fit, joining only when nothing has been taken yet.
pub open spec fn fit_scan(bytes: Seq<u8>, starts: Seq<usize>, k: int, end: int, used: int, free: int) -> int
    decreases starts.len() - k,
{
    if k < 0 || k >= starts.len() {
        end
    } else {
        let s = starts[k] as int;
        let e = if k + 1 < starts.len() {
            starts[k + 1] as int
        } else {
            bytes.len() as int
        };
        if s != end || e <= s || e > bytes.len() || !vstd::utf8::is_char_boundary(bytes, s) || !vstd::utf8::is_char_boundary(bytes, e) {
            end
        } else {
            let w = width_from(vstd::utf8::decode_utf8(bytes.subrange(s, e)), used);
            if w <= free - used {
                if used + w >= free {
                    e
                } else {
                    fit_scan(bytes, starts, k + 1, e, used + w, free)
                }
            } else if end == 0 {
                e
            } else {
                end
            }
        }
    }
}

/// A forced piece `a..a+n` of the text `a..b` either fits `free` cells or
/// is one whole grapheme cluster.
proof fn lemma_piece_fits_or_lone(bytes: Seq<u8>, a: int, b: int, n: int, free: int)
    requires
        0 <= a <= a + n <= b <= bytes.len(),
        width_from(vstd::utf8::decode_utf8(bytes.subrange(a, b).subrange(0, n)), 0) <= free || n
            == first_cluster_end(bytes.subrange(a, b)),
    ensures
        width_from(vstd::utf8::decode_utf8(bytes.subrange(a, a + n)), 0) <= free || lone_cluster(bytes, a, a + n),
{
    assert(bytes.subrange(a, b).subrange(0, n) =~= bytes.subrange(a, a + n));
    if first_cluster_end(bytes.subrange(a, b)) == n {
        assert(lone_cluster(bytes, a, a + n));
    }
}

/// Length in bytes of the longest run of whole grapheme clusters at the
/// start of `remaining` that fits in `free` cells from column 0.
///
/// Always consumes at least one cluster so wrapping makes progress even
/// when a single cluster is wider than the row; such a cluster overflows by
/// its own width rather than being split. Should the segmentation offsets
/// not describe whole clusters, the whole remainder is taken.
#[verifier::spinoff_prover]
#[verifier::rlimit(30)]
fn force_fit_chunk(remaining: &str, free: u16) -> (n: usize)
    requires
        remaining.spec_bytes().len() > 0,
    ensures
        0 < n <= remaining.spec_bytes().len(),
        vstd::utf8::is_char_boundary(remaining.spec_bytes(), n as int),
        width_from(vstd::utf8::decode_utf8(remaining.spec_bytes().subrange(0, n as int)), 0) <= free || n
            == first_cluster_end(remaining.spec_bytes()),
        n == (if fit_scan(remaining.spec_bytes(), grapheme_starts(remaining@), 0, 0, 0, free as int) == 0 {
            remaining.spec_bytes().len() as int
        } else {
            fit_scan(remaining.spec_bytes(), grapheme_starts(remaining@), 0, 0, 0, free as int)
        }),
{
    let starts = grapheme_offsets(remaining);
    let ghost bytes = remaining.spec_bytes();
    proof {
        broadcast use vstd::utf8::group_utf8_lib;
        assert(vstd::utf8::valid_utf8(bytes));
        assert(vstd::utf8::decode_utf8(bytes) == remaining@);
        assert(bytes.subrange(0, 0) =~= Seq::<u8>::empty());
        assert(vstd::utf8::decode_utf8(Seq::<u8>::empty()) =~= Seq::<char>::empty());
    }
    let len = remaining.as_bytes().len();
    let mut end_bytes: usize = 0;
    let mut used: u16 = 0;
    let mut k: usize = 0;
    while k < starts.len()
        invariant_except_break
            fit_scan(bytes, starts@, 0, 0, 0, free as int) == fit_scan(bytes, starts@, k as int, end_bytes as int, used as int, free as int),
            k < starts@.len() ==> starts@[k as int] == end_bytes,
            used == width_from(vstd::utf8::decode_utf8(bytes.subrange(0, end_bytes as int)), 0),
            (end_bytes == 0) == (k == 0),
        invariant
            len == remaining.spec_bytes().len(),
            len > 0,
            end_bytes <= len,
            used <= free,
            bytes == remaining.spec_bytes(),
            vstd::utf8::valid_utf8(bytes),
            vstd::utf8::decode_utf8(bytes) == remaining@,
            starts@ == grapheme_starts(remaining@),
            clusters_tile(bytes, starts@),
            k <= starts@.len(),
            vstd::utf8::is_char_boundary(bytes, end_bytes as int),
        ensures
            fit_scan(bytes, starts@, 0, 0, 0, free as int) == end_bytes,
            end_bytes > 0,
            width_from(vstd::utf8::decode_utf8(bytes.subrange(0, end_bytes as int)), 0) <= free || end_bytes
                == first_cluster_end(bytes),
        decreases starts@.len() - k,
    {
        let s = starts[k];
        let e = if k + 1 < starts.len() { starts[k + 1] } else { len };
        proof {
            broadcast use vstd::utf8::group_utf8_lib;
            assert(starts@[k as int] < len);
            if k + 1 < starts@.len() {
                assert(starts@[(k + 1) as int - 1] < starts@[k + 1]);
                assert(starts@[k + 1] < len);
            } else {
                assert(vstd::utf8::is_char_boundary(bytes, bytes.len() as int));
            }
        }
        if s != end_bytes || e <= s || e > len || !remaining.is_char_boundary(s)
            || !remaining.is_char_boundary(e) {
            break;
        }
        proof {
            reveal(char_boundary);
        }
        let cluster = slice(remaining, s, e);
        proof {
            vstd::utf8::encode_utf8_decode_utf8(cluster@);
            assert(cluster@ == vstd::utf8::decode_utf8(bytes.subrange(s as int, e as int)));
        }
        proof {
            crate::strings::lemma_decode_join(bytes, s as int, e as int);
            crate::width::lemma_width_concat(
                vstd::utf8::decode_utf8(bytes.subrange(0, s as int)),
                vstd::utf8::decode_utf8(bytes.subrange(s as int, e as int)),
                0,
            );
        }
        match width_within(cluster, used, free - used) {
            Some(cells) => {
                end_bytes = e;
                used = used + cells;
                if used >= free {
                    break;
                }
            },
            None => {
                if end_bytes == 0 {
                    end_bytes = e;
                }
                break;
            },
        }
        k = k + 1;
    }
    if end_bytes == 0 {
        len
    } else {
        end_bytes
    }
}

/// Whether every byte of `a..b` is a newline.
pub open spec fn newlines(bytes: Seq<u8>, a: int, b: int) -> bool {
    forall|j: int| a <= j < b ==> bytes[j] == 10
}

/// The larger of two integers.
pub open spec fn max_of(a: int, b: int) -> int {
    if a > b {
        a
    } else {
        b
    }
}

/// Past the reading end after the content of `lo..j`, only newlines remain.
proof fn lemma_content_end_newlines(bytes: Seq<u8>, lo: int, j: int, e0: int)
    requires
        e0 <= lo,
        j <= bytes.len(),
    ensures
        newlines(bytes, max_of(content_end(bytes, lo, j, e0), lo), j),
    decreases j - lo,
{
    if j > lo && bytes[j - 1] == 10 {
        lemma_content_end_newlines(bytes, lo, j - 1, e0);
    }
}

/// Whether a span of `row` contains byte `j`.
pub open spec fn row_covers(row: VisualRow, j: int) -> bool {
    exists|i: int|
        0 <= i < row.spec_spans().len() && (#[trigger] row.spec_spans()[i]).spec_range().start <= j
            < row.spec_spans()[i].spec_range().end
}

/// Whether a span of a row of `rows`, from row `from` on, contains byte `j`.
pub open spec fn rows_cover(rows: Seq<VisualRow>, from: int, j: int) -> bool {
    exists|k: int| from <= k < rows.len() && row_covers(#[trigger] rows[k], j)
}

/// Whether every byte of `lo..x` other than a newline lies in a span of a
/// row of `rows` from row `from` on.
pub open spec fn content_covered(bytes: Seq<u8>, rows: Seq<VisualRow>, from: int, lo: int, x: int) -> bool {
    forall|j: int| lo <= j < x && bytes[j] != 10 ==> #[trigger] rows_cover(rows, from, j)
}

/// `rows2` keeps every row of `rows1` in place, each with at least its spans.
pub open spec fn grows(rows1: Seq<VisualRow>, rows2: Seq<VisualRow>) -> bool {
    &&& rows1.len() <= rows2.len()
    &&& forall|k: int|
        0 <= k < rows1.len() ==> (#[trigger] rows1[k]).spec_spans().len() <= rows2[k].spec_spans().len() && forall|
            i: int,
        | 0 <= i < rows1[k].spec_spans().len() ==> rows1[k].spec_spans()[i] == #[trigger] rows2[k].spec_spans()[i]
}

proof fn lemma_covered_grows(bytes: Seq<u8>, rows1: Seq<VisualRow>, rows2: Seq<VisualRow>, from: int, lo: int, x: int)
    requires
        0 <= from,
        grows(rows1, rows2),
        content_covered(bytes, rows1, from, lo, x),
    ensures
        content_covered(bytes, rows2, from, lo, x),
{
    assert forall|j: int| lo <= j < x && bytes[j] != 10 implies #[trigger] rows_cover(rows2, from, j) by {
        assert(rows_cover(rows1, from, j));
        let k = choose|k: int| from <= k < rows1.len() && row_covers(#[trigger] rows1[k], j);
        let i = choose|i: int|
            0 <= i < rows1[k].spec_spans().len() && (#[trigger] rows1[k].spec_spans()[i]).spec_range().start <= j
                < rows1[k].spec_spans()[i].spec_range().end;
        assert(rows1[k].spec_spans().len() <= rows2[k].spec_spans().len());
        assert(rows2[k].spec_spans()[i] == rows1[k].spec_spans()[i]);
        assert(row_covers(rows2[k], j));
    }
}

/// Adding the span `a..b` to the last row covers what was covered before
/// `a`, up to `b`.
proof fn lemma_covered_span(
    bytes: Seq<u8>,
    rows1: Seq<VisualRow>,
    rows2: Seq<VisualRow>,
    from: int,
    lo: int,
    x: int,
    a: int,
    b: int,
)
    requires
        0 <= from,
        grows(rows1, rows2),
        content_covered(bytes, rows1, from, lo, x),
        newlines(bytes, if x > lo { x } else { lo }, a),
        from < rows2.len(),
        exists|i: int|
            0 <= i < rows2.last().spec_spans().len() && (#[trigger] rows2.last().spec_spans()[i]).spec_range().start
                == a && rows2.last().spec_spans()[i].spec_range().end == b,
    ensures
        content_covered(bytes, rows2, from, lo, if b > x { b } else { x }),
{
    lemma_covered_grows(bytes, rows1, rows2, from, lo, x);
    let i = choose|i: int|
        0 <= i < rows2.last().spec_spans().len() && (#[trigger] rows2.last().spec_spans()[i]).spec_range().start == a
            && rows2.last().spec_spans()[i].spec_range().end == b;
    assert forall|j: int| lo <= j < (if b > x { b } else { x }) && bytes[j] != 10 implies #[trigger] rows_cover(
        rows2,
        from,
        j,
    ) by {
        if j >= x {
            assert(row_covers(rows2[rows2.len() - 1], j));
        }
    }
}

/// Adding a span `a..b` to the row under construction, after newlines
/// only, extends coverage to `b`.
proof fn lemma_push_span_covers(
    bytes: Seq<u8>,
    rows: Seq<VisualRow>,
    cur1: VisualRow,
    cur2: VisualRow,
    sp: Span,
    from: int,
    lo: int,
    x: int,
)
    requires
        0 <= from <= rows.len(),
        cur2.spec_spans() == cur1.spec_spans().push(sp),
        content_covered(bytes, rows.push(cur1), from, lo, x),
        newlines(bytes, if x > lo { x } else { lo }, sp.spec_range().start as int),
        x <= sp.spec_range().end,
    ensures
        content_covered(bytes, rows.push(cur2), from, lo, sp.spec_range().end as int),
{
    let rows1 = rows.push(cur1);
    let rows2 = rows.push(cur2);
    assert forall|k: int| 0 <= k < rows1.len() implies (#[trigger] rows1[k]).spec_spans().len()
        <= rows2[k].spec_spans().len() && forall|i: int|
        0 <= i < rows1[k].spec_spans().len() ==> rows1[k].spec_spans()[i] == #[trigger] rows2[k].spec_spans()[i] by {
        if k < rows.len() {
            assert(rows1[k] == rows2[k]);
        }
    }
    let n = cur1.spec_spans().len() as int;
    assert(rows2.last().spec_spans()[n] == sp);
    lemma_covered_span(
        bytes,
        rows1,
        rows2,
        from,
        lo,
        x,
        sp.spec_range().start as int,
        sp.spec_range().end as int,
    );
}

/// With an empty row under construction and only newlines past `x`, the
/// finished rows cover every other byte of `lo..hi`.
proof fn lemma_covered_finish(
    bytes: Seq<u8>,
    rows: Seq<VisualRow>,
    row: VisualRow,
    from: int,
    lo: int,
    x: int,
    hi: int,
)
    requires
        0 <= from,
        row.spec_spans().len() == 0,
        content_covered(bytes, rows.push(row), from, lo, x),
        newlines(bytes, max_of(x, lo), hi),
    ensures
        content_covered(bytes, rows, from, lo, hi),
{
    assert forall|j: int| lo <= j < hi && bytes[j] != 10 implies #[trigger] rows_cover(rows, from, j) by {
        assert(j < x);
        assert(rows_cover(rows.push(row), from, j));
        let k = choose|k: int| from <= k < rows.push(row).len() && row_covers(#[trigger] rows.push(row)[k], j);
        if k == rows.len() {
            assert(rows.push(row)[k] == row);
        } else {
            assert(rows.push(row)[k] == rows[k]);
        }
    }
}

/// Rows that extend others keep every span of them.
proof fn lemma_extends_grows_spans(rows2: Seq<VisualRow>, rows1: Seq<VisualRow>, section: usize, block: usize)
    requires
        extends(rows2, rows1, section, block),
    ensures
        grows(rows1, rows2),
{
    assert forall|k: int| 0 <= k < rows1.len() implies (#[trigger] rows1[k]).spec_spans().len()
        <= rows2[k].spec_spans().len() && forall|i: int|
        0 <= i < rows1[k].spec_spans().len() ==> rows1[k].spec_spans()[i] == #[trigger] rows2[k].spec_spans()[i] by {
        assert(rows2[k] == rows1[k]);
    }
}

/// Coverage from a later row is coverage from an earlier one; coverage up
/// to `x` and coverage of `x..y` join.
proof fn lemma_covered_join(bytes: Seq<u8>, rows: Seq<VisualRow>, f1: int, f2: int, lo: int, x: int, y: int)
    requires
        f1 <= f2,
        content_covered(bytes, rows, f1, lo, x),
        content_covered(bytes, rows, f2, x, y),
    ensures
        content_covered(bytes, rows, f1, lo, if y > x { y } else { x }),
{
    assert forall|j: int| lo <= j < (if y > x { y } else { x }) && bytes[j] != 10 implies #[trigger] rows_cover(
        rows,
        f1,
        j,
    ) by {
        if j >= x {
            assert(rows_cover(rows, f2, j));
            let k = choose|k: int| f2 <= k < rows.len() && row_covers(#[trigger] rows[k], j);
            assert(row_covers(rows[k], j));
        }
    }
}

/// A block's row range that ends past newlines only covers up to its end.
proof fn lemma_covered_newline(bytes: Seq<u8>, rows: Seq<VisualRow>, from: int, lo: int, x: int)
    requires
        content_covered(bytes, rows, from, lo, x),
        0 <= x < bytes.len(),
        bytes[x] == 10,
    ensures
        content_covered(bytes, rows, from, lo, x + 1),
{
}

/// Whether the rows of `rows` from row `from` on carry neither a prefix nor
/// padding.
pub open spec fn plain_from(rows: Seq<VisualRow>, from: int) -> bool {
    forall|k: int|
        from <= k < rows.len() ==> (#[trigger] rows[k]).spec_prefix() == Seq::<char>::empty()
            && rows[k].spec_padding() == Seq::<u16>::empty()
}

/// A row under construction inside one block, and a newline that may join
/// it to the next piece of content.
struct Flow {
    section: usize,
    block: usize,
    width: u16,
    pending: Option<usize>,
    current: VisualRow,
    first: Ghost<int>,
    lo: Ghost<int>,
    hi: Ghost<int>,
}

impl Flow {
    /// Every byte of the flow's text other than a newline, up to where
    /// reading stands, lies in a span of the rows from `first` on or of the
    /// row under construction.
    spec fn covers(&self, doc: &Document, rows: Seq<VisualRow>, floor: int) -> bool {
        &&& 0 <= self.first@ <= rows.len()
        &&& plain_from(rows, self.first@)
        &&& content_covered(
            doc.spec_bytes(),
            rows.push(self.current),
            self.first@,
            self.lo@,
            spans_end(self.current.spec_spans(), rows_end(rows, floor)),
        )
    }

    /// The fixed facts of a flow: its row belongs to an existing block and
    /// carries no prefix or padding.
    spec fn owner_ok(&self, doc: &Document) -> bool {
        &&& self.section < doc.spec_sections().len()
        &&& self.block < doc.spec_sections()[self.section as int].spec_blocks().len()
        &&& self.current.spec_section() == self.section
        &&& self.current.spec_block() == self.block
        &&& self.current.spec_prefix() == Seq::<char>::empty()
        &&& self.current.spec_padding() == Seq::<u16>::empty()
    }

    /// A consistent flow after `rows` from `floor`.
    spec fn ok(&self, doc: &Document, rows: Seq<VisualRow>, floor: int) -> bool {
        let bytes = doc.spec_bytes();
        let spans = self.current.spec_spans();
        &&& self.owner_ok(doc)
        &&& spans_ok(bytes, spans, rows_end(rows, floor))
        &&& (spans.len() == 0 ==> self.current.spec_cells() == 0 && self.pending is None)
        &&& self.current.spec_cells() <= self.width
        &&& match self.pending {
            Some(nl) => {
                &&& spans_end(spans, rows_end(rows, floor)) <= nl
                &&& nl < bytes.len()
                &&& bytes[nl as int] == 10
            },
            None => true,
        }
    }

    /// The rows of the flow, and the row under construction when it holds
    /// content, end where rows may end.
    spec fn ends_ok(&self, doc: &Document, rows: Seq<VisualRow>) -> bool {
        &&& rows_end_ok(doc, self.lo@, self.hi@, rows, self.first@)
        &&& self.current.spec_spans().len() > 0 ==> soft_end(
            doc,
            self.lo@,
            self.hi@,
            self.current.spec_spans().last().spec_range().end as int,
        )
    }

    /// The rows of the flow fill greedily; the row under construction
    /// follows the last row as greedy filling allows, and when it is empty
    /// the last row was cut or overflows on its own, or the piece that
    /// starts at `s` (when given) did not fit after it.
    spec fn fills(&self, doc: &Document, rows: Seq<VisualRow>, s: Option<int>) -> bool {
        let (lo, hi, w) = (self.lo@, self.hi@, self.width as int);
        &&& rows_greedy(doc, lo, hi, w, rows, self.first@)
        &&& rows.len() > self.first@ && self.current.spec_spans().len() > 0 ==> pair_ok(
            doc,
            lo,
            hi,
            w,
            rows.last(),
            self.current,
        )
        &&& rows.len() > self.first@ && self.current.spec_spans().len() == 0 ==> {
            ||| hard_cut(doc, lo, hi, rows.last())
            ||| wide_alone(doc, w, rows.last())
            ||| s is Some && piece_overflows(doc, lo, hi, w, rows.last(), s->0)
        }
    }

    /// A row with content and no pending newline ends where the next piece
    /// starts.
    spec fn joins_at(&self, rows: Seq<VisualRow>, floor: int, s: int) -> bool {
        self.current.spec_spans().len() > 0 && self.pending is None ==> s == spans_end(
            self.current.spec_spans(),
            rows_end(rows, floor),
        )
    }

    /// The earliest byte the next piece may start at.
    spec fn next(&self, rows: Seq<VisualRow>, floor: int) -> int {
        match self.pending {
            Some(nl) => nl + 1,
            None => spans_end(self.current.spec_spans(), rows_end(rows, floor)),
        }
    }

    /// Moves the row under construction into `rows` when it holds content.
    fn flush(&mut self, doc: &Document, rows: &mut Vec<VisualRow>, Ghost(floor): Ghost<int>)
        requires
            old(self).owner_ok(doc),
            spans_ok(doc.spec_bytes(), old(self).current.spec_spans(), rows_end(old(rows)@, floor)),
            rows_chain(doc.spec_bytes(), old(rows)@, floor),
            rows_props(doc, old(self).width as int, old(rows)@),
            row_fits(doc.spec_bytes(), old(self).current, old(self).width as int),
            old(self).covers(doc, old(rows)@, floor),
            rows_end_ok(doc, old(self).lo@, old(self).hi@, old(rows)@, old(self).first@),
            row_ends_ok(doc, old(self).lo@, old(self).hi@, old(self).current),
            rows_greedy(doc, old(self).lo@, old(self).hi@, old(self).width as int, old(rows)@, old(self).first@),
            old(rows)@.len() > old(self).first@ && old(self).current.spec_spans().len() > 0 ==> pair_ok(
                doc,
                old(self).lo@,
                old(self).hi@,
                old(self).width as int,
                old(rows)@.last(),
                old(self).current,
            ),
        ensures
            rows_greedy(doc, old(self).lo@, old(self).hi@, old(self).width as int, final(rows)@, old(self).first@),
            old(self).current.spec_spans().len() > 0 ==> final(rows)@ == old(rows)@.push(old(self).current),
            old(self).current.spec_spans().len() == 0 ==> final(rows)@ == old(rows)@,
            final(self).covers(doc, final(rows)@, floor),
            final(self).first == old(self).first,
            final(self).lo == old(self).lo,
            final(self).hi == old(self).hi,
            final(self).ends_ok(doc, final(rows)@),
            final(self).owner_ok(doc),
            final(self).section == old(self).section,
            final(self).block == old(self).block,
            final(self).width == old(self).width,
            final(self).pending == old(self).pending,
            final(self).current.spec_spans().len() == 0,
            final(self).current.spec_cells() == 0,
            rows_chain(doc.spec_bytes(), final(rows)@, floor),
            rows_props(doc, old(self).width as int, final(rows)@),
            all_plain(old(rows)@) ==> all_plain(final(rows)@),
            rows_end(final(rows)@, floor) == spans_end(
                old(self).current.spec_spans(),
                rows_end(old(rows)@, floor),
            ),
            extends(final(rows)@, old(rows)@, old(self).section, old(self).block),
    {
        proof {
            lemma_extends_refl(rows@, self.section, self.block);
        }
        if self.current.spans.len() > 0 {
            let mut row = VisualRow::empty(self.section, self.block);
            core::mem::swap(&mut row, &mut self.current);
            proof {
                assert forall|k: int| self.first@ <= k && k + 1 < rows@.push(row).len() implies pair_ok(
                    doc,
                    self.lo@,
                    self.hi@,
                    self.width as int,
                    #[trigger] rows@.push(row)[k],
                    rows@.push(row)[k + 1],
                ) by {
                    assert(rows@.push(row)[k] == rows@[k] || k == rows@.len());
                    if k + 1 < rows@.len() {
                        assert(rows@.push(row)[k] == rows@[k]);
                        assert(rows@.push(row)[k + 1] == rows@[k + 1]);
                    } else {
                        assert(rows@.push(row)[k] == rows@.last());
                        assert(rows@.push(row)[k + 1] == row);
                    }
                }
                assert forall|k: int| self.first@ <= k < rows@.push(row).len() implies row_ends_ok(
                    doc,
                    self.lo@,
                    self.hi@,
                    #[trigger] rows@.push(row)[k],
                ) by {
                    if k < rows@.len() {
                        assert(rows@.push(row)[k] == rows@[k]);
                    }
                }
                lemma_rows_push(doc.spec_bytes(), rows@, floor, row);
                lemma_props_push(doc, self.width as int, rows@, row);
                lemma_extends_push(rows@, row, self.section, self.block);
                if all_plain(rows@) {
                    assert forall|k: int| 0 <= k < rows@.push(row).len() implies (#[trigger] rows@.push(
                        row,
                    )[k]).spec_prefix() == Seq::<char>::empty() by {
                        if k < rows@.len() {
                            assert(rows@.push(row)[k] == rows@[k]);
                        }
                    }
                }
            }
            proof {
                let before = rows@.push(row);
                let after = rows@.push(row).push(self.current);
                assert forall|k: int| 0 <= k < before.len() implies (#[trigger] before[k]).spec_spans().len()
                    <= after[k].spec_spans().len() && forall|i: int|
                    0 <= i < before[k].spec_spans().len() ==> before[k].spec_spans()[i]
                        == #[trigger] after[k].spec_spans()[i] by {
                    assert(after[k] == before[k]);
                }
                lemma_covered_grows(
                    doc.spec_bytes(),
                    before,
                    after,
                    self.first@,
                    self.lo@,
                    spans_end(row.spec_spans(), rows_end(rows@, floor)),
                );
            }
            rows.push(row);
        } else {
            let ghost old_current = self.current;
            self.current = VisualRow::empty(self.section, self.block);
            proof {
                let before = rows@.push(old_current);
                let after = rows@.push(self.current);
                assert forall|k: int| 0 <= k < before.len() implies (#[trigger] before[k]).spec_spans().len()
                    <= after[k].spec_spans().len() && forall|i: int|
                    0 <= i < before[k].spec_spans().len() ==> before[k].spec_spans()[i]
                        == #[trigger] after[k].spec_spans()[i] by {
                    if k < rows@.len() {
                        assert(after[k] == before[k]);
                    }
                }
                lemma_covered_grows(
                    doc.spec_bytes(),
                    before,
                    after,
                    self.first@,
                    self.lo@,
                    spans_end(old_current.spec_spans(), rows_end(rows@, floor)),
                );
            }
        }
    }

    /// Places the content bytes `a..b` with one inline role, wrapping onto
    /// new rows as needed.
    ///
    /// A pending newline becomes a one-cell join marker when the content
    /// fits after it; otherwise the row breaks there. Content too wide for
    /// an empty row is split into grapheme-safe chunks.
    fn place(
        &mut self,
        doc: &Document,
        text: &str,
        rows: &mut Vec<VisualRow>,
        a: usize,
        b: usize,
        decoration: Option<InlineKind>,
        Ghost(floor): Ghost<int>,
        Ghost(la): Ghost<int>,
        Ghost(lb): Ghost<int>,
    )
        requires
            old(self).fills(doc, old(rows)@, None),
            old(self).joins_at(old(rows)@, floor, a as int),
            old(self).ends_ok(doc, old(rows)@),
            line_in(doc.spec_bytes(), old(self).lo@, old(self).hi@, la, lb),
            la <= a,
            b <= lb,
            unbroken(doc.spec_bytes(), la, lb, a as int, b as int),
            soft_end(doc, old(self).lo@, old(self).hi@, b as int),
            text.spec_bytes() == doc.spec_bytes(),
            vstd::utf8::valid_utf8(doc.spec_bytes()),
            old(self).ok(doc, old(rows)@, floor),
            rows_chain(doc.spec_bytes(), old(rows)@, floor),
            rows_props(doc, old(self).width as int, old(rows)@),
            a < b <= doc.spec_bytes().len(),
            char_boundary(doc.spec_bytes(), a as int),
            char_boundary(doc.spec_bytes(), b as int),
            a >= old(self).next(old(rows)@, floor),
            old(self).covers(doc, old(rows)@, floor),
            newlines(
                doc.spec_bytes(),
                max_of(spans_end(old(self).current.spec_spans(), rows_end(old(rows)@, floor)), old(self).lo@),
                a as int,
            ),
        ensures
            final(self).covers(doc, final(rows)@, floor),
            final(self).first == old(self).first,
            final(self).lo == old(self).lo,
            final(self).hi == old(self).hi,
            final(self).ends_ok(doc, final(rows)@),
            final(self).fills(doc, final(rows)@, None),
            final(self).ok(doc, final(rows)@, floor),
            final(self).section == old(self).section,
            final(self).block == old(self).block,
            final(self).width == old(self).width,
            final(self).pending is None,
            final(self).next(final(rows)@, floor) == b,
            rows_chain(doc.spec_bytes(), final(rows)@, floor),
            rows_props(doc, old(self).width as int, final(rows)@),
            all_plain(old(rows)@) ==> all_plain(final(rows)@),
            extends(final(rows)@, old(rows)@, old(self).section, old(self).block),
    {
        proof {
            lemma_extends_refl(rows@, self.section, self.block);
        }
        let ghost bytes = doc.spec_bytes();
        let ghost section = self.section;
        let ghost block = self.block;
        let ghost width = self.width;
        let mut start = a;
        while start < b
            invariant
                bytes == doc.spec_bytes(),
                text.spec_bytes() == bytes,
                vstd::utf8::valid_utf8(bytes),
                self.section == section,
                self.block == block,
                self.width == width,
                section == old(self).section,
                block == old(self).block,
                width == old(self).width,
                self.ok(doc, rows@, floor),
                rows_chain(bytes, rows@, floor),
                rows_props(doc, width as int, rows@),
                all_plain(old(rows)@) ==> all_plain(rows@),
                extends(rows@, old(rows)@, section, block),
                a <= start <= b <= bytes.len(),
                char_boundary(bytes, start as int),
                char_boundary(bytes, b as int),
                start >= self.next(rows@, floor),
                start == b ==> self.pending is None && self.next(rows@, floor) == b,
                self.covers(doc, rows@, floor),
                self.first == old(self).first,
                self.lo == old(self).lo,
                self.hi == old(self).hi,
                self.ends_ok(doc, rows@),
                self.fills(doc, rows@, Some(start as int)),
                self.joins_at(rows@, floor, start as int),
                self.current.spec_spans().len() > 0 ==> start == a,
                rows@.len() > self.first@ && self.current.spec_spans().len() == 0 && start > a ==> hard_cut(
                    doc,
                    self.lo@,
                    self.hi@,
                    rows@.last(),
                ) || wide_alone(doc, self.width as int, rows@.last()),
                line_in(bytes, self.lo@, self.hi@, la, lb),
                la <= a,
                b <= lb,
                unbroken(bytes, la, lb, a as int, b as int),
                soft_end(doc, self.lo@, self.hi@, b as int),
                newlines(bytes, max_of(spans_end(self.current.spec_spans(), rows_end(rows@, floor)), self.lo@), start as int),
            decreases b - start, if self.current.spec_spans().len() > 0 {
                1int
            } else {
                0int
            },
        {
            let remaining = slice(text, start, b);
            if self.current.spans.len() > 0 {
                let joins: u16 = if self.pending.is_some() { 1 } else { 0 };
                let base: u32 = self.current.cells as u32 + joins as u32;
                let fits = if base <= self.width as u32 {
                    width_within(remaining, base as u16, self.width - base as u16)
                } else {
                    None
                };
                match fits {
                    None => {
                        let ghost before = rows@;
                        let ghost cur = self.current;
                        proof {
                            broadcast use vstd::utf8::group_utf8_lib;
                            assert(vstd::utf8::decode_utf8(remaining.spec_bytes()) == remaining@);
                            assert(remaining@ == text_at(bytes, start as int, b as int));
                            let e = cur.spec_spans().last().spec_range().end as int;
                            assert(e == spans_end(cur.spec_spans(), rows_end(before, floor)));
                            assert((start > e) == (joins == 1));
                            assert(piece_from(bytes, self.lo@, self.hi@, la, lb, start as int, b as int));
                            assert(piece_overflows(doc, self.lo@, self.hi@, width as int, cur, start as int));
                        }
                        self.flush(doc, rows, Ghost(floor));
                        proof {
                            lemma_extends_trans(old(rows)@, before, rows@, section, block);
                            assert(rows@.last() == cur);
                        }
                        self.pending = None;
                    },
                    Some(w) => {
                        if let Some(nl) = self.pending {
                            proof {
                                reveal(char_boundary);
                                crate::strings::lemma_boundary_after_ascii(bytes, nl as int);
                                lemma_spans_push(
                                    bytes,
                                    self.current.spec_spans(),
                                    rows_end(rows@, floor),
                                    Span::new_spec_range(nl, (nl + 1) as usize, None),
                                );
                            }
                            let ghost cur1 = self.current;
                            self.current.cells = self.current.cells + 1;
                            let marker = Span::new(nl..nl + 1, None);
                            self.current.spans.push(marker);
                            proof {
                                lemma_push_span_covers(
                                    bytes,
                                    rows@,
                                    cur1,
                                    self.current,
                                    marker,
                                    self.first@,
                                    self.lo@,
                                    spans_end(cur1.spec_spans(), rows_end(rows@, floor)),
                                );
                            }
                            self.pending = None;
                        }
                        proof {
                            lemma_spans_push(
                                bytes,
                                self.current.spec_spans(),
                                rows_end(rows@, floor),
                                Span::new_spec_range(start, b, decoration),
                            );
                        }
                        let ghost cur1 = self.current;
                        self.current.cells = self.current.cells + w;
                        let piece_span = Span::new(start..b, decoration);
                        self.current.spans.push(piece_span);
                        proof {
                            lemma_push_span_covers(
                                bytes,
                                rows@,
                                cur1,
                                self.current,
                                piece_span,
                                self.first@,
                                self.lo@,
                                spans_end(cur1.spec_spans(), rows_end(rows@, floor)),
                            );
                            assert(self.current.spec_spans().last() == piece_span);
                        }
                        return;
                    },
                }
            } else {
                match width_within(remaining, 0, self.width) {
                    Some(w) => {
                        proof {
                            lemma_spans_push(
                                bytes,
                                self.current.spec_spans(),
                                rows_end(rows@, floor),
                                Span::new_spec_range(start, b, decoration),
                            );
                        }
                        let ghost cur1 = self.current;
                        self.current.cells = w;
                        let piece_span = Span::new(start..b, decoration);
                        self.current.spans.push(piece_span);
                        proof {
                            lemma_push_span_covers(
                                bytes,
                                rows@,
                                cur1,
                                self.current,
                                piece_span,
                                self.first@,
                                self.lo@,
                                spans_end(cur1.spec_spans(), rows_end(rows@, floor)),
                            );
                            assert(self.current.spec_spans().last() == piece_span);
                        }
                        return;
                    },
                    None => {
                        let chunk = force_fit_chunk(remaining, self.width);
                        let mut end = start + chunk;
                        proof {
                            reveal(char_boundary);
                            crate::strings::lemma_boundary_from_window(bytes, start as int, b as int, chunk as int);
                        }
                        if !text.is_char_boundary(end) {
                            end = b;
                        }
                        let piece = slice(text, start, end);
                        proof {
                            lemma_piece_fits_or_lone(bytes, start as int, b as int, chunk as int, self.width as int);
                        }
                        proof {
                            lemma_spans_push(
                                bytes,
                                self.current.spec_spans(),
                                rows_end(rows@, floor),
                                Span::new_spec_range(start, end, decoration),
                            );
                        }
                        let ghost cur1 = self.current;
                        self.current.cells = capped_width(piece, 0);
                        let piece_span = Span::new(start..end, decoration);
                        self.current.spans.push(piece_span);
                        proof {
                            broadcast use vstd::utf8::group_utf8_lib;
                            assert(vstd::utf8::decode_utf8(piece.spec_bytes()) == piece@);
                            assert(self.current.spec_spans() =~= seq![piece_span]);
                        }
                        proof {
                            lemma_push_span_covers(
                                bytes,
                                rows@,
                                cur1,
                                self.current,
                                piece_span,
                                self.first@,
                                self.lo@,
                                spans_end(cur1.spec_spans(), rows_end(rows@, floor)),
                            );
                            assert(self.current.spec_spans().last() == piece_span);
                            if end < b {
                                assert(cut_in(bytes, self.lo@, self.hi@, start as int, end as int, la, lb, b as int));
                                assert(hard_cut(doc, self.lo@, self.hi@, self.current));
                            }
                        }
                        let ghost before = rows@;
                        self.flush(doc, rows, Ghost(floor));
                        proof {
                            lemma_extends_trans(old(rows)@, before, rows@, section, block);
                        }
                        start = end;
                    },
                }
            }
        }
    }
}

/// Where the run of content starting at `cursor` that shares one inline
/// role ends, no later than `b`: at the end of the decoration covering
/// `cursor`, else at the start of the next decoration.
fn run_end(doc: &Document, cursor: usize, b: usize) -> (r: usize)
    requires
        cursor < b <= doc.spec_bytes().len(),
        char_boundary(doc.spec_bytes(), b as int),
    ensures
        cursor < r <= b,
        char_boundary(doc.spec_bytes(), r as int),
        r == b || decoration_edge(doc, r as int),
{
    let spans = doc.inline_spans();
    let covering = doc.inline_kind_at(cursor);
    let mut i: usize = 0;
    while i < spans.len()
        invariant
            spans@ == doc.spec_inline(),
            doc.wf(),
            cursor < b <= doc.spec_bytes().len(),
            char_boundary(doc.spec_bytes(), b as int),
        decreases spans@.len() - i,
    {
        let range = spans[i].range();
        proof {
            lemma_inline_facts(*doc, i as int);
        }
        proof {
            assert(doc.spec_inline()[i as int].spec_range() == *range);
        }
        if covering.is_some() {
            if range.start <= cursor && cursor < range.end {
                return if range.end < b { range.end } else { b };
            }
        } else if range.start > cursor && range.start < b {
            return range.start;
        }
        i = i + 1;
    }
    b
}

impl Flow {
    /// Places content bytes `a..b`, subdividing them at decoration
    /// boundaries so every placed span carries exactly one inline role.
    fn place_runs(
        &mut self,
        doc: &Document,
        text: &str,
        rows: &mut Vec<VisualRow>,
        a: usize,
        b: usize,
        Ghost(floor): Ghost<int>,
        Ghost(la): Ghost<int>,
        Ghost(lb): Ghost<int>,
    )
        requires
            old(self).fills(doc, old(rows)@, None),
            old(self).joins_at(old(rows)@, floor, a as int),
            old(self).ends_ok(doc, old(rows)@),
            line_in(doc.spec_bytes(), old(self).lo@, old(self).hi@, la, lb),
            la <= a,
            b <= lb,
            unbroken(doc.spec_bytes(), la, lb, a as int, b as int),
            soft_end(doc, old(self).lo@, old(self).hi@, b as int),
            text.spec_bytes() == doc.spec_bytes(),
            vstd::utf8::valid_utf8(doc.spec_bytes()),
            old(self).ok(doc, old(rows)@, floor),
            rows_chain(doc.spec_bytes(), old(rows)@, floor),
            rows_props(doc, old(self).width as int, old(rows)@),
            a < b <= doc.spec_bytes().len(),
            char_boundary(doc.spec_bytes(), a as int),
            char_boundary(doc.spec_bytes(), b as int),
            a >= old(self).next(old(rows)@, floor),
            old(self).covers(doc, old(rows)@, floor),
            newlines(
                doc.spec_bytes(),
                max_of(spans_end(old(self).current.spec_spans(), rows_end(old(rows)@, floor)), old(self).lo@),
                a as int,
            ),
        ensures
            final(self).covers(doc, final(rows)@, floor),
            final(self).first == old(self).first,
            final(self).lo == old(self).lo,
            final(self).hi == old(self).hi,
            final(self).ends_ok(doc, final(rows)@),
            final(self).fills(doc, final(rows)@, None),
            final(self).ok(doc, final(rows)@, floor),
            final(self).section == old(self).section,
            final(self).block == old(self).block,
            final(self).width == old(self).width,
            final(self).pending is None,
            final(self).next(final(rows)@, floor) == b,
            rows_chain(doc.spec_bytes(), final(rows)@, floor),
            rows_props(doc, old(self).width as int, final(rows)@),
            all_plain(old(rows)@) ==> all_plain(final(rows)@),
            extends(final(rows)@, old(rows)@, old(self).section, old(self).block),
    {
        proof {
            lemma_extends_refl(rows@, self.section, self.block);
        }
        let mut cursor = a;
        while cursor < b
            invariant
                text.spec_bytes() == doc.spec_bytes(),
                vstd::utf8::valid_utf8(doc.spec_bytes()),
                self.section == old(self).section,
                self.block == old(self).block,
                self.width == old(self).width,
                self.ok(doc, rows@, floor),
                rows_chain(doc.spec_bytes(), rows@, floor),
                rows_props(doc, self.width as int, rows@),
                all_plain(old(rows)@) ==> all_plain(rows@),
                extends(rows@, old(rows)@, old(self).section, old(self).block),
                a <= cursor <= b <= doc.spec_bytes().len(),
                char_boundary(doc.spec_bytes(), cursor as int),
                char_boundary(doc.spec_bytes(), b as int),
                cursor >= self.next(rows@, floor),
                cursor > a ==> self.pending is None && self.next(rows@, floor) == cursor,
                self.covers(doc, rows@, floor),
                self.first == old(self).first,
                self.lo == old(self).lo,
                self.hi == old(self).hi,
                self.ends_ok(doc, rows@),
                self.fills(doc, rows@, None),
                self.joins_at(rows@, floor, cursor as int),
                line_in(doc.spec_bytes(), self.lo@, self.hi@, la, lb),
                la <= a,
                b <= lb,
                unbroken(doc.spec_bytes(), la, lb, a as int, b as int),
                soft_end(doc, self.lo@, self.hi@, b as int),
                newlines(doc.spec_bytes(), max_of(spans_end(self.current.spec_spans(), rows_end(rows@, floor)), self.lo@), cursor as int),
            decreases b - cursor,
        {
            let end = run_end(doc, cursor, b);
            let decoration = doc.inline_kind_at(cursor);
            let ghost before = rows@;
            proof {
                if end < b {
                    assert(line_in(doc.spec_bytes(), self.lo@, self.hi@, la, lb));
                }
            }
            self.place(doc, text, rows, cursor, end, decoration, Ghost(floor), Ghost(la), Ghost(lb));
            proof {
                lemma_extends_trans(old(rows)@, before, rows@, old(self).section, old(self).block);
            }
            cursor = end;
        }
    }

    /// Places one line's content `a..b`, broken into the pieces between
    /// the line-break opportunities of `unicode-linebreak`.
    fn place_line(
        &mut self,
        doc: &Document,
        text: &str,
        rows: &mut Vec<VisualRow>,
        a: usize,
        b: usize,
        Ghost(floor): Ghost<int>,
    )
        requires
            old(self).ends_ok(doc, old(rows)@),
            old(self).fills(doc, old(rows)@, None),
            old(self).joins_at(old(rows)@, floor, a as int),
            line_in(doc.spec_bytes(), old(self).lo@, old(self).hi@, a as int, b as int),
            text.spec_bytes() == doc.spec_bytes(),
            vstd::utf8::valid_utf8(doc.spec_bytes()),
            old(self).ok(doc, old(rows)@, floor),
            rows_chain(doc.spec_bytes(), old(rows)@, floor),
            rows_props(doc, old(self).width as int, old(rows)@),
            a < b <= doc.spec_bytes().len(),
            char_boundary(doc.spec_bytes(), a as int),
            char_boundary(doc.spec_bytes(), b as int),
            a >= old(self).next(old(rows)@, floor),
            old(self).covers(doc, old(rows)@, floor),
            newlines(
                doc.spec_bytes(),
                max_of(spans_end(old(self).current.spec_spans(), rows_end(old(rows)@, floor)), old(self).lo@),
                a as int,
            ),
        ensures
            final(self).covers(doc, final(rows)@, floor),
            final(self).first == old(self).first,
            final(self).lo == old(self).lo,
            final(self).hi == old(self).hi,
            final(self).ends_ok(doc, final(rows)@),
            final(self).fills(doc, final(rows)@, None),
            final(self).ok(doc, final(rows)@, floor),
            final(self).section == old(self).section,
            final(self).block == old(self).block,
            final(self).width == old(self).width,
            final(self).pending is None,
            final(self).next(final(rows)@, floor) == b,
            rows_chain(doc.spec_bytes(), final(rows)@, floor),
            rows_props(doc, old(self).width as int, final(rows)@),
            all_plain(old(rows)@) ==> all_plain(final(rows)@),
            extends(final(rows)@, old(rows)@, old(self).section, old(self).block),
    {
        proof {
            lemma_extends_refl(rows@, self.section, self.block);
        }
        let content = slice(text, a, b);
        let breaks = break_opportunities(content);
        let len = b - a;
        let ghost bytes = doc.spec_bytes();
        proof {
            broadcast use vstd::utf8::group_utf8_lib;
            assert(vstd::utf8::decode_utf8(content.spec_bytes()) == content@);
            assert(line_breaks(bytes, a as int, b as int) == breaks@);
        }
        let mut emitted: usize = 0;
        let mut k: usize = 0;
        while k < breaks.len()
            invariant
                text.spec_bytes() == doc.spec_bytes(),
                vstd::utf8::valid_utf8(doc.spec_bytes()),
                self.section == old(self).section,
                self.block == old(self).block,
                self.width == old(self).width,
                self.ok(doc, rows@, floor),
                rows_chain(doc.spec_bytes(), rows@, floor),
                rows_props(doc, self.width as int, rows@),
                all_plain(old(rows)@) ==> all_plain(rows@),
                extends(rows@, old(rows)@, old(self).section, old(self).block),
                len == b - a,
                a < b <= doc.spec_bytes().len(),
                emitted < len,
                char_boundary(doc.spec_bytes(), (a + emitted) as int),
                char_boundary(doc.spec_bytes(), b as int),
                a + emitted >= self.next(rows@, floor),
                emitted > 0 ==> self.pending is None && self.next(rows@, floor) == a + emitted,
                self.covers(doc, rows@, floor),
                self.first == old(self).first,
                self.lo == old(self).lo,
                self.hi == old(self).hi,
                self.ends_ok(doc, rows@),
                self.fills(doc, rows@, None),
                self.joins_at(rows@, floor, a + emitted),
                bytes == doc.spec_bytes(),
                char_boundary(bytes, a as int),
                content.spec_bytes() == bytes.subrange(a as int, b as int),
                line_in(bytes, self.lo@, self.hi@, a as int, b as int),
                line_breaks(bytes, a as int, b as int) == breaks@,
                0 <= k <= breaks@.len(),
                forall|i: int| 0 <= i < breaks@.len() ==> (#[trigger] breaks@[i]) <= len
                    && vstd::utf8::is_char_boundary(content.spec_bytes(), breaks@[i] as int),
                forall|i: int, j: int| 0 <= i < j < breaks@.len() ==> #[trigger] breaks@[i] < #[trigger] breaks@[j],
                forall|i: int| 0 <= i < k ==> #[trigger] breaks@[i] <= emitted || breaks@[i] >= len,
                newlines(
                    doc.spec_bytes(),
                    max_of(spans_end(self.current.spec_spans(), rows_end(rows@, floor)), self.lo@),
                    a + emitted,
                ),
            ensures
                forall|i: int| 0 <= i < breaks@.len() ==> #[trigger] breaks@[i] <= emitted || breaks@[i] >= len,
            decreases breaks@.len() - k,
        {
            let after = breaks[k];
            if after >= len {
                break;
            }
            proof {
                reveal(char_boundary);
                crate::strings::lemma_boundary_from_window(bytes, a as int, b as int, after as int);
            }
            if after > emitted && text.is_char_boundary(a + after) {
                proof {
                    reveal(char_boundary);
                    assert(line_breaks(bytes, a as int, b as int)[k as int] == after);
                    assert(line_in(bytes, self.lo@, self.hi@, a as int, b as int));
                }
                let ghost before = rows@;
                self.place_runs(doc, text, rows, a + emitted, a + after, Ghost(floor), Ghost(a as int), Ghost(b as int));
                proof {
                    lemma_extends_trans(old(rows)@, before, rows@, old(self).section, old(self).block);
                }
                emitted = after;
            }
            k = k + 1;
        }
        let ghost before = rows@;
        proof {
            assert(line_in(bytes, self.lo@, self.hi@, a as int, b as int));
        }
        self.place_runs(doc, text, rows, a + emitted, b, Ghost(floor), Ghost(a as int), Ghost(b as int));
        proof {
            lemma_extends_trans(old(rows)@, before, rows@, old(self).section, old(self).block);
        }
    }
}

/// Wraps the bytes `lo..hi` of one block as flowing prose, one line after
/// another; newlines inside the text become join markers between pieces
/// that share a row.
fn wrap_paragraph(
    doc: &Document,
    text: &str,
    lo: usize,
    hi: usize,
    section: usize,
    block: usize,
    width: u16,
    rows: &mut Vec<VisualRow>,
    Ghost(floor): Ghost<int>,
)
    requires
        text.spec_bytes() == doc.spec_bytes(),
        vstd::utf8::valid_utf8(doc.spec_bytes()),
        section < doc.spec_sections().len(),
        block < doc.spec_sections()[section as int].spec_blocks().len(),
        rows_chain(doc.spec_bytes(), old(rows)@, floor),
        rows_props(doc, width as int, old(rows)@),
        rows_end(old(rows)@, floor) <= lo <= hi <= doc.spec_bytes().len(),
        char_boundary(doc.spec_bytes(), lo as int),
        char_boundary(doc.spec_bytes(), hi as int),
    ensures
        rows_chain(doc.spec_bytes(), final(rows)@, floor),
        rows_props(doc, width as int, final(rows)@),
        rows_end(final(rows)@, floor) <= hi,
        all_plain(old(rows)@) ==> all_plain(final(rows)@),
        extends(final(rows)@, old(rows)@, section, block),
        rows_end(final(rows)@, floor) == content_end(doc.spec_bytes(), lo as int, hi as int, rows_end(old(rows)@, floor)),
        content_covered(doc.spec_bytes(), final(rows)@, old(rows)@.len() as int, lo as int, hi as int),
        plain_from(final(rows)@, old(rows)@.len() as int),
        rows_end_ok(doc, lo as int, hi as int, final(rows)@, old(rows)@.len() as int),
        rows_greedy(doc, lo as int, hi as int, width as int, final(rows)@, old(rows)@.len() as int),
{
    let bytes = text.as_bytes();
    let mut flow = Flow {
        section,
        block,
        width,
        pending: None,
        current: VisualRow::empty(section, block),
        first: Ghost(rows@.len() as int),
        lo: Ghost(lo as int),
        hi: Ghost(hi as int),
    };
    let ghost e0 = rows_end(rows@, floor);
    proof {
        lemma_extends_refl(rows@, section, block);
    }
    let mut line = lo;
    while line < hi
        invariant
            text.spec_bytes() == doc.spec_bytes(),
            bytes@ == doc.spec_bytes(),
            vstd::utf8::valid_utf8(doc.spec_bytes()),
            flow.section == section,
            flow.block == block,
            flow.width == width,
            flow.ok(doc, rows@, floor),
            rows_chain(doc.spec_bytes(), rows@, floor),
            rows_props(doc, width as int, rows@),
            all_plain(old(rows)@) ==> all_plain(rows@),
            lo <= line <= hi <= doc.spec_bytes().len(),
            char_boundary(doc.spec_bytes(), line as int),
            char_boundary(doc.spec_bytes(), hi as int),
            flow.next(rows@, floor) <= line,
            extends(rows@, old(rows)@, section, block),
            e0 == rows_end(old(rows)@, floor),
            spans_end(flow.current.spec_spans(), rows_end(rows@, floor)) == content_end(
                bytes@,
                lo as int,
                line as int,
                e0,
            ),
            flow.covers(doc, rows@, floor),
            flow.first@ == old(rows)@.len(),
            flow.lo@ == lo,
            flow.hi@ == hi,
            flow.ends_ok(doc, rows@),
            flow.fills(doc, rows@, None),
            line < hi && flow.current.spec_spans().len() > 0 ==> flow.pending is Some,
            line == lo || line == hi || bytes@[line - 1] == 10,
            e0 <= lo,
        decreases hi - line,
    {
        let mut nl = line;
        while nl < hi && bytes[nl] != 10
            invariant
                line <= nl <= hi <= bytes@.len(),
                forall|j: int| line <= j < nl ==> bytes@[j] != 10,
            decreases hi - nl,
        {
            nl = nl + 1;
        }
        if nl < hi {
            proof {
                reveal(char_boundary);
                crate::strings::lemma_boundary_after_ascii(bytes@, nl as int);
            }
        }
        if nl > line {
            let ghost before = rows@;
            proof {
                lemma_content_end_newlines(bytes@, lo as int, line as int, e0);
            }
            flow.place_line(doc, text, rows, line, nl, Ghost(floor));
            proof {
                lemma_extends_trans(old(rows)@, before, rows@, section, block);
                assert(bytes@[nl - 1] != 10);
            }
        }
        proof {
            if nl > line {
                assert(content_end(bytes@, lo as int, nl as int, e0) == nl);
            } else {
                assert(nl == line);
            }
        }
        if nl < hi {
            if flow.current.spans.len() > 0 {
                flow.pending = Some(nl);
            }
            proof {
                assert(bytes@[nl as int] == 10);
                assert(content_end(bytes@, lo as int, nl + 1, e0) == content_end(bytes@, lo as int, nl as int, e0));
            }
            line = nl + 1;
        } else {
            line = hi;
        }
    }
    let ghost before = rows@;
    flow.flush(doc, rows, Ghost(floor));
    proof {
        lemma_extends_trans(old(rows)@, before, rows@, section, block);
        lemma_content_end_newlines(bytes@, lo as int, hi as int, e0);
        lemma_covered_finish(
            bytes@,
            rows@,
            flow.current,
            old(rows)@.len() as int,
            lo as int,
            rows_end(rows@, floor),
            hi as int,
        );
    }
}

/// Each row of a reading-order chain continues from where the rows
/// before it ended.
pub proof fn lemma_chain_at(bytes: Seq<u8>, rows: Seq<VisualRow>, floor: int, i: int)
    requires
        rows_chain(bytes, rows, floor),
        0 <= i < rows.len(),
    ensures
        spans_ok(bytes, rows[i].spec_spans(), rows_end(rows.take(i), floor)),
        rows_end(rows.take(i + 1), floor) == spans_end(rows[i].spec_spans(), rows_end(rows.take(i), floor)),
    decreases rows.len(),
{
    assert(rows.take(i + 1).drop_last() =~= rows.take(i));
    if i == rows.len() - 1 {
        assert(rows.take(i) =~= rows.drop_last());
    } else {
        lemma_chain_at(bytes, rows.drop_last(), floor, i);
        assert(rows.drop_last().take(i) =~= rows.take(i));
        assert(rows.drop_last().take(i + 1) =~= rows.take(i + 1));
    }
}

/// A row's cells plus `extra`, capped at `u16::MAX`.
fn add_cells(cells: u16, extra: u16) -> (r: u16)
    ensures
        r == cap(cells + extra),
{
    if cells as u32 + extra as u32 > u16::MAX as u32 {
        u16::MAX
    } else {
        cells + extra
    }
}

/// Wraps one block whose every visual row starts with a synthesized prefix.
///
/// List items and quotes keep their marker or bar on every row (`head` on
/// the first, `tail` on the rest), so wrapped content stays visually
/// grouped. Prefix bytes are presentation only: they never enter the
/// canonical text or positions. Placement runs against the width remaining
/// under the wider prefix.
fn wrap_prefixed(
    doc: &Document,
    text: &str,
    lo: usize,
    hi: usize,
    section: usize,
    block: usize,
    width: u16,
    head: &str,
    tail: &str,
    rows: &mut Vec<VisualRow>,
    Ghost(floor): Ghost<int>,
)
    requires
        text.spec_bytes() == doc.spec_bytes(),
        vstd::utf8::valid_utf8(doc.spec_bytes()),
        section < doc.spec_sections().len(),
        block < doc.spec_sections()[section as int].spec_blocks().len(),
        rows_chain(doc.spec_bytes(), old(rows)@, floor),
        rows_props(doc, width as int, old(rows)@),
        rows_end(old(rows)@, floor) <= lo <= hi <= doc.spec_bytes().len(),
        char_boundary(doc.spec_bytes(), lo as int),
        char_boundary(doc.spec_bytes(), hi as int),
    ensures
        rows_chain(doc.spec_bytes(), final(rows)@, floor),
        rows_props(doc, width as int, final(rows)@),
        rows_end(final(rows)@, floor) <= hi,
        extends(final(rows)@, old(rows)@, section, block),
        rows_end(final(rows)@, floor) == content_end(doc.spec_bytes(), lo as int, hi as int, rows_end(old(rows)@, floor)),
        content_covered(doc.spec_bytes(), final(rows)@, old(rows)@.len() as int, lo as int, hi as int),
        forall|k: int|
            old(rows)@.len() <= k < final(rows)@.len() ==> (#[trigger] final(rows)@[k]).spec_prefix() == if k
                == old(rows)@.len() {
                head@
            } else {
                tail@
            },
        rows_end_ok(doc, lo as int, hi as int, final(rows)@, old(rows)@.len() as int),
{
    let head_cells = capped_width(head, 0);
    let tail_cells = capped_width(tail, 0);
    let widest = if head_cells > tail_cells { head_cells } else { tail_cells };
    let inner_width = if width > widest { width - widest } else { 0 };
    let mut inner: Vec<VisualRow> = Vec::new();
    let ghost start = rows_end(rows@, floor);
    proof {
        assert(all_plain(inner@));
        lemma_extends_refl(rows@, section, block);
    }
    wrap_paragraph(doc, text, lo, hi, section, block, inner_width, &mut inner, Ghost(start));
    let ghost all = inner@;
    let total = inner.len();
    let mut index: usize = 0;
    assert(all.take(0) =~= Seq::<VisualRow>::empty());
    for row in it: inner
        invariant
            it.seq() == all,
            index == it.index(),
            all.len() == total,
            rows_chain(doc.spec_bytes(), all, start),
            rows_props(doc, inner_width as int, all),
            all_plain(all),
            rows_end(all, start) <= hi,
            rows_chain(doc.spec_bytes(), rows@, floor),
            rows_props(doc, width as int, rows@),
            rows_end(rows@, floor) == rows_end(all.take(index as int), start),
            head_cells as int <= width_from(head@, 0),
            tail_cells as int <= width_from(tail@, 0),
            widest == (if head_cells > tail_cells { head_cells } else { tail_cells }),
            inner_width == (if width > widest { width - widest } else { 0 }),
            extends(all, Seq::<VisualRow>::empty(), section, block),
            rows_end(all, start) == content_end(doc.spec_bytes(), lo as int, hi as int, start),
            start == rows_end(old(rows)@, floor),
            rows@.len() == old(rows)@.len() + index,
            content_covered(doc.spec_bytes(), all, 0, lo as int, hi as int),
            rows_end_ok(doc, lo as int, hi as int, all, 0),
            forall|q: int| 0 <= q < index ==> (#[trigger] rows@[old(rows)@.len() + q]).spec_spans() == all[q].spec_spans(),
            extends(rows@, old(rows)@, section, block),
            forall|k: int|
                old(rows)@.len() <= k < rows@.len() ==> (#[trigger] rows@[k]).spec_prefix() == if k == old(
                    rows,
                )@.len() {
                    head@
                } else {
                    tail@
                },
    {
        proof {
            lemma_chain_at(doc.spec_bytes(), all, start, index as int);
            assert(all[index as int] == row);
            assert(owned(doc, all[index as int]));
            assert(all[index as int].spec_section() == section && all[index as int].spec_block() == block);
        }
        let VisualRow { section: row_section, block: row_block, prefix: _, spans, padding, cells } = row;
        let (prefix, extra) = if index == 0 { (head.to_owned(), head_cells) } else { (tail.to_owned(), tail_cells) };
        let shown = VisualRow {
            section: row_section,
            block: row_block,
            prefix,
            spans,
            padding,
            cells: add_cells(cells, extra),
        };
        proof {
            let before = rows@;
            lemma_extends_push(before, shown, section, block);
            lemma_extends_trans(old(rows)@, before, before.push(shown), section, block);
            assert forall|k: int|
                old(rows)@.len() <= k < before.push(shown).len() implies (#[trigger] before.push(
                    shown,
                )[k]).spec_prefix() == if k == old(rows)@.len() {
                head@
            } else {
                tail@
            } by {
                if k < before.len() {
                    assert(before.push(shown)[k] == before[k]);
                }
            }
            assert forall|q: int| 0 <= q < index + 1 implies (#[trigger] before.push(shown)[old(rows)@.len() + q]).spec_spans()
                == all[q].spec_spans() by {
                if q < index {
                    assert(before.push(shown)[old(rows)@.len() + q] == before[old(rows)@.len() + q]);
                }
            }
            lemma_rows_push(doc.spec_bytes(), rows@, floor, shown);
            crate::width::lemma_width_nonneg(Seq::<char>::empty(), 0);
            lemma_props_push(doc, width as int, rows@, shown);
        }
        rows.push(shown);
        index = index + 1;
    }
    proof {
        assert(all.take(all.len() as int) =~= all);
        let n0 = old(rows)@.len() as int;
        assert forall|k: int| n0 <= k < rows@.len() implies row_ends_ok(doc, lo as int, hi as int, #[trigger] rows@[k]) by {
            assert(rows@[n0 + (k - n0)].spec_spans() == all[k - n0].spec_spans());
            assert(row_ends_ok(doc, lo as int, hi as int, all[k - n0]));
        }
        assert forall|j: int| lo <= j < hi && doc.spec_bytes()[j] != 10 implies #[trigger] rows_cover(
            rows@,
            n0,
            j,
        ) by {
            assert(rows_cover(all, 0, j));
            let k = choose|k: int| 0 <= k < all.len() && row_covers(#[trigger] all[k], j);
            assert(rows@[n0 + k].spec_spans() == all[k].spec_spans());
            let i = choose|i: int|
                0 <= i < all[k].spec_spans().len() && (#[trigger] all[k].spec_spans()[i]).spec_range().start <= j
                    < all[k].spec_spans()[i].spec_range().end;
            assert(rows@[n0 + k].spec_spans()[i] == all[k].spec_spans()[i]);
            assert(row_covers(rows@[n0 + k], j));
        }
    }
}

/// Row `k` of `rows`, from `first` on, holds exactly one span, which
/// starts at `a` for the first such row and where the span of the row
/// before ended for the others.
pub open spec fn verbatim_row(rows: Seq<VisualRow>, first: int, a: int, k: int) -> bool {
    &&& rows[k].spec_spans().len() == 1
    &&& rows[k].spec_spans()[0].spec_range().start == if k == first {
        a
    } else {
        rows[k - 1].spec_spans()[0].spec_range().end as int
    }
}

/// The rows from `first` on tile the bytes from `a` one span per row.
pub open spec fn verbatim_tiles(rows: Seq<VisualRow>, first: int, a: int) -> bool {
    forall|k: int| first <= k < rows.len() ==> #[trigger] verbatim_row(rows, first, a, k)
}

/// Emits one verbatim line `a..b` of a code block: one row per chunk,
/// hard-split without join markers; an empty line stays one blank row.
fn emit_verbatim_line(
    doc: &Document,
    text: &str,
    a: usize,
    b: usize,
    section: usize,
    block: usize,
    width: u16,
    rows: &mut Vec<VisualRow>,
    Ghost(floor): Ghost<int>,
)
    requires
        text.spec_bytes() == doc.spec_bytes(),
        vstd::utf8::valid_utf8(doc.spec_bytes()),
        section < doc.spec_sections().len(),
        block < doc.spec_sections()[section as int].spec_blocks().len(),
        rows_chain(doc.spec_bytes(), old(rows)@, floor),
        rows_props(doc, width as int, old(rows)@),
        rows_end(old(rows)@, floor) <= a <= b <= doc.spec_bytes().len(),
        char_boundary(doc.spec_bytes(), a as int),
        char_boundary(doc.spec_bytes(), b as int),
    ensures
        rows_chain(doc.spec_bytes(), final(rows)@, floor),
        rows_props(doc, width as int, final(rows)@),
        rows_end(final(rows)@, floor) <= b,
        extends(final(rows)@, old(rows)@, section, block),
        final(rows)@.len() > old(rows)@.len(),
        a == b ==> final(rows)@.len() == old(rows)@.len() + 1 && final(rows)@.last().spec_spans().len() == 0,
        a < b ==> rows_end(final(rows)@, floor) == b,
        a < b ==> verbatim_tiles(final(rows)@, old(rows)@.len() as int, a as int),
        content_covered(doc.spec_bytes(), final(rows)@, old(rows)@.len() as int, a as int, b as int),
{
    proof {
        lemma_extends_refl(rows@, section, block);
    }
    if a == b {
        let row = VisualRow::empty(section, block);
        proof {
            lemma_rows_push(doc.spec_bytes(), rows@, floor, row);
            lemma_props_push(doc, width as int, rows@, row);
            lemma_extends_push(rows@, row, section, block);
        }
        rows.push(row);
        return;
    }
    let mut start = a;
    while start < b
        invariant
            text.spec_bytes() == doc.spec_bytes(),
            vstd::utf8::valid_utf8(doc.spec_bytes()),
            section < doc.spec_sections().len(),
            block < doc.spec_sections()[section as int].spec_blocks().len(),
            rows_chain(doc.spec_bytes(), rows@, floor),
            rows_props(doc, width as int, rows@),
            rows_end(rows@, floor) <= start <= b <= doc.spec_bytes().len(),
            char_boundary(doc.spec_bytes(), start as int),
            char_boundary(doc.spec_bytes(), b as int),
            a < b,
            a <= start,
            extends(rows@, old(rows)@, section, block),
            verbatim_tiles(rows@, old(rows)@.len() as int, a as int),
            start > a ==> rows@.len() > old(rows)@.len() && rows_end(rows@, floor) == start,
            start == a ==> rows@.len() == old(rows)@.len(),
            content_covered(doc.spec_bytes(), rows@, old(rows)@.len() as int, a as int, start as int),
        decreases b - start,
    {
        let remaining = slice(text, start, b);
        let fitting = width_within(remaining, 0, width);
        let mut end = b;
        proof {
            reveal(char_boundary);
        }
        if fitting.is_none() {
            let chunk = force_fit_chunk(remaining, width);
            end = start + chunk;
            proof {
                crate::strings::lemma_boundary_from_window(doc.spec_bytes(), start as int, b as int, chunk as int);
                lemma_piece_fits_or_lone(doc.spec_bytes(), start as int, b as int, chunk as int, width as int);
            }
        } else {
            proof {
                broadcast use vstd::utf8::group_utf8_lib;
                assert(vstd::utf8::decode_utf8(remaining.spec_bytes()) == remaining@);
            }
        }
        if !text.is_char_boundary(end) {
            end = b;
        }
        let piece = slice(text, start, end);
        proof {
            broadcast use vstd::utf8::group_utf8_lib;
            assert(vstd::utf8::decode_utf8(piece.spec_bytes()) == piece@);
        }
        let mut row = VisualRow::empty(section, block);
        let span = Span::new(start..end, None);
        proof {
            lemma_spans_push(doc.spec_bytes(), row.spans@, rows_end(rows@, floor), span);
        }
        row.spans.push(span);
        row.cells = capped_width(piece, 0);
        proof {
            lemma_rows_push(doc.spec_bytes(), rows@, floor, row);
            lemma_props_push(doc, width as int, rows@, row);
            let before = rows@;
            lemma_extends_push(before, row, section, block);
            lemma_extends_trans(old(rows)@, before, before.push(row), section, block);
            let n0 = old(rows)@.len() as int;
            let after = before.push(row);
            assert(row.spec_spans() =~= seq![span]);
            if start > a {
                assert(verbatim_row(before, n0, a as int, before.len() - 1));
                assert(before.last() == before[before.len() - 1]);
                assert(before.last().spec_spans().last() == before.last().spec_spans()[0]);
            }
            lemma_extends_grows_spans(after, before, section, block);
            lemma_covered_grows(doc.spec_bytes(), before, after, n0, a as int, start as int);
            assert forall|j: int| start <= j < end && doc.spec_bytes()[j] != 10 implies #[trigger] rows_cover(
                after,
                n0,
                j,
            ) by {
                assert(after[after.len() - 1] == row);
                assert(row.spec_spans()[0] == span);
                assert(row_covers(after[after.len() - 1], j));
            }
            assert forall|k: int| n0 <= k < after.len() implies #[trigger] verbatim_row(after, n0, a as int, k) by {
                if k < before.len() {
                    assert(after[k] == before[k]);
                    assert(verbatim_row(before, n0, a as int, k));
                    if k > n0 {
                        assert(after[k - 1] == before[k - 1]);
                    }
                } else if k > n0 {
                    assert(after[k - 1] == before.last());
                }
            }
        }
        rows.push(row);
        start = end;
    }
}

/// Emits one verbatim row group per source line of a code block.
///
/// Lines never reflow and keep their original indentation; overlong lines
/// hard-split across rows without join markers, and interior blank lines
/// stay blank so code shape survives visually. A final newline ends the
/// last line rather than opening an empty one.
fn code_block_rows(
    doc: &Document,
    text: &str,
    lo: usize,
    hi: usize,
    section: usize,
    block: usize,
    width: u16,
    rows: &mut Vec<VisualRow>,
    Ghost(floor): Ghost<int>,
)
    requires
        text.spec_bytes() == doc.spec_bytes(),
        vstd::utf8::valid_utf8(doc.spec_bytes()),
        section < doc.spec_sections().len(),
        block < doc.spec_sections()[section as int].spec_blocks().len(),
        rows_chain(doc.spec_bytes(), old(rows)@, floor),
        rows_props(doc, width as int, old(rows)@),
        rows_end(old(rows)@, floor) <= lo <= hi <= doc.spec_bytes().len(),
        char_boundary(doc.spec_bytes(), lo as int),
        char_boundary(doc.spec_bytes(), hi as int),
    ensures
        rows_chain(doc.spec_bytes(), final(rows)@, floor),
        rows_props(doc, width as int, final(rows)@),
        rows_end(final(rows)@, floor) <= hi,
        extends(final(rows)@, old(rows)@, section, block),
        lo < hi ==> final(rows)@.len() > old(rows)@.len(),
        rows_end(final(rows)@, floor) == content_end(doc.spec_bytes(), lo as int, hi as int, rows_end(old(rows)@, floor)),
        content_covered(doc.spec_bytes(), final(rows)@, old(rows)@.len() as int, lo as int, hi as int),
{
    let bytes = text.as_bytes();
    let ghost e0 = rows_end(rows@, floor);
    proof {
        lemma_extends_refl(rows@, section, block);
    }
    let mut line = lo;
    while line < hi
        invariant
            text.spec_bytes() == doc.spec_bytes(),
            bytes@ == doc.spec_bytes(),
            vstd::utf8::valid_utf8(doc.spec_bytes()),
            section < doc.spec_sections().len(),
            block < doc.spec_sections()[section as int].spec_blocks().len(),
            rows_chain(doc.spec_bytes(), rows@, floor),
            rows_props(doc, width as int, rows@),
            rows_end(rows@, floor) <= line <= hi <= doc.spec_bytes().len(),
            char_boundary(doc.spec_bytes(), line as int),
            char_boundary(doc.spec_bytes(), hi as int),
            lo <= line,
            extends(rows@, old(rows)@, section, block),
            e0 == rows_end(old(rows)@, floor),
            rows_end(rows@, floor) == content_end(bytes@, lo as int, line as int, e0),
            line > lo ==> rows@.len() > old(rows)@.len(),
            content_covered(bytes@, rows@, old(rows)@.len() as int, lo as int, line as int),
        decreases hi - line,
    {
        let mut nl = line;
        while nl < hi && bytes[nl] != 10
            invariant
                line <= nl <= hi <= bytes@.len(),
                forall|j: int| line <= j < nl ==> bytes@[j] != 10,
            decreases hi - nl,
        {
            nl = nl + 1;
        }
        if nl < hi {
            proof {
                reveal(char_boundary);
                crate::strings::lemma_boundary_after_ascii(bytes@, nl as int);
            }
        }
        let ghost before = rows@;
        emit_verbatim_line(doc, text, line, nl, section, block, width, rows, Ghost(floor));
        proof {
            lemma_extends_trans(old(rows)@, before, rows@, section, block);
            lemma_extends_grows_spans(rows@, before, section, block);
            lemma_covered_grows(bytes@, before, rows@, old(rows)@.len() as int, lo as int, line as int);
            lemma_covered_join(
                bytes@,
                rows@,
                old(rows)@.len() as int,
                before.len() as int,
                lo as int,
                line as int,
                nl as int,
            );
            if nl > line {
                assert(bytes@[nl - 1] != 10);
                assert(content_end(bytes@, lo as int, nl as int, e0) == nl);
            } else {
                assert(rows@.drop_last() =~= before);
                assert(rows_end(rows@, floor) == rows_end(before, floor));
            }
        }
        if nl < hi {
            proof {
                assert(bytes@[nl as int] == 10);
                assert(content_end(bytes@, lo as int, nl + 1, e0) == content_end(bytes@, lo as int, nl as int, e0));
                lemma_covered_newline(bytes@, rows@, old(rows)@.len() as int, lo as int, nl as int);
            }
            line = nl + 1;
        } else {
            line = hi;
        }
    }
}

/// Lays out an image block: its caption wraps like prose, then
/// [`IMAGE_PLACEHOLDER_ROWS`] blank rows reserve room for the preview.
fn append_image_rows(
    doc: &Document,
    text: &str,
    lo: usize,
    hi: usize,
    section: usize,
    block: usize,
    width: u16,
    rows: &mut Vec<VisualRow>,
    Ghost(floor): Ghost<int>,
)
    requires
        text.spec_bytes() == doc.spec_bytes(),
        vstd::utf8::valid_utf8(doc.spec_bytes()),
        section < doc.spec_sections().len(),
        block < doc.spec_sections()[section as int].spec_blocks().len(),
        rows_chain(doc.spec_bytes(), old(rows)@, floor),
        rows_props(doc, width as int, old(rows)@),
        rows_end(old(rows)@, floor) <= lo <= hi <= doc.spec_bytes().len(),
        char_boundary(doc.spec_bytes(), lo as int),
        char_boundary(doc.spec_bytes(), hi as int),
    ensures
        rows_chain(doc.spec_bytes(), final(rows)@, floor),
        rows_props(doc, width as int, final(rows)@),
        rows_end(final(rows)@, floor) <= hi,
        extends(final(rows)@, old(rows)@, section, block),
        rows_end(final(rows)@, floor) == content_end(doc.spec_bytes(), lo as int, hi as int, rows_end(old(rows)@, floor)),
        final(rows)@.len() >= old(rows)@.len() + IMAGE_PLACEHOLDER_ROWS,
        content_covered(doc.spec_bytes(), final(rows)@, old(rows)@.len() as int, lo as int, hi as int),
        forall|k: int|
            final(rows)@.len() - IMAGE_PLACEHOLDER_ROWS <= k < final(rows)@.len()
                ==> (#[trigger] final(rows)@[k]).spec_spans().len() == 0,
        rows_end_ok(doc, lo as int, hi as int, final(rows)@, old(rows)@.len() as int),
        rows_greedy(doc, lo as int, hi as int, width as int, final(rows)@, old(rows)@.len() as int),
{
    wrap_paragraph(doc, text, lo, hi, section, block, width, rows, Ghost(floor));
    let ghost caption = rows@;
    let mut k: usize = 0;
    while k < IMAGE_PLACEHOLDER_ROWS
        invariant
            section < doc.spec_sections().len(),
            block < doc.spec_sections()[section as int].spec_blocks().len(),
            rows_chain(doc.spec_bytes(), rows@, floor),
            rows_props(doc, width as int, rows@),
            rows_end(rows@, floor) <= hi,
            k <= IMAGE_PLACEHOLDER_ROWS,
            extends(caption, old(rows)@, section, block),
            caption.len() >= old(rows)@.len(),
            rows_end(caption, floor) == content_end(doc.spec_bytes(), lo as int, hi as int, rows_end(old(rows)@, floor)),
            extends(rows@, caption, section, block),
            rows@.len() == caption.len() + k,
            content_covered(doc.spec_bytes(), rows@, old(rows)@.len() as int, lo as int, hi as int),
            rows_end(rows@, floor) == rows_end(caption, floor),
            forall|q: int| caption.len() <= q < rows@.len() ==> (#[trigger] rows@[q]).spec_spans().len() == 0,
            rows_end_ok(doc, lo as int, hi as int, rows@, old(rows)@.len() as int),
            rows_greedy(doc, lo as int, hi as int, width as int, rows@, old(rows)@.len() as int),
        decreases IMAGE_PLACEHOLDER_ROWS - k,
    {
        let row = VisualRow::empty(section, block);
        proof {
            let before = rows@;
            lemma_rows_push(doc.spec_bytes(), rows@, floor, row);
            lemma_props_push(doc, width as int, rows@, row);
            lemma_extends_push(before, row, section, block);
            lemma_extends_trans(caption, before, before.push(row), section, block);
            lemma_extends_grows_spans(before.push(row), before, section, block);
            lemma_covered_grows(doc.spec_bytes(), before, before.push(row), old(rows)@.len() as int, lo as int, hi as int);
            assert(before.push(row).drop_last() =~= before);
            assert forall|q: int| caption.len() <= q < before.push(row).len() implies (#[trigger] before.push(
                row,
            )[q]).spec_spans().len() == 0 by {
                if q < before.len() {
                    assert(before.push(row)[q] == before[q]);
                }
            }
            assert forall|q: int| old(rows)@.len() <= q && q + 1 < before.push(row).len() implies pair_ok(
                doc,
                lo as int,
                hi as int,
                width as int,
                #[trigger] before.push(row)[q],
                before.push(row)[q + 1],
            ) by {
                if q + 1 < before.len() {
                    assert(before.push(row)[q] == before[q]);
                    assert(before.push(row)[q + 1] == before[q + 1]);
                } else {
                    assert(before.push(row)[q + 1] == row);
                }
            }
            assert forall|q: int| old(rows)@.len() <= q < before.push(row).len() implies row_ends_ok(
                doc,
                lo as int,
                hi as int,
                #[trigger] before.push(row)[q],
            ) by {
                if q < before.len() {
                    assert(before.push(row)[q] == before[q]);
                }
            }
        }
        rows.push(row);
        k = k + 1;
    }
    proof {
        lemma_extends_trans(old(rows)@, caption, rows@, section, block);
    }
}

/// Whether table cells lie in reading order inside `lo..hi` on character
/// boundaries.
pub open spec fn cells_ordered(bytes: Seq<u8>, cells: Seq<Range<usize>>, lo: int, hi: int) -> bool {
    forall|i: int| 0 <= i < cells.len() ==> #[trigger] cell_ok(bytes, cells, lo, hi, i)
}

/// Cell `i` lies inside `lo..hi` on character boundaries, after cell `i - 1`.
pub open spec fn cell_ok(bytes: Seq<u8>, cells: Seq<Range<usize>>, lo: int, hi: int, i: int) -> bool {
    &&& lo <= cells[i].start <= cells[i].end <= hi
    &&& char_boundary(bytes, cells[i].start as int)
    &&& char_boundary(bytes, cells[i].end as int)
    &&& (i > 0 ==> cells[i - 1].end <= cells[i].start)
}

/// Where source row `q` of a table stops: the next row's first cell, or
/// the cell count for the last row.
pub open spec fn row_stop(bounds: Seq<usize>, n: int, q: int) -> int {
    if q + 1 < bounds.len() {
        bounds[q + 1] as int
    } else {
        n
    }
}

/// Checks [`cells_ordered`].
fn check_cells(text: &str, cells: &Vec<Range<usize>>, lo: usize, hi: usize) -> (ok: bool)
    ensures
        ok == cells_ordered(text.spec_bytes(), cells@, lo as int, hi as int),
{
    assert(cells@.take(0) =~= Seq::<Range<usize>>::empty());
    proof {
        reveal(char_boundary);
    }
    let mut i: usize = 0;
    while i < cells.len()
        invariant
            i <= cells@.len(),
            cells_ordered(text.spec_bytes(), cells@.take(i as int), lo as int, hi as int),
        decreases cells@.len() - i,
    {
        proof {
            reveal(char_boundary);
        }
        let c = &cells[i];
        let fine = lo <= c.start && c.start <= c.end && c.end <= hi && text.is_char_boundary(c.start)
            && text.is_char_boundary(c.end) && (i == 0 || cells[i - 1].end <= c.start);
        if !fine {
            proof {
                assert(cells@[i as int] == *c);
                assert(!cell_ok(text.spec_bytes(), cells@, lo as int, hi as int, i as int));
            }
            return false;
        }
        proof {
            let prev = cells@.take(i as int);
            let next = cells@.take(i as int + 1);
            assert forall|k: int| 0 <= k < next.len() implies #[trigger] cell_ok(
                text.spec_bytes(),
                next,
                lo as int,
                hi as int,
                k,
            ) by {
                if k < i {
                    assert(cell_ok(text.spec_bytes(), prev, lo as int, hi as int, k));
                    assert(next[k] == prev[k]);
                    if k > 0 {
                        assert(next[k - 1] == prev[k - 1]);
                    }
                } else {
                    assert(next[k] == cells@[k]);
                    if k > 0 {
                        assert(next[k - 1] == cells@[k - 1]);
                    }
                }
            }
        }
        i = i + 1;
    }
    proof {
        assert(cells@.take(cells@.len() as int) =~= cells@);
    }
    true
}

/// The first newline at or after `from` and before `hi`, else `hi`.
fn next_newline(bytes: &[u8], from: usize, hi: usize) -> (nl: usize)
    requires
        from <= hi <= bytes@.len(),
    ensures
        from <= nl <= hi,
        nl < hi ==> bytes@[nl as int] == 10,
{
    let mut nl = from;
    while nl < hi && bytes[nl] != 10
        invariant
            from <= nl <= hi <= bytes@.len(),
        decreases hi - nl,
    {
        nl = nl + 1;
    }
    nl
}

/// The cells the text of `c` takes from column 0, capped at the row limit.
pub open spec fn cell_cells(bytes: Seq<u8>, c: Range<usize>) -> int {
    cap(width_from(vstd::utf8::decode_utf8(bytes.subrange(c.start as int, c.end as int)), 0))
}

/// The padding that widens a cell of `cells` cells to a column `column`
/// cells wide.
pub open spec fn pad_for(column: int, cells: int) -> int {
    if column > cells {
        column - cells
    } else {
        0
    }
}

/// Whether `row` lays out, as a grid row of `columns` columns with widths
/// `widths`, the cells from `first` on: every even padding entry follows
/// the span of the next cell and widens it to its column, every odd one
/// follows a delimiter and is zero.
pub open spec fn grid_row(
    bytes: Seq<u8>,
    row: VisualRow,
    cells: Seq<Range<usize>>,
    widths: Seq<u16>,
    first: int,
    columns: int,
) -> bool {
    &&& row.spec_padding().len() == 2 * (columns - 1)
    &&& row.spec_spans().len() >= 2 * columns - 1
    &&& grid_prefix(bytes, row, cells, widths, first)
}

/// The padded width at span `m` of `row`: the span's cells plus the
/// padding after it.
pub open spec fn padded(bytes: Seq<u8>, row: VisualRow, m: int) -> int {
    cell_cells(bytes, row.spec_spans()[m].spec_range()) + row.spec_padding()[m]
}

/// The padded rows of `rows` from row `from` on line up as columns: at
/// every even padding position, each row that pads there pads its cell to
/// the same width, and some such row needs no padding there (the column is
/// as wide as its widest cell).
pub open spec fn aligned_from(bytes: Seq<u8>, rows: Seq<VisualRow>, from: int) -> bool {
    &&& forall|k1: int, k2: int, m: int|
        #![trigger padded(bytes, rows[k1], m), padded(bytes, rows[k2], m)]
        from <= k1 < rows.len() && from <= k2 < rows.len() && 0 <= m && m % 2 == 0 && m
            < rows[k1].spec_padding().len() && m < rows[k2].spec_padding().len() ==> padded(bytes, rows[k1], m)
            == padded(bytes, rows[k2], m)
    &&& forall|k1: int, m: int|
        #![trigger rows[k1], unpadded_at(rows, from, m)]
        from <= k1 < rows.len() && 0 <= m && m % 2 == 0 && m < rows[k1].spec_padding().len() ==> unpadded_at(
            rows,
            from,
            m,
        )
}

/// Some row of `rows` from row `from` on pads position `m` with nothing.
pub open spec fn unpadded_at(rows: Seq<VisualRow>, from: int, m: int) -> bool {
    exists|k: int| from <= k < rows.len() && m < rows[k].spec_padding().len() && #[trigger] rows[k].spec_padding()[m] == 0
}

/// Rows without padding line up trivially.
proof fn lemma_plain_aligned(bytes: Seq<u8>, rows: Seq<VisualRow>, from: int)
    requires
        plain_from(rows, from),
    ensures
        aligned_from(bytes, rows, from),
{
    assert forall|k1: int, m: int|
        #![trigger rows[k1], unpadded_at(rows, from, m)]
        from <= k1 < rows.len() && 0 <= m && m % 2 == 0 && m < rows[k1].spec_padding().len() implies unpadded_at(
            rows,
            from,
            m,
        ) by {
        assert(rows[k1].spec_padding() == Seq::<u16>::empty());
    }
}

proof fn lemma_bounds_upto(bounds: Seq<usize>, n: int, columns: int, q: int)
    requires
        bounds.len() >= 1,
        bounds[0] == 0,
        0 <= q < bounds.len(),
        forall|p: int| 0 <= p < bounds.len() ==> row_stop(bounds, n, p) - #[trigger] bounds[p] == columns,
    ensures
        bounds[q] == q * columns,
    decreases q,
{
    if q == 0 {
        assert(0 * columns == 0) by (nonlinear_arith);
    } else {
        lemma_bounds_upto(bounds, n, columns, q - 1);
        assert(row_stop(bounds, n, q - 1) - bounds[q - 1] == columns);
        assert(row_stop(bounds, n, q - 1) == bounds[q]);
        assert((q - 1) * columns + columns == q * columns) by (nonlinear_arith);
    }
}

/// Source rows that each hold `columns` cells start at multiples of
/// `columns`, and hold all `n` cells between them.
proof fn lemma_bounds_grid(bounds: Seq<usize>, n: int, columns: int)
    requires
        bounds.len() >= 1,
        bounds[0] == 0,
        forall|p: int| 0 <= p < bounds.len() ==> row_stop(bounds, n, p) - #[trigger] bounds[p] == columns,
    ensures
        forall|q: int| 0 <= q < bounds.len() ==> #[trigger] bounds[q] == q * columns,
        n == bounds.len() * columns,
{
    assert forall|q: int| 0 <= q < bounds.len() implies #[trigger] bounds[q] == q * columns by {
        lemma_bounds_upto(bounds, n, columns, q);
    }
    let last = bounds.len() - 1;
    assert(row_stop(bounds, n, last) - bounds[last] == columns);
    assert(last * columns + columns == bounds.len() * columns) by (nonlinear_arith)
        requires
            last == bounds.len() - 1,
    ;
}

/// The grid facts of the first `d` cells of a row under construction.
pub open spec fn grid_prefix(
    bytes: Seq<u8>,
    row: VisualRow,
    cells: Seq<Range<usize>>,
    widths: Seq<u16>,
    first: int,
) -> bool {
    &&& forall|m: int|
        #![trigger row.spec_spans()[m]]
        0 <= m < row.spec_padding().len() && m % 2 == 0 ==> row.spec_spans()[m].spec_range() == cells[first + m / 2]
    &&& forall|m: int|
        #![trigger row.spec_padding()[m]]
        0 <= m < row.spec_padding().len() ==> row.spec_padding()[m] == if m % 2 == 0 {
            pad_for(widths[m / 2] as int, cell_cells(bytes, cells[first + m / 2]))
        } else {
            0
        }
}

/// Adding cell `x` to a grid row, with its padding and a delimiter when
/// `more` cells follow, keeps the grid facts.
proof fn lemma_grid_step(
    bytes: Seq<u8>,
    row1: VisualRow,
    row: VisualRow,
    cells: Seq<Range<usize>>,
    widths: Seq<u16>,
    first: int,
    x: int,
    more: bool,
)
    requires
        0 <= first <= x,
        row1.spec_padding().len() == 2 * (x - first),
        row1.spec_spans().len() == 2 * (x - first),
        grid_prefix(bytes, row1, cells, widths, first),
        row.spec_spans().len() > 2 * (x - first),
        forall|i: int| 0 <= i < row1.spec_spans().len() ==> row.spec_spans()[i] == row1.spec_spans()[i],
        row.spec_spans()[2 * (x - first)].spec_range() == cells[x],
        forall|i: int| 0 <= i < row1.spec_padding().len() ==> row.spec_padding()[i] == row1.spec_padding()[i],
        more ==> row.spec_padding().len() == 2 * (x - first) + 2 && row.spec_padding()[2 * (x - first)] == pad_for(
            widths[x - first] as int,
            cell_cells(bytes, cells[x]),
        ) && row.spec_padding()[2 * (x - first) + 1] == 0,
        !more ==> row.spec_padding().len() == row1.spec_padding().len(),
    ensures
        grid_prefix(bytes, row, cells, widths, first),
{
    let d = x - first;
    assert forall|m: int|
        #![trigger row.spec_spans()[m]]
        0 <= m < row.spec_padding().len() && m % 2 == 0 implies row.spec_spans()[m].spec_range() == cells[first + m
            / 2] by {
        if m < 2 * d {
            assert(row.spec_spans()[m] == row1.spec_spans()[m]);
            assert(row1.spec_padding()[m] == row1.spec_padding()[m]);
        } else {
            assert(m == 2 * d);
            assert(m / 2 == d);
        }
    }
    assert forall|m: int|
        #![trigger row.spec_padding()[m]]
        0 <= m < row.spec_padding().len() implies row.spec_padding()[m] == if m % 2 == 0 {
            pad_for(widths[m / 2] as int, cell_cells(bytes, cells[first + m / 2]))
        } else {
            0
        } by {
        if m < 2 * d {
            assert(row.spec_padding()[m] == row1.spec_padding()[m]);
            assert(row.spec_spans()[m] == row1.spec_spans()[m]);
            assert(row1.spec_padding()[m] == row1.spec_padding()[m]);
        } else if m == 2 * d {
            assert(m / 2 == d);
            assert(m % 2 == 0);
        } else {
            assert(m == 2 * d + 1);
            assert(m % 2 == 1);
        }
    }
}

/// Spans added after the padded part of a row keep its grid facts.
proof fn lemma_grid_more_spans(
    bytes: Seq<u8>,
    row1: VisualRow,
    row: VisualRow,
    cells: Seq<Range<usize>>,
    widths: Seq<u16>,
    first: int,
)
    requires
        grid_prefix(bytes, row1, cells, widths, first),
        row1.spec_padding().len() <= row1.spec_spans().len(),
        row.spec_padding() == row1.spec_padding(),
        row1.spec_spans().len() <= row.spec_spans().len(),
        forall|i: int| 0 <= i < row1.spec_spans().len() ==> row.spec_spans()[i] == row1.spec_spans()[i],
    ensures
        grid_prefix(bytes, row, cells, widths, first),
{
    assert forall|m: int|
        #![trigger row.spec_spans()[m]]
        0 <= m < row.spec_padding().len() && m % 2 == 0 implies row.spec_spans()[m].spec_range() == cells[first + m
            / 2] by {
        assert(row1.spec_padding()[m] == row1.spec_padding()[m]);
        assert(m < row1.spec_spans().len());
        assert(row.spec_spans()[m] == row1.spec_spans()[m]);
    }
    assert forall|m: int|
        #![trigger row.spec_padding()[m]]
        0 <= m < row.spec_padding().len() implies row.spec_padding()[m] == if m % 2 == 0 {
            pad_for(widths[m / 2] as int, cell_cells(bytes, cells[first + m / 2]))
        } else {
            0
        } by {
        assert(row.spec_padding()[m] == row1.spec_padding()[m]);
    }
}

/// Grid rows whose widths are each column's widest cell line up.
proof fn lemma_grid_aligned(
    bytes: Seq<u8>,
    rows: Seq<VisualRow>,
    from: int,
    cells: Seq<Range<usize>>,
    widths: Seq<u16>,
    bounds: Seq<usize>,
    columns: int,
)
    requires
        columns > 0,
        widths.len() == columns,
        0 <= from,
        rows.len() == from + bounds.len(),
        cells.len() == bounds.len() * columns,
        forall|q: int| 0 <= q < bounds.len() ==> #[trigger] bounds[q] == q * columns,
        forall|k: int| from <= k < rows.len() ==> grid_row(bytes, #[trigger] rows[k], cells, widths, bounds[k - from] as int, columns),
        forall|i: int| 0 <= i < cells.len() ==> #[trigger] cell_cells(bytes, cells[i]) <= widths[i % columns],
        forall|c: int|
            0 <= c < columns ==> widths[c] == 0 || exists|i: int|
                0 <= i < cells.len() && i % columns == c && #[trigger] cell_cells(bytes, cells[i]) == widths[c],
    ensures
        aligned_from(bytes, rows, from),
{
    assert forall|k: int, m: int|
        from <= k < rows.len() && 0 <= m && m % 2 == 0 && m < rows[k].spec_padding().len() implies #[trigger] padded(
        bytes,
        rows[k],
        m,
    ) == widths[m / 2] by {
        let q = k - from;
        assert(grid_row(bytes, rows[k], cells, widths, bounds[q] as int, columns));
        assert(rows[k].spec_padding()[m] == pad_for(widths[m / 2] as int, cell_cells(bytes, cells[bounds[q] + m / 2])));
        let i = bounds[q] + m / 2;
        assert(bounds[q] == q * columns);
        assert(0 <= i < cells.len()) by (nonlinear_arith)
            requires
                i == q * columns + m / 2,
                0 <= m / 2 < columns,
                0 <= q < bounds.len(),
                cells.len() == bounds.len() * columns,
        ;
        vstd::arithmetic::div_mod::lemma_fundamental_div_mod_converse(i, columns, q, m / 2);
        assert(cell_cells(bytes, cells[i]) <= widths[i % columns]);
    }
    assert forall|k1: int, k2: int, m: int|
        #![trigger padded(bytes, rows[k1], m), padded(bytes, rows[k2], m)]
        from <= k1 < rows.len() && from <= k2 < rows.len() && 0 <= m && m % 2 == 0 && m
            < rows[k1].spec_padding().len() && m < rows[k2].spec_padding().len() implies padded(bytes, rows[k1], m)
            == padded(bytes, rows[k2], m) by {
        assert(padded(bytes, rows[k1], m) == widths[m / 2]);
        assert(padded(bytes, rows[k2], m) == widths[m / 2]);
    }
    assert forall|k1: int, m: int|
        #![trigger rows[k1], unpadded_at(rows, from, m)]
        from <= k1 < rows.len() && 0 <= m && m % 2 == 0 && m < rows[k1].spec_padding().len() implies unpadded_at(
            rows,
            from,
            m,
        ) by {
        let j = m / 2;
        let q1 = k1 - from;
        assert(grid_row(bytes, rows[k1], cells, widths, bounds[q1] as int, columns));
        if widths[j] == 0 {
            let c = cells[bounds[q1] + m / 2];
            crate::width::lemma_width_nonneg(vstd::utf8::decode_utf8(bytes.subrange(c.start as int, c.end as int)), 0);
            assert(rows[k1].spec_padding()[m] == pad_for(widths[m / 2] as int, cell_cells(bytes, cells[bounds[q1] + m / 2])));
            assert(rows[k1].spec_padding()[m] == 0);
        } else {
            let i = choose|i: int| 0 <= i < cells.len() && i % columns == j && #[trigger] cell_cells(bytes, cells[i]) == widths[j];
            let qs = i / columns;
            vstd::arithmetic::div_mod::lemma_fundamental_div_mod(i, columns);
            assert(i == qs * columns + j) by (nonlinear_arith)
                requires
                    i == columns * qs + j,
            ;
            assert(0 <= qs < bounds.len()) by (nonlinear_arith)
                requires
                    i == qs * columns + j,
                    0 <= j < columns,
                    0 <= i < bounds.len() * columns,
            ;
            let k2 = from + qs;
            assert(grid_row(bytes, rows[k2], cells, widths, bounds[qs] as int, columns));
            assert(bounds[qs] == qs * columns);
            assert(rows[k2].spec_padding()[m] == 0);
        }
    }
}

/// Every byte other than a newline of each of the first `n` cells lies in
/// a span of a row of `rows` from row `from` on.
pub open spec fn cells_shown(bytes: Seq<u8>, rows: Seq<VisualRow>, from: int, cells: Seq<Range<usize>>, n: int) -> bool {
    forall|i: int|
        0 <= i < n ==> #[trigger] content_covered(bytes, rows, from, cells[i].start as int, cells[i].end as int)
}

proof fn lemma_shown_grows(
    bytes: Seq<u8>,
    rows1: Seq<VisualRow>,
    rows2: Seq<VisualRow>,
    from: int,
    cells: Seq<Range<usize>>,
    n: int,
)
    requires
        0 <= from,
        grows(rows1, rows2),
        cells_shown(bytes, rows1, from, cells, n),
    ensures
        cells_shown(bytes, rows2, from, cells, n),
{
    assert forall|i: int| 0 <= i < n implies #[trigger] content_covered(
        bytes,
        rows2,
        from,
        cells[i].start as int,
        cells[i].end as int,
    ) by {
        assert(content_covered(bytes, rows1, from, cells[i].start as int, cells[i].end as int));
        lemma_covered_grows(bytes, rows1, rows2, from, cells[i].start as int, cells[i].end as int);
    }
}

proof fn lemma_shown_from_covered(
    bytes: Seq<u8>,
    rows: Seq<VisualRow>,
    from: int,
    cells: Seq<Range<usize>>,
    lo: int,
    hi: int,
)
    requires
        content_covered(bytes, rows, from, lo, hi),
        cells_ordered(bytes, cells, lo, hi),
    ensures
        cells_shown(bytes, rows, from, cells, cells.len() as int),
{
    assert forall|i: int| 0 <= i < cells.len() implies #[trigger] content_covered(
        bytes,
        rows,
        from,
        cells[i].start as int,
        cells[i].end as int,
    ) by {
        assert(cell_ok(bytes, cells, lo, hi, i));
    }
}

/// A row that only gains spans at its end keeps every span of before.
proof fn lemma_grows_last(rows: Seq<VisualRow>, row1: VisualRow, row2: VisualRow)
    requires
        row1.spec_spans().len() <= row2.spec_spans().len(),
        forall|i: int| 0 <= i < row1.spec_spans().len() ==> row2.spec_spans()[i] == row1.spec_spans()[i],
    ensures
        grows(rows.push(row1), rows.push(row2)),
        grows(rows, rows.push(row2)),
{
    assert forall|k: int| 0 <= k < rows.push(row1).len() implies (#[trigger] rows.push(row1)[k]).spec_spans().len()
        <= rows.push(row2)[k].spec_spans().len() && forall|i: int|
        0 <= i < rows.push(row1)[k].spec_spans().len() ==> rows.push(row1)[k].spec_spans()[i]
            == #[trigger] rows.push(row2)[k].spec_spans()[i] by {
        if k < rows.len() {
            assert(rows.push(row1)[k] == rows.push(row2)[k]);
        }
    }
    assert forall|k: int| 0 <= k < rows.len() implies (#[trigger] rows[k]).spec_spans().len()
        <= rows.push(row2)[k].spec_spans().len() && forall|i: int|
        0 <= i < rows[k].spec_spans().len() ==> rows[k].spec_spans()[i]
            == #[trigger] rows.push(row2)[k].spec_spans()[i] by {
        assert(rows.push(row2)[k] == rows[k]);
    }
}

/// The last span of the last row is covered by the rows from `from` on.
proof fn lemma_last_span_shown(bytes: Seq<u8>, rows: Seq<VisualRow>, row: VisualRow, from: int)
    requires
        0 <= from <= rows.len(),
        row.spec_spans().len() > 0,
    ensures
        content_covered(
            bytes,
            rows.push(row),
            from,
            row.spec_spans().last().spec_range().start as int,
            row.spec_spans().last().spec_range().end as int,
        ),
{
    let sp = row.spec_spans().last();
    assert forall|j: int| sp.spec_range().start <= j < sp.spec_range().end && bytes[j] != 10 implies #[trigger] rows_cover(
        rows.push(row),
        from,
        j,
    ) by {
        let k = rows.len() as int;
        assert(rows.push(row)[k] == row);
        let i = row.spec_spans().len() - 1;
        assert(row.spec_spans()[i] == sp);
        assert(row_covers(rows.push(row)[k], j));
    }
}

/// Lays out one table either as aligned columns or as linearized lines.
///
/// Cells group into source rows at the newlines of the block text. Column
/// widths come from the widest cell per column. When the aligned form fits
/// the available width, each source row becomes one visual row: cell spans
/// carry padding spaces that align every column while the canonical
/// delimiters still render between them. When it does not fit, or the cells
/// do not form complete rows in reading order, the table falls back to
/// ordinary wrapping over its delimited lines, which preserves every cell's
/// content and order.
#[verifier::spinoff_prover]
#[verifier::rlimit(100)]
fn table_rows(
    doc: &Document,
    text: &str,
    lo: usize,
    hi: usize,
    cells: &Vec<Range<usize>>,
    section: usize,
    block: usize,
    width: u16,
    rows: &mut Vec<VisualRow>,
    Ghost(floor): Ghost<int>,
)
    requires
        text.spec_bytes() == doc.spec_bytes(),
        vstd::utf8::valid_utf8(doc.spec_bytes()),
        section < doc.spec_sections().len(),
        block < doc.spec_sections()[section as int].spec_blocks().len(),
        doc.spec_sections()[section as int].spec_blocks()[block as int].spec_kind() == BlockKind::Table,
        rows_chain(doc.spec_bytes(), old(rows)@, floor),
        rows_props(doc, width as int, old(rows)@),
        rows_end(old(rows)@, floor) <= lo <= hi <= doc.spec_bytes().len(),
        char_boundary(doc.spec_bytes(), lo as int),
        char_boundary(doc.spec_bytes(), hi as int),
    ensures
        rows_chain(doc.spec_bytes(), final(rows)@, floor),
        rows_props(doc, width as int, final(rows)@),
        rows_end(final(rows)@, floor) <= hi,
        extends(final(rows)@, old(rows)@, section, block),
        content_end(doc.spec_bytes(), lo as int, hi as int, rows_end(old(rows)@, floor)) != rows_end(old(rows)@, floor)
            ==> final(rows)@.len() > old(rows)@.len(),
        cells_ordered(doc.spec_bytes(), cells@, lo as int, hi as int) ==> cells_shown(
            doc.spec_bytes(),
            final(rows)@,
            old(rows)@.len() as int,
            cells@,
            cells@.len() as int,
        ),
        aligned_from(doc.spec_bytes(), final(rows)@, old(rows)@.len() as int),
{
    let n = cells.len();
    if n == 0 || !check_cells(text, cells, lo, hi) {
        wrap_paragraph(doc, text, lo, hi, section, block, width, rows, Ghost(floor));
        proof {
            if cells_ordered(doc.spec_bytes(), cells@, lo as int, hi as int) {
                lemma_shown_from_covered(doc.spec_bytes(), rows@, old(rows)@.len() as int, cells@, lo as int, hi as int);
            }
            lemma_plain_aligned(doc.spec_bytes(), rows@, old(rows)@.len() as int);
            if rows_end(rows@, floor) != rows_end(old(rows)@, floor) {
                lemma_extends_grows(rows@, old(rows)@, section, block, floor);
            }
        }
        return;
    }
    let bytes = text.as_bytes();
    // Source rows: row r holds the cells with indices bounds[r]..bounds[r+1].
    let mut bounds: Vec<usize> = Vec::new();
    bounds.push(0);
    let mut line_end = next_newline(bytes, lo, hi);
    let mut cursor = lo;
    let mut c: usize = 0;
    while c < n
        invariant
            n == cells@.len(),
            lo <= cursor <= hi,
            cursor <= line_end <= hi <= bytes@.len(),
            bounds@.len() >= 1,
            bounds@[0] == 0,
            forall|r: int| 0 <= r < bounds@.len() ==> #[trigger] bounds@[r] <= c,
            forall|r: int| 0 < r < bounds@.len() ==> bounds@[r - 1] <= #[trigger] bounds@[r],
            c <= n,
        decreases n - c,
    {
        while cells[c].start >= line_end && line_end < hi && cursor < hi
            invariant
                n == cells@.len(),
                c < n,
                lo <= cursor <= hi,
                cursor <= line_end <= hi <= bytes@.len(),
                bounds@.len() >= 1,
                bounds@[0] == 0,
                forall|r: int| 0 <= r < bounds@.len() ==> #[trigger] bounds@[r] <= c,
                forall|r: int| 0 < r < bounds@.len() ==> bounds@[r - 1] <= #[trigger] bounds@[r],
            decreases hi - cursor,
        {
            cursor = line_end + 1;
            line_end = next_newline(bytes, cursor, hi);
            bounds.push(c);
        }
        c = c + 1;
    }
    let rows_total = bounds.len();
    let columns = if rows_total > 1 { bounds[1] } else { n };
    if columns == 0 {
        wrap_paragraph(doc, text, lo, hi, section, block, width, rows, Ghost(floor));
        proof {
            if cells_ordered(doc.spec_bytes(), cells@, lo as int, hi as int) {
                lemma_shown_from_covered(doc.spec_bytes(), rows@, old(rows)@.len() as int, cells@, lo as int, hi as int);
            }
            lemma_plain_aligned(doc.spec_bytes(), rows@, old(rows)@.len() as int);
            if rows_end(rows@, floor) != rows_end(old(rows)@, floor) {
                lemma_extends_grows(rows@, old(rows)@, section, block, floor);
            }
        }
        return;
    }
    // Every source row must hold exactly `columns` cells.
    let mut complete = true;
    let mut r: usize = 0;
    while r < rows_total
        invariant
            rows_total == bounds@.len(),
            forall|q: int| 0 <= q < bounds@.len() ==> #[trigger] bounds@[q] <= n,
            forall|q: int| 0 < q < bounds@.len() ==> bounds@[q - 1] <= #[trigger] bounds@[q],
            complete ==> forall|q: int| 0 <= q < r ==> row_stop(bounds@, n as int, q) - bounds@[q] == columns,
            bounds@.len() >= 1,
            bounds@[0] == 0,
        decreases rows_total - r,
    {
        let end = if r + 1 < rows_total { bounds[r + 1] } else { n };
        if end - bounds[r] != columns {
            complete = false;
        }
        r = r + 1;
    }
    if !complete {
        wrap_paragraph(doc, text, lo, hi, section, block, width, rows, Ghost(floor));
        proof {
            if cells_ordered(doc.spec_bytes(), cells@, lo as int, hi as int) {
                lemma_shown_from_covered(doc.spec_bytes(), rows@, old(rows)@.len() as int, cells@, lo as int, hi as int);
            }
            lemma_plain_aligned(doc.spec_bytes(), rows@, old(rows)@.len() as int);
            if rows_end(rows@, floor) != rows_end(old(rows)@, floor) {
                lemma_extends_grows(rows@, old(rows)@, section, block, floor);
            }
        }
        return;
    }
    // Column widths: the widest cell per column, measured from column 0.
    let mut widths: Vec<u16> = Vec::new();
    let mut k: usize = 0;
    while k < columns
        invariant
            widths@.len() == k,
            k <= columns,
            forall|c: int| 0 <= c < k ==> widths@[c] == 0,
        decreases columns - k,
    {
        widths.push(0);
        k = k + 1;
    }
    let mut i: usize = 0;
    while i < n
        invariant
            n == cells@.len(),
            widths@.len() == columns,
            columns > 0,
            i <= n,
            hi <= text.spec_bytes().len(),
            cells_ordered(text.spec_bytes(), cells@, lo as int, hi as int),
            forall|i2: int| 0 <= i2 < i ==> #[trigger] cell_cells(text.spec_bytes(), cells@[i2]) <= widths@[i2 % (columns as int)],
            forall|c: int|
                0 <= c < columns ==> widths@[c] == 0 || exists|i2: int|
                    0 <= i2 < i && i2 % (columns as int) == c && #[trigger] cell_cells(text.spec_bytes(), cells@[i2])
                        == widths@[c],
        decreases n - i,
    {
        let column = i % columns;
        let cell = &cells[i];
        proof {
            assert(cells@[i as int] == *cell);
            assert(cell_ok(text.spec_bytes(), cells@, lo as int, hi as int, i as int));
        }
        let piece = slice(text, cell.start, cell.end);
        let measured = capped_width(piece, 0);
        proof {
            broadcast use vstd::utf8::group_utf8_lib;
            assert(vstd::utf8::decode_utf8(piece.spec_bytes()) == piece@);
            assert(measured == cell_cells(text.spec_bytes(), cells@[i as int]));
        }
        let ghost before = widths@;
        if measured > widths[column] {
            widths.set(column, measured);
        }
        proof {
            assert forall|c: int|
                0 <= c < columns implies widths@[c] == 0 || exists|i2: int|
                    0 <= i2 < i + 1 && i2 % (columns as int) == c && #[trigger] cell_cells(text.spec_bytes(), cells@[i2])
                        == widths@[c] by {
                if c != column && before[c] != 0 {
                    let i2 = choose|i2: int|
                        0 <= i2 < i && i2 % (columns as int) == c && #[trigger] cell_cells(text.spec_bytes(), cells@[i2])
                            == before[c];
                    assert(widths@[c] == before[c]);
                } else if c == column && widths@[c] != 0 {
                    if widths@[c] == before[c] {
                        let i2 = choose|i2: int|
                            0 <= i2 < i && i2 % (columns as int) == c && #[trigger] cell_cells(
                                text.spec_bytes(),
                                cells@[i2],
                            ) == before[c];
                    } else {
                        assert(cell_cells(text.spec_bytes(), cells@[i as int]) == widths@[c]);
                    }
                }
            }
        }
        i = i + 1;
    }
    let mut natural: u16 = add_cells(0, 0);
    let mut j: usize = 0;
    while j < columns
        invariant
            widths@.len() == columns,
        decreases columns - j,
    {
        natural = add_cells(natural, widths[j]);
        j = j + 1;
    }
    let delimiters: u16 = if columns - 1 > 21845 { u16::MAX } else { ((columns - 1) * 3) as u16 };
    natural = add_cells(natural, delimiters);
    if natural > width {
        wrap_paragraph(doc, text, lo, hi, section, block, width, rows, Ghost(floor));
        proof {
            if cells_ordered(doc.spec_bytes(), cells@, lo as int, hi as int) {
                lemma_shown_from_covered(doc.spec_bytes(), rows@, old(rows)@.len() as int, cells@, lo as int, hi as int);
            }
            lemma_plain_aligned(doc.spec_bytes(), rows@, old(rows)@.len() as int);
            if rows_end(rows@, floor) != rows_end(old(rows)@, floor) {
                lemma_extends_grows(rows@, old(rows)@, section, block, floor);
            }
        }
        return;
    }
    let mut r: usize = 0;
    proof {
        assert(cell_ok(text.spec_bytes(), cells@, lo as int, hi as int, 0));
        lemma_extends_refl(rows@, section, block);
        lemma_bounds_grid(bounds@, n as int, columns as int);
    }
    while r < rows_total
        invariant
            text.spec_bytes() == doc.spec_bytes(),
            bytes@ == doc.spec_bytes(),
            vstd::utf8::valid_utf8(doc.spec_bytes()),
            section < doc.spec_sections().len(),
            block < doc.spec_sections()[section as int].spec_blocks().len(),
            doc.spec_sections()[section as int].spec_blocks()[block as int].spec_kind() == BlockKind::Table,
            hi <= bytes@.len(),
            n == cells@.len(),
            0 < columns,
            rows_total == bounds@.len(),
            widths@.len() == columns,
            forall|q: int| 0 <= q < bounds@.len() ==> #[trigger] bounds@[q] <= n,
            forall|q: int| 0 < q < bounds@.len() ==> bounds@[q - 1] <= #[trigger] bounds@[q],
            forall|q: int| 0 <= q < rows_total ==> row_stop(bounds@, n as int, q) - #[trigger] bounds@[q] == columns,
            cells_ordered(text.spec_bytes(), cells@, lo as int, hi as int),
            rows_chain(doc.spec_bytes(), rows@, floor),
            rows_props(doc, width as int, rows@),
            r <= rows_total,
            r < rows_total ==> rows_end(rows@, floor) <= cells@[bounds@[r as int] as int].start,
            r == rows_total ==> rows_end(rows@, floor) <= hi,
            extends(rows@, old(rows)@, section, block),
            rows@.len() == old(rows)@.len() + r,
            bounds@[0] == 0,
            forall|q: int| 0 <= q < bounds@.len() ==> #[trigger] bounds@[q] == q * (columns as int),
            n == bounds@.len() * (columns as int),
            forall|i2: int| 0 <= i2 < n ==> #[trigger] cell_cells(bytes@, cells@[i2]) <= widths@[i2 % (columns as int)],
            forall|c: int|
                0 <= c < columns ==> widths@[c] == 0 || exists|i2: int|
                    0 <= i2 < n && i2 % (columns as int) == c && #[trigger] cell_cells(bytes@, cells@[i2]) == widths@[c],
            forall|k: int|
                old(rows)@.len() <= k < rows@.len() ==> grid_row(
                    bytes@,
                    #[trigger] rows@[k],
                    cells@,
                    widths@,
                    bounds@[k - old(rows)@.len()] as int,
                    columns as int,
                ),
            cells_shown(
                bytes@,
                rows@,
                old(rows)@.len() as int,
                cells@,
                if r < rows_total {
                    bounds@[r as int] as int
                } else {
                    n as int
                },
            ),
        decreases rows_total - r,
    {
        let first = bounds[r];
        let last = first + columns;
        proof {
            assert(row_stop(bounds@, n as int, r as int) - bounds@[r as int] == columns);
            assert(cell_ok(text.spec_bytes(), cells@, lo as int, hi as int, first as int));
        }
        let mut row = VisualRow::empty(section, block);
        let ghost row_floor = rows_end(rows@, floor);
        let ghost done = rows@;
        proof {
            lemma_grows_last(rows@, row, row);
            lemma_shown_grows(bytes@, rows@, rows@.push(row), old(rows)@.len() as int, cells@, first as int);
        }
        let mut x = first;
        while x < last
            invariant
                bytes@ == doc.spec_bytes(),
                rows@ == done,
                old(rows)@.len() <= done.len(),
                widths@.len() == columns,
                x < last ==> row.spec_padding().len() == 2 * (x - first) && row.spec_spans().len() == 2 * (x - first),
                x == last ==> row.spec_padding().len() == 2 * (columns - 1) && row.spec_spans().len() == 2 * columns - 1,
                grid_prefix(bytes@, row, cells@, widths@, first as int),
                0 < columns,
                first == bounds@[r as int],
                cells_shown(bytes@, done.push(row), old(rows)@.len() as int, cells@, x as int),
                text.spec_bytes() == doc.spec_bytes(),
                hi <= text.spec_bytes().len(),
                n == cells@.len(),
                first < last <= n,
                first <= x <= last,
                widths@.len() == columns,
                last - first == columns,
                cells_ordered(text.spec_bytes(), cells@, lo as int, hi as int),
                row.spec_section() == section,
                row.spec_block() == block,
                row.spec_prefix() == Seq::<char>::empty(),
                spans_ok(doc.spec_bytes(), row.spec_spans(), row_floor),
                row_floor <= cells@[first as int].start,
                x == first ==> row.spec_spans().len() == 0,
                x > first ==> spans_end(row.spec_spans(), row_floor) <= if x < last {
                    cells@[x as int].start as int
                } else {
                    cells@[x as int - 1].end as int
                },
            decreases last - x,
        {
            let cell = &cells[x];
            proof {
                assert(cells@[x as int] == *cell);
                assert(cell_ok(text.spec_bytes(), cells@, lo as int, hi as int, x as int));
            }
            let cell_text = slice(text, cell.start, cell.end);
            let measured = capped_width(cell_text, 0);
            proof {
                broadcast use vstd::utf8::group_utf8_lib;
                assert(vstd::utf8::decode_utf8(cell_text.spec_bytes()) == cell_text@);
                assert(measured == cell_cells(bytes@, cells@[x as int]));
            }
            let span = Span::new(cell.start..cell.end, None);
            proof {
                lemma_spans_push(doc.spec_bytes(), row.spans@, row_floor, span);
            }
            let ghost row1 = row;
            row.spans.push(span);
            row.cells = add_cells(row.cells, measured);
            proof {
                lemma_grows_last(done, row1, row);
                lemma_shown_grows(bytes@, done.push(row1), done.push(row), old(rows)@.len() as int, cells@, x as int);
                lemma_last_span_shown(bytes@, done, row, old(rows)@.len() as int);
                assert(row.spec_spans().last() == span);
                assert forall|i: int| 0 <= i < x + 1 implies #[trigger] content_covered(
                    bytes@,
                    done.push(row),
                    old(rows)@.len() as int,
                    cells@[i].start as int,
                    cells@[i].end as int,
                ) by {
                    if i < x {
                        assert(content_covered(bytes@, done.push(row), old(rows)@.len() as int, cells@[i].start as int, cells@[i].end as int));
                    } else {
                        assert(span.spec_range() == cells@[x as int]);
                    }
                }
                assert(cells_shown(bytes@, done.push(row), old(rows)@.len() as int, cells@, x + 1));
            }
            if x + 1 < last {
                let ghost row2 = row;
                let next = &cells[x + 1];
                proof {
                    assert(cells@[x as int + 1] == *next);
                    assert(cell_ok(text.spec_bytes(), cells@, lo as int, hi as int, x as int + 1));
                }
                proof {
                    vstd::arithmetic::div_mod::lemma_small_mod((x - first) as nat, columns as nat);
                }
                let column_width = widths[(x - first) % columns];
                let pad = if column_width > measured { column_width - measured } else { 0 };
                row.padding.push(pad);
                let delimiter = Span::new(cell.end..next.start, None);
                proof {
                    lemma_spans_push(doc.spec_bytes(), row.spans@, row_floor, delimiter);
                }
                row.spans.push(delimiter);
                row.padding.push(0);
                let gap = next.start - cell.end;
                row.cells = add_cells(row.cells, if gap > 65535 { u16::MAX } else { gap as u16 });
                proof {
                    lemma_grows_last(done, row2, row);
                    lemma_shown_grows(bytes@, done.push(row2), done.push(row), old(rows)@.len() as int, cells@, x + 1);
                    assert(row.spec_spans()[2 * (x - first)] == span);
                    lemma_grid_step(bytes@, row1, row, cells@, widths@, first as int, x as int, true);
                }
            } else {
                proof {
                    assert(row.spec_spans()[2 * (x - first)] == span);
                    lemma_grid_step(bytes@, row1, row, cells@, widths@, first as int, x as int, false);
                }
            }
            x = x + 1;
        }
        // The newline between source rows rides at the end of its row so
        // spans alone still reconstruct the canonical table.
        proof {
            assert(cell_ok(text.spec_bytes(), cells@, lo as int, hi as int, last as int - 1));
            if r + 1 < rows_total {
                assert(bounds@[r + 1] == last);
                assert(cell_ok(text.spec_bytes(), cells@, lo as int, hi as int, last as int));
            }
        }
        if r + 1 < rows_total {
            let next_start = cells[bounds[r + 1]].start;
            if next_start > 0 && next_start - 1 >= cells[last - 1].end && bytes[next_start - 1] == 10 {
                proof {
                    reveal(char_boundary);
                    crate::strings::lemma_boundary_after_ascii(bytes@, next_start - 1);
                }
                let newline = Span::new(next_start - 1..next_start, None);
                proof {
                    lemma_spans_push(doc.spec_bytes(), row.spans@, row_floor, newline);
                }
                let ghost row3 = row;
                row.spans.push(newline);
                row.cells = add_cells(row.cells, 1);
                proof {
                    lemma_grows_last(done, row3, row);
                    lemma_shown_grows(bytes@, done.push(row3), done.push(row), old(rows)@.len() as int, cells@, last as int);
                    lemma_grid_more_spans(bytes@, row3, row, cells@, widths@, first as int);
                }
            }
        }
        proof {
            lemma_rows_push(doc.spec_bytes(), rows@, floor, row);
            lemma_props_push(doc, width as int, rows@, row);
            lemma_extends_push(rows@, row, section, block);
            lemma_extends_trans(old(rows)@, rows@, rows@.push(row), section, block);
            assert(grid_row(bytes@, row, cells@, widths@, bounds@[r as int] as int, columns as int));
            assert forall|k: int|
                old(rows)@.len() <= k < rows@.push(row).len() implies grid_row(
                bytes@,
                #[trigger] rows@.push(row)[k],
                cells@,
                widths@,
                bounds@[k - old(rows)@.len()] as int,
                columns as int,
            ) by {
                if k < rows@.len() {
                    assert(rows@.push(row)[k] == rows@[k]);
                }
            }
        }
        rows.push(row);
        r = r + 1;
    }
    proof {
        lemma_grid_aligned(bytes@, rows@, old(rows)@.len() as int, cells@, widths@, bounds@, columns as int);
    }
}

/// `n` copies of `piece`, joined.
pub open spec fn repeated(piece: Seq<char>, n: nat) -> Seq<char>
    decreases n,
{
    if n == 0 {
        Seq::empty()
    } else {
        repeated(piece, (n - 1) as nat) + piece
    }
}

/// `n` copies of `piece`.
fn repeat(piece: &str, n: usize) -> (out: String)
    ensures
        out@ == repeated(piece@, n as nat),
{
    let mut out = String::new();
    let mut k: usize = 0;
    while k < n
        invariant
            k <= n,
            out@ == repeated(piece@, k as nat),
        decreases n - k,
    {
        push_str(&mut out, piece);
        k = k + 1;
    }
    out
}

/// A prefix of the sections contributes no more ranges than all of them.
proof fn lemma_flat_prefix_len(sections: Seq<crate::model::Section>, k: int)
    requires
        0 <= k <= sections.len(),
    ensures
        flat_ranges(sections.take(k)).len() <= flat_ranges(sections).len(),
    decreases sections.len() - k,
{
    if k < sections.len() {
        lemma_flat_take_step(sections, k);
        lemma_flat_prefix_len(sections, k + 1);
    } else {
        assert(sections.take(k) =~= sections);
    }
}

/// Eight list counters at zero, one per list depth.
pub open spec fn zero_counters() -> Seq<u64> {
    Seq::new(8, |i: int| 0u64)
}

/// The list counters after one more block: paragraphs, separators,
/// headings and images restart every count; an ordered item advances the
/// count of its depth (the deepest counter serves every deeper level);
/// other blocks leave the counts alone.
pub open spec fn step_counters(c: Seq<u64>, kind: BlockKind) -> Seq<u64> {
    match kind {
        BlockKind::Paragraph | BlockKind::Separator | BlockKind::Heading { .. } | BlockKind::Image => zero_counters(),
        BlockKind::ListItem { depth, ordered } => {
            let d = if depth > 7 {
                7int
            } else {
                depth as int
            };
            if ordered && c[d] < u64::MAX {
                c.update(d, (c[d] + 1) as u64)
            } else {
                c
            }
        },
        _ => c,
    }
}

/// The counters after the first `n` blocks of `blocks`, from `c0`.
pub open spec fn counters_in(blocks: Seq<crate::model::Block>, n: int, c0: Seq<u64>) -> Seq<u64>
    decreases n,
{
    if n <= 0 {
        c0
    } else {
        step_counters(counters_in(blocks, n - 1, c0), blocks[n - 1].spec_kind())
    }
}

/// The counters before the first block of section `s`.
pub open spec fn counters_before(sections: Seq<crate::model::Section>, s: int) -> Seq<u64>
    decreases s,
{
    if s <= 0 {
        zero_counters()
    } else {
        counters_in(
            sections[s - 1].spec_blocks(),
            sections[s - 1].spec_blocks().len() as int,
            counters_before(sections, s - 1),
        )
    }
}

/// The first-row prefix of a list item: two spaces per depth, then its
/// number and a period, or a bullet.
pub open spec fn list_head(depth: u8, ordered: bool, number: u64) -> Seq<char> {
    repeated("  "@, depth as nat) + if ordered {
        spec_decimal(number as nat) + ". "@
    } else {
        "\u{2022} "@
    }
}

/// The first-row prefix of list item `b` of section `s`, numbered by the
/// counters after that item.
pub open spec fn item_head(sections: Seq<crate::model::Section>, s: int, b: int) -> Seq<char> {
    match sections[s].spec_blocks()[b].spec_kind() {
        BlockKind::ListItem { depth, ordered } => {
            let c = counters_in(sections[s].spec_blocks(), b + 1, counters_before(sections, s));
            list_head(depth, ordered, c[if depth > 7 {
                7int
            } else {
                depth as int
            }])
        },
        _ => Seq::empty(),
    }
}

/// Whether some row owned by block `b` of section `s` starts with `prefix`.
pub open spec fn headed(rows: Seq<VisualRow>, s: int, b: int, prefix: Seq<char>) -> bool {
    exists|k: int|
        0 <= k < rows.len() && (#[trigger] rows[k]).spec_section() == s && rows[k].spec_block() == b
            && rows[k].spec_prefix() == prefix
}

proof fn lemma_headed_persist(before: Seq<VisualRow>, rows: Seq<VisualRow>, s: usize, b: usize, s2: int, b2: int, p: Seq<char>)
    requires
        extends(rows, before, s, b),
        headed(before, s2, b2, p),
    ensures
        headed(rows, s2, b2, p),
{
    let k = choose|k: int|
        0 <= k < before.len() && (#[trigger] before[k]).spec_section() == s2 && before[k].spec_block() == b2
            && before[k].spec_prefix() == p;
    assert(rows[k] == before[k]);
}

fn fresh_counters() -> (c: Vec<u64>)
    ensures
        c@ == zero_counters(),
{
    let mut c: Vec<u64> = Vec::new();
    let mut k: usize = 0;
    while k < 8
        invariant
            c@.len() == k,
            k <= 8,
            forall|i: int| 0 <= i < k ==> c@[i] == 0,
        decreases 8 - k,
    {
        c.push(0);
        k = k + 1;
    }
    assert(c@ =~= zero_counters());
    c
}

/// Whether some byte of `lo..hi` is not a newline.
pub open spec fn has_content(bytes: Seq<u8>, lo: int, hi: int) -> bool {
    exists|j: int| lo <= j < hi && #[trigger] bytes[j] != 10
}

/// Content moves the reading end past the start of its range.
proof fn lemma_content_moves(bytes: Seq<u8>, lo: int, hi: int, e0: int)
    requires
        e0 <= lo <= hi,
        has_content(bytes, lo, hi),
    ensures
        lo < hi,
        content_end(bytes, lo, hi, e0) > lo,
    decreases hi - lo,
{
    let j = choose|j: int| lo <= j < hi && #[trigger] bytes[j] != 10;
    if bytes[hi - 1] == 10 {
        assert(j < hi - 1);
        assert(has_content(bytes, lo, hi - 1));
        lemma_content_moves(bytes, lo, hi - 1, e0);
    }
}

/// Whether some row of `rows` belongs to block `block` of section `section`.
pub open spec fn shows(rows: Seq<VisualRow>, section: int, block: int) -> bool {
    exists|k: int| 0 <= k < rows.len() && (#[trigger] rows[k]).spec_section() == section && rows[k].spec_block() == block
}

/// Whether a block must own at least one row: blank lines and images
/// always do, every other block when its text holds more than newlines.
pub open spec fn needs_row(doc: &Document, section: int, block: int) -> bool {
    let b = doc.spec_sections()[section].spec_blocks()[block];
    ||| b.spec_kind() == BlockKind::BlankLine
    ||| b.spec_kind() == BlockKind::Image
    ||| has_content(doc.spec_bytes(), b.spec_range().start as int, b.spec_range().end as int)
}

/// Rows already shown stay shown as the layout grows.
proof fn lemma_shows_persist(before: Seq<VisualRow>, rows: Seq<VisualRow>, s: usize, b: usize, s2: int, b2: int)
    requires
        extends(rows, before, s, b),
        shows(before, s2, b2),
    ensures
        shows(rows, s2, b2),
{
    let k = choose|k: int| 0 <= k < before.len() && (#[trigger] before[k]).spec_section() == s2 && before[k].spec_block() == b2;
    assert(rows[k] == before[k]);
}

/// A grown layout shows the block it grew by.
proof fn lemma_shows_new(before: Seq<VisualRow>, rows: Seq<VisualRow>, s: usize, b: usize)
    requires
        extends(rows, before, s, b),
        rows.len() > before.len(),
    ensures
        shows(rows, s as int, b as int),
{
    assert(rows[before.len() as int].spec_section() == s);
}

/// Whether every byte of block `block` of section `section` other than a
/// newline lies in a span of a row owned by that block.
pub open spec fn block_covered(doc: &Document, rows: Seq<VisualRow>, section: int, block: int) -> bool {
    let r = doc.spec_sections()[section].spec_blocks()[block].spec_range();
    forall|j: int|
        r.start <= j < r.end && doc.spec_bytes()[j] != 10 ==> exists|k: int|
            0 <= k < rows.len() && (#[trigger] rows[k]).spec_section() == section && rows[k].spec_block() == block
                && row_covers(rows[k], j)
}

/// Whether a block's text is wrapped as flowing or verbatim text (every
/// kind but tables and blank lines).
pub open spec fn flows(doc: &Document, section: int, block: int) -> bool {
    let kind = doc.spec_sections()[section].spec_blocks()[block].spec_kind();
    kind != BlockKind::Table && kind != BlockKind::BlankLine
}

proof fn lemma_block_covered_new(
    doc: &Document,
    before: Seq<VisualRow>,
    rows: Seq<VisualRow>,
    s: usize,
    b: usize,
)
    requires
        s < doc.spec_sections().len(),
        b < doc.spec_sections()[s as int].spec_blocks().len(),
        extends(rows, before, s, b),
        content_covered(
            doc.spec_bytes(),
            rows,
            before.len() as int,
            doc.spec_sections()[s as int].spec_blocks()[b as int].spec_range().start as int,
            doc.spec_sections()[s as int].spec_blocks()[b as int].spec_range().end as int,
        ),
    ensures
        block_covered(doc, rows, s as int, b as int),
{
    let r = doc.spec_sections()[s as int].spec_blocks()[b as int].spec_range();
    assert forall|j: int| r.start <= j < r.end && doc.spec_bytes()[j] != 10 implies exists|k: int|
        0 <= k < rows.len() && (#[trigger] rows[k]).spec_section() == s && rows[k].spec_block() == b && row_covers(
            rows[k],
            j,
        ) by {
        assert(rows_cover(rows, before.len() as int, j));
        let k = choose|k: int| before.len() <= k < rows.len() && row_covers(#[trigger] rows[k], j);
        assert(rows[k].spec_section() == s);
    }
}

proof fn lemma_block_covered_persist(
    doc: &Document,
    before: Seq<VisualRow>,
    rows: Seq<VisualRow>,
    s: usize,
    b: usize,
    s2: int,
    b2: int,
)
    requires
        extends(rows, before, s, b),
        block_covered(doc, before, s2, b2),
    ensures
        block_covered(doc, rows, s2, b2),
{
    let r = doc.spec_sections()[s2].spec_blocks()[b2].spec_range();
    assert forall|j: int| r.start <= j < r.end && doc.spec_bytes()[j] != 10 implies exists|k: int|
        0 <= k < rows.len() && (#[trigger] rows[k]).spec_section() == s2 && rows[k].spec_block() == b2 && row_covers(
            rows[k],
            j,
        ) by {
        let k = choose|k: int|
            0 <= k < before.len() && (#[trigger] before[k]).spec_section() == s2 && before[k].spec_block() == b2
                && row_covers(before[k], j);
        assert(rows[k] == before[k]);
    }
}

/// Whether byte `j` lies inside one of `cells`.
pub open spec fn in_cells(cells: Seq<Range<usize>>, j: int) -> bool {
    exists|i: int| 0 <= i < cells.len() && (#[trigger] cells[i]).start <= j < cells[i].end
}

/// Whether block `block` of section `section` is a table whose cells lie in
/// order inside its range on character boundaries.
pub open spec fn table_ok(doc: &Document, section: int, block: int) -> bool {
    let blk = doc.spec_sections()[section].spec_blocks()[block];
    &&& blk.spec_kind() == BlockKind::Table
    &&& cells_ordered(doc.spec_bytes(), blk.spec_cells(), blk.spec_range().start as int, blk.spec_range().end as int)
}

/// Every byte other than a newline of every cell of a block lies in a span
/// of one of that block's rows.
pub open spec fn cells_covered(doc: &Document, rows: Seq<VisualRow>, section: int, block: int) -> bool {
    let cells = doc.spec_sections()[section].spec_blocks()[block].spec_cells();
    forall|j: int|
        #[trigger] in_cells(cells, j) && doc.spec_bytes()[j] != 10 ==> exists|k: int|
            0 <= k < rows.len() && (#[trigger] rows[k]).spec_section() == section && rows[k].spec_block() == block
                && row_covers(rows[k], j)
}

proof fn lemma_cells_covered_new(doc: &Document, before: Seq<VisualRow>, rows: Seq<VisualRow>, s: usize, b: usize)
    requires
        s < doc.spec_sections().len(),
        b < doc.spec_sections()[s as int].spec_blocks().len(),
        extends(rows, before, s, b),
        cells_shown(
            doc.spec_bytes(),
            rows,
            before.len() as int,
            doc.spec_sections()[s as int].spec_blocks()[b as int].spec_cells(),
            doc.spec_sections()[s as int].spec_blocks()[b as int].spec_cells().len() as int,
        ),
    ensures
        cells_covered(doc, rows, s as int, b as int),
{
    let cells = doc.spec_sections()[s as int].spec_blocks()[b as int].spec_cells();
    assert forall|j: int| #[trigger] in_cells(cells, j) && doc.spec_bytes()[j] != 10 implies exists|k: int|
        0 <= k < rows.len() && (#[trigger] rows[k]).spec_section() == s && rows[k].spec_block() == b && row_covers(
            rows[k],
            j,
        ) by {
        let i = choose|i: int| 0 <= i < cells.len() && (#[trigger] cells[i]).start <= j < cells[i].end;
        assert(content_covered(doc.spec_bytes(), rows, before.len() as int, cells[i].start as int, cells[i].end as int));
        assert(rows_cover(rows, before.len() as int, j));
        let k = choose|k: int| before.len() <= k < rows.len() && row_covers(#[trigger] rows[k], j);
        assert(rows[k].spec_section() == s);
    }
}

proof fn lemma_cells_covered_persist(
    doc: &Document,
    before: Seq<VisualRow>,
    rows: Seq<VisualRow>,
    s: usize,
    b: usize,
    s2: int,
    b2: int,
)
    requires
        extends(rows, before, s, b),
        cells_covered(doc, before, s2, b2),
    ensures
        cells_covered(doc, rows, s2, b2),
{
    let cells = doc.spec_sections()[s2].spec_blocks()[b2].spec_cells();
    assert forall|j: int| #[trigger] in_cells(cells, j) && doc.spec_bytes()[j] != 10 implies exists|k: int|
        0 <= k < rows.len() && (#[trigger] rows[k]).spec_section() == s2 && rows[k].spec_block() == b2 && row_covers(
            rows[k],
            j,
        ) by {
        let k = choose|k: int|
            0 <= k < before.len() && (#[trigger] before[k]).spec_section() == s2 && before[k].spec_block() == b2
                && row_covers(before[k], j);
        assert(rows[k] == before[k]);
    }
}

/// Whether `row` belongs to block `block` of section `section`.
pub open spec fn owned_by(row: VisualRow, section: int, block: int) -> bool {
    row.spec_section() == section && row.spec_block() == block
}

/// Whether `row` belongs to a block before block `block` of section
/// `section`.
pub open spec fn owned_before(row: VisualRow, section: int, block: int) -> bool {
    row.spec_section() < section || (row.spec_section() == section && row.spec_block() < block)
}

/// Some row of block `block` of section `section` pads position `m` with
/// nothing.
pub open spec fn block_unpadded_at(rows: Seq<VisualRow>, section: int, block: int, m: int) -> bool {
    exists|k: int|
        0 <= k < rows.len() && owned_by(rows[k], section, block) && m < rows[k].spec_padding().len()
            && #[trigger] rows[k].spec_padding()[m] == 0
}

/// The rows of a block line up as columns: at every even padding position,
/// each of its rows that pads there pads its cell to the same width, and
/// some row needs no padding there, so the column is as wide as its widest
/// cell.
pub open spec fn table_aligned(doc: &Document, rows: Seq<VisualRow>, section: int, block: int) -> bool {
    let bytes = doc.spec_bytes();
    &&& forall|k1: int, k2: int, m: int|
        #![trigger padded(bytes, rows[k1], m), padded(bytes, rows[k2], m)]
        0 <= k1 < rows.len() && 0 <= k2 < rows.len() && owned_by(rows[k1], section, block) && owned_by(
            rows[k2],
            section,
            block,
        ) && 0 <= m && m % 2 == 0 && m < rows[k1].spec_padding().len() && m < rows[k2].spec_padding().len()
            ==> padded(bytes, rows[k1], m) == padded(bytes, rows[k2], m)
    &&& forall|k1: int, m: int|
        #![trigger rows[k1], block_unpadded_at(rows, section, block, m)]
        0 <= k1 < rows.len() && owned_by(rows[k1], section, block) && 0 <= m && m % 2 == 0 && m
            < rows[k1].spec_padding().len() ==> block_unpadded_at(rows, section, block, m)
}

proof fn lemma_table_aligned_new(doc: &Document, before: Seq<VisualRow>, rows: Seq<VisualRow>, s: usize, b: usize)
    requires
        extends(rows, before, s, b),
        forall|k: int| 0 <= k < before.len() ==> owned_before(#[trigger] before[k], s as int, b as int),
        aligned_from(doc.spec_bytes(), rows, before.len() as int),
    ensures
        table_aligned(doc, rows, s as int, b as int),
{
    let bytes = doc.spec_bytes();
    let from = before.len() as int;
    assert forall|k: int| 0 <= k < rows.len() && owned_by(rows[k], s as int, b as int) implies from <= k by {
        if k < from {
            assert(rows[k] == before[k]);
            assert(owned_before(before[k], s as int, b as int));
        }
    }
    assert forall|k1: int, k2: int, m: int|
        #![trigger padded(bytes, rows[k1], m), padded(bytes, rows[k2], m)]
        0 <= k1 < rows.len() && 0 <= k2 < rows.len() && owned_by(rows[k1], s as int, b as int) && owned_by(
            rows[k2],
            s as int,
            b as int,
        ) && 0 <= m && m % 2 == 0 && m < rows[k1].spec_padding().len() && m < rows[k2].spec_padding().len()
            implies padded(bytes, rows[k1], m) == padded(bytes, rows[k2], m) by {
        assert(from <= k1 && from <= k2);
    }
    assert forall|k1: int, m: int|
        #![trigger rows[k1], block_unpadded_at(rows, s as int, b as int, m)]
        0 <= k1 < rows.len() && owned_by(rows[k1], s as int, b as int) && 0 <= m && m % 2 == 0 && m
            < rows[k1].spec_padding().len() implies block_unpadded_at(rows, s as int, b as int, m) by {
        assert(from <= k1);
        assert(unpadded_at(rows, from, m));
        let k = choose|k: int| from <= k < rows.len() && m < rows[k].spec_padding().len() && #[trigger] rows[k].spec_padding()[m] == 0;
        assert(owned_by(rows[k], s as int, b as int));
    }
}

proof fn lemma_table_aligned_persist(
    doc: &Document,
    before: Seq<VisualRow>,
    rows: Seq<VisualRow>,
    s: usize,
    b: usize,
    s2: int,
    b2: int,
)
    requires
        extends(rows, before, s, b),
        !(s2 == s && b2 == b),
        table_aligned(doc, before, s2, b2),
    ensures
        table_aligned(doc, rows, s2, b2),
{
    let bytes = doc.spec_bytes();
    assert forall|k: int| 0 <= k < rows.len() && owned_by(rows[k], s2, b2) implies k < before.len() && rows[k]
        == before[k] by {
        if k >= before.len() {
            assert(rows[k].spec_section() == s && rows[k].spec_block() == b);
        }
    }
    assert forall|k1: int, k2: int, m: int|
        #![trigger padded(bytes, rows[k1], m), padded(bytes, rows[k2], m)]
        0 <= k1 < rows.len() && 0 <= k2 < rows.len() && owned_by(rows[k1], s2, b2) && owned_by(rows[k2], s2, b2)
            && 0 <= m && m % 2 == 0 && m < rows[k1].spec_padding().len() && m < rows[k2].spec_padding().len()
            implies padded(bytes, rows[k1], m) == padded(bytes, rows[k2], m) by {
        assert(rows[k1] == before[k1] && rows[k2] == before[k2]);
        assert(padded(bytes, before[k1], m) == padded(bytes, before[k2], m));
    }
    assert forall|k1: int, m: int|
        #![trigger rows[k1], block_unpadded_at(rows, s2, b2, m)]
        0 <= k1 < rows.len() && owned_by(rows[k1], s2, b2) && 0 <= m && m % 2 == 0 && m
            < rows[k1].spec_padding().len() implies block_unpadded_at(rows, s2, b2, m) by {
        assert(rows[k1] == before[k1]);
        assert(block_unpadded_at(before, s2, b2, m));
        let k = choose|k: int|
            0 <= k < before.len() && owned_by(before[k], s2, b2) && m < before[k].spec_padding().len()
                && #[trigger] before[k].spec_padding()[m] == 0;
        assert(rows[k] == before[k]);
    }
}

/// Wraps every block of `document` into visual rows for `width` cells.
///
/// Ordered-list numbering restarts whenever a paragraph, separator,
/// heading, or image intervenes; counters are per depth so nested lists
/// number independently.
fn wrap_all_blocks(document: &Document, width: u16) -> (rows: Vec<VisualRow>)
    ensures
        rows_chain(document.spec_bytes(), rows@, 0),
        rows_props(document, width as int, rows@),
        rows_end(rows@, 0) <= document.spec_bytes().len(),
        forall|s: int, b: int|
            0 <= s < document.spec_sections().len() && 0 <= b < document.spec_sections()[s].spec_blocks().len()
                && #[trigger] needs_row(document, s, b) ==> shows(rows@, s, b),
        forall|s: int, b: int|
            0 <= s < document.spec_sections().len() && 0 <= b < document.spec_sections()[s].spec_blocks().len()
                && #[trigger] flows(document, s, b) ==> block_covered(document, rows@, s, b),
        forall|s: int, b: int|
            0 <= s < document.spec_sections().len() && 0 <= b < document.spec_sections()[s].spec_blocks().len()
                && #[trigger] table_ok(document, s, b) ==> cells_covered(document, rows@, s, b),
        forall|s: int, b: int|
            0 <= s < document.spec_sections().len() && 0 <= b < document.spec_sections()[s].spec_blocks().len()
                && document.spec_sections()[s].spec_blocks()[b].spec_kind() == BlockKind::Table ==> #[trigger] table_aligned(
                document,
                rows@,
                s,
                b,
            ),
        forall|k: int|
            0 <= k < rows@.len() && owner_kind(document, #[trigger] rows@[k]) == BlockKind::BlankLine
                ==> rows@[k].spec_spans().len() == 0,
        forall|k: int| 0 <= k < rows@.len() ==> breaks_well(document, #[trigger] rows@[k]),
        forall|k: int| 0 <= k && k + 1 < rows@.len() ==> #[trigger] fills_well(document, width as int, rows@, k),
        forall|s: int, b: int|
            0 <= s < document.spec_sections().len() && 0 <= b < document.spec_sections()[s].spec_blocks().len()
                && document.spec_sections()[s].spec_blocks()[b].spec_kind() is ListItem && #[trigger] needs_row(
                document,
                s,
                b,
            ) ==> headed(rows@, s, b, item_head(document.spec_sections(), s, b)),
{
    let text = document.canonical();
    let sections = document.sections();
    let ghost bytes = document.spec_bytes();
    let ghost all = flat_ranges(sections@);
    proof {
        vstd::utf8::encode_utf8_valid_utf8(document.spec_canonical());
        assert(sections@.take(0) =~= Seq::<crate::model::Section>::empty());
        assert(flat_ranges(Seq::<crate::model::Section>::empty()) =~= Seq::<Range<usize>>::empty());
    }
    let mut rows: Vec<VisualRow> = Vec::new();
    let mut counters = fresh_counters();
    let mut s: usize = 0;
    while s < sections.len()
        invariant
            text.spec_bytes() == bytes,
            bytes == document.spec_bytes(),
            vstd::utf8::valid_utf8(bytes),
            document.wf(),
            sections@ == document.spec_sections(),
            all == flat_ranges(sections@),
            s <= sections@.len(),
            counters@.len() == 8,
            counters@ == counters_before(sections@, s as int),
            forall|s2: int, b2: int|
                0 <= s2 < s && 0 <= b2 < sections@[s2].spec_blocks().len() && sections@[s2].spec_blocks()[b2].spec_kind() is ListItem
                    && #[trigger] needs_row(document, s2, b2) ==> headed(rows@, s2, b2, item_head(sections@, s2, b2)),
            rows_chain(bytes, rows@, 0),
            rows_props(document, width as int, rows@),
            rows_end(rows@, 0) <= expected_start(all, 0, flat_ranges(sections@.take(s as int)).len() as int),
            flat_ranges(sections@.take(s as int)).len() <= all.len(),
            forall|s2: int, b2: int|
                0 <= s2 < s && 0 <= b2 < sections@[s2].spec_blocks().len() && #[trigger] needs_row(document, s2, b2)
                    ==> shows(rows@, s2, b2),
            forall|s2: int, b2: int|
                0 <= s2 < s && 0 <= b2 < sections@[s2].spec_blocks().len() && #[trigger] flows(document, s2, b2)
                    ==> block_covered(document, rows@, s2, b2),
            forall|s2: int, b2: int|
                0 <= s2 < s && 0 <= b2 < sections@[s2].spec_blocks().len() && #[trigger] table_ok(document, s2, b2)
                    ==> cells_covered(document, rows@, s2, b2),
            forall|s2: int, b2: int|
                0 <= s2 < s && 0 <= b2 < sections@[s2].spec_blocks().len() && sections@[s2].spec_blocks()[b2].spec_kind()
                    == BlockKind::Table ==> #[trigger] table_aligned(document, rows@, s2, b2),
            forall|k: int| 0 <= k < rows@.len() ==> owned_before(#[trigger] rows@[k], s as int, 0),
            forall|k: int| 0 <= k && k + 1 < rows@.len() ==> #[trigger] fills_well(document, width as int, rows@, k),
            forall|k: int| 0 <= k < rows@.len() ==> breaks_well(document, #[trigger] rows@[k]),
            forall|k: int|
                0 <= k < rows@.len() && owner_kind(document, #[trigger] rows@[k]) == BlockKind::BlankLine
                    ==> rows@[k].spec_spans().len() == 0,
            rows_props(document, width as int, rows@),
        decreases sections@.len() - s,
    {
        let blocks = sections[s].blocks();
        proof {
            lemma_flat_take_step(sections@, s as int);
            lemma_flat_prefix_len(sections@, s as int + 1);
        }
        let ghost base = flat_ranges(sections@.take(s as int)).len() as int;
        let mut b: usize = 0;
        while b < blocks.len()
            invariant
                text.spec_bytes() == bytes,
                bytes == document.spec_bytes(),
                vstd::utf8::valid_utf8(bytes),
                document.wf(),
                sections@ == document.spec_sections(),
                all == flat_ranges(sections@),
                s < sections@.len(),
                blocks@ == sections@[s as int].spec_blocks(),
                base == flat_ranges(sections@.take(s as int)).len(),
                flat_ranges(sections@.take(s as int + 1)) == flat_ranges(sections@.take(s as int))
                    + ranges_of(sections@[s as int].spec_blocks()),
                b <= blocks@.len(),
                counters@.len() == 8,
                counters@ == counters_in(blocks@, b as int, counters_before(sections@, s as int)),
                forall|s2: int, b2: int|
                    ((0 <= s2 < s && 0 <= b2 < sections@[s2].spec_blocks().len()) || (s2 == s && 0 <= b2 < b))
                        && sections@[s2].spec_blocks()[b2].spec_kind() is ListItem && #[trigger] needs_row(document, s2, b2)
                        ==> headed(rows@, s2, b2, item_head(sections@, s2, b2)),
                rows_chain(bytes, rows@, 0),
                rows_props(document, width as int, rows@),
                rows_end(rows@, 0) <= expected_start(all, 0, base + b),
                base + blocks@.len() <= all.len(),
            forall|s2: int, b2: int|
                ((0 <= s2 < s && 0 <= b2 < sections@[s2].spec_blocks().len()) || (s2 == s && 0 <= b2 < b))
                    && #[trigger] needs_row(document, s2, b2) ==> shows(rows@, s2, b2),
            forall|s2: int, b2: int|
                ((0 <= s2 < s && 0 <= b2 < sections@[s2].spec_blocks().len()) || (s2 == s && 0 <= b2 < b))
                    && #[trigger] flows(document, s2, b2) ==> block_covered(document, rows@, s2, b2),
            forall|s2: int, b2: int|
                ((0 <= s2 < s && 0 <= b2 < sections@[s2].spec_blocks().len()) || (s2 == s && 0 <= b2 < b))
                    && #[trigger] table_ok(document, s2, b2) ==> cells_covered(document, rows@, s2, b2),
            forall|s2: int, b2: int|
                ((0 <= s2 < s && 0 <= b2 < sections@[s2].spec_blocks().len()) || (s2 == s && 0 <= b2 < b))
                    && sections@[s2].spec_blocks()[b2].spec_kind() == BlockKind::Table ==> #[trigger] table_aligned(
                    document,
                    rows@,
                    s2,
                    b2,
                ),
            forall|k: int| 0 <= k < rows@.len() ==> owned_before(#[trigger] rows@[k], s as int, b as int),
            forall|k: int| 0 <= k && k + 1 < rows@.len() ==> #[trigger] fills_well(document, width as int, rows@, k),
            forall|k: int| 0 <= k < rows@.len() ==> breaks_well(document, #[trigger] rows@[k]),
            forall|k: int|
                0 <= k < rows@.len() && owner_kind(document, #[trigger] rows@[k]) == BlockKind::BlankLine
                    ==> rows@[k].spec_spans().len() == 0,
            decreases blocks@.len() - b,
        {
            let block = &blocks[b];
            let lo = block.range().start;
            let hi = block.range().end;
            proof {
                lemma_block_facts(*document, s as int, b as int);
                lemma_block_in_flat(sections@, s as int, b as int);
                assert(link_ok(all, 0, bytes, base + b));
                assert(all[base + b] == blocks@[b as int].spec_range());
                if base + b + 1 < all.len() {
                    assert(expected_start(all, 0, base + b + 1) == hi);
                }
            }
            let ghost before = rows@;
            let ghost e0 = rows_end(rows@, 0);
            let ghost c_before = counters@;
            let ghost head_text = Seq::<char>::empty();
            proof {
                if has_content(bytes, lo as int, hi as int) {
                    lemma_content_moves(bytes, lo as int, hi as int, e0);
                }
            }
            match block.kind() {
                BlockKind::BlankLine => {
                    let row = VisualRow::empty(s, b);
                    proof {
                        lemma_rows_push(bytes, rows@, 0, row);
                        lemma_props_push(document, width as int, rows@, row);
                        lemma_extends_push(rows@, row, s, b);
                    }
                    rows.push(row);
                },
                BlockKind::Paragraph | BlockKind::Separator | BlockKind::Heading { .. } => {
                    counters = fresh_counters();
                    wrap_paragraph(document, text, lo, hi, s, b, width, &mut rows, Ghost(0int));
                },
                BlockKind::Image => {
                    counters = fresh_counters();
                    append_image_rows(document, text, lo, hi, s, b, width, &mut rows, Ghost(0int));
                },
                BlockKind::ListItem { depth, ordered } => {
                    let d: usize = if depth > 7 { 7 } else { depth as usize };
                    if ordered && counters[d] < u64::MAX {
                        let next = counters[d] + 1;
                        counters.set(d, next);
                    }
                    let mut marker = String::new();
                    if ordered {
                        push_decimal(&mut marker, counters[d]);
                        push_str(&mut marker, ". ");
                    } else {
                        push_str(&mut marker, "\u{2022} ");
                    }
                    let marker_cells = capped_width(marker.as_str(), 0);
                    let indent = repeat(" ", marker_cells as usize);
                    let mut head = repeat("  ", depth as usize);
                    push_str(&mut head, marker.as_str());
                    let mut tail = repeat("  ", depth as usize);
                    push_str(&mut tail, indent.as_str());
                    proof {
                        head_text = head@;
                        assert(head@ == list_head(depth, ordered, counters@[d as int]));
                    }
                    wrap_prefixed(
                        document,
                        text,
                        lo,
                        hi,
                        s,
                        b,
                        width,
                        head.as_str(),
                        tail.as_str(),
                        &mut rows,
                        Ghost(0int),
                    );
                },
                BlockKind::Quote => {
                    wrap_prefixed(document, text, lo, hi, s, b, width, "> ", "> ", &mut rows, Ghost(0int));
                },
                BlockKind::CodeBlock => {
                    code_block_rows(document, text, lo, hi, s, b, width, &mut rows, Ghost(0int));
                },
                BlockKind::Table => {
                    table_rows(document, text, lo, hi, block.cells(), s, b, width, &mut rows, Ghost(0int));
                },
            }
            proof {
                assert forall|k: int| 0 <= k && k + 1 < rows@.len() implies #[trigger] fills_well(
                    document,
                    width as int,
                    rows@,
                    k,
                ) by {
                    if k + 1 < before.len() {
                        assert(rows@[k] == before[k]);
                        assert(rows@[k + 1] == before[k + 1]);
                        assert(fills_well(document, width as int, before, k));
                    } else if k + 1 == before.len() {
                        assert(rows@[k] == before[k]);
                        assert(owned_before(before[k], s as int, b as int));
                    } else {
                        if unprefixed(blocks@[b as int].spec_kind()) {
                            assert(rows_greedy(document, lo as int, hi as int, width as int, rows@, before.len() as int));
                        }
                    }
                }
                assert(extends(rows@, before, s, b));
                assert(counters@ == step_counters(c_before, blocks@[b as int].spec_kind()));
                assert(counters@ == counters_in(blocks@, b + 1, counters_before(sections@, s as int)));
                assert forall|s2: int, b2: int|
                    ((0 <= s2 < s && 0 <= b2 < sections@[s2].spec_blocks().len()) || (s2 == s && 0 <= b2 < b + 1))
                        && sections@[s2].spec_blocks()[b2].spec_kind() is ListItem && #[trigger] needs_row(document, s2, b2)
                        implies headed(rows@, s2, b2, item_head(sections@, s2, b2)) by {
                    if s2 == s && b2 == b {
                        if rows_end(rows@, 0) != e0 {
                            lemma_extends_grows(rows@, before, s, b, 0);
                        }
                        assert(rows@[before.len() as int].spec_prefix() == head_text);
                        assert(item_head(sections@, s2, b2) == head_text);
                    } else {
                        lemma_headed_persist(before, rows@, s, b, s2, b2, item_head(sections@, s2, b2));
                    }
                }
                if needs_row(document, s as int, b as int) {
                    if rows_end(rows@, 0) != e0 {
                        lemma_extends_grows(rows@, before, s, b, 0);
                    }
                    assert(rows@.len() > before.len());
                    lemma_shows_new(before, rows@, s, b);
                }
                if flows(document, s as int, b as int) {
                    lemma_block_covered_new(document, before, rows@, s, b);
                }
                assert forall|s2: int, b2: int|
                    ((0 <= s2 < s && 0 <= b2 < sections@[s2].spec_blocks().len()) || (s2 == s && 0 <= b2 < b + 1))
                        && #[trigger] flows(document, s2, b2) implies block_covered(document, rows@, s2, b2) by {
                    if !(s2 == s && b2 == b) {
                        lemma_block_covered_persist(document, before, rows@, s, b, s2, b2);
                    }
                }
                if table_ok(document, s as int, b as int) {
                    lemma_cells_covered_new(document, before, rows@, s, b);
                }
                if blocks@[b as int].spec_kind() == BlockKind::Table {
                    lemma_table_aligned_new(document, before, rows@, s, b);
                }
                assert forall|s2: int, b2: int|
                    ((0 <= s2 < s && 0 <= b2 < sections@[s2].spec_blocks().len()) || (s2 == s && 0 <= b2 < b + 1))
                        && sections@[s2].spec_blocks()[b2].spec_kind() == BlockKind::Table implies #[trigger] table_aligned(
                        document,
                        rows@,
                        s2,
                        b2,
                    ) by {
                    if !(s2 == s && b2 == b) {
                        lemma_table_aligned_persist(document, before, rows@, s, b, s2, b2);
                    }
                }
                assert forall|k: int| 0 <= k < rows@.len() implies owned_before(#[trigger] rows@[k], s as int, b + 1) by {
                    if k < before.len() {
                        assert(rows@[k] == before[k]);
                        assert(owned_before(before[k], s as int, b as int));
                    } else {
                        assert(rows@[k].spec_section() == s && rows@[k].spec_block() == b);
                    }
                }
                assert forall|s2: int, b2: int|
                    ((0 <= s2 < s && 0 <= b2 < sections@[s2].spec_blocks().len()) || (s2 == s && 0 <= b2 < b + 1))
                        && #[trigger] table_ok(document, s2, b2) implies cells_covered(document, rows@, s2, b2) by {
                    if !(s2 == s && b2 == b) {
                        lemma_cells_covered_persist(document, before, rows@, s, b, s2, b2);
                    }
                }
                assert forall|k: int|
                    0 <= k < rows@.len() && owner_kind(document, #[trigger] rows@[k]) == BlockKind::BlankLine
                        implies rows@[k].spec_spans().len() == 0 by {
                    if k < before.len() {
                        assert(rows@[k] == before[k]);
                    } else {
                        assert(rows@[k].spec_section() == s && rows@[k].spec_block() == b);
                    }
                }
                assert forall|s2: int, b2: int|
                    ((0 <= s2 < s && 0 <= b2 < sections@[s2].spec_blocks().len()) || (s2 == s && 0 <= b2 < b + 1))
                        && #[trigger] needs_row(document, s2, b2) implies shows(rows@, s2, b2) by {
                    if s2 == s && b2 == b {
                    } else {
                        lemma_shows_persist(before, rows@, s, b, s2, b2);
                    }
                }
            }
            b = b + 1;
        }
        proof {
            assert(flat_ranges(sections@.take(s as int + 1)).len() == base + blocks@.len());
        }
        s = s + 1;
    }
    proof {
        assert(sections@.take(sections@.len() as int) =~= sections@);
        crate::model::lemma_tiles_blocks_ordered(sections@, bytes);
        if all.len() > 0 {
            assert(link_ok(all, 0, bytes, all.len() - 1));
        }
    }
    rows
}

/// Wraps a document into visual rows for one content width.
///
/// A zero width yields an empty layout; callers show the terminal-too-small
/// state instead of laying out unreadable geometry. Every span of the result
/// lies in the canonical text on character boundaries and continues reading
/// order; every row belongs to an existing block; and every row outside a
/// table fits the width unless it holds a single overflowing cluster or its
/// prefix alone overflows. A row of prose (any block but a table, a code
/// block or a blank line) ends at the end of a line of its block, at one of
/// that line's break opportunities from `unicode-linebreak`, or where an
/// inline decoration starts or ends; or else it holds, alone, the start of
/// a piece of one line that has no break opportunity inside. Rows of a
/// paragraph, separator, heading or image caption fill greedily: a row
/// closes only when it was cut inside such a piece, when it is wider than
/// the width on its own, or when the piece that starts the next row did
/// not fit after it.
pub fn layout_document(document: &Document, width: u16) -> (layout: PageLayout)
    ensures
        layout.spec_width() == width,
        width == 0 || document.spec_bytes().len() == 0 ==> layout.spec_rows().len() == 0,
        rows_chain(document.spec_bytes(), layout.spec_rows(), 0),
        rows_props(document, width as int, layout.spec_rows()),
        rows_end(layout.spec_rows(), 0) <= document.spec_bytes().len(),
        width > 0 && document.spec_bytes().len() > 0 ==> forall|s: int, b: int|
            0 <= s < document.spec_sections().len() && 0 <= b < document.spec_sections()[s].spec_blocks().len()
                && #[trigger] needs_row(document, s, b) ==> shows(layout.spec_rows(), s, b),
        width > 0 && document.spec_bytes().len() > 0 ==> forall|s: int, b: int|
            0 <= s < document.spec_sections().len() && 0 <= b < document.spec_sections()[s].spec_blocks().len()
                && #[trigger] flows(document, s, b) ==> block_covered(document, layout.spec_rows(), s, b),
        width > 0 && document.spec_bytes().len() > 0 ==> forall|s: int, b: int|
            0 <= s < document.spec_sections().len() && 0 <= b < document.spec_sections()[s].spec_blocks().len()
                && #[trigger] table_ok(document, s, b) ==> cells_covered(document, layout.spec_rows(), s, b),
        forall|s: int, b: int|
            0 <= s < document.spec_sections().len() && 0 <= b < document.spec_sections()[s].spec_blocks().len()
                && document.spec_sections()[s].spec_blocks()[b].spec_kind() == BlockKind::Table ==> #[trigger] table_aligned(
                document,
                layout.spec_rows(),
                s,
                b,
            ),
        forall|k: int|
            0 <= k < layout.spec_rows().len() && owner_kind(document, #[trigger] layout.spec_rows()[k])
                == BlockKind::BlankLine ==> layout.spec_rows()[k].spec_spans().len() == 0,
        forall|k: int| 0 <= k < layout.spec_rows().len() ==> breaks_well(document, #[trigger] layout.spec_rows()[k]),
        forall|k: int|
            0 <= k && k + 1 < layout.spec_rows().len() ==> #[trigger] fills_well(
                document,
                width as int,
                layout.spec_rows(),
                k,
            ),
        width > 0 && document.spec_bytes().len() > 0 ==> forall|s: int, b: int|
            0 <= s < document.spec_sections().len() && 0 <= b < document.spec_sections()[s].spec_blocks().len()
                && document.spec_sections()[s].spec_blocks()[b].spec_kind() is ListItem && #[trigger] needs_row(
                document,
                s,
                b,
            ) ==> headed(layout.spec_rows(), s, b, item_head(document.spec_sections(), s, b)),
{
    let rows = if width == 0 || document.is_empty() {
        Vec::new()
    } else {
        wrap_all_blocks(document, width)
    };
    PageLayout { width, rows }
}


/// Ordered-list numbering restarts after every other kind of flowing
/// block: an ordered list item that directly follows a paragraph,
/// separator, heading or image in its section is numbered 1 at its depth,
/// so its first row (see `layout_document`) starts with its indent and
/// `1. `.
pub proof fn lemma_numbering_restarts(sections: Seq<crate::model::Section>, s: int, b: int, depth: u8)
    requires
        0 <= s < sections.len(),
        1 <= b < sections[s].spec_blocks().len(),
        sections[s].spec_blocks()[b].spec_kind() == (BlockKind::ListItem { depth, ordered: true }),
        ({
            let before = sections[s].spec_blocks()[b - 1].spec_kind();
            before is Paragraph || before is Separator || before is Heading || before is Image
        }),
    ensures
        item_head(sections, s, b) == list_head(depth, true, 1),
{
    let blocks = sections[s].spec_blocks();
    let c0 = counters_before(sections, s);
    let d = if depth > 7 {
        7int
    } else {
        depth as int
    };
    assert(counters_in(blocks, b, c0) == zero_counters());
    assert(counters_in(blocks, b + 1, c0) == zero_counters().update(d, 1u64));
}

/// Consecutive ordered items at one depth count up: an ordered list item
/// that directly follows an ordered item of the same depth in its section
/// carries the next number (until the count saturates at `u64::MAX`).
pub proof fn lemma_numbering_counts_up(sections: Seq<crate::model::Section>, s: int, b: int, depth: u8)
    requires
        0 <= s < sections.len(),
        1 <= b < sections[s].spec_blocks().len(),
        sections[s].spec_blocks()[b].spec_kind() == (BlockKind::ListItem { depth, ordered: true }),
        sections[s].spec_blocks()[b - 1].spec_kind() == (BlockKind::ListItem { depth, ordered: true }),
        depth <= 7,
    ensures
        exists|n: u64|
            item_head(sections, s, b - 1) == #[trigger] list_head(depth, true, n) && (n < u64::MAX ==> item_head(
                sections,
                s,
                b,
            ) == list_head(depth, true, (n + 1) as u64)),
{
    let blocks = sections[s].spec_blocks();
    let c0 = counters_before(sections, s);
    lemma_counters_before_len(sections, s);
    lemma_counters_in_len(blocks, b, c0);
    let c = counters_in(blocks, b, c0);
    let n = c[depth as int];
    assert(item_head(sections, s, b - 1) == list_head(depth, true, n));
    if n < u64::MAX {
        assert(counters_in(blocks, b + 1, c0) == c.update(depth as int, (n + 1) as u64));
        assert(item_head(sections, s, b) == list_head(depth, true, (n + 1) as u64));
    }
}

proof fn lemma_counters_in_len(blocks: Seq<crate::model::Block>, n: int, c0: Seq<u64>)
    requires
        c0.len() == 8,
    ensures
        counters_in(blocks, n, c0).len() == 8,
    decreases n,
{
    if n > 0 {
        lemma_counters_in_len(blocks, n - 1, c0);
    }
}

proof fn lemma_counters_before_len(sections: Seq<crate::model::Section>, s: int)
    ensures
        counters_before(sections, s).len() == 8,
    decreases s,
{
    if s > 0 {
        lemma_counters_before_len(sections, s - 1);
        lemma_counters_in_len(
            sections[s - 1].spec_blocks(),
            sections[s - 1].spec_blocks().len() as int,
            counters_before(sections, s - 1),
        );
    }
}

} // verus!
