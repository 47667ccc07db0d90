//! Core logical types: documents, sections, blocks, and validated positions.
//!
//! A [`Document`] stores one canonical logical text plus the block ranges that
//! partition it. Reading positions address that text, so they never change
//! when terminal width, theme, or reading mode changes.
use vstd::prelude::*;
use vstd::utf8::*;
use vstd::string::*;
use core::ops::Range;

use crate::strings::{char_boundary, push_decimal, push_str, spec_decimal, str_range, utf8};

verus! {

/// Stable opaque identity for one source book.
#[derive(Clone, Debug, PartialEq, Eq, Hash)]
pub struct DocumentId(String);

impl DocumentId {
    /// The identifier's stable string form.
    pub closed spec fn spec_repr(&self) -> Seq<char> {
        self.0@
    }

    /// Builds an identifier from caller-supplied stable components.
    pub fn new(representation: String) -> (id: Self)
        ensures
            id.spec_repr() == representation@,
    {
        DocumentId(representation)
    }

    /// The stable string form used by persistence layers.
    pub fn as_str(&self) -> (s: &str)
        ensures
            s@ == self.spec_repr(),
    {
        self.0.as_str()
    }
}

/// Semantic kinds the format adapters produce.
#[derive(Clone, Copy, Debug, PartialEq, Eq, Structural)]
pub enum BlockKind {
    /// One reflowed run of non-blank source lines.
    Paragraph,
    /// One deliberate empty line preserved from the source.
    BlankLine,
    /// A section heading; `level` is 1 for the most important heading.
    Heading { level: u8 },
    /// One entry of an enclosing list at `depth` nesting levels.
    ListItem { depth: u8, ordered: bool },
    /// One quoted passage; layout prefixes each visual row.
    Quote,
    /// Preformatted source text preserved verbatim, one row per line.
    CodeBlock,
    /// A horizontal rule rendered from its literal marker text.
    Separator,
    /// A table whose canonical rows join cells with a pipe delimiter.
    Table,
    /// An image whose canonical text is its caption.
    Image,
}

/// Inline semantic role applied to a canonical byte range.
#[derive(Clone, Copy, Debug, PartialEq, Eq, Structural)]
pub enum InlineKind {
    /// Emphasized text; rendered italic where the terminal allows.
    Emphasis,
    /// Strongly emphasized text; rendered bold.
    Strong,
    /// Inline code; rendered distinctly without reflow assumptions.
    Code,
    /// Link text whose destination stays inert during reading.
    Link,
}

/// One logical block of content and its span in the canonical text.
#[derive(Debug)]
pub struct Block {
    kind: BlockKind,
    range: Range<usize>,
    cells: Vec<Range<usize>>,
}

/// A copy of a byte range.
fn copy_range(r: &Range<usize>) -> (c: Range<usize>)
    ensures
        c == *r,
{
    Range { start: r.start, end: r.end }
}

impl Clone for Block {
    fn clone(&self) -> (c: Self)
        ensures
            c.spec_kind() == self.spec_kind(),
            c.spec_range() == self.spec_range(),
            c.spec_cells() == self.spec_cells(),
    {
        let mut cells: Vec<Range<usize>> = Vec::new();
        let mut i: usize = 0;
        while i < self.cells.len()
            invariant
                i <= self.cells@.len(),
                cells@ == self.cells@.take(i as int),
            decreases self.cells@.len() - i,
        {
            cells.push(copy_range(&self.cells[i]));
            i = i + 1;
            assert(cells@ =~= self.cells@.take(i as int));
        }
        assert(self.cells@.take(self.cells@.len() as int) =~= self.cells@);
        Block { kind: self.kind, range: copy_range(&self.range), cells }
    }
}

impl Clone for InlineSpan {
    fn clone(&self) -> (c: Self)
        ensures
            c.spec_kind() == self.spec_kind(),
            c.spec_range() == self.spec_range(),
    {
        InlineSpan { range: copy_range(&self.range), kind: self.kind }
    }
}

impl Block {
    pub closed spec fn spec_kind(&self) -> BlockKind {
        self.kind
    }

    pub closed spec fn spec_range(&self) -> Range<usize> {
        self.range
    }

    pub closed spec fn spec_cells(&self) -> Seq<Range<usize>> {
        self.cells@
    }

    /// Creates a block spanning `range` bytes of the canonical text.
    pub fn new(kind: BlockKind, range: Range<usize>) -> (b: Self)
        ensures
            b.spec_kind() == kind,
            b.spec_range() == range,
            b.spec_cells() == Seq::<Range<usize>>::empty(),
    {
        Block { kind, range, cells: Vec::new() }
    }

    /// Creates a table block carrying its row-major cell ranges.
    pub fn table(range: Range<usize>, cells: Vec<Range<usize>>) -> (b: Self)
        ensures
            b.spec_kind() == BlockKind::Table,
            b.spec_range() == range,
            b.spec_cells() == cells@,
    {
        Block { kind: BlockKind::Table, range, cells }
    }

    /// The semantic role of this block.
    pub fn kind(&self) -> (k: BlockKind)
        ensures
            k == self.spec_kind(),
    {
        self.kind
    }

    /// Byte range of this block inside the canonical text.
    pub fn range(&self) -> (r: &Range<usize>)
        ensures
            *r == self.spec_range(),
    {
        &self.range
    }

    /// Row-major cell ranges; non-empty only for tables.
    pub fn cells(&self) -> (c: &Vec<Range<usize>>)
        ensures
            c@ == self.spec_cells(),
    {
        &self.cells
    }

    /// Extends the range end during assembly; never shrinks it.
    pub fn extend_to(&mut self, end: usize)
        ensures
            final(self).spec_kind() == old(self).spec_kind(),
            final(self).spec_cells() == old(self).spec_cells(),
            final(self).spec_range().start == old(self).spec_range().start,
            final(self).spec_range().end == if end > old(self).spec_range().end {
                end
            } else {
                old(self).spec_range().end
            },
    {
        if end > self.range.end {
            self.range.end = end;
        }
    }
}

/// One decorated byte range inside the canonical text.
#[derive(Debug)]
pub struct InlineSpan {
    range: Range<usize>,
    kind: InlineKind,
}

impl InlineSpan {
    pub closed spec fn spec_range(&self) -> Range<usize> {
        self.range
    }

    pub closed spec fn spec_kind(&self) -> InlineKind {
        self.kind
    }

    /// Creates a decoration over `range`.
    pub fn new(kind: InlineKind, range: Range<usize>) -> (s: Self)
        ensures
            s.spec_kind() == kind,
            s.spec_range() == range,
    {
        InlineSpan { range, kind }
    }

    /// Byte range of this decoration.
    pub fn range(&self) -> (r: &Range<usize>)
        ensures
            *r == self.spec_range(),
    {
        &self.range
    }

    /// The semantic role carried by this decoration.
    pub fn kind(&self) -> (k: InlineKind)
        ensures
            k == self.spec_kind(),
    {
        self.kind
    }
}

/// One ordered group of blocks; TXT books use a single unnamed section.
#[derive(Clone, Debug)]
pub struct Section {
    title: Option<String>,
    blocks: Vec<Block>,
}

impl Section {
    pub closed spec fn spec_title(&self) -> Option<Seq<char>> {
        match self.title {
            Some(t) => Some(t@),
            None => None,
        }
    }

    pub closed spec fn spec_blocks(&self) -> Seq<Block> {
        self.blocks@
    }

    /// Creates a section with an optional title.
    pub fn new(title: Option<String>, blocks: Vec<Block>) -> (s: Self)
        ensures
            s.spec_blocks() == blocks@,
            s.spec_title() == match title {
                Some(t) => Some(t@),
                None => None::<Seq<char>>,
            },
    {
        Section { title, blocks }
    }

    /// The section title, when the format supplies one.
    pub fn title(&self) -> (t: Option<&str>)
        ensures
            match self.spec_title() {
                Some(x) => t is Some && t->0@ == x,
                None => t is None,
            },
    {
        match &self.title {
            Some(t) => Some(t.as_str()),
            None => None,
        }
    }

    /// Blocks in reading order.
    pub fn blocks(&self) -> (b: &[Block])
        ensures
            b@ == self.spec_blocks(),
    {
        self.blocks.as_slice()
    }
}

/// A validated logical reading position.
///
/// Construction goes through [`Document::position`], so every position a
/// document hands out references an existing block boundary.
#[derive(Clone, Copy, Debug, PartialEq, Eq, Structural, Hash, PartialOrd, Ord)]
pub struct Position {
    section: usize,
    block: usize,
    offset: usize,
}

impl Position {
    pub closed spec fn spec_section(&self) -> usize {
        self.section
    }

    pub closed spec fn spec_block(&self) -> usize {
        self.block
    }

    pub closed spec fn spec_offset(&self) -> usize {
        self.offset
    }

    /// A position is determined by its section, block and offset.
    pub proof fn lemma_parts_determine(p: Position, q: Position)
        requires
            p.spec_section() == q.spec_section(),
            p.spec_block() == q.spec_block(),
            p.spec_offset() == q.spec_offset(),
        ensures
            p == q,
    {
    }

    /// Origin position used when no valid boundary exists (empty books).
    pub fn origin() -> (p: Self)
        ensures
            p.spec_section() == 0,
            p.spec_block() == 0,
            p.spec_offset() == 0,
    {
        Position { section: 0, block: 0, offset: 0 }
    }

    /// Referenced section ordinal.
    pub fn section(&self) -> (s: usize)
        ensures
            s == self.spec_section(),
    {
        self.section
    }

    /// Referenced block ordinal within its section.
    pub fn block(&self) -> (b: usize)
        ensures
            b == self.spec_block(),
    {
        self.block
    }

    /// Byte offset from the start of the referenced block.
    pub fn offset(&self) -> (o: usize)
        ensures
            o == self.spec_offset(),
    {
        self.offset
    }

    /// Resolves this position to an absolute byte in the canonical text.
    ///
    /// A position whose block does not exist in `document` resolves to its
    /// bare offset instead of panicking.
    pub fn absolute_byte(&self, document: &Document) -> (byte: usize)
        requires
            absolute_fits(*self, *document),
        ensures
            byte == spec_absolute(*self, *document),
    {
        let sections = document.sections();
        if self.section < sections.len() {
            let blocks = sections[self.section].blocks();
            if self.block < blocks.len() {
                return blocks[self.block].range().start + self.offset;
            }
        }
        self.offset
    }
}

/// Rejection reasons for an out-of-range or misaligned [`Position`].
#[derive(Clone, Copy, Debug, PartialEq, Eq, Structural)]
pub enum PositionError {
    /// The referenced section does not exist in the document.
    Section { section: usize },
    /// The referenced block does not exist in the section.
    Block { section: usize, block: usize },
    /// The byte offset is not inside the referenced block range.
    OffsetOutsideBlock { block: usize, offset: usize },
    /// The byte offset falls inside a multi-byte character.
    NotCharBoundary { offset: usize },
}

impl PositionError {
    /// The reader-facing message for this rejection.
    pub fn message(&self) -> (m: String)
        ensures
            m@ == spec_position_error_message(*self),
    {
        let mut m = String::new();
        match *self {
            PositionError::Section { section } => {
                push_str(&mut m, "section index ");
                push_decimal(&mut m, section as u64);
                push_str(&mut m, " is outside the document");
            },
            PositionError::Block { section, block } => {
                push_str(&mut m, "block index ");
                push_decimal(&mut m, block as u64);
                push_str(&mut m, " is outside section ");
                push_decimal(&mut m, section as u64);
            },
            PositionError::OffsetOutsideBlock { block, offset } => {
                push_str(&mut m, "byte offset ");
                push_decimal(&mut m, offset as u64);
                push_str(&mut m, " is outside block ");
                push_decimal(&mut m, block as u64);
            },
            PositionError::NotCharBoundary { offset } => {
                push_str(&mut m, "byte offset ");
                push_decimal(&mut m, offset as u64);
                push_str(&mut m, " splits a character");
            },
        }
        m
    }
}

/// The text of [`PositionError::message`].
pub open spec fn spec_position_error_message(e: PositionError) -> Seq<char> {
    match e {
        PositionError::Section { section } => "section index "@ + spec_decimal(section as nat)
            + " is outside the document"@,
        PositionError::Block { section, block } => "block index "@ + spec_decimal(block as nat)
            + " is outside section "@ + spec_decimal(section as nat),
        PositionError::OffsetOutsideBlock { block, offset } => "byte offset "@ + spec_decimal(
            offset as nat,
        ) + " is outside block "@ + spec_decimal(block as nat),
        PositionError::NotCharBoundary { offset } => "byte offset "@ + spec_decimal(offset as nat)
            + " splits a character"@,
    }
}

/// One declared navigation entry: a title plus its exact destination.
#[derive(Clone, Debug)]
pub struct NavigationPoint {
    title: String,
    position: Position,
}

impl NavigationPoint {
    pub closed spec fn spec_title(&self) -> Seq<char> {
        self.title@
    }

    pub closed spec fn spec_position(&self) -> Position {
        self.position
    }

    /// Creates a navigation entry.
    pub fn new(title: &str, position: Position) -> (p: Self)
        ensures
            p.spec_title() == title@,
            p.spec_position() == position,
    {
        NavigationPoint { title: title.to_owned(), position }
    }

    /// The displayed entry title.
    pub fn title(&self) -> (t: &str)
        ensures
            t@ == self.spec_title(),
    {
        self.title.as_str()
    }

    /// The entry's destination.
    pub fn position(&self) -> (p: Position)
        ensures
            p == self.spec_position(),
    {
        self.position
    }
}

/// The last `/`-separated component of an identifier.
pub open spec fn id_name(s: Seq<char>) -> Seq<char>
    decreases s.len(),
{
    if s.len() == 0 {
        Seq::empty()
    } else if s.last() == '/' {
        Seq::empty()
    } else {
        id_name(s.drop_last()).push(s.last())
    }
}

/// The index of the last `.` among the first `n` characters, or -1.
pub open spec fn last_dot(s: Seq<char>, n: int) -> int
    decreases n,
{
    if n <= 0 {
        -1
    } else if s[n - 1] == '.' {
        n - 1
    } else {
        last_dot(s, n - 1)
    }
}

/// The stem of an identifier, as for a file path: its last component
/// without the extension after the last dot (a leading dot is kept).
pub open spec fn id_stem(s: Seq<char>) -> Seq<char> {
    let name = id_name(s);
    let dot = last_dot(name, name.len() as int);
    if dot > 0 {
        name.take(dot)
    } else {
        name
    }
}

proof fn lemma_last_dot_bounds(s: Seq<char>, n: int)
    requires
        n <= s.len(),
    ensures
        -1 <= last_dot(s, n) < n || (n <= 0 && last_dot(s, n) == -1),
        last_dot(s, n) >= 0 ==> s[last_dot(s, n)] == '.',
    decreases n,
{
    if n > 0 && s[n - 1] != '.' {
        lemma_last_dot_bounds(s, n - 1);
    }
}

fn stem_of_id(id: &str) -> (stem: String)
    ensures
        stem@ == id_stem(id@),
{
    let mut name: Vec<char> = Vec::new();
    let ghost chars = id@;
    for c in it: id.chars()
        invariant
            it.seq() == chars,
            name@ == id_name(chars.take(it.index() as int)),
    {
        proof {
            let i = it.index() as int;
            assert(chars.take(i + 1).drop_last() =~= chars.take(i));
            assert(chars.take(i + 1).last() == c);
        }
        if c == '/' {
            name = Vec::new();
            assert(name@ =~= Seq::<char>::empty());
        } else {
            name.push(c);
        }
    }
    assert(chars.take(chars.len() as int) =~= chars);
    let mut k: usize = name.len();
    while k > 0 && name[k - 1] != '.'
        invariant
            k <= name@.len(),
            last_dot(name@, name@.len() as int) == last_dot(name@, k as int),
        decreases k,
    {
        k = k - 1;
    }
    let ghost dot = last_dot(name@, name@.len() as int);
    assert(k == 0 ==> dot == -1);
    assert(k > 0 ==> dot == k - 1);
    let end: usize = if k > 1 { k - 1 } else { name.len() };
    let mut stem = String::new();
    let mut j: usize = 0;
    while j < end
        invariant
            end <= name@.len(),
            j <= end,
            stem@ == name@.take(j as int),
        decreases end - j,
    {
        crate::strings::push_char(&mut stem, name[j]);
        j = j + 1;
        assert(stem@ =~= name@.take(j as int));
    }
    assert(name@.take(name@.len() as int) =~= name@);
    stem
}

/// A complete book in canonical logical form.
#[derive(Debug)]
pub struct Document {
    id: DocumentId,
    title: Option<String>,
    canonical: String,
    sections: Vec<Section>,
    inline: Vec<InlineSpan>,
    navigation: Vec<NavigationPoint>,
}

/// Block ranges of a section sequence, flattened in reading order.
pub open spec fn ranges_of(blocks: Seq<Block>) -> Seq<Range<usize>> {
    blocks.map_values(|b: Block| b.spec_range())
}

/// All block ranges of `sections`, section after section.
pub open spec fn flat_ranges(sections: Seq<Section>) -> Seq<Range<usize>>
    decreases sections.len(),
{
    if sections.len() == 0 {
        Seq::empty()
    } else {
        flat_ranges(sections.drop_last()) + ranges_of(sections.last().spec_blocks())
    }
}

/// Where a range chain starting at `start` ends.
pub open spec fn chain_end(ranges: Seq<Range<usize>>, start: int) -> int {
    if ranges.len() == 0 {
        start
    } else {
        ranges.last().end as int
    }
}

/// The start every range of a chain must have.
pub open spec fn expected_start(ranges: Seq<Range<usize>>, start: int, i: int) -> int {
    if i == 0 {
        start
    } else {
        ranges[i - 1].end as int
    }
}

/// Range `i` of a chain from `start`: it begins where its predecessor
/// ended (or at `start`), is ordered, ends inside `bytes`, and both of its
/// ends sit on character boundaries.
pub open spec fn link_ok(ranges: Seq<Range<usize>>, start: int, bytes: Seq<u8>, i: int) -> bool {
    &&& ranges[i].start == expected_start(ranges, start, i)
    &&& ranges[i].start <= ranges[i].end
    &&& ranges[i].end <= bytes.len()
    &&& char_boundary(bytes, ranges[i].start as int)
    &&& char_boundary(bytes, ranges[i].end as int)
}

/// Ranges follow each other without gaps from `start`, stay inside
/// `bytes`, and begin and end on character boundaries.
pub open spec fn chain_from(ranges: Seq<Range<usize>>, start: int, bytes: Seq<u8>) -> bool {
    forall|i: int| 0 <= i < ranges.len() ==> #[trigger] link_ok(ranges, start, bytes, i)
}

/// Whether range `i` is the first that breaks a chain from `start`.
pub open spec fn first_break(ranges: Seq<Range<usize>>, start: int, bytes: Seq<u8>, i: int) -> bool {
    &&& 0 <= i < ranges.len()
    &&& !link_ok(ranges, start, bytes, i)
    &&& forall|k: int| 0 <= k < i ==> #[trigger] link_ok(ranges, start, bytes, k)
}

/// The message describing how block range `i` breaks its chain: a gap or
/// reversed range, an end past the text, or an end inside a character.
pub open spec fn link_message(ranges: Seq<Range<usize>>, start: int, bytes: Seq<u8>, i: int) -> Seq<char> {
    let r = ranges[i];
    let e = expected_start(ranges, start, i);
    if r.start != e || r.end < r.start {
        "block range "@ + spec_decimal(r.start as nat) + ".."@ + spec_decimal(r.end as nat)
            + " does not continue coverage at byte "@ + spec_decimal(e as nat)
    } else if r.end > bytes.len() {
        "block range ends at "@ + spec_decimal(r.end as nat) + " beyond canonical length "@ + spec_decimal(
            bytes.len(),
        )
    } else {
        "block range "@ + spec_decimal(r.start as nat) + ".."@ + spec_decimal(r.end as nat) + " splits a character"@
    }
}

/// Ranges partition `bytes` exactly, in order, on character boundaries.
pub open spec fn tiles(ranges: Seq<Range<usize>>, bytes: Seq<u8>) -> bool {
    chain_from(ranges, 0, bytes) && chain_end(ranges, 0) == bytes.len()
}

/// Span `i` starts no earlier than its predecessor ends, ends inside
/// `bytes`, and both of its ends sit on character boundaries.
pub open spec fn span_ok(spans: Seq<InlineSpan>, bytes: Seq<u8>, i: int) -> bool {
    &&& spans[i].spec_range().start >= (if i == 0 {
        0
    } else {
        spans[i - 1].spec_range().end as int
    })
    &&& spans[i].spec_range().end <= bytes.len()
    &&& char_boundary(bytes, spans[i].spec_range().start as int)
    &&& char_boundary(bytes, spans[i].spec_range().end as int)
}

/// Inline spans are ordered, non-overlapping, in bounds, and on boundaries.
pub open spec fn inline_ok(spans: Seq<InlineSpan>, bytes: Seq<u8>) -> bool {
    forall|i: int| 0 <= i < spans.len() ==> #[trigger] span_ok(spans, bytes, i)
}

/// Whether `(section, block, offset)` names a valid boundary of `doc`.
pub open spec fn position_ok(doc: Document, section: int, block: int, offset: int) -> bool {
    &&& 0 <= section < doc.spec_sections().len()
    &&& 0 <= block < doc.spec_sections()[section].spec_blocks().len()
    &&& 0 <= offset <= doc.spec_sections()[section].spec_blocks()[block].spec_range().end
        - doc.spec_sections()[section].spec_blocks()[block].spec_range().start
    &&& char_boundary(
        doc.spec_bytes(),
        doc.spec_sections()[section].spec_blocks()[block].spec_range().start + offset,
    )
}

/// Validating the parts of a valid position gives that very position back:
/// `document.position(p.section(), p.block(), p.offset())` is `Ok(p)` for
/// every position `p` that `position` returned (its result is stated as
/// `position_result`).
pub proof fn lemma_revalidate_position(doc: Document, p: Position, r: Result<Position, PositionError>)
    requires
        valid_position(p, doc),
        position_result(r, doc, p.spec_section(), p.spec_block(), p.spec_offset()),
    ensures
        r == Ok::<Position, PositionError>(p),
{
    if let Ok(q) = r {
        Position::lemma_parts_determine(p, q);
    }
}

/// Whether a position is a valid boundary of `doc`.
pub open spec fn valid_position(p: Position, doc: Document) -> bool {
    position_ok(doc, p.spec_section() as int, p.spec_block() as int, p.spec_offset() as int)
}

/// The absolute canonical byte a position resolves to in `doc`.
pub open spec fn spec_absolute(p: Position, doc: Document) -> int {
    if p.spec_section() < doc.spec_sections().len() && p.spec_block()
        < doc.spec_sections()[p.spec_section() as int].spec_blocks().len() {
        doc.spec_sections()[p.spec_section() as int].spec_blocks()[p.spec_block() as int].spec_range().start
            + p.spec_offset()
    } else {
        p.spec_offset() as int
    }
}

/// Whether resolving `p` against `doc` stays inside `usize`.
pub open spec fn absolute_fits(p: Position, doc: Document) -> bool {
    spec_absolute(p, doc) <= usize::MAX
}

/// The number of newline bytes in `bytes`.
pub open spec fn count_newlines(bytes: Seq<u8>) -> int
    decreases bytes.len(),
{
    if bytes.len() == 0 {
        0
    } else {
        count_newlines(bytes.drop_last()) + if bytes.last() == 10 {
            1int
        } else {
            0
        }
    }
}

/// The first decoration whose range covers `byte`, in span order.
pub open spec fn first_covering(spans: Seq<InlineSpan>, byte: int) -> Option<InlineKind>
    decreases spans.len(),
{
    if spans.len() == 0 {
        None
    } else if spans[0].spec_range().start <= byte < spans[0].spec_range().end {
        Some(spans[0].spec_kind())
    } else {
        first_covering(spans.drop_first(), byte)
    }
}

/// The default title of the section at zero-based `index`.
pub open spec fn default_section_title(title: Option<Seq<char>>, index: nat) -> Seq<char> {
    match title {
        Some(t) => t,
        None => "Section "@ + spec_decimal(index + 1),
    }
}

/// The position that ends the last non-empty section among `sections`.
pub open spec fn spec_end_of_content(sections: Seq<Section>) -> (int, int, int)
    decreases sections.len(),
{
    if sections.len() == 0 {
        (0, 0, 0)
    } else if sections.last().spec_blocks().len() > 0 {
        let last = sections.last().spec_blocks().last().spec_range();
        (
            sections.len() - 1,
            sections.last().spec_blocks().len() - 1,
            last.end - last.start,
        )
    } else {
        spec_end_of_content(sections.drop_last())
    }
}

/// Where the default navigation entry for section `i` points.
pub open spec fn default_point(sections: Seq<Section>, i: int) -> (int, int, int) {
    if sections[i].spec_blocks().len() > 0 {
        (i, 0, 0)
    } else {
        spec_end_of_content(sections.take(i))
    }
}

/// Every block range of `sections` starts no later than it ends.
pub open spec fn blocks_ordered(sections: Seq<Section>) -> bool {
    forall|s: int, b: int|
        0 <= s < sections.len() && 0 <= b < sections[s].spec_blocks().len() ==>
            (#[trigger] sections[s].spec_blocks()[b]).spec_range().start
                <= sections[s].spec_blocks()[b].spec_range().end
}

/// Where block `b` of section `s` sits in the flattened range sequence.
pub open spec fn flat_index(sections: Seq<Section>, s: int, b: int) -> int {
    flat_ranges(sections.take(s)).len() + b
}

/// Each block's range appears in the flattened sequence at its flat index.
pub proof fn lemma_block_in_flat(sections: Seq<Section>, s: int, b: int)
    requires
        0 <= s < sections.len(),
        0 <= b < sections[s].spec_blocks().len(),
    ensures
        0 <= flat_index(sections, s, b) < flat_ranges(sections).len(),
        flat_ranges(sections)[flat_index(sections, s, b)] == sections[s].spec_blocks()[b].spec_range(),
    decreases sections.len(),
{
    let init = sections.drop_last();
    if s == sections.len() - 1 {
        assert(sections.take(s) =~= init);
    } else {
        lemma_block_in_flat(init, s, b);
        assert(init.take(s) =~= sections.take(s));
    }
}

/// The flattened ranges of a one-section prefix extension.
pub proof fn lemma_flat_take_step(sections: Seq<Section>, i: int)
    requires
        0 <= i < sections.len(),
    ensures
        flat_ranges(sections.take(i + 1)) == flat_ranges(sections.take(i)) + ranges_of(
            sections[i].spec_blocks(),
        ),
{
    assert(sections.take(i + 1).drop_last() =~= sections.take(i));
}

/// Appending a range that starts where a chain ends extends the chain.
pub proof fn lemma_chain_push(ranges: Seq<Range<usize>>, r: Range<usize>, start: int, bytes: Seq<u8>)
    requires
        chain_from(ranges, start, bytes),
        r.start == chain_end(ranges, start),
        r.start <= r.end <= bytes.len(),
        char_boundary(bytes, r.start as int),
        char_boundary(bytes, r.end as int),
    ensures
        chain_from(ranges.push(r), start, bytes),
        chain_end(ranges.push(r), start) == r.end,
{
    let next = ranges.push(r);
    assert forall|k: int| 0 <= k < next.len() implies #[trigger] link_ok(next, start, bytes, k) by {
        if k < ranges.len() {
            assert(link_ok(ranges, start, bytes, k));
            assert(next[k] == ranges[k]);
            if k > 0 {
                assert(next[k - 1] == ranges[k - 1]);
            }
        } else if k > 0 {
            assert(next[k - 1] == ranges[k - 1]);
        }
    }
}

/// The ranges of blocks with one more block appended.
pub proof fn lemma_ranges_push(blocks: Seq<Block>, b: Block)
    ensures
        ranges_of(blocks.push(b)) == ranges_of(blocks).push(b.spec_range()),
{
    assert(ranges_of(blocks.push(b)) =~= ranges_of(blocks).push(b.spec_range()));
}

/// A chain's ranges all start no later than they end.
pub proof fn lemma_tiles_blocks_ordered(sections: Seq<Section>, bytes: Seq<u8>)
    requires
        chain_from(flat_ranges(sections), 0, bytes),
    ensures
        blocks_ordered(sections),
{
    assert forall|s: int, b: int|
        0 <= s < sections.len() && 0 <= b < sections[s].spec_blocks().len() implies
            (#[trigger] sections[s].spec_blocks()[b]).spec_range().start
                <= sections[s].spec_blocks()[b].spec_range().end by {
        lemma_block_in_flat(sections, s, b);
        assert(link_ok(flat_ranges(sections), 0, bytes, flat_index(sections, s, b)));
    }
}

/// The rejection [`Document::position`] gives, or `None` when it accepts.
pub open spec fn position_check(doc: Document, section: usize, block: usize, offset: usize) -> Option<
    PositionError,
> {
    if section >= doc.spec_sections().len() {
        Some(PositionError::Section { section })
    } else if block >= doc.spec_sections()[section as int].spec_blocks().len() {
        Some(PositionError::Block { section, block })
    } else {
        let range = doc.spec_sections()[section as int].spec_blocks()[block as int].spec_range();
        if offset > range.end - range.start {
            Some(PositionError::OffsetOutsideBlock { block, offset })
        } else if !char_boundary(doc.spec_bytes(), range.start + offset) {
            Some(PositionError::NotCharBoundary { offset })
        } else {
            None
        }
    }
}

/// Whether `r` is exactly what validating `(section, block, offset)` gives.
pub open spec fn position_result(
    r: Result<Position, PositionError>,
    doc: Document,
    section: usize,
    block: usize,
    offset: usize,
) -> bool {
    match r {
        Ok(p) => position_check(doc, section, block, offset) is None && p.spec_section() == section
            && p.spec_block() == block && p.spec_offset() == offset,
        Err(e) => position_check(doc, section, block, offset) == Some(e),
    }
}

/// Whether a document still carries the navigation its constructor derives.
pub open spec fn default_navigation_of(d: Document) -> bool {
    &&& d.spec_navigation().len() == d.spec_sections().len()
    &&& forall|i: int|
        0 <= i < d.spec_navigation().len() ==> {
            &&& (#[trigger] d.spec_navigation()[i]).spec_title() == default_section_title(
                d.spec_sections()[i].spec_title(),
                i as nat,
            )
            &&& d.spec_navigation()[i].spec_position().spec_section() == default_point(d.spec_sections(), i).0
            &&& d.spec_navigation()[i].spec_position().spec_block() == default_point(d.spec_sections(), i).1
            &&& d.spec_navigation()[i].spec_position().spec_offset() == default_point(d.spec_sections(), i).2
        }
}

/// Facts every block of a well-formed document satisfies.
pub proof fn lemma_block_facts(doc: Document, s: int, b: int)
    requires
        doc.wf(),
        0 <= s < doc.spec_sections().len(),
        0 <= b < doc.spec_sections()[s].spec_blocks().len(),
    ensures
        ({
            let r = doc.spec_sections()[s].spec_blocks()[b].spec_range();
            &&& r.start <= r.end <= doc.spec_bytes().len()
            &&& char_boundary(doc.spec_bytes(), r.start as int)
            &&& char_boundary(doc.spec_bytes(), r.end as int)
        }),
{
    lemma_block_in_flat(doc.spec_sections(), s, b);
    let i = flat_index(doc.spec_sections(), s, b);
    let all = flat_ranges(doc.spec_sections());
    assert(link_ok(all, 0, doc.spec_bytes(), i));
}

/// Facts every inline decoration of a well-formed document satisfies.
pub proof fn lemma_inline_facts(doc: Document, i: int)
    requires
        doc.wf(),
        0 <= i < doc.spec_inline().len(),
    ensures
        ({
            let r = doc.spec_inline()[i].spec_range();
            &&& r.end <= doc.spec_bytes().len()
            &&& char_boundary(doc.spec_bytes(), r.start as int)
            &&& char_boundary(doc.spec_bytes(), r.end as int)
        }),
{
    assert(span_ok(doc.spec_inline(), doc.spec_bytes(), i));
}

/// Ranges of a chain never move backwards: an earlier range ends no later
/// than a later one starts.
pub proof fn lemma_chain_monotone(ranges: Seq<Range<usize>>, start: int, bytes: Seq<u8>, i: int, j: int)
    requires
        chain_from(ranges, start, bytes),
        0 <= i < j < ranges.len(),
    ensures
        ranges[i].end <= ranges[j].start,
    decreases j - i,
{
    assert(link_ok(ranges, start, bytes, j));
    if i + 1 < j {
        assert(link_ok(ranges, start, bytes, j - 1));
        lemma_chain_monotone(ranges, start, bytes, i, j - 1);
    }
}

impl Document {
    pub closed spec fn spec_id(&self) -> DocumentId {
        self.id
    }

    pub closed spec fn spec_title(&self) -> Option<Seq<char>> {
        match self.title {
            Some(t) => Some(t@),
            None => None,
        }
    }

    pub closed spec fn spec_canonical(&self) -> Seq<char> {
        self.canonical@
    }

    pub closed spec fn spec_sections(&self) -> Seq<Section> {
        self.sections@
    }

    pub closed spec fn spec_inline(&self) -> Seq<InlineSpan> {
        self.inline@
    }

    pub closed spec fn spec_navigation(&self) -> Seq<NavigationPoint> {
        self.navigation@
    }

    /// The canonical text's UTF-8 bytes.
    pub open spec fn spec_bytes(&self) -> Seq<u8> {
        utf8(self.spec_canonical())
    }

    /// The document invariant every constructor establishes.
    pub open spec fn wf(&self) -> bool {
        &&& tiles(flat_ranges(self.spec_sections()), self.spec_bytes())
        &&& inline_ok(self.spec_inline(), self.spec_bytes())
        &&& self.spec_bytes().len() <= usize::MAX
    }

    #[verifier::type_invariant]
    spec fn inv(&self) -> bool {
        self.wf()
    }

    /// Checks that `blocks` continue a tiling of `text` from byte `start`.
    fn check_chain(text: &str, blocks: &[Block], start: usize) -> (r: Result<usize, String>)
        requires
            start <= text.spec_bytes().len(),
        ensures
            r is Ok <==> chain_from(ranges_of(blocks@), start as int, text.spec_bytes()),
            r matches Ok(e) ==> e == chain_end(ranges_of(blocks@), start as int) && e
                <= text.spec_bytes().len(),
            r matches Err(m) ==> exists|i: int|
                first_break(ranges_of(blocks@), start as int, text.spec_bytes(), i) && m@ == link_message(
                    ranges_of(blocks@),
                    start as int,
                    text.spec_bytes(),
                    i,
                ),
    {
        let len = text.as_bytes().len();
        let ghost bytes = text.spec_bytes();
        let ghost all = ranges_of(blocks@);
        let mut expected = start;
        let mut i: usize = 0;
        assert(all.take(0) =~= Seq::<Range<usize>>::empty());
        while i < blocks.len()
            invariant
                i <= blocks@.len(),
                len == bytes.len(),
                bytes == text.spec_bytes(),
                all == ranges_of(blocks@),
                expected <= len,
                chain_from(all.take(i as int), start as int, bytes),
                expected == chain_end(all.take(i as int), start as int),
            decreases blocks@.len() - i,
        {
            let range = blocks[i].range();
            assert(all[i as int] == *range);
            assert(expected_start(all, start as int, i as int) == expected) by {
                if i > 0 {
                    assert(all.take(i as int).last() == all[i - 1]);
                }
            }
            proof {
                assert forall|k: int| 0 <= k < i implies #[trigger] link_ok(all, start as int, bytes, k) by {
                    assert(link_ok(all.take(i as int), start as int, bytes, k));
                    assert(all.take(i as int)[k] == all[k]);
                    if k > 0 {
                        assert(all.take(i as int)[k - 1] == all[k - 1]);
                    }
                }
            }
            if range.start != expected || range.end < range.start {
                assert(!link_ok(all, start as int, bytes, i as int));
                assert(first_break(all, start as int, bytes, i as int));
                return Err(
                    Self::range_message(
                        "block range ",
                        range,
                        " does not continue coverage at byte ",
                        expected,
                    ),
                );
            }
            if range.end > len {
                assert(!link_ok(all, start as int, bytes, i as int));
                assert(first_break(all, start as int, bytes, i as int));
                return Err(Self::bound_message("block range ends at ", range.end, len));
            }
            let start_ok = text.is_char_boundary(range.start);
            let end_ok = text.is_char_boundary(range.end);
            proof {
                reveal(char_boundary);
            }
            if !start_ok || !end_ok {
                assert(!link_ok(all, start as int, bytes, i as int));
                assert(first_break(all, start as int, bytes, i as int));
                return Err(Self::split_message("block range ", range));
            }
            proof {
                let next = all.take(i as int + 1);
                let prev = all.take(i as int);
                assert forall|k: int| 0 <= k < next.len() implies #[trigger] link_ok(
                    next,
                    start as int,
                    bytes,
                    k,
                ) by {
                    if k < i {
                        assert(link_ok(prev, start as int, bytes, k));
                        assert(next[k] == prev[k]);
                        if k > 0 {
                            assert(next[k - 1] == prev[k - 1]);
                        }
                    } else {
                        assert(next[k] == all[i as int]);
                        if k > 0 {
                            assert(next[k - 1] == prev[k - 1]);
                        }
                    }
                }
            }
            expected = range.end;
            i = i + 1;
        }
        assert(all.take(blocks@.len() as int) =~= all);
        Ok(expected)
    }

    /// Appending chains: a chain over `a + b` is a chain over `a`
    /// followed by a chain over `b` from where `a` ended.
    proof fn lemma_chain_concat(a: Seq<Range<usize>>, b: Seq<Range<usize>>, start: int, bytes: Seq<u8>)
        ensures
            chain_from(a + b, start, bytes) <==> (chain_from(a, start, bytes) && chain_from(
                b,
                chain_end(a, start),
                bytes,
            )),
            chain_end(a + b, start) == chain_end(b, chain_end(a, start)),
    {
        let ab = a + b;
        let mid = chain_end(a, start);
        if chain_from(ab, start, bytes) {
            assert forall|k: int| 0 <= k < a.len() implies #[trigger] link_ok(a, start, bytes, k) by {
                assert(link_ok(ab, start, bytes, k));
                assert(ab[k] == a[k]);
                if k > 0 {
                    assert(ab[k - 1] == a[k - 1]);
                }
            }
            assert forall|k: int| 0 <= k < b.len() implies #[trigger] link_ok(b, mid, bytes, k) by {
                assert(link_ok(ab, start, bytes, a.len() + k));
                assert(ab[a.len() + k] == b[k]);
                if k > 0 {
                    assert(ab[a.len() + k - 1] == b[k - 1]);
                } else if a.len() > 0 {
                    assert(ab[a.len() - 1] == a[a.len() - 1]);
                }
            }
        }
        if chain_from(a, start, bytes) && chain_from(b, mid, bytes) {
            assert forall|k: int| 0 <= k < ab.len() implies #[trigger] link_ok(ab, start, bytes, k) by {
                if k < a.len() {
                    assert(link_ok(a, start, bytes, k));
                    assert(ab[k] == a[k]);
                    if k > 0 {
                        assert(ab[k - 1] == a[k - 1]);
                    }
                } else {
                    assert(link_ok(b, mid, bytes, k - a.len()));
                    assert(ab[k] == b[k - a.len()]);
                    if k > a.len() {
                        assert(ab[k - 1] == b[k - a.len() - 1]);
                    } else if a.len() > 0 {
                        assert(ab[k - 1] == a[a.len() - 1]);
                    }
                }
            }
        }
        if b.len() > 0 {
            assert(ab.last() == b.last());
        } else {
            assert(ab =~= a);
        }
    }

    /// "<what>start..end<why>expected", describing a misplaced range.
    fn range_message(what: &str, range: &Range<usize>, why: &str, expected: usize) -> (m: String)
        ensures
            m@ == what@ + spec_decimal(range.start as nat) + ".."@ + spec_decimal(range.end as nat) + why@
                + spec_decimal(expected as nat),
    {
        let mut m = String::new();
        push_str(&mut m, what);
        push_decimal(&mut m, range.start as u64);
        push_str(&mut m, "..");
        push_decimal(&mut m, range.end as u64);
        push_str(&mut m, why);
        push_decimal(&mut m, expected as u64);
        m
    }

    /// "<what>end beyond canonical length len".
    fn bound_message(what: &str, end: usize, len: usize) -> (m: String)
        ensures
            m@ == what@ + spec_decimal(end as nat) + " beyond canonical length "@ + spec_decimal(len as nat),
    {
        let mut m = String::new();
        push_str(&mut m, what);
        push_decimal(&mut m, end as u64);
        push_str(&mut m, " beyond canonical length ");
        push_decimal(&mut m, len as u64);
        m
    }

    /// "<what>start..end splits a character".
    fn split_message(what: &str, range: &Range<usize>) -> (m: String)
        ensures
            m@ == what@ + spec_decimal(range.start as nat) + ".."@ + spec_decimal(range.end as nat)
                + " splits a character"@,
    {
        let mut m = String::new();
        push_str(&mut m, what);
        push_decimal(&mut m, range.start as u64);
        push_str(&mut m, "..");
        push_decimal(&mut m, range.end as u64);
        push_str(&mut m, " splits a character");
        m
    }

    /// The tiling failure message naming the uncovered tail.
    fn coverage_message(expected: usize, len: usize) -> (m: String)
        ensures
            m@ == "blocks cover "@ + spec_decimal(expected as nat) + " of "@ + spec_decimal(len as nat)
                + " canonical bytes"@,
    {
        let mut m = String::new();
        push_str(&mut m, "blocks cover ");
        push_decimal(&mut m, expected as u64);
        push_str(&mut m, " of ");
        push_decimal(&mut m, len as u64);
        push_str(&mut m, " canonical bytes");
        m
    }

    /// Assembles a multi-section document from blocks that cover `canonical`.
    ///
    /// Section block ranges must exactly tile the canonical text in order
    /// across the whole document, on character boundaries; any mismatch is
    /// reported as a descriptive message.
    pub fn from_sections(
        id: DocumentId,
        title: Option<String>,
        canonical: String,
        sections: Vec<Section>,
    ) -> (r: Result<Self, String>)
        ensures
            r is Ok <==> tiles(flat_ranges(sections@), utf8(canonical@)),
            r matches Err(m) ==> {
                ||| exists|k: int, i: int|
                    0 <= k < sections@.len() && chain_from(flat_ranges(sections@.take(k)), 0, utf8(canonical@))
                        && #[trigger] first_break(
                        ranges_of(sections@[k].spec_blocks()),
                        chain_end(flat_ranges(sections@.take(k)), 0),
                        utf8(canonical@),
                        i,
                    ) && m@ == link_message(
                        ranges_of(sections@[k].spec_blocks()),
                        chain_end(flat_ranges(sections@.take(k)), 0),
                        utf8(canonical@),
                        i,
                    )
                ||| chain_from(flat_ranges(sections@), 0, utf8(canonical@)) && m@ == "blocks cover "@ + spec_decimal(
                    chain_end(flat_ranges(sections@), 0) as nat,
                ) + " of "@ + spec_decimal(utf8(canonical@).len()) + " canonical bytes"@
            },
            r matches Ok(d) ==> {
                &&& d.spec_id() == id
                &&& d.spec_title() == match title {
                    Some(t) => Some(t@),
                    None => None::<Seq<char>>,
                }
                &&& d.spec_canonical() == canonical@
                &&& d.spec_sections() == sections@
                &&& d.spec_inline() == Seq::<InlineSpan>::empty()
                &&& default_navigation_of(d)
            },
    {
        let len = canonical.as_str().as_bytes().len();
        let ghost bytes = utf8(canonical@);
        let mut expected: usize = 0;
        let mut k: usize = 0;
        assert(sections@.take(0) =~= Seq::<Section>::empty());
        while k < sections.len()
            invariant
                k <= sections@.len(),
                bytes == utf8(canonical@),
                len == bytes.len(),
                expected <= len,
                chain_from(flat_ranges(sections@.take(k as int)), 0, bytes),
                expected == chain_end(flat_ranges(sections@.take(k as int)), 0),
            decreases sections@.len() - k,
        {
            proof {
                lemma_flat_take_step(sections@, k as int);
                Self::lemma_chain_concat(
                    flat_ranges(sections@.take(k as int)),
                    ranges_of(sections@[k as int].spec_blocks()),
                    0,
                    bytes,
                );
            }
            let blocks = sections[k].blocks();
            match Self::check_chain(canonical.as_str(), blocks, expected) {
                Ok(e) => {
                    expected = e;
                },
                Err(m) => {
                    proof {
                        Self::lemma_chain_prefix_fails(sections@, k as int + 1, bytes);
                    }
                    return Err(m);
                },
            }
            k = k + 1;
        }
        assert(sections@.take(sections@.len() as int) =~= sections@);
        if expected != len {
            return Err(Self::coverage_message(expected, len));
        }
        proof {
            lemma_tiles_blocks_ordered(sections@, bytes);
        }
        let navigation = Self::default_navigation(&sections);
        Ok(Document { id, title, canonical, sections, inline: Vec::new(), navigation })
    }

    /// A chain that fails on a prefix of sections fails on all of them.
    proof fn lemma_chain_prefix_fails(sections: Seq<Section>, k: int, bytes: Seq<u8>)
        requires
            0 <= k <= sections.len(),
            !chain_from(flat_ranges(sections.take(k)), 0, bytes),
        ensures
            !chain_from(flat_ranges(sections), 0, bytes),
        decreases sections.len() - k,
    {
        if k < sections.len() {
            lemma_flat_take_step(sections, k);
            Self::lemma_chain_concat(
                flat_ranges(sections.take(k)),
                ranges_of(sections[k].spec_blocks()),
                0,
                bytes,
            );
            Self::lemma_chain_prefix_fails(sections, k + 1, bytes);
        } else {
            assert(sections.take(k) =~= sections);
        }
    }

    /// Assembles a one-section document from blocks that cover `canonical`.
    pub fn from_single_section(
        id: DocumentId,
        title: Option<String>,
        canonical: String,
        blocks: Vec<Block>,
    ) -> (r: Result<Self, String>)
        ensures
            r is Ok <==> tiles(ranges_of(blocks@), utf8(canonical@)),
            r matches Ok(d) ==> {
                &&& d.spec_id() == id
                &&& d.spec_title() == match title {
                    Some(t) => Some(t@),
                    None => None::<Seq<char>>,
                }
                &&& d.spec_canonical() == canonical@
                &&& d.spec_sections().len() == 1
                &&& d.spec_sections()[0].spec_title() is None
                &&& d.spec_sections()[0].spec_blocks() == blocks@
                &&& d.spec_inline() == Seq::<InlineSpan>::empty()
                &&& default_navigation_of(d)
            },
    {
        let ghost blocks_view = blocks@;
        let section = Section::new(None, blocks);
        let mut sections: Vec<Section> = Vec::new();
        sections.push(section);
        proof {
            assert(sections@.drop_last() =~= Seq::<Section>::empty());
            assert(flat_ranges(Seq::<Section>::empty()) =~= Seq::<Range<usize>>::empty());
            assert(sections@.last().spec_blocks() == blocks_view);
            assert(flat_ranges(sections@) =~= ranges_of(blocks_view));
        }
        Self::from_sections(id, title, canonical, sections)
    }

    /// Attaches validated inline decorations to the document.
    ///
    /// Spans must be sorted by start, lie inside the canonical text on
    /// character boundaries, and never overlap.
    pub fn with_inline(self, inline: Vec<InlineSpan>) -> (r: Result<Self, String>)
        ensures
            r is Ok <==> inline_ok(inline@, self.spec_bytes()),
            r matches Ok(d) ==> {
                &&& d.spec_id() == self.spec_id()
                &&& d.spec_title() == self.spec_title()
                &&& d.spec_canonical() == self.spec_canonical()
                &&& d.spec_sections() == self.spec_sections()
                &&& d.spec_navigation() == self.spec_navigation()
                &&& d.spec_inline() == inline@
            },
    {
        proof {
            use_type_invariant(&self);
        }
        let len = self.canonical.as_str().as_bytes().len();
        let ghost bytes = self.spec_bytes();
        let mut previous_end: usize = 0;
        let mut i: usize = 0;
        while i < inline.len()
            invariant
                i <= inline@.len(),
                len == bytes.len(),
                bytes == self.spec_bytes(),
                previous_end == if i == 0 { 0 } else { inline@[i - 1].spec_range().end as int },
                forall|k: int| 0 <= k < i ==> #[trigger] span_ok(inline@, bytes, k),
            decreases inline@.len() - i,
        {
            let range = inline[i].range();
            if range.start < previous_end {
                assert(!span_ok(inline@, bytes, i as int));
                return Err(
                    Self::range_message(
                        "inline span ",
                        range,
                        " overlaps or is unordered after byte ",
                        previous_end,
                    ),
                );
            }
            if range.end > len {
                assert(!span_ok(inline@, bytes, i as int));
                return Err(Self::bound_message("inline span ends at ", range.end, len));
            }
            let start_ok = self.canonical.as_str().is_char_boundary(range.start);
            let end_ok = self.canonical.as_str().is_char_boundary(range.end);
            proof {
                reveal(char_boundary);
            }
            if !start_ok || !end_ok {
                assert(!span_ok(inline@, bytes, i as int));
                return Err(Self::split_message("inline span ", range));
            }
            assert(span_ok(inline@, bytes, i as int));
            previous_end = range.end;
            i = i + 1;
        }
        let Document { id, title, canonical, sections, navigation, .. } = self;
        Ok(Document { id, title, canonical, sections, inline, navigation })
    }

    /// Replaces the navigation entries with declared ones, in declared order.
    pub fn with_navigation(self, navigation: Vec<NavigationPoint>) -> (d: Self)
        ensures
            d.spec_id() == self.spec_id(),
            d.spec_title() == self.spec_title(),
            d.spec_canonical() == self.spec_canonical(),
            d.spec_sections() == self.spec_sections(),
            d.spec_inline() == self.spec_inline(),
            d.spec_navigation() == navigation@,
    {
        proof {
            use_type_invariant(&self);
        }
        let Document { id, title, canonical, sections, inline, .. } = self;
        Document { id, title, canonical, sections, inline, navigation }
    }

    /// The stable document identity.
    pub fn id(&self) -> (r: &DocumentId)
        ensures
            *r == self.spec_id(),
    {
        &self.id
    }

    /// The display title, falling back to the identifier stem (and to
    /// "Untitled" when the identifier has no stem).
    pub fn title(&self) -> (t: String)
        ensures
            t@ == match self.spec_title() {
                Some(x) => x,
                None => if id_stem(self.spec_id().spec_repr()).len() > 0 {
                    id_stem(self.spec_id().spec_repr())
                } else {
                    "Untitled"@
                },
            },
    {
        match &self.title {
            Some(t) => crate::strings::owned(t.as_str()),
            None => {
                let stem = stem_of_id(self.id.as_str());
                if stem.as_str().is_empty() {
                    crate::strings::owned("Untitled")
                } else {
                    stem
                }
            },
        }
    }

    /// The full canonical logical text.
    pub fn canonical(&self) -> (c: &str)
        ensures
            c@ == self.spec_canonical(),
            c.spec_bytes() == self.spec_bytes(),
            self.wf(),
    {
        proof {
            use_type_invariant(self);
        }
        self.canonical.as_str()
    }

    /// Total canonical byte length; the percentage denominator.
    pub fn len(&self) -> (n: usize)
        ensures
            n == self.spec_bytes().len(),
            self.wf(),
    {
        proof {
            use_type_invariant(self);
        }
        self.canonical.as_str().as_bytes().len()
    }

    /// Whether the document carries no content at all.
    pub fn is_empty(&self) -> (e: bool)
        ensures
            e == (self.spec_bytes().len() == 0),
    {
        self.canonical.as_str().as_bytes().len() == 0
    }

    /// All sections in order.
    pub fn sections(&self) -> (s: &[Section])
        ensures
            s@ == self.spec_sections(),
            self.wf(),
    {
        proof {
            use_type_invariant(self);
        }
        self.sections.as_slice()
    }

    /// All inline decorations, sorted and non-overlapping.
    pub fn inline_spans(&self) -> (s: &[InlineSpan])
        ensures
            s@ == self.spec_inline(),
            self.wf(),
    {
        proof {
            use_type_invariant(self);
        }
        self.inline.as_slice()
    }

    /// The declared navigation entries in declared order.
    pub fn navigation_points(&self) -> (n: &[NavigationPoint])
        ensures
            n@ == self.spec_navigation(),
    {
        self.navigation.as_slice()
    }

    /// The decoration covering `byte`, if any.
    pub fn inline_kind_at(&self, byte: usize) -> (k: Option<InlineKind>)
        ensures
            k == first_covering(self.spec_inline(), byte as int),
    {
        let spans = self.inline.as_slice();
        let mut i: usize = 0;
        assert(spans@.skip(0) =~= spans@);
        while i < spans.len()
            invariant
                i <= spans@.len(),
                spans@ == self.spec_inline(),
                first_covering(spans@, byte as int) == first_covering(spans@.skip(i as int), byte as int),
            decreases spans@.len() - i,
        {
            let r = spans[i].range();
            assert(spans@.skip(i as int)[0] == spans@[i as int]);
            assert(spans@.skip(i as int).drop_first() =~= spans@.skip(i as int + 1));
            if r.start <= byte && byte < r.end {
                return Some(spans[i].kind());
            }
            i = i + 1;
        }
        None
    }

    /// The text of one block, borrowed from the canonical text.
    pub fn block_text(&self, section: usize, block: usize) -> (t: Option<&str>)
        ensures
            t is Some <==> (section < self.spec_sections().len() && block
                < self.spec_sections()[section as int].spec_blocks().len()),
            t matches Some(x) ==> x.spec_bytes() == self.spec_bytes().subrange(
                self.spec_sections()[section as int].spec_blocks()[block as int].spec_range().start as int,
                self.spec_sections()[section as int].spec_blocks()[block as int].spec_range().end as int,
            ),
    {
        proof {
            use_type_invariant(self);
        }
        if section >= self.sections.len() {
            return None;
        }
        let blocks = self.sections[section].blocks();
        if block >= blocks.len() {
            return None;
        }
        let range = blocks[block].range();
        proof {
            lemma_block_facts(*self, section as int, block as int);
            reveal(char_boundary);
        }
        str_range(self.canonical.as_str(), range.start, range.end)
    }

    /// Validates and constructs a reading position.
    ///
    /// `offset` counts bytes from the start of the referenced block and may
    /// equal the block length so positions can sit on every valid boundary.
    pub fn position(&self, section: usize, block: usize, offset: usize) -> (r: Result<
        Position,
        PositionError,
    >)
        ensures
            position_result(r, *self, section, block, offset),
            r matches Ok(p) ==> valid_position(p, *self) && spec_absolute(p, *self) <= self.spec_bytes().len(),
    {
        proof {
            use_type_invariant(self);
        }
        if section >= self.sections.len() {
            return Err(PositionError::Section { section });
        }
        let blocks = self.sections[section].blocks();
        if block >= blocks.len() {
            return Err(PositionError::Block { section, block });
        }
        let range = blocks[block].range();
        proof {
            lemma_block_facts(*self, section as int, block as int);
        }
        if offset > range.end - range.start {
            return Err(PositionError::OffsetOutsideBlock { block, offset });
        }
        let absolute = range.start + offset;
        let on_boundary = self.canonical.as_str().is_char_boundary(absolute);
        proof {
            reveal(char_boundary);
        }
        if !on_boundary {
            return Err(PositionError::NotCharBoundary { offset });
        }
        Ok(Position { section, block, offset })
    }

    /// Convenience anchor at the very start of the document.
    pub fn first_position(&self) -> (r: Result<Position, PositionError>)
        ensures
            position_result(r, *self, 0, 0, 0),
            r matches Ok(p) ==> valid_position(p, *self) && spec_absolute(p, *self) == 0,
    {
        proof {
            use_type_invariant(self);
            if self.spec_sections().len() > 0 && self.spec_sections()[0].spec_blocks().len() > 0 {
                lemma_block_facts(*self, 0, 0);
                lemma_block_in_flat(self.spec_sections(), 0, 0);
                assert(self.spec_sections().take(0) =~= Seq::<Section>::empty());
                assert(flat_ranges(Seq::<Section>::empty()) =~= Seq::<Range<usize>>::empty());
                let all = flat_ranges(self.spec_sections());
                assert(link_ok(all, 0, self.spec_bytes(), 0));
            }
        }
        self.position(0, 0, 0)
    }

    /// One-based logical line number containing `absolute_byte`.
    ///
    /// Lines are counted over the canonical bytes, so the number is identical
    /// at every width; offsets past the end clamp instead of panicking.
    pub fn logical_line_number(&self, absolute_byte: usize) -> (line: usize)
        requires
            self.spec_bytes().len() < usize::MAX,
        ensures
            line == 1 + count_newlines(self.spec_bytes().take(
                if absolute_byte <= self.spec_bytes().len() {
                    absolute_byte as int
                } else {
                    self.spec_bytes().len() as int
                },
            )),
    {
        let bytes = self.canonical.as_str().as_bytes();
        let clamped = if absolute_byte < bytes.len() { absolute_byte } else { bytes.len() };
        let mut lines: usize = 1;
        let mut i: usize = 0;
        assert(bytes@.take(0) =~= Seq::<u8>::empty());
        while i < clamped
            invariant
                i <= clamped <= bytes@.len(),
                bytes@.len() < usize::MAX,
                bytes@ == self.spec_bytes(),
                lines == 1 + count_newlines(bytes@.take(i as int)),
                count_newlines(bytes@.take(i as int)) <= i,
            decreases clamped - i,
        {
            assert(bytes@.take(i as int + 1).drop_last() =~= bytes@.take(i as int));
            if bytes[i] == 10u8 {
                lines = lines + 1;
            }
            i = i + 1;
        }
        lines
    }

    /// Builds the default navigation: one entry per section.
    fn default_navigation(sections: &Vec<Section>) -> (nav: Vec<NavigationPoint>)
        requires
            blocks_ordered(sections@),
        ensures
            nav@.len() == sections@.len(),
            forall|i: int|
                0 <= i < nav@.len() ==> {
                    &&& (#[trigger] nav@[i]).spec_title() == default_section_title(
                        sections@[i].spec_title(),
                        i as nat,
                    )
                    &&& nav@[i].spec_position().spec_section() == default_point(sections@, i).0
                    &&& nav@[i].spec_position().spec_block() == default_point(sections@, i).1
                    &&& nav@[i].spec_position().spec_offset() == default_point(sections@, i).2
                },
    {
        let mut nav: Vec<NavigationPoint> = Vec::new();
        let mut last = Position { section: 0, block: 0, offset: 0 };
        let mut i: usize = 0;
        assert(sections@.take(0) =~= Seq::<Section>::empty());
        while i < sections.len()
            invariant
                i <= sections@.len(),
                blocks_ordered(sections@),
                nav@.len() == i,
                last.section == spec_end_of_content(sections@.take(i as int)).0,
                last.block == spec_end_of_content(sections@.take(i as int)).1,
                last.offset == spec_end_of_content(sections@.take(i as int)).2,
                forall|k: int|
                    0 <= k < i ==> {
                        &&& (#[trigger] nav@[k]).spec_title() == default_section_title(
                            sections@[k].spec_title(),
                            k as nat,
                        )
                        &&& nav@[k].spec_position().spec_section() == default_point(sections@, k).0
                        &&& nav@[k].spec_position().spec_block() == default_point(sections@, k).1
                        &&& nav@[k].spec_position().spec_offset() == default_point(sections@, k).2
                    },
            decreases sections@.len() - i,
        {
            let section = &sections[i];
            let mut title = String::new();
            match &section.title {
                Some(t) => push_str(&mut title, t.as_str()),
                None => {
                    push_str(&mut title, "Section ");
                    push_decimal(&mut title, (i as u64) + 1);
                },
            }
            assert(title@ =~= default_section_title(sections@[i as int].spec_title(), i as nat));
            let n = section.blocks.len();
            let position = if n > 0 {
                Position { section: i, block: 0, offset: 0 }
            } else {
                last
            };
            proof {
                assert(sections@.take(i as int + 1).drop_last() =~= sections@.take(i as int));
            }
            if n > 0 {
                let r = &section.blocks[n - 1].range;
                proof {
                    assert(sections@[i as int].spec_blocks()[n - 1].spec_range() == *r);
                }
                last = Position { section: i, block: n - 1, offset: r.end - r.start };
            }
            nav.push(NavigationPoint { title, position });
            i = i + 1;
        }
        nav
    }
}

} // verus!
