//! Tolerant XHTML-to-block conversion for EPUB chapters. Chapters parse
//! through the HTML5 tree builder, whose tree arrives here as its
//! pre-order walk of openings and closings; only reading structure
//! survives: headings, paragraphs, lists, quotes, code, separators, tables
//! and decorated inline runs. Scripts, styles and everything the terminal
//! cannot show are dropped rather than executed or rendered.
use vstd::prelude::*;
use vstd::utf8::*;

use std::ops::Range;

use crate::model::{BlockKind, InlineKind};
use crate::strings::{push_char, push_decimal, push_str, spec_decimal};
use crate::terminal_image::{is_white, white};

verus! {

/// One converted logical block with its display text.
#[derive(Debug, PartialEq, Eq)]
pub struct SemanticBlock {
    /// Semantic role for the shared document model.
    pub kind: BlockKind,
    /// Visible text after entity decoding and whitespace collapsing.
    pub text: String,
    /// Inline decorations as byte ranges within `text`.
    pub inline: Vec<SemanticInline>,
    /// Row-major cell ranges within `text`; non-empty only for tables.
    pub cells: Vec<Range<usize>>,
}

/// One inline semantic role over a block-local byte range.
#[derive(Debug, PartialEq, Eq)]
pub struct SemanticInline {
    /// Byte range within the owning block's text.
    pub range: Range<usize>,
    /// The role the terminal may render with attributes or color.
    pub kind: InlineKind,
}

impl Clone for SemanticInline {
    fn clone(&self) -> (c: Self)
        ensures
            c == *self,
    {
        SemanticInline { range: Range { start: self.range.start, end: self.range.end }, kind: self.kind }
    }
}

impl Clone for SemanticBlock {
    fn clone(&self) -> (c: Self)
        ensures
            block_view(c) == block_view(*self),
    {
        let mut inline: Vec<SemanticInline> = Vec::new();
        let mut i: usize = 0;
        while i < self.inline.len()
            invariant
                i <= self.inline@.len(),
                inline@ == self.inline@.take(i as int),
            decreases self.inline.len() - i,
        {
            inline.push(self.inline[i].clone());
            i = i + 1;
            assert(inline@ =~= self.inline@.take(i as int));
        }
        let mut cells: Vec<Range<usize>> = Vec::new();
        let mut j: usize = 0;
        while j < self.cells.len()
            invariant
                j <= self.cells@.len(),
                cells@ == self.cells@.take(j as int),
            decreases self.cells.len() - j,
        {
            cells.push(Range { start: self.cells[j].start, end: self.cells[j].end });
            j = j + 1;
            assert(cells@ =~= self.cells@.take(j as int));
        }
        assert(self.inline@.take(i as int) =~= self.inline@);
        assert(self.cells@.take(j as int) =~= self.cells@);
        SemanticBlock { kind: self.kind, text: crate::strings::owned(self.text.as_str()), inline, cells }
    }
}

/// An inline run as plain values: start, end and role.
pub open spec fn run_view(r: SemanticInline) -> (int, int, InlineKind) {
    (r.range.start as int, r.range.end as int, r.kind)
}

/// A block as plain values.
pub struct BlockView {
    pub kind: BlockKind,
    pub text: Seq<char>,
    pub inline: Seq<(int, int, InlineKind)>,
    pub cells: Seq<(int, int)>,
}

/// A block as plain values.
pub open spec fn block_view(b: SemanticBlock) -> BlockView {
    BlockView {
        kind: b.kind,
        text: b.text@,
        inline: b.inline@.map_values(|r: SemanticInline| run_view(r)),
        cells: b.cells@.map_values(|r: Range<usize>| (r.start as int, r.end as int)),
    }
}

/// Blocks as plain values.
pub open spec fn block_views(bs: Seq<SemanticBlock>) -> Seq<BlockView> {
    bs.map_values(|b: SemanticBlock| block_view(b))
}

/// Structural rejection when a chapter exceeds the markup budget.
#[derive(Clone, Copy, Debug, PartialEq, Eq, Structural)]
pub enum XhtmlBoundsError {
    /// The source carries more markup openings than the node budget.
    TooManyNodes { nodes: usize, limit: usize },
}

/// The text of each rejection.
pub open spec fn xhtml_error_text(e: XhtmlBoundsError) -> Seq<char> {
    match e {
        XhtmlBoundsError::TooManyNodes { nodes, limit } => "chapter declares about "@ + spec_decimal(nodes as nat)
            + " markup nodes beyond the "@ + spec_decimal(limit as nat)
            + " node limit; the chapter may be corrupt or hostile"@,
    }
}

impl XhtmlBoundsError {
    /// The text of this rejection.
    pub fn message(&self) -> (m: String)
        ensures
            m@ == xhtml_error_text(*self),
    {
        let mut m = String::new();
        match *self {
            XhtmlBoundsError::TooManyNodes { nodes, limit } => {
                push_str(&mut m, "chapter declares about ");
                push_decimal(&mut m, nodes as u64);
                push_str(&mut m, " markup nodes beyond the ");
                push_decimal(&mut m, limit as u64);
                push_str(&mut m, " node limit; the chapter may be corrupt or hostile");
            },
        }
        m
    }
}

/// Recursion guard: nesting deeper than this contributes nothing.
pub const MAX_XHTML_DEPTH: usize = 128;

/// Markup-node budget (inclusive).
pub const MAX_XHTML_NODES: usize = 1_000_000;

// ---------------------------------------------------------------------------
// The parsed tree as a pre-order walk
// ---------------------------------------------------------------------------

/// One node of the parsed tree, reduced to what conversion reads.
#[derive(Clone, Debug, PartialEq, Eq)]
pub enum HtmlNode {
    /// An element by its local name.
    Element(String),
    /// Decoded character data.
    Text(String),
    /// The document root, comments, doctypes and processing instructions.
    Other,
}

/// One step of the pre-order walk: a node opens, or the last open node
/// closes.
#[derive(Clone, Debug, PartialEq, Eq)]
pub enum HtmlEvent {
    Open(HtmlNode),
    Close,
}

/// The pre-order walk of openings and closings that `scraper`'s HTML5
/// tree builder (`Html::parse_document`) yields for the source, through
/// `ego_tree`'s `traverse`.
pub uninterp spec fn html_tree_events(source: Seq<char>) -> Seq<HtmlEvent>;

/// `scraper::Html::parse_document`, then the root's `traverse()`, each
/// node reduced to its element name, its text, or nothing. Claimed: the
/// walk depends on the source alone.
#[verifier::external_body]
fn parse_events(source: &str) -> (r: Vec<HtmlEvent>)
    ensures
        r@ == html_tree_events(source@),
{
    let document = scraper::Html::parse_document(source);
    document.tree.root().traverse().map(|edge| match edge {
        ego_tree::iter::Edge::Open(node) => HtmlEvent::Open(match node.value() {
            scraper::Node::Element(element) => HtmlNode::Element(element.name().to_owned()),
            scraper::Node::Text(text) => HtmlNode::Text(text.to_string()),
            _ => HtmlNode::Other,
        }),
        ego_tree::iter::Edge::Close(_) => HtmlEvent::Close,
    }).collect()
}

/// The index after the closing that matches an opening `depth` levels up,
/// scanning from `j`, or the end of the walk.
pub open spec fn scan_close(ev: Seq<HtmlEvent>, j: int, depth: nat) -> int
    decreases ev.len() - j,
{
    if j < 0 || j >= ev.len() {
        ev.len() as int
    } else {
        match ev[j] {
            HtmlEvent::Open(_) => scan_close(ev, j + 1, depth + 1),
            HtmlEvent::Close => if depth == 0 {
                j + 1
            } else {
                scan_close(ev, j + 1, (depth - 1) as nat)
            },
        }
    }
}

/// The index just past the subtree that opens at `i`.
pub open spec fn span_end(ev: Seq<HtmlEvent>, i: int) -> int {
    if 0 <= i < ev.len() && ev[i] is Open {
        scan_close(ev, i + 1, 0)
    } else {
        i + 1
    }
}

pub proof fn lemma_scan_close_bounds(ev: Seq<HtmlEvent>, j: int, depth: nat)
    requires
        0 <= j <= ev.len(),
    ensures
        j <= scan_close(ev, j, depth) <= ev.len(),
        j < ev.len() ==> j < scan_close(ev, j, depth),
    decreases ev.len() - j,
{
    if j < ev.len() {
        match ev[j] {
            HtmlEvent::Open(_) => lemma_scan_close_bounds(ev, j + 1, depth + 1),
            HtmlEvent::Close => if depth > 0 {
                lemma_scan_close_bounds(ev, j + 1, (depth - 1) as nat);
            },
        }
    }
}

pub proof fn lemma_span_end_bounds(ev: Seq<HtmlEvent>, i: int)
    requires
        0 <= i,
    ensures
        i < span_end(ev, i),
        i < ev.len() ==> span_end(ev, i) <= ev.len(),
{
    if 0 <= i < ev.len() && ev[i] is Open {
        lemma_scan_close_bounds(ev, i + 1, 0);
    }
}

fn span_end_at(ev: &Vec<HtmlEvent>, i: usize) -> (r: usize)
    requires
        i < ev@.len(),
    ensures
        r == span_end(ev@, i as int),
{
    let n = ev.len();
    match &ev[i] {
        HtmlEvent::Open(_) => {
            let mut j = i + 1;
            let mut depth: usize = 0;
            while j < n
                invariant
                    n == ev@.len(),
                    i < j <= ev@.len(),
                    depth <= j,
                    span_end(ev@, i as int) == scan_close(ev@, j as int, depth as nat),
                decreases ev.len() - j,
            {
                match &ev[j] {
                    HtmlEvent::Open(_) => {
                        depth = depth + 1;
                    },
                    HtmlEvent::Close => {
                        if depth == 0 {
                            return j + 1;
                        }
                        depth = depth - 1;
                    },
                }
                j = j + 1;
            }
            n
        },
        HtmlEvent::Close => i + 1,
    }
}

/// The element name of the node opening at `i`, if it is an element.
pub open spec fn element_at(ev: Seq<HtmlEvent>, i: int) -> Option<Seq<char>> {
    if 0 <= i < ev.len() {
        match ev[i] {
            HtmlEvent::Open(HtmlNode::Element(name)) => Some(name@),
            _ => None,
        }
    } else {
        None
    }
}

/// Whether a child opens at `c` (rather than the parent closing).
pub open spec fn child_at(ev: Seq<HtmlEvent>, c: int) -> bool {
    0 <= c < ev.len() && ev[c] is Open
}

/// The element names conversion tells apart.
#[derive(Clone, Copy, Debug, PartialEq, Eq, Structural)]
pub enum Tag {
    Script,
    Style,
    Head,
    Template,
    Heading(u8),
    Paragraph,
    Unordered,
    Ordered,
    Item,
    Quote,
    Pre,
    Rule,
    Table,
    Row,
    DataCell,
    HeaderCell,
    Break,
    Inline(InlineKind),
    Other,
}

/// What an element name means to conversion.
pub open spec fn spec_tag(name: Seq<char>) -> Tag {
    if name == "script"@ {
        Tag::Script
    } else if name == "style"@ {
        Tag::Style
    } else if name == "head"@ {
        Tag::Head
    } else if name == "template"@ {
        Tag::Template
    } else if name == "h1"@ {
        Tag::Heading(1)
    } else if name == "h2"@ {
        Tag::Heading(2)
    } else if name == "h3"@ {
        Tag::Heading(3)
    } else if name == "h4"@ {
        Tag::Heading(4)
    } else if name == "h5"@ {
        Tag::Heading(5)
    } else if name == "h6"@ {
        Tag::Heading(6)
    } else if name == "p"@ {
        Tag::Paragraph
    } else if name == "ul"@ {
        Tag::Unordered
    } else if name == "ol"@ {
        Tag::Ordered
    } else if name == "li"@ {
        Tag::Item
    } else if name == "blockquote"@ {
        Tag::Quote
    } else if name == "pre"@ {
        Tag::Pre
    } else if name == "hr"@ {
        Tag::Rule
    } else if name == "table"@ {
        Tag::Table
    } else if name == "tr"@ {
        Tag::Row
    } else if name == "td"@ {
        Tag::DataCell
    } else if name == "th"@ {
        Tag::HeaderCell
    } else if name == "br"@ {
        Tag::Break
    } else if name == "em"@ || name == "i"@ || name == "cite"@ || name == "dfn"@ || name == "var"@ {
        Tag::Inline(InlineKind::Emphasis)
    } else if name == "strong"@ || name == "b"@ {
        Tag::Inline(InlineKind::Strong)
    } else if name == "code"@ || name == "kbd"@ || name == "samp"@ || name == "tt"@ {
        Tag::Inline(InlineKind::Code)
    } else if name == "a"@ {
        Tag::Inline(InlineKind::Link)
    } else {
        Tag::Other
    }
}

fn named(name: &String, literal: &str) -> (b: bool)
    ensures
        b == (name@ == literal@),
{
    let l = crate::strings::owned(literal);
    *name == l
}

/// What an element name means to conversion.
pub fn tag_of(name: &String) -> (t: Tag)
    ensures
        t == spec_tag(name@),
{
    if named(name, "script") {
        Tag::Script
    } else if named(name, "style") {
        Tag::Style
    } else if named(name, "head") {
        Tag::Head
    } else if named(name, "template") {
        Tag::Template
    } else if named(name, "h1") {
        Tag::Heading(1)
    } else if named(name, "h2") {
        Tag::Heading(2)
    } else if named(name, "h3") {
        Tag::Heading(3)
    } else if named(name, "h4") {
        Tag::Heading(4)
    } else if named(name, "h5") {
        Tag::Heading(5)
    } else if named(name, "h6") {
        Tag::Heading(6)
    } else if named(name, "p") {
        Tag::Paragraph
    } else if named(name, "ul") {
        Tag::Unordered
    } else if named(name, "ol") {
        Tag::Ordered
    } else if named(name, "li") {
        Tag::Item
    } else if named(name, "blockquote") {
        Tag::Quote
    } else if named(name, "pre") {
        Tag::Pre
    } else if named(name, "hr") {
        Tag::Rule
    } else if named(name, "table") {
        Tag::Table
    } else if named(name, "tr") {
        Tag::Row
    } else if named(name, "td") {
        Tag::DataCell
    } else if named(name, "th") {
        Tag::HeaderCell
    } else if named(name, "br") {
        Tag::Break
    } else if named(name, "em") || named(name, "i") || named(name, "cite") || named(name, "dfn")
        || named(name, "var") {
        Tag::Inline(InlineKind::Emphasis)
    } else if named(name, "strong") || named(name, "b") {
        Tag::Inline(InlineKind::Strong)
    } else if named(name, "code") || named(name, "kbd") || named(name, "samp") || named(name, "tt") {
        Tag::Inline(InlineKind::Code)
    } else if named(name, "a") {
        Tag::Inline(InlineKind::Link)
    } else {
        Tag::Other
    }
}

/// Whether the node opening at `i` is an element with this meaning.
pub open spec fn tag_at(ev: Seq<HtmlEvent>, i: int) -> Option<Tag> {
    match element_at(ev, i) {
        Some(name) => Some(spec_tag(name)),
        None => None,
    }
}

fn opens(ev: &Vec<HtmlEvent>, c: usize) -> (b: bool)
    requires
        c < ev@.len(),
    ensures
        b == (ev@[c as int] is Open),
{
    match &ev[c] {
        HtmlEvent::Open(_) => true,
        HtmlEvent::Close => false,
    }
}

// ---------------------------------------------------------------------------
// Collapsed inline text
// ---------------------------------------------------------------------------

/// The UTF-8 width of a character.
pub open spec fn utf8_width(c: char) -> nat {
    if (c as u32) < 0x80 {
        1
    } else if (c as u32) < 0x800 {
        2
    } else if (c as u32) < 0x10000 {
        3
    } else {
        4
    }
}

fn width_of(c: char) -> (w: usize)
    ensures
        w == utf8_width(c),
{
    let v = c as u32;
    if v < 0x80 {
        1
    } else if v < 0x800 {
        2
    } else if v < 0x10000 {
        3
    } else {
        4
    }
}

/// Collapsed inline text under construction: the joined text of finished
/// line segments with one role per byte, the open segment, and a pending
/// collapsed space with the role that was active when it appeared.
pub struct Builder {
    pub text: Seq<char>,
    pub kinds: Seq<Option<InlineKind>>,
    pub segment: Seq<char>,
    pub segment_kinds: Seq<Option<InlineKind>>,
    pub pending_space: bool,
    pub pending_kind: Option<InlineKind>,
}

/// A builder with nothing collected.
pub open spec fn empty_builder() -> Builder {
    Builder {
        text: Seq::empty(),
        kinds: Seq::empty(),
        segment: Seq::empty(),
        segment_kinds: Seq::empty(),
        pending_space: false,
        pending_kind: None,
    }
}

/// Non-empty segments join the text after a newline of no role; empty
/// ones vanish.
pub open spec fn flush_segment(b: Builder) -> (Seq<char>, Seq<Option<InlineKind>>) {
    if b.segment.len() == 0 {
        (b.text, b.kinds)
    } else if b.text.len() == 0 {
        (b.segment, b.kinds + b.segment_kinds)
    } else {
        (b.text.push('\n') + b.segment, b.kinds.push(None) + b.segment_kinds)
    }
}

/// A line break ends the open segment and forgets any pending space.
pub open spec fn break_line(b: Builder) -> Builder {
    let (text, kinds) = flush_segment(b);
    Builder {
        text,
        kinds,
        segment: Seq::empty(),
        segment_kinds: Seq::empty(),
        pending_space: false,
        pending_kind: None,
    }
}

/// One character: white space only marks a pending space; anything else
/// is preceded by that space (inside a segment) and carries its role on
/// each of its bytes.
pub open spec fn push_inline(b: Builder, c: char, kind: Option<InlineKind>) -> Builder {
    if is_white(c) {
        Builder { pending_space: true, pending_kind: kind, ..b }
    } else {
        let spaced = b.pending_space && b.segment.len() > 0;
        let segment = if spaced { b.segment.push(' ') } else { b.segment };
        let segment_kinds = if spaced { b.segment_kinds.push(b.pending_kind) } else { b.segment_kinds };
        Builder {
            segment: segment.push(c),
            segment_kinds: segment_kinds + Seq::new(utf8_width(c), |k: int| kind),
            pending_space: false,
            ..b
        }
    }
}

/// Every character of a text in turn.
pub open spec fn push_text(b: Builder, s: Seq<char>, kind: Option<InlineKind>) -> Builder
    decreases s.len(),
{
    if s.len() == 0 {
        b
    } else {
        push_inline(push_text(b, s.drop_last(), kind), s.last(), kind)
    }
}

/// The collapsed text and its per-byte roles.
pub open spec fn finish(b: Builder) -> (Seq<char>, Seq<Option<InlineKind>>) {
    flush_segment(b)
}

/// The executable builder.
struct InlineBuilder {
    text: String,
    kinds: Vec<Option<InlineKind>>,
    segment: String,
    segment_kinds: Vec<Option<InlineKind>>,
    pending_space: bool,
    pending_kind: Option<InlineKind>,
}

impl InlineBuilder {
    spec fn view(&self) -> Builder {
        Builder {
            text: self.text@,
            kinds: self.kinds@,
            segment: self.segment@,
            segment_kinds: self.segment_kinds@,
            pending_space: self.pending_space,
            pending_kind: self.pending_kind,
        }
    }

    fn new() -> (b: InlineBuilder)
        ensures
            b.view() == empty_builder(),
    {
        InlineBuilder {
            text: String::new(),
            kinds: Vec::new(),
            segment: String::new(),
            segment_kinds: Vec::new(),
            pending_space: false,
            pending_kind: None,
        }
    }

    fn flush(&mut self)
        ensures
            (final(self).text@, final(self).kinds@) == flush_segment(old(self).view()),
            final(self).segment@ == old(self).segment@,
            final(self).segment_kinds@ == old(self).segment_kinds@,
            final(self).pending_space == old(self).pending_space,
            final(self).pending_kind == old(self).pending_kind,
    {
        let ghost b = self.view();
        if self.segment.as_str().is_empty() {
            return;
        }
        let mut kinds: Vec<Option<InlineKind>> = Vec::new();
        std::mem::swap(&mut kinds, &mut self.kinds);
        if !self.text.as_str().is_empty() {
            push_char(&mut self.text, '\n');
            kinds.push(None);
            assert(self.text@ == b.text.push('\n'));
            assert(kinds@ == b.kinds.push(None));
        } else {
            assert(b.text.len() == 0);
            assert(self.text@ =~= Seq::<char>::empty());
        }
        push_str(&mut self.text, self.segment.as_str());
        let mut k: usize = 0;
        let ghost before = kinds@;
        while k < self.segment_kinds.len()
            invariant
                k <= self.segment_kinds@.len(),
                kinds@ == before + self.segment_kinds@.take(k as int),
            decreases self.segment_kinds.len() - k,
        {
            let v = self.segment_kinds[k];
            kinds.push(v);
            k = k + 1;
            assert(kinds@ =~= before + self.segment_kinds@.take(k as int));
        }
        assert(self.segment_kinds@.take(k as int) =~= self.segment_kinds@);
        self.kinds = kinds;
        proof {
            if b.text.len() == 0 {
                assert(self.text@ =~= b.segment);
            }
        }
    }

    fn break_line(&mut self)
        ensures
            final(self).view() == break_line(old(self).view()),
    {
        self.flush();
        self.segment = String::new();
        self.segment_kinds = Vec::new();
        self.pending_space = false;
        self.pending_kind = None;
    }

    fn push_char(&mut self, c: char, kind: Option<InlineKind>)
        ensures
            final(self).view() == push_inline(old(self).view(), c, kind),
    {
        if white(c) {
            self.pending_space = true;
            self.pending_kind = kind;
            return;
        }
        if self.pending_space && !self.segment.as_str().is_empty() {
            push_char(&mut self.segment, ' ');
            let pk = self.pending_kind;
            self.segment_kinds.push(pk);
        }
        self.pending_space = false;
        push_char(&mut self.segment, c);
        let w = width_of(c);
        let mut added: Vec<Option<InlineKind>> = Vec::new();
        let mut k: usize = 0;
        while k < w
            invariant
                k <= w,
                added@ == Seq::new(k as nat, |j: int| kind),
            decreases w - k,
        {
            added.push(kind);
            k = k + 1;
            assert(added@ =~= Seq::new(k as nat, |j: int| kind));
        }
        let mut j: usize = 0;
        let ghost before = self.segment_kinds@;
        let mut segment_kinds: Vec<Option<InlineKind>> = Vec::new();
        std::mem::swap(&mut segment_kinds, &mut self.segment_kinds);
        while j < added.len()
            invariant
                j <= added@.len(),
                segment_kinds@ == before + added@.take(j as int),
            decreases added.len() - j,
        {
            segment_kinds.push(added[j]);
            j = j + 1;
            assert(segment_kinds@ =~= before + added@.take(j as int));
        }
        assert(added@.take(j as int) =~= added@);
        self.segment_kinds = segment_kinds;
    }

    fn push_str_of(&mut self, s: &str, kind: Option<InlineKind>)
        ensures
            final(self).view() == push_text(old(self).view(), s@, kind),
    {
        let ghost start = self.view();
        for ch in it: s.chars()
            invariant
                it.seq() == s@,
                self.view() == push_text(start, s@.take(it.index() as int), kind),
        {
            proof {
                let i = it.index() as int;
                assert(s@.take(i + 1).drop_last() =~= s@.take(i));
            }
            self.push_char(ch, kind);
        }
        assert(s@.take(s@.len() as int) =~= s@);
    }

    fn finish(self) -> (r: (String, Vec<Option<InlineKind>>))
        ensures
            (r.0@, r.1@) == finish(self.view()),
    {
        let mut b = self;
        b.flush();
        (b.text, b.kinds)
    }
}

/// Runs of equal adjacent roles from `start`, the decorated ones only.
pub open spec fn runs_from(kinds: Seq<Option<InlineKind>>, start: int) -> Seq<(int, int, InlineKind)>
    decreases kinds.len() - start,
{
    if start < 0 || start >= kinds.len() {
        Seq::empty()
    } else {
        let end = run_end(kinds, start, start + 1);
        proof {
            lemma_run_end_bounds(kinds, start, start + 1);
        }
        let rest = runs_from(kinds, end);
        match kinds[start] {
            Some(k) => seq![(start, end, k)] + rest,
            None => rest,
        }
    }
}

/// The end of the run of roles equal to the one at `start`, scanning from
/// `j`.
pub open spec fn run_end(kinds: Seq<Option<InlineKind>>, start: int, j: int) -> int
    decreases kinds.len() - j,
{
    if j < kinds.len() && 0 <= start < kinds.len() && kinds[j] == kinds[start] {
        run_end(kinds, start, j + 1)
    } else {
        j
    }
}

pub proof fn lemma_run_end_bounds(kinds: Seq<Option<InlineKind>>, start: int, j: int)
    requires
        j <= kinds.len(),
    ensures
        j <= run_end(kinds, start, j) <= kinds.len(),
    decreases kinds.len() - j,
{
    if j < kinds.len() && 0 <= start < kinds.len() && kinds[j] == kinds[start] {
        lemma_run_end_bounds(kinds, start, j + 1);
    }
}

fn runs_from_kinds(kinds: &Vec<Option<InlineKind>>) -> (r: Vec<SemanticInline>)
    ensures
        r@.map_values(|x: SemanticInline| run_view(x)) == runs_from(kinds@, 0),
{
    let mut runs: Vec<SemanticInline> = Vec::new();
    let mut index: usize = 0;
    let ghost mut done: Seq<(int, int, InlineKind)> = Seq::empty();
    while index < kinds.len()
        invariant
            index <= kinds@.len(),
            runs@.map_values(|x: SemanticInline| run_view(x)) + runs_from(kinds@, index as int) == runs_from(
                kinds@,
                0,
            ),
        decreases kinds.len() - index,
    {
        let kind = kinds[index];
        let mut end = index + 1;
        while end < kinds.len() && kinds[end] == kind
            invariant
                index < end <= kinds@.len(),
                kind == kinds@[index as int],
                run_end(kinds@, index as int, index + 1) == run_end(kinds@, index as int, end as int),
            decreases kinds.len() - end,
        {
            end = end + 1;
        }
        proof {
            lemma_run_end_bounds(kinds@, index as int, index + 1);
        }
        let ghost prev = runs@;
        match kind {
            Some(decoration) => {
                runs.push(SemanticInline { range: index..end, kind: decoration });
                proof {
                    assert(runs@.map_values(|x: SemanticInline| run_view(x)) =~= prev.map_values(
                        |x: SemanticInline| run_view(x),
                    ).push((index as int, end as int, decoration)));
                    assert(seq![(index as int, end as int, decoration)] + runs_from(kinds@, end as int)
                        =~= runs_from(kinds@, index as int));
                    assert(prev.map_values(|x: SemanticInline| run_view(x)).push(
                        (index as int, end as int, decoration),
                    ) + runs_from(kinds@, end as int) =~= prev.map_values(|x: SemanticInline| run_view(x)) + (
                    seq![(index as int, end as int, decoration)] + runs_from(kinds@, end as int)));
                }
            },
            None => {},
        }
        index = end;
    }
    assert(runs@.map_values(|x: SemanticInline| run_view(x)) + runs_from(kinds@, index as int)
        =~= runs@.map_values(|x: SemanticInline| run_view(x)));
    runs
}


// ---------------------------------------------------------------------------
// Inline collection and literal text over the walk
// ---------------------------------------------------------------------------

/// Whether an element of this meaning never shows its content.
pub open spec fn hidden(t: Tag) -> bool {
    t is Script || t is Style || t is Template
}

/// The builder after collecting the visible inline text of the node
/// opening at `i`: text nodes push their characters with the active role,
/// `br` breaks the line, hidden elements (and, when `skip_lists`, nested
/// lists and tables) contribute nothing, and an inline element sets the
/// role for its subtree.
pub open spec fn inline_node(
    ev: Seq<HtmlEvent>,
    i: int,
    depth: int,
    kind: Option<InlineKind>,
    skip_lists: bool,
    b: Builder,
) -> Builder
    decreases ev.len() - i, 0int,
{
    if i < 0 || i >= ev.len() || depth > MAX_XHTML_DEPTH {
        b
    } else {
        match ev[i] {
            HtmlEvent::Open(HtmlNode::Text(t)) => push_text(b, t@, kind),
            HtmlEvent::Open(HtmlNode::Element(name)) => {
                let tag = spec_tag(name@);
                if hidden(tag) {
                    b
                } else if tag is Break {
                    break_line(b)
                } else if skip_lists && (tag is Unordered || tag is Ordered || tag is Table) {
                    b
                } else {
                    let child_kind = match tag {
                        Tag::Inline(k) => Some(k),
                        _ => kind,
                    };
                    inline_children(ev, i + 1, depth + 1, child_kind, skip_lists, b)
                }
            },
            HtmlEvent::Open(HtmlNode::Other) => inline_children(ev, i + 1, depth + 1, kind, skip_lists, b),
            HtmlEvent::Close => b,
        }
    }
}

/// `inline_node` over each child in turn, from the child opening at `c`
/// until the parent closes.
pub open spec fn inline_children(
    ev: Seq<HtmlEvent>,
    c: int,
    depth: int,
    kind: Option<InlineKind>,
    skip_lists: bool,
    b: Builder,
) -> Builder
    decreases ev.len() - c, 1int,
{
    if !child_at(ev, c) {
        b
    } else {
        proof {
            lemma_span_end_bounds(ev, c);
        }
        inline_children(ev, span_end(ev, c), depth, kind, skip_lists, inline_node(ev, c, depth, kind, skip_lists, b))
    }
}

/// The collapsed text of the node at `i` and its decorated runs.
pub open spec fn collapse(ev: Seq<HtmlEvent>, i: int, depth: int, skip_lists: bool) -> (Seq<char>, Seq<(int, int, InlineKind)>) {
    let (text, kinds) = finish(inline_node(ev, i, depth, None, skip_lists, break_line(empty_builder())));
    (text, runs_from(kinds, 0))
}

fn collect_inline(
    ev: &Vec<HtmlEvent>,
    i: usize,
    depth: usize,
    kind: Option<InlineKind>,
    skip_lists: bool,
    b: &mut InlineBuilder,
)
    ensures
        final(b).view() == inline_node(ev@, i as int, depth as int, kind, skip_lists, old(b).view()),
    decreases ev@.len() - i, 0int,
{
    if i >= ev.len() || depth > MAX_XHTML_DEPTH {
        return;
    }
    let child_kind = match &ev[i] {
        HtmlEvent::Open(HtmlNode::Text(t)) => {
            b.push_str_of(t.as_str(), kind);
            return;
        },
        HtmlEvent::Open(HtmlNode::Element(name)) => {
            let tag = tag_of(name);
            match tag {
                Tag::Script | Tag::Style | Tag::Template => {
                    return;
                },
                Tag::Break => {
                    b.break_line();
                    return;
                },
                Tag::Unordered | Tag::Ordered | Tag::Table => {
                    if skip_lists {
                        return;
                    }
                    kind
                },
                Tag::Inline(k) => Some(k),
                _ => kind,
            }
        },
        HtmlEvent::Open(HtmlNode::Other) => kind,
        HtmlEvent::Close => {
            return;
        },
    };
    let ghost target = inline_children(ev@, i + 1, depth + 1, child_kind, skip_lists, b.view());
    let mut c = i + 1;
    while c < ev.len() && opens(ev, c)
        invariant
            i < c <= ev@.len(),
            depth <= MAX_XHTML_DEPTH,
            target == inline_children(ev@, c as int, depth + 1, child_kind, skip_lists, b.view()),
        decreases ev@.len() - c,
    {
        proof {
            lemma_span_end_bounds(ev@, c as int);
        }
        collect_inline(ev, c, depth + 1, child_kind, skip_lists, b);
        c = span_end_at(ev, c);
    }
}

fn collapse_inline(ev: &Vec<HtmlEvent>, i: usize, depth: usize, skip_lists: bool) -> (r: (String, Vec<SemanticInline>))
    ensures
        (r.0@, r.1@.map_values(|x: SemanticInline| run_view(x))) == collapse(ev@, i as int, depth as int, skip_lists),
{
    let mut b = InlineBuilder::new();
    b.break_line();
    collect_inline(ev, i, depth, None, skip_lists, &mut b);
    let (text, kinds) = b.finish();
    let runs = runs_from_kinds(&kinds);
    (text, runs)
}

/// The literal text under the node at `i`, white space kept: text nodes
/// as they are, hidden elements contributing nothing.
pub open spec fn literal_node(ev: Seq<HtmlEvent>, i: int, depth: int) -> Seq<char>
    decreases ev.len() - i, 0int,
{
    if i < 0 || i >= ev.len() || depth > MAX_XHTML_DEPTH {
        Seq::empty()
    } else {
        match ev[i] {
            HtmlEvent::Open(HtmlNode::Text(t)) => t@,
            HtmlEvent::Open(HtmlNode::Element(name)) => if hidden(spec_tag(name@)) {
                Seq::empty()
            } else {
                literal_children(ev, i + 1, depth + 1)
            },
            HtmlEvent::Open(HtmlNode::Other) => literal_children(ev, i + 1, depth + 1),
            HtmlEvent::Close => Seq::empty(),
        }
    }
}

/// `literal_node` of each child in turn, joined.
pub open spec fn literal_children(ev: Seq<HtmlEvent>, c: int, depth: int) -> Seq<char>
    decreases ev.len() - c, 1int,
{
    if !child_at(ev, c) {
        Seq::empty()
    } else {
        proof {
            lemma_span_end_bounds(ev, c);
        }
        literal_node(ev, c, depth) + literal_children(ev, span_end(ev, c), depth)
    }
}

fn literal_text(ev: &Vec<HtmlEvent>, i: usize, depth: usize, out: &mut String)
    ensures
        final(out)@ == old(out)@ + literal_node(ev@, i as int, depth as int),
    decreases ev@.len() - i, 0int,
{
    if i >= ev.len() || depth > MAX_XHTML_DEPTH {
        assert(old(out)@ + Seq::<char>::empty() =~= old(out)@);
        return;
    }
    match &ev[i] {
        HtmlEvent::Open(HtmlNode::Text(t)) => {
            push_str(out, t.as_str());
            return;
        },
        HtmlEvent::Open(HtmlNode::Element(name)) => {
            let tag = tag_of(name);
            if matches!(tag, Tag::Script | Tag::Style | Tag::Template) {
                assert(old(out)@ + Seq::<char>::empty() =~= old(out)@);
                return;
            }
        },
        HtmlEvent::Open(HtmlNode::Other) => {},
        HtmlEvent::Close => {
            assert(old(out)@ + Seq::<char>::empty() =~= old(out)@);
            return;
        },
    }
    let ghost start = out@;
    let mut c = i + 1;
    while c < ev.len() && opens(ev, c)
        invariant
            i < c <= ev@.len(),
            depth <= MAX_XHTML_DEPTH,
            start + literal_children(ev@, i + 1, depth + 1) == out@ + literal_children(
                ev@,
                c as int,
                depth + 1,
            ),
        decreases ev@.len() - c,
    {
        proof {
            lemma_span_end_bounds(ev@, c as int);
        }
        let ghost before = out@;
        literal_text(ev, c, depth + 1, out);
        let next = span_end_at(ev, c);
        proof {
            assert(before + (literal_node(ev@, c as int, depth + 1) + literal_children(ev@, next as int, depth + 1))
                =~= out@ + literal_children(ev@, next as int, depth + 1));
        }
        c = next;
    }
    assert(out@ + Seq::<char>::empty() =~= out@);
}

// ---------------------------------------------------------------------------
// Descendant searches
// ---------------------------------------------------------------------------

/// The openings of the outermost elements of meaning `target` under the
/// node at `i` (the node itself included), in document order; hidden
/// elements are not searched.
pub open spec fn descendants(ev: Seq<HtmlEvent>, i: int, target: Tag, depth: int) -> Seq<int>
    decreases ev.len() - i, 0int,
{
    if i < 0 || i >= ev.len() || depth > MAX_XHTML_DEPTH {
        Seq::empty()
    } else {
        match ev[i] {
            HtmlEvent::Open(HtmlNode::Element(name)) => {
                let tag = spec_tag(name@);
                if hidden(tag) {
                    Seq::empty()
                } else if tag == target {
                    seq![i]
                } else {
                    descendants_children(ev, i + 1, target, depth + 1)
                }
            },
            HtmlEvent::Open(_) => descendants_children(ev, i + 1, target, depth + 1),
            HtmlEvent::Close => Seq::empty(),
        }
    }
}

/// `descendants` of each child in turn, joined.
pub open spec fn descendants_children(ev: Seq<HtmlEvent>, c: int, target: Tag, depth: int) -> Seq<int>
    decreases ev.len() - c, 1int,
{
    if !child_at(ev, c) {
        Seq::empty()
    } else {
        proof {
            lemma_span_end_bounds(ev, c);
        }
        descendants(ev, c, target, depth) + descendants_children(ev, span_end(ev, c), target, depth)
    }
}

/// Indices as plain values.
pub open spec fn indices(v: Seq<usize>) -> Seq<int> {
    v.map_values(|x: usize| x as int)
}

fn push_index(v: &mut Vec<usize>, x: usize)
    ensures
        indices(final(v)@) == indices(old(v)@).push(x as int),
{
    v.push(x);
    assert(indices(v@) =~= indices(old(v)@).push(x as int));
}

fn descendants_named(ev: &Vec<HtmlEvent>, i: usize, target: Tag, depth: usize, out: &mut Vec<usize>)
    ensures
        indices(final(out)@) == indices(old(out)@) + descendants(ev@, i as int, target, depth as int),
    decreases ev@.len() - i, 0int,
{
    if i >= ev.len() || depth > MAX_XHTML_DEPTH {
        assert(indices(old(out)@) + Seq::<int>::empty() =~= indices(old(out)@));
        return;
    }
    match &ev[i] {
        HtmlEvent::Open(HtmlNode::Element(name)) => {
            let tag = tag_of(name);
            if matches!(tag, Tag::Script | Tag::Style | Tag::Template) {
                assert(indices(old(out)@) + Seq::<int>::empty() =~= indices(old(out)@));
                return;
            }
            if tag == target {
                push_index(out, i);
                assert(indices(old(out)@).push(i as int) =~= indices(old(out)@) + seq![i as int]);
                return;
            }
        },
        HtmlEvent::Open(_) => {},
        HtmlEvent::Close => {
            assert(indices(old(out)@) + Seq::<int>::empty() =~= indices(old(out)@));
            return;
        },
    }
    let ghost start = indices(out@);
    let mut c = i + 1;
    while c < ev.len() && opens(ev, c)
        invariant
            i < c <= ev@.len(),
            depth <= MAX_XHTML_DEPTH,
            start + descendants_children(ev@, i + 1, target, depth + 1) == indices(out@)
                + descendants_children(ev@, c as int, target, depth + 1),
        decreases ev@.len() - c,
    {
        proof {
            lemma_span_end_bounds(ev@, c as int);
        }
        let ghost before = indices(out@);
        descendants_named(ev, c, target, depth + 1, out);
        let next = span_end_at(ev, c);
        proof {
            assert(before + (descendants(ev@, c as int, target, depth + 1) + descendants_children(
                ev@,
                next as int,
                target,
                depth + 1,
            )) =~= indices(out@) + descendants_children(ev@, next as int, target, depth + 1));
        }
        c = next;
    }
    assert(indices(out@) + Seq::<int>::empty() =~= indices(out@));
}

/// The outermost `ul`/`ol` elements under the node at `i`, each with
/// whether it is ordered; hidden elements and headings are not searched.
pub open spec fn nested_lists(ev: Seq<HtmlEvent>, i: int, depth: int) -> Seq<(int, bool)>
    decreases ev.len() - i, 0int,
{
    if i < 0 || i >= ev.len() || depth > MAX_XHTML_DEPTH {
        Seq::empty()
    } else {
        match ev[i] {
            HtmlEvent::Open(HtmlNode::Element(name)) => {
                let tag = spec_tag(name@);
                if tag is Unordered {
                    seq![(i, false)]
                } else if tag is Ordered {
                    seq![(i, true)]
                } else if hidden(tag) || tag is Heading {
                    Seq::empty()
                } else {
                    nested_lists_children(ev, i + 1, depth + 1)
                }
            },
            HtmlEvent::Open(_) => nested_lists_children(ev, i + 1, depth + 1),
            HtmlEvent::Close => Seq::empty(),
        }
    }
}

/// `nested_lists` of each child in turn, joined.
pub open spec fn nested_lists_children(ev: Seq<HtmlEvent>, c: int, depth: int) -> Seq<(int, bool)>
    decreases ev.len() - c, 1int,
{
    if !child_at(ev, c) {
        Seq::empty()
    } else {
        proof {
            lemma_span_end_bounds(ev, c);
        }
        nested_lists(ev, c, depth) + nested_lists_children(ev, span_end(ev, c), depth)
    }
}

pub proof fn lemma_nested_lists_bounds(ev: Seq<HtmlEvent>, i: int, depth: int)
    ensures
        forall|k: int|
            0 <= k < nested_lists(ev, i, depth).len() ==> i <= #[trigger] nested_lists(ev, i, depth)[k].0
                < ev.len(),
    decreases ev.len() - i, 0int,
{
    if 0 <= i < ev.len() && depth <= MAX_XHTML_DEPTH {
        lemma_nested_lists_children_bounds(ev, i + 1, depth + 1);
        let r = nested_lists(ev, i, depth);
        assert forall|k: int| 0 <= k < r.len() implies i <= #[trigger] r[k].0 < ev.len() by {
            if r.len() == 1 && r[0].0 == i {
            } else {
                assert(r == nested_lists_children(ev, i + 1, depth + 1));
            }
        }
    }
}

pub proof fn lemma_nested_lists_children_bounds(ev: Seq<HtmlEvent>, c: int, depth: int)
    ensures
        forall|k: int|
            0 <= k < nested_lists_children(ev, c, depth).len() ==> c <= #[trigger] nested_lists_children(
                ev,
                c,
                depth,
            )[k].0 < ev.len(),
    decreases ev.len() - c, 1int,
{
    if child_at(ev, c) {
        lemma_span_end_bounds(ev, c);
        lemma_nested_lists_bounds(ev, c, depth);
        lemma_nested_lists_children_bounds(ev, span_end(ev, c), depth);
        let a = nested_lists(ev, c, depth);
        let r = nested_lists_children(ev, span_end(ev, c), depth);
        assert forall|k: int| 0 <= k < (a + r).len() implies c <= #[trigger] (a + r)[k].0 < ev.len() by {
            if k < a.len() {
                assert((a + r)[k] == a[k]);
            } else {
                assert((a + r)[k] == r[k - a.len()]);
            }
        }
    }
}

fn find_nested_lists(ev: &Vec<HtmlEvent>, i: usize, depth: usize, out: &mut Vec<(usize, bool)>)
    ensures
        final(out)@.map_values(|x: (usize, bool)| (x.0 as int, x.1)) == old(out)@.map_values(
            |x: (usize, bool)| (x.0 as int, x.1),
        ) + nested_lists(ev@, i as int, depth as int),
    decreases ev@.len() - i, 0int,
{
    let ghost v0 = old(out)@.map_values(|x: (usize, bool)| (x.0 as int, x.1));
    if i >= ev.len() || depth > MAX_XHTML_DEPTH {
        assert(v0 + Seq::<(int, bool)>::empty() =~= v0);
        return;
    }
    match &ev[i] {
        HtmlEvent::Open(HtmlNode::Element(name)) => {
            let tag = tag_of(name);
            match tag {
                Tag::Unordered | Tag::Ordered => {
                    let ordered = matches!(tag, Tag::Ordered);
                    out.push((i, ordered));
                    assert(out@.map_values(|x: (usize, bool)| (x.0 as int, x.1)) =~= v0 + seq![(i as int, ordered)]);
                    return;
                },
                Tag::Script | Tag::Style | Tag::Template | Tag::Heading(_) => {
                    assert(v0 + Seq::<(int, bool)>::empty() =~= v0);
                    return;
                },
                _ => {},
            }
        },
        HtmlEvent::Open(_) => {},
        HtmlEvent::Close => {
            assert(v0 + Seq::<(int, bool)>::empty() =~= v0);
            return;
        },
    }
    let mut c = i + 1;
    while c < ev.len() && opens(ev, c)
        invariant
            i < c <= ev@.len(),
            depth <= MAX_XHTML_DEPTH,
            v0 + nested_lists_children(ev@, i + 1, depth + 1) == out@.map_values(
                |x: (usize, bool)| (x.0 as int, x.1),
            ) + nested_lists_children(ev@, c as int, depth + 1),
        decreases ev@.len() - c,
    {
        proof {
            lemma_span_end_bounds(ev@, c as int);
        }
        let ghost before = out@.map_values(|x: (usize, bool)| (x.0 as int, x.1));
        find_nested_lists(ev, c, depth + 1, out);
        let next = span_end_at(ev, c);
        proof {
            assert(before + (nested_lists(ev@, c as int, depth + 1) + nested_lists_children(
                ev@,
                next as int,
                depth + 1,
            )) =~= out@.map_values(|x: (usize, bool)| (x.0 as int, x.1)) + nested_lists_children(
                ev@,
                next as int,
                depth + 1,
            ));
        }
        c = next;
    }
    assert(out@.map_values(|x: (usize, bool)| (x.0 as int, x.1)) + Seq::<(int, bool)>::empty()
        =~= out@.map_values(|x: (usize, bool)| (x.0 as int, x.1)));
}

// ---------------------------------------------------------------------------
// Tables
// ---------------------------------------------------------------------------

/// The UTF-8 length of a text.
pub open spec fn byte_len(s: Seq<char>) -> int {
    encode_utf8(s).len() as int
}

fn byte_len_of(s: &String) -> (n: usize)
    ensures
        n == byte_len(s@),
{
    s.as_str().as_bytes().len()
}

/// The cells of the row at `tr`: its data cells, then its header cells.
pub open spec fn row_cells(ev: Seq<HtmlEvent>, tr: int, depth: int) -> Seq<int> {
    descendants(ev, tr, Tag::DataCell, depth + 1) + descendants(ev, tr, Tag::HeaderCell, depth + 1)
}

/// The text and cell ranges after the first `n` cells of a row joined
/// with `" | "` onto `text`: each range covers the cell's collapsed text.
pub open spec fn layout_cells(
    ev: Seq<HtmlEvent>,
    text: Seq<char>,
    ranges: Seq<(int, int)>,
    cells: Seq<int>,
    n: int,
    depth: int,
) -> (Seq<char>, Seq<(int, int)>)
    decreases n,
{
    if n <= 0 {
        (text, ranges)
    } else {
        let (t0, r0) = layout_cells(ev, text, ranges, cells, n - 1, depth);
        let t = if n - 1 > 0 {
            t0 + " | "@
        } else {
            t0
        };
        let t2 = t + collapse(ev, cells[n - 1], depth, false).0;
        (t2, r0.push((byte_len(t), byte_len(t2))))
    }
}

/// The text, cell ranges and number of rows laid out after the first `n`
/// rows: rows without cells vanish, the others join with newlines.
pub open spec fn layout_rows(ev: Seq<HtmlEvent>, rows: Seq<int>, n: int, depth: int) -> (
    Seq<char>,
    Seq<(int, int)>,
    nat,
)
    decreases n,
{
    if n <= 0 {
        (Seq::empty(), Seq::empty(), 0)
    } else {
        let (t0, r0, k) = layout_rows(ev, rows, n - 1, depth);
        let cells = row_cells(ev, rows[n - 1], depth);
        if cells.len() == 0 {
            (t0, r0, k)
        } else {
            let t = if k > 0 {
                t0 + "\n"@
            } else {
                t0
            };
            let (t2, r2) = layout_cells(ev, t, r0, cells, cells.len() as int, depth + 1);
            (t2, r2, k + 1)
        }
    }
}

/// The table block for the table at `i`: every row's cells in order.
pub open spec fn table_view(ev: Seq<HtmlEvent>, i: int, depth: int) -> BlockView {
    let rows = descendants(ev, i, Tag::Row, depth);
    let (text, cells, _) = layout_rows(ev, rows, rows.len() as int, depth);
    BlockView { kind: BlockKind::Table, text, inline: Seq::empty(), cells }
}

/// Cell ranges as plain values.
pub open spec fn range_views(rs: Seq<Range<usize>>) -> Seq<(int, int)> {
    rs.map_values(|r: Range<usize>| (r.start as int, r.end as int))
}

fn convert_table(ev: &Vec<HtmlEvent>, i: usize, depth: usize) -> (r: SemanticBlock)
    requires
        depth <= MAX_XHTML_DEPTH,
    ensures
        block_view(r) == table_view(ev@, i as int, depth as int),
{
    let mut rows: Vec<usize> = Vec::new();
    descendants_named(ev, i, Tag::Row, depth, &mut rows);
    let ghost trs = descendants(ev@, i as int, Tag::Row, depth as int);
    assert(indices(rows@) =~= trs);
    let mut text = String::new();
    let mut ranges: Vec<Range<usize>> = Vec::new();
    let mut emitted: usize = 0;
    let mut r: usize = 0;
    while r < rows.len()
        invariant
            r <= rows@.len(),
            depth <= MAX_XHTML_DEPTH,
            indices(rows@) == trs,
            emitted <= r,
            (text@, range_views(ranges@), emitted as nat) == layout_rows(ev@, trs, r as int, depth as int),
        decreases rows.len() - r,
    {
        let tr = rows[r];
        assert(trs[r as int] == tr as int);
        let mut cells: Vec<usize> = Vec::new();
        descendants_named(ev, tr, Tag::DataCell, depth + 1, &mut cells);
        descendants_named(ev, tr, Tag::HeaderCell, depth + 1, &mut cells);
        let ghost cs = row_cells(ev@, tr as int, depth as int);
        assert(indices(cells@) =~= cs);
        if cells.len() > 0 {
            if emitted > 0 {
                push_str(&mut text, "\n");
            }
            let ghost t_start = text@;
            let ghost r_start = range_views(ranges@);
            let mut k: usize = 0;
            while k < cells.len()
                invariant
                    k <= cells@.len(),
                    depth <= MAX_XHTML_DEPTH,
                    indices(cells@) == cs,
                    (text@, range_views(ranges@)) == layout_cells(
                        ev@,
                        t_start,
                        r_start,
                        cs,
                        k as int,
                        depth + 1,
                    ),
                decreases cells.len() - k,
            {
                if k > 0 {
                    push_str(&mut text, " | ");
                }
                let start = byte_len_of(&text);
                assert(cs[k as int] == cells@[k as int] as int);
                let (cell_text, _) = collapse_inline(ev, cells[k], depth + 1, false);
                push_str(&mut text, cell_text.as_str());
                let end = byte_len_of(&text);
                let ghost before = ranges@;
                ranges.push(start..end);
                assert(range_views(ranges@) =~= range_views(before).push((start as int, end as int)));
                k = k + 1;
            }
            emitted = emitted + 1;
        }
        r = r + 1;
    }
    let inline: Vec<SemanticInline> = Vec::new();
    let b = SemanticBlock { kind: BlockKind::Table, text, inline, cells: ranges };
    assert(block_view(b).inline =~= Seq::<(int, int, InlineKind)>::empty());
    b
}

// ---------------------------------------------------------------------------
// The block walk
// ---------------------------------------------------------------------------

/// A block of no decorations and no cells.
pub open spec fn plain_view(kind: BlockKind, text: Seq<char>) -> BlockView {
    BlockView { kind, text, inline: Seq::empty(), cells: Seq::empty() }
}

/// The blocks with a decorated block appended when its text is not empty.
pub open spec fn decorated(
    bs: Seq<BlockView>,
    kind: BlockKind,
    collapsed: (Seq<char>, Seq<(int, int, InlineKind)>),
) -> Seq<BlockView> {
    if collapsed.0.len() == 0 {
        bs
    } else {
        bs.push(BlockView { kind, text: collapsed.0, inline: collapsed.1, cells: Seq::empty() })
    }
}

/// One more list level, saturating.
pub open spec fn deeper(level: u8) -> u8 {
    if level == 255 {
        255
    } else {
        (level + 1) as u8
    }
}

/// The blocks after walking the node at `i`: headings, paragraphs and
/// quotes become decorated blocks of their collapsed text, lists their
/// items, `pre` a code block of its literal text, `hr` a separator, tables
/// a table block; hidden elements and `head` contribute nothing; anything
/// else is walked through. Nodes deeper than the guard contribute nothing.
pub open spec fn walk_node(ev: Seq<HtmlEvent>, i: int, depth: int, bs: Seq<BlockView>) -> Seq<BlockView>
    decreases ev.len() - i, 2int, 0int,
{
    if i < 0 || i >= ev.len() || depth > MAX_XHTML_DEPTH {
        bs
    } else {
        match ev[i] {
            HtmlEvent::Open(HtmlNode::Element(name)) => match spec_tag(name@) {
                Tag::Script | Tag::Style | Tag::Head | Tag::Template => bs,
                Tag::Heading(level) => decorated(bs, BlockKind::Heading { level }, collapse(ev, i, depth, false)),
                Tag::Paragraph => decorated(bs, BlockKind::Paragraph, collapse(ev, i, depth, false)),
                Tag::Unordered => list_children(ev, i + 1, depth, depth + 1, 0, false, bs),
                Tag::Ordered => list_children(ev, i + 1, depth, depth + 1, 0, true, bs),
                Tag::Quote => decorated(bs, BlockKind::Quote, collapse(ev, i, depth, false)),
                Tag::Pre => {
                    let code = literal_node(ev, i, depth);
                    if code.len() == 0 {
                        bs
                    } else {
                        bs.push(plain_view(BlockKind::CodeBlock, code))
                    }
                },
                Tag::Rule => bs.push(plain_view(BlockKind::Separator, "* * *"@)),
                Tag::Table => bs.push(table_view(ev, i, depth)),
                _ => walk_children(ev, i + 1, depth + 1, bs),
            },
            HtmlEvent::Open(_) => walk_children(ev, i + 1, depth + 1, bs),
            HtmlEvent::Close => bs,
        }
    }
}

/// `walk_node` over each child in turn.
pub open spec fn walk_children(ev: Seq<HtmlEvent>, c: int, depth: int, bs: Seq<BlockView>) -> Seq<BlockView>
    decreases ev.len() - c, 3int, 0int,
{
    if !child_at(ev, c) {
        bs
    } else {
        proof {
            lemma_span_end_bounds(ev, c);
        }
        walk_children(ev, span_end(ev, c), depth, walk_node(ev, c, depth, bs))
    }
}

/// The children of a list in turn: `li` children become items at
/// `item_depth` and list level `level`, other children are walked at
/// `walk_depth`.
pub open spec fn list_children(
    ev: Seq<HtmlEvent>,
    c: int,
    item_depth: int,
    walk_depth: int,
    level: u8,
    ordered: bool,
    bs: Seq<BlockView>,
) -> Seq<BlockView>
    decreases ev.len() - c, 3int, 0int,
{
    if !child_at(ev, c) {
        bs
    } else {
        proof {
            lemma_span_end_bounds(ev, c);
        }
        let next = if tag_at(ev, c) == Some(Tag::Item) {
            list_item(ev, c, item_depth, level, ordered, bs)
        } else {
            walk_node(ev, c, walk_depth, bs)
        };
        list_children(ev, span_end(ev, c), item_depth, walk_depth, level, ordered, next)
    }
}

/// One list item: its own collapsed text without nested lists and tables,
/// then the items of its nested lists one level deeper.
pub open spec fn list_item(
    ev: Seq<HtmlEvent>,
    i: int,
    depth: int,
    level: u8,
    ordered: bool,
    bs: Seq<BlockView>,
) -> Seq<BlockView>
    decreases ev.len() - i, 2int, 0int,
{
    if i < 0 || i >= ev.len() || depth > MAX_XHTML_DEPTH {
        bs
    } else {
        let own = decorated(bs, BlockKind::ListItem { depth: level, ordered }, collapse(ev, i, depth + 1, true));
        nested_items(ev, i, depth, deeper(level), 0, own)
    }
}

/// The items of the nested lists of the item at `i`, from the `k`-th on.
pub open spec fn nested_items(
    ev: Seq<HtmlEvent>,
    i: int,
    depth: int,
    level: u8,
    k: int,
    bs: Seq<BlockView>,
) -> Seq<BlockView>
    decreases ev.len() - i, 1int, nested_lists(ev, i, depth + 1).len() - k,
{
    let found = nested_lists(ev, i, depth + 1);
    if k < 0 || k >= found.len() || i < 0 || i >= ev.len() {
        bs
    } else {
        proof {
            lemma_nested_lists_bounds(ev, i, depth + 1);
        }
        nested_items(
            ev,
            i,
            depth,
            level,
            k + 1,
            list_children(ev, found[k].0 + 1, depth + 1, depth + 1, level, found[k].1, bs),
        )
    }
}

/// The blocks with non-empty text, in order.
pub open spec fn nonempty(bs: Seq<BlockView>) -> Seq<BlockView>
    decreases bs.len(),
{
    if bs.len() == 0 {
        Seq::empty()
    } else {
        let kept = nonempty(bs.drop_last());
        if bs.last().text.len() > 0 {
            kept.push(bs.last())
        } else {
            kept
        }
    }
}

/// The blocks of a parsed chapter: the walk from the root, empty blocks
/// dropped.
pub open spec fn converted(ev: Seq<HtmlEvent>) -> Seq<BlockView> {
    nonempty(walk_node(ev, 0, 0, Seq::empty()))
}

fn push_block(blocks: &mut Vec<SemanticBlock>, b: SemanticBlock)
    ensures
        block_views(final(blocks)@) == block_views(old(blocks)@).push(block_view(b)),
{
    blocks.push(b);
    assert(block_views(blocks@) =~= block_views(old(blocks)@).push(block_view(b)));
}

fn push_decorated(blocks: &mut Vec<SemanticBlock>, kind: BlockKind, collapsed: (String, Vec<SemanticInline>))
    ensures
        block_views(final(blocks)@) == decorated(
            block_views(old(blocks)@),
            kind,
            (collapsed.0@, collapsed.1@.map_values(|x: SemanticInline| run_view(x))),
        ),
{
    let (text, inline) = collapsed;
    if !text.as_str().is_empty() {
        let cells: Vec<Range<usize>> = Vec::new();
        let b = SemanticBlock { kind, text, inline, cells };
        assert(block_view(b).cells =~= Seq::<(int, int)>::empty());
        push_block(blocks, b);
    }
}

fn plain_block(kind: BlockKind, text: String) -> (b: SemanticBlock)
    ensures
        block_view(b) == plain_view(kind, text@),
{
    let inline: Vec<SemanticInline> = Vec::new();
    let cells: Vec<Range<usize>> = Vec::new();
    let b = SemanticBlock { kind, text, inline, cells };
    assert(block_view(b).cells =~= Seq::<(int, int)>::empty());
    assert(block_view(b).inline =~= Seq::<(int, int, InlineKind)>::empty());
    b
}

fn is_item(ev: &Vec<HtmlEvent>, c: usize) -> (b: bool)
    requires
        c < ev@.len(),
    ensures
        b == (tag_at(ev@, c as int) == Some(Tag::Item)),
{
    match &ev[c] {
        HtmlEvent::Open(HtmlNode::Element(name)) => matches!(tag_of(name), Tag::Item),
        _ => false,
    }
}

fn walk(ev: &Vec<HtmlEvent>, i: usize, depth: usize, blocks: &mut Vec<SemanticBlock>)
    ensures
        block_views(final(blocks)@) == walk_node(ev@, i as int, depth as int, block_views(old(blocks)@)),
    decreases ev@.len() - i, 2int, 0int,
{
    if i >= ev.len() || depth > MAX_XHTML_DEPTH {
        return;
    }
    let tag = match &ev[i] {
        HtmlEvent::Open(HtmlNode::Element(name)) => tag_of(name),
        HtmlEvent::Open(_) => Tag::Other,
        HtmlEvent::Close => {
            return;
        },
    };
    let is_element = match &ev[i] {
        HtmlEvent::Open(HtmlNode::Element(_)) => true,
        _ => false,
    };
    if is_element {
        match tag {
            Tag::Script | Tag::Style | Tag::Head | Tag::Template => {
                return;
            },
            Tag::Heading(level) => {
                let collapsed = collapse_inline(ev, i, depth, false);
                push_decorated(blocks, BlockKind::Heading { level }, collapsed);
                return;
            },
            Tag::Paragraph => {
                let collapsed = collapse_inline(ev, i, depth, false);
                push_decorated(blocks, BlockKind::Paragraph, collapsed);
                return;
            },
            Tag::Unordered | Tag::Ordered => {
                let ordered = matches!(tag, Tag::Ordered);
                items_of(ev, i, depth, depth + 1, 0, ordered, blocks);
                return;
            },
            Tag::Quote => {
                let collapsed = collapse_inline(ev, i, depth, false);
                push_decorated(blocks, BlockKind::Quote, collapsed);
                return;
            },
            Tag::Pre => {
                let mut code = String::new();
                literal_text(ev, i, depth, &mut code);
                assert(code@ =~= literal_node(ev@, i as int, depth as int));
                if !code.as_str().is_empty() {
                    push_block(blocks, plain_block(BlockKind::CodeBlock, code));
                }
                return;
            },
            Tag::Rule => {
                push_block(blocks, plain_block(BlockKind::Separator, crate::strings::owned("* * *")));
                return;
            },
            Tag::Table => {
                let table = convert_table(ev, i, depth);
                push_block(blocks, table);
                return;
            },
            _ => {},
        }
    }
    let ghost target = walk_children(ev@, i + 1, depth + 1, block_views(blocks@));
    let mut c = i + 1;
    while c < ev.len() && opens(ev, c)
        invariant
            i < c <= ev@.len(),
            depth <= MAX_XHTML_DEPTH,
            target == walk_children(ev@, c as int, depth + 1, block_views(blocks@)),
        decreases ev@.len() - c,
    {
        proof {
            lemma_span_end_bounds(ev@, c as int);
        }
        walk(ev, c, depth + 1, blocks);
        c = span_end_at(ev, c);
    }
}

/// The children of the list at `i` in turn, as `list_children` says.
fn items_of(
    ev: &Vec<HtmlEvent>,
    i: usize,
    item_depth: usize,
    walk_depth: usize,
    level: u8,
    ordered: bool,
    blocks: &mut Vec<SemanticBlock>,
)
    requires
        i < ev@.len(),
        item_depth <= MAX_XHTML_DEPTH + 1,
        walk_depth <= MAX_XHTML_DEPTH + 1,
    ensures
        block_views(final(blocks)@) == list_children(
            ev@,
            i + 1,
            item_depth as int,
            walk_depth as int,
            level,
            ordered,
            block_views(old(blocks)@),
        ),
    decreases ev@.len() - i, 1int, 0int,
{
    let n = ev.len();
    let ghost target = list_children(
        ev@,
        i + 1,
        item_depth as int,
        walk_depth as int,
        level,
        ordered,
        block_views(blocks@),
    );
    let mut c = i + 1;
    while c < n && opens(ev, c)
        invariant
            n == ev@.len(),
            i < c <= ev@.len(),
            target == list_children(
                ev@,
                c as int,
                item_depth as int,
                walk_depth as int,
                level,
                ordered,
                block_views(blocks@),
            ),
        decreases ev@.len() - c,
    {
        proof {
            lemma_span_end_bounds(ev@, c as int);
        }
        if is_item(ev, c) {
            push_list_item(ev, c, item_depth, level, ordered, blocks);
        } else {
            walk(ev, c, walk_depth, blocks);
        }
        c = span_end_at(ev, c);
    }
}

fn push_list_item(
    ev: &Vec<HtmlEvent>,
    i: usize,
    depth: usize,
    level: u8,
    ordered: bool,
    blocks: &mut Vec<SemanticBlock>,
)
    ensures
        block_views(final(blocks)@) == list_item(ev@, i as int, depth as int, level, ordered, block_views(old(blocks)@)),
    decreases ev@.len() - i, 2int, 0int,
{
    if i >= ev.len() || depth > MAX_XHTML_DEPTH {
        return;
    }
    let collapsed = collapse_inline(ev, i, depth + 1, true);
    push_decorated(blocks, BlockKind::ListItem { depth: level, ordered }, collapsed);
    let mut found: Vec<(usize, bool)> = Vec::new();
    find_nested_lists(ev, i, depth + 1, &mut found);
    let ghost lists = nested_lists(ev@, i as int, depth + 1);
    assert(found@.map_values(|x: (usize, bool)| (x.0 as int, x.1)) =~= lists);
    proof {
        lemma_nested_lists_bounds(ev@, i as int, depth + 1);
    }
    let nested = if level == 255 {
        255
    } else {
        level + 1
    };
    let ghost target = nested_items(ev@, i as int, depth as int, nested, 0, block_views(blocks@));
    let mut k: usize = 0;
    while k < found.len()
        invariant
            k <= found@.len(),
            i < ev@.len(),
            depth <= MAX_XHTML_DEPTH,
            nested == deeper(level),
            lists == nested_lists(ev@, i as int, depth + 1),
            found@.map_values(|x: (usize, bool)| (x.0 as int, x.1)) == lists,
            forall|j: int| 0 <= j < lists.len() ==> i <= #[trigger] lists[j].0 < ev@.len(),
            target == nested_items(ev@, i as int, depth as int, nested, k as int, block_views(blocks@)),
        decreases found.len() - k,
    {
        let (l, o) = found[k];
        assert(lists[k as int] == (l as int, o));
        items_of(ev, l, depth + 1, depth + 1, nested, o, blocks);
        k = k + 1;
    }
}

/// The blocks of a chapter from its parsed walk: everything the walk from
/// the root yields, empty blocks dropped.
pub fn convert_events(events: &Vec<HtmlEvent>) -> (r: Vec<SemanticBlock>)
    ensures
        block_views(r@) == converted(events@),
{
    let mut blocks: Vec<SemanticBlock> = Vec::new();
    assert(block_views(blocks@) =~= Seq::<BlockView>::empty());
    walk(events, 0, 0, &mut blocks);
    assert(block_views(blocks@) == walk_node(events@, 0, 0, Seq::empty()));
    let ghost all = block_views(blocks@);
    let mut kept: Vec<SemanticBlock> = Vec::new();
    let mut k: usize = 0;
    while k < blocks.len()
        invariant
            k <= blocks@.len(),
            all == block_views(blocks@),
            block_views(kept@) == nonempty(all.take(k as int)),
        decreases blocks.len() - k,
    {
        assert(all.take(k + 1).drop_last() =~= all.take(k as int));
        if !blocks[k].text.as_str().is_empty() {
            push_block(&mut kept, blocks[k].clone());
        }
        k = k + 1;
    }
    assert(all.take(k as int) =~= all);
    kept
}

/// The number of `<` bytes.
pub open spec fn openings(bytes: Seq<u8>) -> nat
    decreases bytes.len(),
{
    if bytes.len() == 0 {
        0
    } else {
        openings(bytes.drop_last()) + if bytes.last() == 60u8 {
            1nat
        } else {
            0nat
        }
    }
}

fn count_openings(bytes: &[u8]) -> (n: usize)
    ensures
        n == openings(bytes@),
{
    let mut n: usize = 0;
    let mut k: usize = 0;
    while k < bytes.len()
        invariant
            k <= bytes@.len(),
            n == openings(bytes@.take(k as int)),
            n <= k,
        decreases bytes.len() - k,
    {
        assert(bytes@.take(k + 1).drop_last() =~= bytes@.take(k as int));
        if bytes[k] == 60u8 {
            n = n + 1;
        }
        k = k + 1;
    }
    assert(bytes@.take(k as int) =~= bytes@);
    n
}

/// Converts one chapter with an explicit node budget: more than
/// `max_nodes` `<` bytes are refused before any parsing, exactly at
/// `max_nodes + 1`; otherwise the parsed tree is converted.
pub fn convert_xhtml_with_limits(source: &str, max_nodes: usize) -> (r: Result<Vec<SemanticBlock>, XhtmlBoundsError>)
    ensures
        openings(encode_utf8(source@)) <= usize::MAX,
        match r {
            Ok(blocks) => openings(encode_utf8(source@)) <= max_nodes && block_views(blocks@) == converted(
                html_tree_events(source@),
            ),
            Err(e) => openings(encode_utf8(source@)) > max_nodes && e == XhtmlBoundsError::TooManyNodes {
                nodes: openings(encode_utf8(source@)) as usize,
                limit: max_nodes,
            },
        },
{
    let count = count_openings(source.as_bytes());
    if count > max_nodes {
        return Err(XhtmlBoundsError::TooManyNodes { nodes: count, limit: max_nodes });
    }
    let events = parse_events(source);
    Ok(convert_events(&events))
}

/// Converts one chapter under the default node budget.
pub fn convert_xhtml(source: &str) -> (r: Result<Vec<SemanticBlock>, XhtmlBoundsError>)
    ensures
        match r {
            Ok(blocks) => openings(encode_utf8(source@)) <= MAX_XHTML_NODES && block_views(blocks@) == converted(
                html_tree_events(source@),
            ),
            Err(e) => openings(encode_utf8(source@)) > MAX_XHTML_NODES && e == XhtmlBoundsError::TooManyNodes {
                nodes: openings(encode_utf8(source@)) as usize,
                limit: MAX_XHTML_NODES,
            },
        },
{
    convert_xhtml_with_limits(source, MAX_XHTML_NODES)
}

/// The inline roles element names carry, in both directions: `em`, `i`,
/// `cite`, `dfn` and `var` (italics) mark emphasis; `strong` and `b` (bold)
/// mark strong text; `code`, `kbd`, `samp` and `tt` mark code; `a` marks a
/// link; and no other name marks any inline role.
pub proof fn lemma_inline_roles(name: Seq<char>)
    ensures
        (spec_tag(name) == Tag::Inline(InlineKind::Emphasis)) <==> (name == "em"@ || name == "i"@ || name == "cite"@
            || name == "dfn"@ || name == "var"@),
        (spec_tag(name) == Tag::Inline(InlineKind::Strong)) <==> (name == "strong"@ || name == "b"@),
        (spec_tag(name) == Tag::Inline(InlineKind::Code)) <==> (name == "code"@ || name == "kbd"@ || name == "samp"@
            || name == "tt"@),
        (spec_tag(name) == Tag::Inline(InlineKind::Link)) <==> name == "a"@,
{
    reveal_strlit("a");
    reveal_strlit("b");
    reveal_strlit("blockquote");
    reveal_strlit("br");
    reveal_strlit("cite");
    reveal_strlit("code");
    reveal_strlit("dfn");
    reveal_strlit("em");
    reveal_strlit("h1");
    reveal_strlit("h2");
    reveal_strlit("h3");
    reveal_strlit("h4");
    reveal_strlit("h5");
    reveal_strlit("h6");
    reveal_strlit("head");
    reveal_strlit("hr");
    reveal_strlit("i");
    reveal_strlit("kbd");
    reveal_strlit("li");
    reveal_strlit("ol");
    reveal_strlit("p");
    reveal_strlit("pre");
    reveal_strlit("samp");
    reveal_strlit("script");
    reveal_strlit("strong");
    reveal_strlit("style");
    reveal_strlit("table");
    reveal_strlit("td");
    reveal_strlit("template");
    reveal_strlit("th");
    reveal_strlit("tr");
    reveal_strlit("tt");
    reveal_strlit("ul");
    reveal_strlit("var");
    if name == "em"@ {
        assert(name.len() == 2 && name[0] == 'e' && name[1] == 'm');
    }
    if name == "i"@ {
        assert(name.len() == 1 && name[0] == 'i');
    }
    if name == "cite"@ {
        assert(name.len() == 4 && name[0] == 'c' && name[1] == 'i' && name[2] == 't' && name[3] == 'e');
    }
    if name == "dfn"@ {
        assert(name.len() == 3 && name[0] == 'd' && name[1] == 'f' && name[2] == 'n');
    }
    if name == "var"@ {
        assert(name.len() == 3 && name[0] == 'v' && name[1] == 'a' && name[2] == 'r');
    }
    if name == "strong"@ {
        assert(name.len() == 6 && name[0] == 's' && name[1] == 't' && name[2] == 'r' && name[3] == 'o' && name[4] == 'n' && name[5] == 'g');
    }
    if name == "b"@ {
        assert(name.len() == 1 && name[0] == 'b');
    }
    if name == "code"@ {
        assert(name.len() == 4 && name[0] == 'c' && name[1] == 'o' && name[2] == 'd' && name[3] == 'e');
    }
    if name == "kbd"@ {
        assert(name.len() == 3 && name[0] == 'k' && name[1] == 'b' && name[2] == 'd');
    }
    if name == "samp"@ {
        assert(name.len() == 4 && name[0] == 's' && name[1] == 'a' && name[2] == 'm' && name[3] == 'p');
    }
    if name == "tt"@ {
        assert(name.len() == 2 && name[0] == 't' && name[1] == 't');
    }
    if name == "a"@ {
        assert(name.len() == 1 && name[0] == 'a');
    }
}

} // verus!
