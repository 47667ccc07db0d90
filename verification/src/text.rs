//! Plain-text ingestion: bounded input, safe decoding, and paragraph structure.
//!
//! Pipeline: bound the byte count, detect a byte-order mark, require strict
//! UTF-8 unless a UTF-16 BOM selects `encoding_rs`, normalize CR and CRLF to
//! logical LF, then partition the text into paragraphs and deliberate blank
//! lines. Canonical text stays byte-faithful to the source apart from those
//! documented normalizations, which keeps logical positions meaningful.
use vstd::prelude::*;
use vstd::utf8::*;
use vstd::string::*;

use core::ops::Range;

use crate::error::DocumentError;
use crate::model::{
    Block,
    BlockKind,
    Document,
    DocumentId,
    InlineSpan,
    default_navigation_of,
    chain_end,
    chain_from,
    lemma_chain_push,
    lemma_ranges_push,
    ranges_of,
    tiles,
};
use crate::paths::{file_stem, spec_file_stem};
use crate::strings::{
    char_boundary,
    lemma_boundary_after_ascii,
    push_char,
    push_decimal,
    push_str,
    spec_decimal,
    utf8,
};

verus! {

/// What `encoding_rs` makes of `bytes` as BOM-less UTF-16 in the given byte
/// order: the decoded text and whether any malformed unit was replaced.
pub uninterp spec fn utf16_decoding(bytes: Seq<u8>, big_endian: bool) -> (Seq<char>, bool);

/// Calls `Encoding::decode_without_bom_handling` from `encoding_rs` on the
/// UTF-16BE or UTF-16LE encoding; the result is named `utf16_decoding`.
#[verifier::external_body]
fn decode_utf16(bytes: &[u8], big_endian: bool) -> (r: (String, bool))
    ensures
        (r.0@, r.1) == utf16_decoding(bytes@, big_endian),
{
    let encoding = if big_endian { encoding_rs::UTF_16BE } else { encoding_rs::UTF_16LE };
    let (text, had_errors) = encoding.decode_without_bom_handling(bytes);
    (text.into_owned(), had_errors)
}

/// Whether `n` is the length of the longest valid UTF-8 prefix of `bytes`.
pub open spec fn valid_up_to(bytes: Seq<u8>, n: int) -> bool {
    &&& 0 <= n <= bytes.len()
    &&& valid_utf8(bytes.take(n))
    &&& forall|m: int| n < m <= bytes.len() ==> !valid_utf8(#[trigger] bytes.take(m))
}

/// Calls `std::str::from_utf8`: the text when `bytes` is valid UTF-8, else
/// the error's `valid_up_to`, which std documents as the largest index such
/// that the prefix before it is valid.
#[verifier::external_body]
pub(crate) fn utf8_text(bytes: &[u8]) -> (r: Result<&str, usize>)
    ensures
        match r {
            Ok(s) => valid_utf8(bytes@) && s.spec_bytes() == bytes@,
            Err(n) => !valid_utf8(bytes@) && valid_up_to(bytes@, n as int),
        },
{
    match std::str::from_utf8(bytes) {
        Ok(text) => Ok(text),
        Err(error) => Err(error.valid_up_to()),
    }
}

/// Inclusive plain-text size policy.
///
/// The value bounds allocation before parsing.
#[derive(Clone, Copy, Debug)]
pub struct TextLimits {
    /// Inclusive maximum source size in bytes.
    pub max_bytes: u64,
}

impl Default for TextLimits {
    fn default() -> (l: Self)
        ensures
            l.max_bytes == 32 * 1024 * 1024,
    {
        TextLimits { max_bytes: 32 * 1024 * 1024 }
    }
}

/// A byte-order mark at the head of a source.
#[derive(Clone, Copy, Debug, PartialEq, Eq, Structural)]
pub enum Bom {
    NoMark,
    Utf8,
    Utf16Le,
    Utf16Be,
}

/// The mark that opens `bytes` and its length.
pub open spec fn spec_bom(bytes: Seq<u8>) -> (Bom, int) {
    if bytes.len() >= 3 && bytes[0] == 0xEF && bytes[1] == 0xBB && bytes[2] == 0xBF {
        (Bom::Utf8, 3)
    } else if bytes.len() >= 2 && bytes[0] == 0xFF && bytes[1] == 0xFE {
        (Bom::Utf16Le, 2)
    } else if bytes.len() >= 2 && bytes[0] == 0xFE && bytes[1] == 0xFF {
        (Bom::Utf16Be, 2)
    } else {
        (Bom::NoMark, 0)
    }
}

impl Bom {
    /// Detects the byte-order mark that opens `bytes`.
    pub fn detect(bytes: &[u8]) -> (r: (Bom, usize))
        ensures
            (r.0, r.1 as int) == spec_bom(bytes@),
    {
        let n = bytes.len();
        if n >= 3 && bytes[0] == 0xEF && bytes[1] == 0xBB && bytes[2] == 0xBF {
            (Bom::Utf8, 3)
        } else if n >= 2 && bytes[0] == 0xFF && bytes[1] == 0xFE {
            (Bom::Utf16Le, 2)
        } else if n >= 2 && bytes[0] == 0xFE && bytes[1] == 0xFF {
            (Bom::Utf16Be, 2)
        } else {
            (Bom::NoMark, 0)
        }
    }

    /// The human name of a marked UTF-16 encoding, for error messages.
    pub fn utf16_name(self) -> (name: Option<&'static str>)
        ensures
            name == spec_utf16_name(self),
    {
        match self {
            Bom::Utf16Le => Some("UTF-16LE"),
            Bom::Utf16Be => Some("UTF-16BE"),
            Bom::NoMark | Bom::Utf8 => None,
        }
    }
}

/// The name a UTF-16 mark announces.
pub open spec fn spec_utf16_name(bom: Bom) -> Option<&'static str> {
    match bom {
        Bom::Utf16Le => Some("UTF-16LE"),
        Bom::Utf16Be => Some("UTF-16BE"),
        _ => None,
    }
}

/// Number of zero bytes at even (`odd == false`) or odd positions of `w`.
pub open spec fn zeros_at_parity(w: Seq<u8>, odd: bool) -> int
    decreases w.len(),
{
    if w.len() == 0 {
        0
    } else {
        zeros_at_parity(w.drop_last(), odd) + if w.last() == 0 && ((w.len() - 1) % 2 == 1) == odd {
            1int
        } else {
            0
        }
    }
}

/// Index of the first zero byte of `w`, or `w.len()` when it has none.
pub open spec fn first_zero(w: Seq<u8>) -> int
    decreases w.len(),
{
    if w.len() == 0 {
        0
    } else if first_zero(w.drop_last()) < w.len() - 1 {
        first_zero(w.drop_last())
    } else if w.last() == 0 {
        w.len() - 1
    } else {
        w.len() as int
    }
}

/// The opening window in which a UTF-16 signature is looked for.
pub open spec fn signature_window(bytes: Seq<u8>) -> Seq<u8> {
    bytes.take(if bytes.len() < 512 { bytes.len() as int } else { 512 })
}

/// Where a UTF-16-like alternating-NUL pattern starts, if `bytes` has one.
///
/// Within the first 512 bytes, a window of at least 4 bytes whose denser
/// parity holds at least one zero per four bytes of half its length marks
/// unmarked UTF-16; the reported offset is that of its first zero byte (0
/// when the window holds none).
pub open spec fn spec_unmarked_utf16(bytes: Seq<u8>) -> Option<int> {
    let w = signature_window(bytes);
    let even = zeros_at_parity(w, false);
    let odd = zeros_at_parity(w, true);
    if w.len() < 4 {
        None
    } else if (if even >= odd { even } else { odd }) * 4 >= w.len() / 2 {
        Some(if first_zero(w) < w.len() { first_zero(w) } else { 0 })
    } else {
        None
    }
}

proof fn lemma_zero_counts_bounded(w: Seq<u8>)
    ensures
        0 <= zeros_at_parity(w, false) <= w.len(),
        0 <= zeros_at_parity(w, true) <= w.len(),
        0 <= first_zero(w) <= w.len(),
    decreases w.len(),
{
    if w.len() > 0 {
        lemma_zero_counts_bounded(w.drop_last());
    }
}

/// Finds the start of a UTF-16-like alternating-NUL pattern.
///
/// ASCII text encoded as UTF-16 without a BOM still validates as UTF-8
/// because every second byte is NUL. A dense single-parity NUL run in the
/// opening window therefore marks content that would otherwise display
/// unreadable gaps.
pub fn unmarked_utf16_signature(bytes: &[u8]) -> (r: Option<usize>)
    ensures
        match r {
            Some(o) => spec_unmarked_utf16(bytes@) == Some(o as int),
            None => spec_unmarked_utf16(bytes@) is None,
        },
{
    let n = if bytes.len() < 512 { bytes.len() } else { 512 };
    let ghost w = signature_window(bytes@);
    if n < 4 {
        return None;
    }
    let mut even: usize = 0;
    let mut odd: usize = 0;
    let mut first: usize = 0;
    let mut i: usize = 0;
    assert(w.take(0) =~= Seq::<u8>::empty());
    while i < n
        invariant
            n <= bytes@.len(),
            n <= 512,
            w == bytes@.take(n as int),
            i <= n,
            even == zeros_at_parity(w.take(i as int), false),
            odd == zeros_at_parity(w.take(i as int), true),
            first == first_zero(w.take(i as int)),
            even <= i,
            odd <= i,
        decreases n - i,
    {
        proof {
            let t = w.take(i as int + 1);
            assert(t.drop_last() =~= w.take(i as int));
            assert(t.last() == bytes@[i as int]);
            lemma_zero_counts_bounded(w.take(i as int));
        }
        if bytes[i] == 0 {
            if i % 2 == 1 {
                odd = odd + 1;
            } else {
                even = even + 1;
            }
        } else if first == i {
            first = i + 1;
        }
        i = i + 1;
    }
    assert(w.take(n as int) =~= w);
    proof {
        lemma_zero_counts_bounded(w);
    }
    let dense = if even >= odd { even } else { odd };
    if dense * 4 >= n / 2 {
        Some(if first < n { first } else { 0 })
    } else {
        None
    }
}

/// The short reason an invalid UTF-8 source is rejected with.
pub open spec fn spec_invalid_cause(bytes: Seq<u8>, valid: int) -> Seq<char> {
    if spec_unmarked_utf16(bytes.skip(valid)) is Some {
        "the content appears to be UTF-16 without a byte-order mark"@
    } else if bytes.len() >= valid + 3 && bytes[valid] == 0xEF && bytes[valid + 1] == 0xBB
        && bytes[valid + 2] == 0xBF {
        "a stray byte-order mark appears inside the text"@
    } else {
        "invalid UTF-8 sequence"@
    }
}

/// Explains why UTF-8 validation stopped at `valid_up_to`.
pub fn invalid_utf8_cause(bytes: &[u8], valid_up_to: usize) -> (cause: &'static str)
    requires
        valid_up_to <= bytes@.len(),
    ensures
        cause@ == spec_invalid_cause(bytes@, valid_up_to as int),
{
    let tail = slice_from(bytes, valid_up_to);
    if unmarked_utf16_signature(tail).is_some() {
        "the content appears to be UTF-16 without a byte-order mark"
    } else if tail.len() >= 3 && tail[0] == 0xEF && tail[1] == 0xBB && tail[2] == 0xBF {
        "a stray byte-order mark appears inside the text"
    } else {
        "invalid UTF-8 sequence"
    }
}

/// The bytes of `bytes` from `start` on.
pub fn slice_from(bytes: &[u8], start: usize) -> (tail: &[u8])
    requires
        start <= bytes@.len(),
    ensures
        tail@ == bytes@.skip(start as int),
{
    let (_, tail) = bytes.split_at(start);
    tail
}

/// The fixed detail given for damaged marked UTF-16.
pub open spec fn utf16_damage_detail() -> Seq<char> {
    "the stream contains bytes that do not form valid units for the advertised encoding"@
}

/// What decoding `bytes` read from `path` gives, exactly.
pub open spec fn decode_outcome(path: Seq<char>, bytes: Seq<u8>, r: Result<String, DocumentError>) -> bool {
    let (bom, n) = spec_bom(bytes);
    let rest = bytes.skip(n);
    if bom == Bom::Utf16Le || bom == Bom::Utf16Be {
        let (text, damaged) = utf16_decoding(rest, bom == Bom::Utf16Be);
        if damaged {
            r matches Err(DocumentError::InvalidUtf16 { path: p, encoding, detail }) && p@ == path
                && Some(encoding) == spec_utf16_name(bom) && detail@ == utf16_damage_detail()
        } else {
            r matches Ok(t) && t@ == text
        }
    } else if valid_utf8(rest) {
        match spec_unmarked_utf16(rest) {
            Some(o) => r matches Err(DocumentError::InvalidEncoding { path: p, offset, cause })
                && p@ == path && offset == o
                && cause@ == "the content appears to be UTF-16 without a byte-order mark"@,
            None => r matches Ok(t) && t@ == decode_utf8(rest),
        }
    } else {
        exists|k: int|
            valid_up_to(rest, k) && (r matches Err(
                DocumentError::InvalidEncoding { path: p, offset, cause },
            ) && p@ == path && offset == n + k && cause@ == spec_invalid_cause(rest, k))
    }
}

/// Decodes raw source bytes into logical text.
///
/// UTF-8 (with or without BOM) must validate strictly; malformed sequences
/// are rejected with their offset instead of being replaced. Only an explicit
/// UTF-16 byte-order mark routes bytes through `encoding_rs`.
pub fn decode_text(path: &str, bytes: &[u8]) -> (r: Result<String, DocumentError>)
    ensures
        decode_outcome(path@, bytes@, r),
{
    let (bom, bom_len) = Bom::detect(bytes);
    let rest = slice_from(bytes, bom_len);
    if bom == Bom::Utf16Le || bom == Bom::Utf16Be {
        let big_endian = bom == Bom::Utf16Be;
        let (text, had_errors) = decode_utf16(rest, big_endian);
        if had_errors {
            let encoding = match bom.utf16_name() {
                Some(name) => name,
                None => "UTF-16",
            };
            return Err(
                DocumentError::InvalidUtf16 {
                    path: path.to_owned(),
                    encoding,
                    detail: "the stream contains bytes that do not form valid units for the advertised encoding".to_owned(),
                },
            );
        }
        return Ok(text);
    }
    match utf8_text(rest) {
        Ok(text) => {
            if let Some(offset) = unmarked_utf16_signature(rest) {
                return Err(
                    DocumentError::InvalidEncoding {
                        path: path.to_owned(),
                        offset,
                        cause: "the content appears to be UTF-16 without a byte-order mark".to_owned(),
                    },
                );
            }
            proof {
                encode_utf8_decode_utf8(text@);
            }
            Ok(text.to_owned())
        },
        Err(valid) => {
            let total = bytes.len();
            assert(valid <= rest@.len());
            assert(rest@.len() == total - bom_len);
            let cause = invalid_utf8_cause(rest, valid);
            Err(
                DocumentError::InvalidEncoding {
                    path: path.to_owned(),
                    offset: bom_len + valid,
                    cause: cause.to_owned(),
                },
            )
        },
    }
}

/// Whether a byte is horizontal whitespace (space or tab).
pub open spec fn is_blank_byte(x: u8) -> bool {
    x == 32 || x == 9
}

/// Index of the first newline at or after `p`, or the text's end.
pub open spec fn line_end(b: Seq<u8>, p: int) -> int
    decreases b.len() - p,
{
    if p < 0 || p >= b.len() {
        b.len() as int
    } else if b[p] == 10 {
        p
    } else {
        line_end(b, p + 1)
    }
}

/// Whether the line running from `p` holds only spaces and tabs.
pub open spec fn line_blank(b: Seq<u8>, p: int) -> bool
    decreases b.len() - p,
{
    if p < 0 || p >= b.len() {
        true
    } else if b[p] == 10 {
        true
    } else {
        is_blank_byte(b[p]) && line_blank(b, p + 1)
    }
}

/// Where the line running from `p` ends, its newline included.
pub open spec fn next_line(b: Seq<u8>, p: int) -> int {
    if line_end(b, p) < b.len() {
        line_end(b, p) + 1
    } else {
        b.len() as int
    }
}

/// Whether a line begins at `p`.
pub open spec fn line_start(b: Seq<u8>, p: int) -> bool {
    p == 0 || (0 < p <= b.len() && b[p - 1] == 10)
}

/// Every line that begins in `lo..hi` holds visible content.
pub open spec fn lines_nonblank(b: Seq<u8>, lo: int, hi: int) -> bool {
    forall|p: int| lo <= p < hi && #[trigger] line_start(b, p) ==> !line_blank(b, p)
}

/// One block of a plain-text document: a single blank line (its newline
/// included), or a paragraph made of whole non-blank lines.
pub open spec fn text_block_ok(b: Seq<u8>, blk: Block) -> bool {
    let lo = blk.spec_range().start as int;
    let hi = blk.spec_range().end as int;
    &&& lo < hi
    &&& line_start(b, lo)
    &&& match blk.spec_kind() {
        BlockKind::BlankLine => line_blank(b, lo) && hi == next_line(b, lo),
        BlockKind::Paragraph => (hi == b.len() || b[hi - 1] == 10) && lines_nonblank(b, lo, hi),
        _ => false,
    }
}

/// The paragraph structure of plain text: blocks tile the text, each is a
/// blank line or a run of non-blank lines, and no paragraph directly
/// follows another, so every run of non-blank lines is one paragraph.
pub open spec fn text_structure(b: Seq<u8>, blocks: Seq<Block>) -> bool {
    &&& tiles(ranges_of(blocks), b)
    &&& forall|k: int| 0 <= k < blocks.len() ==> #[trigger] text_block_ok(b, blocks[k])
    &&& forall|k: int|
        0 < k < blocks.len() && (#[trigger] blocks[k]).spec_kind() == BlockKind::Paragraph
            ==> blocks[k - 1].spec_kind() != BlockKind::Paragraph
}

/// The state of the paragraph scan after the lines before `cursor`.
pub open spec fn scan_ok(b: Seq<u8>, blocks: Seq<Block>, open: Option<usize>, cursor: int) -> bool {
    &&& scan_core(b, blocks, open, cursor)
    &&& (blocks.len() > 0 ==> blocks.last().spec_kind() != BlockKind::Paragraph)
}

/// The scan state without the rule on the last emitted block.
pub open spec fn scan_core(b: Seq<u8>, blocks: Seq<Block>, open: Option<usize>, cursor: int) -> bool {
    &&& 0 <= cursor <= b.len()
    &&& line_start(b, cursor)
    &&& char_boundary(b, cursor)
    &&& chain_from(ranges_of(blocks), 0, b)
    &&& chain_end(ranges_of(blocks), 0) == match open {
        Some(s) => s as int,
        None => cursor,
    }
    &&& forall|k: int| 0 <= k < blocks.len() ==> #[trigger] text_block_ok(b, blocks[k])
    &&& forall|k: int|
        0 < k < blocks.len() && (#[trigger] blocks[k]).spec_kind() == BlockKind::Paragraph
            ==> blocks[k - 1].spec_kind() != BlockKind::Paragraph
    &&& match open {
        Some(s) => {
            &&& s < cursor
            &&& line_start(b, s as int)
            &&& char_boundary(b, s as int)
            &&& lines_nonblank(b, s as int, cursor)
        },
        None => true,
    }
}

/// Scanning across bytes that hold no newline keeps the line's verdicts.
proof fn lemma_line_scan(b: Seq<u8>, p: int, q: int)
    requires
        0 <= p <= q <= b.len(),
        forall|j: int| p <= j < q ==> b[j] != 10,
    ensures
        line_blank(b, p) == ((forall|j: int| p <= j < q ==> is_blank_byte(#[trigger] b[j]))
            && line_blank(b, q)),
        line_end(b, p) == line_end(b, q),
    decreases q - p,
{
    if p < q {
        lemma_line_scan(b, p + 1, q);
        if line_blank(b, p + 1) && !line_blank(b, p) {
            assert(!is_blank_byte(b[p]));
        }
        if !(forall|j: int| p + 1 <= j < q ==> is_blank_byte(#[trigger] b[j])) {
            let j = choose|j: int| p + 1 <= j < q && !is_blank_byte(#[trigger] b[j]);
            assert(!(forall|j: int| p <= j < q ==> is_blank_byte(#[trigger] b[j])));
        }
    }
}

/// A line start is a character boundary of UTF-8 text.
proof fn lemma_line_start_boundary(b: Seq<u8>, p: int)
    requires
        valid_utf8(b),
        line_start(b, p),
        0 <= p <= b.len(),
    ensures
        char_boundary(b, p),
{
    reveal(char_boundary);
    if p > 0 {
        lemma_boundary_after_ascii(b, p - 1);
    }
}

/// Closing the open paragraph at the current line start.
proof fn lemma_close_paragraph(b: Seq<u8>, blocks: Seq<Block>, s: usize, cursor: int, para: Block)
    requires
        scan_ok(b, blocks, Some(s), cursor),
        para.spec_kind() == BlockKind::Paragraph,
        para.spec_range().start == s,
        para.spec_range().end == cursor,
    ensures
        scan_core(b, blocks.push(para), None, cursor),
{
    let next = blocks.push(para);
    lemma_ranges_push(blocks, para);
    lemma_chain_push(ranges_of(blocks), para.spec_range(), 0, b);
    assert(text_block_ok(b, para));
    assert forall|k: int| 0 <= k < next.len() implies #[trigger] text_block_ok(b, next[k]) by {
        if k < blocks.len() {
            assert(next[k] == blocks[k]);
        }
    }
    assert forall|k: int|
        0 < k < next.len() && (#[trigger] next[k]).spec_kind() == BlockKind::Paragraph
            implies next[k - 1].spec_kind() != BlockKind::Paragraph by {
        if k < blocks.len() {
            assert(next[k] == blocks[k]);
            assert(next[k - 1] == blocks[k - 1]);
        } else {
            assert(next[k - 1] == blocks.last());
        }
    }
}

/// Emitting one blank line that ends with the newline at `i`.
proof fn lemma_push_blank(b: Seq<u8>, blocks: Seq<Block>, cursor: int, i: int, blank: Block)
    requires
        valid_utf8(b),
        scan_core(b, blocks, None, cursor),
        cursor <= i < b.len(),
        b[i] == 10,
        forall|j: int| cursor <= j < i ==> b[j] != 10,
        forall|j: int| cursor <= j < i ==> is_blank_byte(#[trigger] b[j]),
        blank.spec_kind() == BlockKind::BlankLine,
        blank.spec_range().start == cursor,
        blank.spec_range().end == i + 1,
    ensures
        scan_ok(b, blocks.push(blank), None, i + 1),
{
    let next = blocks.push(blank);
    lemma_line_scan(b, cursor, i);
    lemma_line_start_boundary(b, i + 1);
    lemma_ranges_push(blocks, blank);
    lemma_chain_push(ranges_of(blocks), blank.spec_range(), 0, b);
    assert(text_block_ok(b, blank));
    assert forall|k: int| 0 <= k < next.len() implies #[trigger] text_block_ok(b, next[k]) by {
        if k < blocks.len() {
            assert(next[k] == blocks[k]);
        }
    }
    assert forall|k: int|
        0 < k < next.len() && (#[trigger] next[k]).spec_kind() == BlockKind::Paragraph
            implies next[k - 1].spec_kind() != BlockKind::Paragraph by {
        assert(next[k] == blocks[k]);
        assert(next[k - 1] == blocks[k - 1]);
    }
}

/// Adding one non-blank line that ends with the newline at `i` to the open
/// paragraph, opening it at this line when none is open.
proof fn lemma_extend_paragraph(b: Seq<u8>, blocks: Seq<Block>, open: Option<usize>, cursor: int, i: int)
    requires
        valid_utf8(b),
        scan_ok(b, blocks, open, cursor),
        cursor <= i < b.len(),
        b[i] == 10,
        forall|j: int| cursor <= j < i ==> b[j] != 10,
        !(forall|j: int| cursor <= j < i ==> is_blank_byte(#[trigger] b[j])),
        cursor <= usize::MAX,
    ensures
        scan_ok(
            b,
            blocks,
            Some(
                match open {
                    Some(s) => s,
                    None => cursor as usize,
                },
            ),
            i + 1,
        ),
{
    lemma_line_scan(b, cursor, i);
    lemma_line_start_boundary(b, i + 1);
    let s = match open {
        Some(s) => s as int,
        None => cursor,
    };
    assert forall|p: int| s <= p < i + 1 && #[trigger] line_start(b, p) implies !line_blank(b, p) by {
        if p > cursor {
            assert(b[p - 1] != 10);
        }
    }
}

/// Builds the paragraph and blank-line blocks of normalized text.
///
/// Lines are blank when every character is a space or tab; runs of
/// non-blank lines become one [`BlockKind::Paragraph`] reflow unit, and every
/// blank line becomes its own preserved [`BlockKind::BlankLine`].
pub fn build_blocks(canonical: &str) -> (blocks: Vec<Block>)
    ensures
        text_structure(canonical.spec_bytes(), blocks@),
{
    let bytes = canonical.as_bytes();
    let n = bytes.len();
    let ghost b = bytes@;
    proof {
        encode_utf8_valid_utf8(canonical@);
        reveal(char_boundary);
        is_char_boundary_start_end_of_seq(b);
        assert(ranges_of(Seq::<Block>::empty()) =~= Seq::<Range<usize>>::empty());
    }
    let mut blocks: Vec<Block> = Vec::new();
    let mut open: Option<usize> = None;
    let mut cursor: usize = 0;
    let mut blank = true;
    let mut i: usize = 0;
    while i < n
        invariant
            b == bytes@,
            b == canonical.spec_bytes(),
            valid_utf8(b),
            n == b.len(),
            cursor <= i <= n,
            scan_ok(b, blocks@, open, cursor as int),
            forall|j: int| cursor <= j < i ==> b[j] != 10,
            blank == (forall|j: int| cursor <= j < i ==> is_blank_byte(#[trigger] b[j])),
        decreases n - i,
    {
        if bytes[i] == 10 {
            if blank {
                if let Some(start) = open {
                    let para = Block::new(BlockKind::Paragraph, start..cursor);
                    proof {
                        lemma_close_paragraph(b, blocks@, start, cursor as int, para);
                    }
                    blocks.push(para);
                    open = None;
                }
                let line = Block::new(BlockKind::BlankLine, cursor..i + 1);
                proof {
                    lemma_push_blank(b, blocks@, cursor as int, i as int, line);
                }
                blocks.push(line);
            } else {
                proof {
                    lemma_extend_paragraph(b, blocks@, open, cursor as int, i as int);
                }
                if open.is_none() {
                    open = Some(cursor);
                }
            }
            cursor = i + 1;
            blank = true;
        } else {
            let ghost was = blank;
            blank = blank && (bytes[i] == 32 || bytes[i] == 9);
            proof {
                if was && !blank {
                    assert(!is_blank_byte(b[i as int]));
                }
            }
        }
        i = i + 1;
    }
    proof {
        lemma_line_scan(b, cursor as int, n as int);
    }
    if blank {
        if let Some(start) = open {
            let para = Block::new(BlockKind::Paragraph, start..cursor);
            proof {
                lemma_close_paragraph(b, blocks@, start, cursor as int, para);
            }
            blocks.push(para);
            open = None;
        }
        if cursor < n {
            let line = Block::new(BlockKind::BlankLine, cursor..n);
            proof {
                let next = blocks@.push(line);
                lemma_ranges_push(blocks@, line);
                lemma_chain_push(ranges_of(blocks@), line.spec_range(), 0, b);
                assert(text_block_ok(b, line));
                assert forall|k: int| 0 <= k < next.len() implies #[trigger] text_block_ok(b, next[k]) by {
                    if k < blocks@.len() {
                        assert(next[k] == blocks@[k]);
                    }
                }
                assert forall|k: int|
                    0 < k < next.len() && (#[trigger] next[k]).spec_kind() == BlockKind::Paragraph
                        implies next[k - 1].spec_kind() != BlockKind::Paragraph by {
                    assert(next[k] == blocks@[k]);
                    assert(next[k - 1] == blocks@[k - 1]);
                }
            }
            blocks.push(line);
        }
    } else {
        let start = match open {
            Some(s) => s,
            None => cursor,
        };
        let para = Block::new(BlockKind::Paragraph, start..n);
        proof {
            let next = blocks@.push(para);
            lemma_ranges_push(blocks@, para);
            lemma_chain_push(ranges_of(blocks@), para.spec_range(), 0, b);
            assert forall|p: int| start <= p < n && #[trigger] line_start(b, p) implies !line_blank(b, p) by {
                if p > cursor {
                    assert(b[p - 1] != 10);
                }
            }
            assert(text_block_ok(b, para));
            assert forall|k: int| 0 <= k < next.len() implies #[trigger] text_block_ok(b, next[k]) by {
                if k < blocks@.len() {
                    assert(next[k] == blocks@[k]);
                }
            }
            assert forall|k: int|
                0 < k < next.len() && (#[trigger] next[k]).spec_kind() == BlockKind::Paragraph
                    implies next[k - 1].spec_kind() != BlockKind::Paragraph by {
                if k < blocks@.len() {
                    assert(next[k] == blocks@[k]);
                    assert(next[k - 1] == blocks@[k - 1]);
                } else {
                    assert(next[k - 1] == blocks@.last());
                }
            }
        }
        blocks.push(para);
    }
    blocks
}

/// Text after newline normalization, given whether the previous character
/// was a carriage return: every CR becomes LF, and an LF right after a CR
/// is dropped, so CRLF, CR, and LF all read as one LF.
pub open spec fn normalized_from(s: Seq<char>, after_cr: bool) -> Seq<char>
    decreases s.len(),
{
    if s.len() == 0 {
        Seq::empty()
    } else if s[0] == '\n' && after_cr {
        normalized_from(s.drop_first(), false)
    } else if s[0] == '\r' {
        seq!['\n'] + normalized_from(s.drop_first(), true)
    } else {
        seq![s[0]] + normalized_from(s.drop_first(), false)
    }
}

/// Text with CRLF and lone CR replaced by LF.
pub open spec fn normalized(s: Seq<char>) -> Seq<char> {
    normalized_from(s, false)
}

/// Normalized text never holds a carriage return.
pub proof fn lemma_normalized_has_no_cr(s: Seq<char>, after_cr: bool)
    ensures
        forall|i: int|
            0 <= i < normalized_from(s, after_cr).len() ==> #[trigger] normalized_from(
                s,
                after_cr,
            )[i] != '\r',
    decreases s.len(),
{
    if s.len() > 0 {
        lemma_normalized_has_no_cr(s.drop_first(), s[0] == '\r');
        let rest = normalized_from(s.drop_first(), s[0] == '\r');
        if !(s[0] == '\n' && after_cr) {
            let head = if s[0] == '\r' { seq!['\n'] } else { seq![s[0]] };
            assert forall|i: int| 0 <= i < (head + rest).len() implies (head + rest)[i] != '\r' by {
                if i > 0 {
                    assert((head + rest)[i] == rest[i - 1]);
                }
            }
        }
    }
}

/// Replaces CRLF and lone CR with logical LF newlines.
pub fn normalize_newlines(text: &str) -> (out: String)
    ensures
        out@ == normalized(text@),
{
    let mut out = String::new();
    let mut after_cr = false;
    assert(text@.skip(0) =~= text@);
    for ch in it: text.chars()
        invariant
            it.seq() == text@,
            out@ + normalized_from(text@.skip(it.index() as int), after_cr) == normalized(text@),
    {
        let ghost i = it.index() as int;
        let ghost rest = text@.skip(i);
        assert(rest[0] == ch);
        assert(rest.drop_first() =~= text@.skip(i + 1));
        let ghost before = out@;
        if ch == '\r' {
            push_char(&mut out, '\n');
            after_cr = true;
        } else if ch == '\n' && after_cr {
            after_cr = false;
        } else {
            push_char(&mut out, ch);
            after_cr = false;
        }
        assert(out@ + normalized_from(text@.skip(i + 1), after_cr) =~= normalized(text@));
    }
    assert(text@.skip(text@.len() as int) =~= Seq::<char>::empty());
    assert(out@ + Seq::<char>::empty() =~= out@);
    out
}

/// What [`document_from_text`] builds: one untitled section over the
/// normalized text, with its paragraph structure and default navigation.
pub open spec fn text_document(d: Document, id: DocumentId, title: Option<Seq<char>>, text: Seq<char>) -> bool {
    &&& d.spec_id() == id
    &&& d.spec_title() == title
    &&& d.spec_canonical() == normalized(text)
    &&& d.spec_sections().len() == 1
    &&& d.spec_sections()[0].spec_title() is None
    &&& text_structure(utf8(normalized(text)), d.spec_sections()[0].spec_blocks())
    &&& d.spec_inline() == Seq::<InlineSpan>::empty()
    &&& default_navigation_of(d)
}

/// Builds a document from already-decoded logical text.
///
/// Lines are classified blank when every character is a space or tab; runs of
/// non-blank lines become one paragraph, and every blank line becomes its own
/// preserved blank-line block. The result is always a document: the blocks
/// tile the text by construction.
pub fn document_from_text(id: DocumentId, title: Option<String>, text: &str) -> (r: Result<Document, String>)
    ensures
        r matches Ok(d) && text_document(
            d,
            id,
            match title {
                Some(t) => Some(t@),
                None => None,
            },
            text@,
        ),
{
    let canonical = normalize_newlines(text);
    let blocks = build_blocks(canonical.as_str());
    Document::from_single_section(id, title, canonical, blocks)
}

/// The display title for a path: its file stem, or "Untitled".
pub open spec fn spec_title_for(path: Seq<char>) -> Seq<char> {
    match spec_file_stem(path) {
        Some(stem) => stem,
        None => "Untitled"@,
    }
}

/// The display title derived from a path's file stem.
pub fn file_stem_title(path: &str) -> (t: String)
    ensures
        t@ == spec_title_for(path@),
{
    title_for(path)
}

fn title_for(path: &str) -> (t: String)
    ensures
        t@ == spec_title_for(path@),
{
    match file_stem(path) {
        Some(stem) => stem,
        None => "Untitled".to_owned(),
    }
}

/// The document a successful text load yields from decoded text `t`.
pub open spec fn loaded_text(d: Document, path: Seq<char>, t: Seq<char>) -> bool {
    text_document(
        d,
        d.spec_id(),
        Some(spec_title_for(path)),
        t,
    ) && d.spec_id().spec_repr() == path + ":"@ + spec_decimal(utf8(t).len())
}

/// Parses in-memory bytes with the plain-text pipeline.
///
/// Inputs above `limits.max_bytes` reject before decoding; decoding errors
/// pass through unchanged.
pub fn load_text_bytes(path: &str, bytes: &[u8], limits: &TextLimits) -> (r: Result<Document, DocumentError>)
    ensures
        bytes@.len() > limits.max_bytes ==> (r matches Err(
            DocumentError::TooLarge { path: p, size, limit },
        ) && p@ == path@ && size == bytes@.len() && limit == limits.max_bytes),
        bytes@.len() <= limits.max_bytes ==> exists|decoded: Result<String, DocumentError>|
            decode_outcome(path@, bytes@, decoded) && match decoded {
                Err(e) => r == Err::<Document, DocumentError>(e),
                Ok(t) => r matches Ok(d) && loaded_text(d, path@, t@),
            },
{
    let size = bytes.len() as u64;
    if size > limits.max_bytes {
        return Err(DocumentError::TooLarge { path: path.to_owned(), size, limit: limits.max_bytes });
    }
    let decoded = decode_text(path, bytes);
    let ghost outcome = decoded;
    match decoded {
        Err(e) => {
            assert(decode_outcome(path@, bytes@, outcome));
            Err(e)
        },
        Ok(text) => {
            let title = title_for(path);
            let mut repr = String::new();
            push_str(&mut repr, path);
            push_str(&mut repr, ":");
            let len = text.as_str().as_bytes().len();
            push_decimal(&mut repr, len as u64);
            let id = DocumentId::new(repr);
            let r = document_from_text(id, Some(title), text.as_str());
            match r {
                Ok(d) => {
                    assert(decode_outcome(path@, bytes@, outcome));
                    Ok(d)
                },
                Err(detail) => Err(DocumentError::InvalidEncoding { path: path.to_owned(), offset: 0, cause: detail }),
            }
        },
    }
}

} // verus!
