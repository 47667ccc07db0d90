//! Pre-parse structural gates for untrusted XML control documents.
//!
//! The scan counts element openings and nesting over raw bytes without
//! building a tree or resolving any declaration: comments, CDATA sections
//! and processing instructions are skipped, and every other `<!...>`
//! construct is a DTD declaration and rejects.
use vstd::prelude::*;
use quick_xml::events::Event;

use crate::bytes::{find, has_at, lemma_find_found, matches_at, spec_find};
use crate::strings::{push_decimal, push_str, spec_decimal};

verus! {

/// Inclusive XML structure limits applied before semantic parsing.
#[derive(Clone, Copy, Debug, PartialEq, Eq, Structural)]
pub struct XmlLimits {
    /// Maximum nested element depth.
    pub max_depth: usize,
    /// Maximum number of element openings.
    pub max_nodes: usize,
}

impl Default for XmlLimits {
    fn default() -> (l: Self)
        ensures
            l.max_depth == 256,
            l.max_nodes == 1_000_000,
    {
        XmlLimits { max_depth: 256, max_nodes: 1_000_000 }
    }
}

/// A structural XML policy rejection found before semantic parsing.
#[derive(Clone, Copy, Debug, PartialEq, Eq, Structural)]
pub enum XmlStructureError {
    /// Element nesting crossed the inclusive depth limit.
    TooDeep { depth: usize, limit: usize },
    /// Element openings crossed the inclusive node limit.
    TooManyNodes { nodes: usize, limit: usize },
    /// A DTD declaration was present.
    DtdDeclaration,
    /// A control document is not well-formed XML.
    Malformed { offset: usize },
}

/// The text of each rejection.
pub open spec fn xml_error_text(e: XmlStructureError) -> Seq<char> {
    match e {
        XmlStructureError::TooDeep { depth, limit } => "XML depth "@ + spec_decimal(depth as nat)
            + " exceeds the "@ + spec_decimal(limit as nat) + " depth limit"@,
        XmlStructureError::TooManyNodes { nodes, limit } => "XML opening count "@ + spec_decimal(
            nodes as nat,
        ) + " exceeds the "@ + spec_decimal(limit as nat) + " node limit"@,
        XmlStructureError::DtdDeclaration => "DTD and entity declarations are not allowed"@,
        XmlStructureError::Malformed { offset } => "malformed XML near byte offset "@ + spec_decimal(
            offset as nat,
        ),
    }
}

impl XmlStructureError {
    /// The text of this rejection.
    pub fn message(&self) -> (m: String)
        ensures
            m@ == xml_error_text(*self),
    {
        let mut m = String::new();
        match *self {
            XmlStructureError::TooDeep { depth, limit } => {
                push_str(&mut m, "XML depth ");
                push_decimal(&mut m, depth as u64);
                push_str(&mut m, " exceeds the ");
                push_decimal(&mut m, limit as u64);
                push_str(&mut m, " depth limit");
            },
            XmlStructureError::TooManyNodes { nodes, limit } => {
                push_str(&mut m, "XML opening count ");
                push_decimal(&mut m, nodes as u64);
                push_str(&mut m, " exceeds the ");
                push_decimal(&mut m, limit as u64);
                push_str(&mut m, " node limit");
            },
            XmlStructureError::DtdDeclaration => {
                push_str(&mut m, "DTD and entity declarations are not allowed");
            },
            XmlStructureError::Malformed { offset } => {
                push_str(&mut m, "malformed XML near byte offset ");
                push_decimal(&mut m, offset as u64);
            },
        }
        m
    }
}

/// `<!--`
pub open spec fn comment_open() -> Seq<u8> {
    seq![0x3cu8, 0x21u8, 0x2du8, 0x2du8]
}

/// `-->`
pub open spec fn comment_close() -> Seq<u8> {
    seq![0x2du8, 0x2du8, 0x3eu8]
}

/// `<![CDATA[`
pub open spec fn cdata_open() -> Seq<u8> {
    seq![0x3cu8, 0x21u8, 0x5bu8, 0x43u8, 0x44u8, 0x41u8, 0x54u8, 0x41u8, 0x5bu8]
}

/// `]]>`
pub open spec fn cdata_close() -> Seq<u8> {
    seq![0x5du8, 0x5du8, 0x3eu8]
}

/// `<?`
pub open spec fn pi_open() -> Seq<u8> {
    seq![0x3cu8, 0x3fu8]
}

/// `?>`
pub open spec fn pi_close() -> Seq<u8> {
    seq![0x3fu8, 0x3eu8]
}

/// `<!`
pub open spec fn declaration_open() -> Seq<u8> {
    seq![0x3cu8, 0x21u8]
}

/// `</`
pub open spec fn end_tag_open() -> Seq<u8> {
    seq![0x3cu8, 0x2fu8]
}

/// The index just past the first `terminator` at or after `start`, or the
/// end of the source when there is none.
pub open spec fn spec_skip_through(source: Seq<u8>, start: int, terminator: Seq<u8>) -> int {
    match spec_find(source, start, terminator) {
        Some(i) => i + terminator.len(),
        None => source.len() as int,
    }
}

/// ASCII white space as `u8::is_ascii_whitespace` defines it.
pub open spec fn is_ascii_space(b: u8) -> bool {
    b == 0x20 || b == 0x09 || b == 0x0a || b == 0x0c || b == 0x0d
}

/// The last byte of `s` that is not ASCII white space is `/`.
pub open spec fn ends_with_slash(s: Seq<u8>) -> bool
    decreases s.len(),
{
    if s.len() == 0 {
        false
    } else if is_ascii_space(s.last()) {
        ends_with_slash(s.drop_last())
    } else {
        s.last() == 0x2fu8
    }
}

/// Scans a tag body from `cursor` under the open quote `quote`: the index
/// after the closing `>` outside quotes, with whether the tag self-closes,
/// or the end of the source when the tag never closes.
pub open spec fn tag_scan(source: Seq<u8>, start: int, cursor: int, quote: Option<u8>) -> (int, bool)
    decreases source.len() - cursor,
{
    if cursor < 0 || cursor >= source.len() {
        (source.len() as int, false)
    } else {
        let b = source[cursor];
        match quote {
            Some(q) => if b == q {
                tag_scan(source, start, cursor + 1, None)
            } else {
                tag_scan(source, start, cursor + 1, quote)
            },
            None => if b == 0x27u8 || b == 0x22u8 {
                tag_scan(source, start, cursor + 1, Some(b))
            } else if b == 0x3eu8 {
                (cursor + 1, ends_with_slash(source.subrange(start, cursor)))
            } else {
                tag_scan(source, start, cursor + 1, None)
            },
        }
    }
}

/// The end of the tag whose body starts at `start`.
pub open spec fn spec_tag_end(source: Seq<u8>, start: int) -> (int, bool) {
    tag_scan(source, start, start, None)
}

pub proof fn lemma_tag_scan_bounds(source: Seq<u8>, start: int, cursor: int, quote: Option<u8>)
    requires
        0 <= cursor <= source.len(),
    ensures
        cursor < tag_scan(source, start, cursor, quote).0 <= source.len() || (cursor == source.len()
            && tag_scan(source, start, cursor, quote).0 == source.len()),
    decreases source.len() - cursor,
{
    if cursor < source.len() {
        let b = source[cursor];
        lemma_tag_scan_bounds(source, start, cursor + 1, None);
        lemma_tag_scan_bounds(source, start, cursor + 1, quote);
        lemma_tag_scan_bounds(source, start, cursor + 1, Some(b));
    }
}

/// One step past `n`, saturating at `usize::MAX`.
pub open spec fn sat_inc(n: int) -> int {
    if n >= usize::MAX {
        usize::MAX as int
    } else {
        n + 1
    }
}

/// The structural verdict for the source from `cursor`, with the current
/// nesting `depth` and opening count `nodes`.
pub open spec fn structure_from(
    source: Seq<u8>,
    limits: XmlLimits,
    cursor: int,
    depth: int,
    nodes: int,
) -> Result<(), XmlStructureError>
    decreases source.len() - cursor,
{
    if cursor < 0 || cursor > source.len() {
        Ok(())
    } else {
        match spec_find(source, cursor, seq![0x3cu8]) {
            None => Ok(()),
            Some(start) => {
                proof {
                    lemma_find_found(source, cursor, seq![0x3cu8]);
                    lemma_find_found(source, start + 4, comment_close());
                    lemma_find_found(source, start + 9, cdata_close());
                    lemma_find_found(source, start + 2, pi_close());
                }
                if has_at(source, start, comment_open()) {
                    structure_from(source, limits, spec_skip_through(source, start + 4, comment_close()), depth, nodes)
                } else if has_at(source, start, cdata_open()) {
                    structure_from(source, limits, spec_skip_through(source, start + 9, cdata_close()), depth, nodes)
                } else if has_at(source, start, pi_open()) {
                    structure_from(source, limits, spec_skip_through(source, start + 2, pi_close()), depth, nodes)
                } else if has_at(source, start, declaration_open()) {
                    Err(XmlStructureError::DtdDeclaration)
                } else if has_at(source, start, end_tag_open()) {
                    proof {
                        lemma_tag_scan_bounds(source, start + 2, start + 2, None);
                    }
                    structure_from(
                        source,
                        limits,
                        spec_tag_end(source, start + 2).0,
                        if depth > 0 { depth - 1 } else { 0 },
                        nodes,
                    )
                } else {
                    let opened = sat_inc(nodes);
                    let opening_depth = sat_inc(depth);
                    proof {
                        lemma_tag_scan_bounds(source, start + 1, start + 1, None);
                    }
                    let (end, self_closing) = spec_tag_end(source, start + 1);
                    if opened > limits.max_nodes {
                        Err(XmlStructureError::TooManyNodes { nodes: opened as usize, limit: limits.max_nodes })
                    } else if opening_depth > limits.max_depth {
                        Err(XmlStructureError::TooDeep { depth: opening_depth as usize, limit: limits.max_depth })
                    } else {
                        structure_from(
                            source,
                            limits,
                            end,
                            if self_closing { depth } else { opening_depth },
                            opened,
                        )
                    }
                }
            },
        }
    }
}

fn skip_through(source: &[u8], start: usize, terminator: &[u8]) -> (r: usize)
    requires
        start <= source@.len(),
    ensures
        r == spec_skip_through(source@, start as int, terminator@),
{
    match find(source, start, terminator) {
        Some(i) => {
            proof {
                lemma_find_found(source@, start as int, terminator@);
                assert(has_at(source@, i as int, terminator@));
                assert(i + terminator@.len() <= source@.len());
                assert(source@.len() == source.len() && terminator@.len() == terminator.len());
            }
            i + terminator.len()
        },
        None => source.len(),
    }
}

fn ends_in_slash(source: &[u8], start: usize, end: usize) -> (r: bool)
    requires
        start <= end <= source@.len(),
    ensures
        r == ends_with_slash(source@.subrange(start as int, end as int)),
{
    let mut k = end;
    while k > start
        invariant
            start <= k <= end <= source@.len(),
            ends_with_slash(source@.subrange(start as int, end as int)) == ends_with_slash(
                source@.subrange(start as int, k as int),
            ),
        decreases k - start,
    {
        let b = source[k - 1];
        assert(source@.subrange(start as int, k as int).drop_last() =~= source@.subrange(
            start as int,
            k - 1,
        ));
        if b == 0x20 || b == 0x09 || b == 0x0a || b == 0x0c || b == 0x0d {
            k = k - 1;
        } else {
            return b == 0x2f;
        }
    }
    false
}

fn tag_end(source: &[u8], start: usize) -> (r: (usize, bool))
    requires
        start <= source@.len(),
    ensures
        r.0 == spec_tag_end(source@, start as int).0,
        r.1 == spec_tag_end(source@, start as int).1,
{
    let mut quote: Option<u8> = None;
    let mut cursor = start;
    while cursor < source.len()
        invariant
            start <= cursor <= source@.len(),
            tag_scan(source@, start as int, cursor as int, quote) == spec_tag_end(source@, start as int),
        decreases source.len() - cursor,
    {
        let b = source[cursor];
        match quote {
            Some(q) => {
                if b == q {
                    quote = None;
                }
            },
            None => {
                if b == 0x27 || b == 0x22 {
                    quote = Some(b);
                } else if b == 0x3e {
                    let closing = ends_in_slash(source, start, cursor);
                    return (cursor + 1, closing);
                }
            },
        }
        cursor = cursor + 1;
    }
    (source.len(), false)
}

/// Checks XML structure without building a tree or resolving declarations,
/// returning the first limit or declaration rejection in source order.
pub fn validate_xml_structure(source: &[u8], limits: XmlLimits) -> (r: Result<(), XmlStructureError>)
    ensures
        r == structure_from(source@, limits, 0, 0, 0),
{
    let comment = vec![0x3cu8, 0x21u8, 0x2du8, 0x2du8];
    let comment_end = vec![0x2du8, 0x2du8, 0x3eu8];
    let cdata = vec![0x3cu8, 0x21u8, 0x5bu8, 0x43u8, 0x44u8, 0x41u8, 0x54u8, 0x41u8, 0x5bu8];
    let cdata_end = vec![0x5du8, 0x5du8, 0x3eu8];
    let pi = vec![0x3cu8, 0x3fu8];
    let pi_end = vec![0x3fu8, 0x3eu8];
    let declaration = vec![0x3cu8, 0x21u8];
    let end_tag = vec![0x3cu8, 0x2fu8];
    let open = vec![0x3cu8];
    assert(comment@ =~= comment_open());
    assert(comment_end@ =~= comment_close());
    assert(cdata@ =~= cdata_open());
    assert(cdata_end@ =~= cdata_close());
    assert(pi@ =~= pi_open());
    assert(pi_end@ =~= pi_close());
    assert(declaration@ =~= declaration_open());
    assert(end_tag@ =~= end_tag_open());
    assert(open@ =~= seq![0x3cu8]);
    let mut cursor: usize = 0;
    let mut depth: usize = 0;
    let mut nodes: usize = 0;
    loop
        invariant
            cursor <= source@.len(),
            comment@ == comment_open(),
            comment_end@ == comment_close(),
            cdata@ == cdata_open(),
            cdata_end@ == cdata_close(),
            pi@ == pi_open(),
            pi_end@ == pi_close(),
            declaration@ == declaration_open(),
            end_tag@ == end_tag_open(),
            open@ == seq![0x3cu8],
            structure_from(source@, limits, cursor as int, depth as int, nodes as int) == structure_from(
                source@,
                limits,
                0,
                0,
                0,
            ),
        decreases source.len() - cursor,
    {
        let start = match find(source, cursor, &open) {
            Some(s) => s,
            None => return Ok(()),
        };
        proof {
            lemma_find_found(source@, cursor as int, seq![0x3cu8]);
        }
        if matches_at(source, start, &comment) {
            proof {
                lemma_find_found(source@, start + 4, comment_close());
            }
            cursor = skip_through(source, start + 4, &comment_end);
        } else if matches_at(source, start, &cdata) {
            proof {
                lemma_find_found(source@, start + 9, cdata_close());
            }
            cursor = skip_through(source, start + 9, &cdata_end);
        } else if matches_at(source, start, &pi) {
            proof {
                lemma_find_found(source@, start + 2, pi_close());
            }
            cursor = skip_through(source, start + 2, &pi_end);
        } else if matches_at(source, start, &declaration) {
            return Err(XmlStructureError::DtdDeclaration);
        } else if matches_at(source, start, &end_tag) {
            proof {
                lemma_tag_scan_bounds(source@, start + 2, start + 2, None);
            }
            depth = if depth > 0 { depth - 1 } else { 0 };
            cursor = tag_end(source, start + 2).0;
        } else {
            let opened = if nodes == usize::MAX { nodes } else { nodes + 1 };
            if opened > limits.max_nodes {
                return Err(XmlStructureError::TooManyNodes { nodes: opened, limit: limits.max_nodes });
            }
            proof {
                lemma_tag_scan_bounds(source@, start + 1, start + 1, None);
            }
            let (end, self_closing) = tag_end(source, start + 1);
            let opening_depth = if depth == usize::MAX { depth } else { depth + 1 };
            if opening_depth > limits.max_depth {
                return Err(XmlStructureError::TooDeep { depth: opening_depth, limit: limits.max_depth });
            }
            if !self_closing {
                depth = opening_depth;
            }
            nodes = opened;
            cursor = end;
        }
    }
}


/// One event of quick-xml's reader, as far as the control-document pass
/// tells them apart, with the reader position where it matters.
#[derive(Clone, Copy, Debug, PartialEq, Eq, Structural)]
pub enum XmlToken {
    /// A start tag.
    Open,
    /// An end tag, with the position after it.
    Close(u64),
    /// The end of input, with the position there.
    Eof(u64),
    /// A document type declaration.
    DocType,
    /// Any other event (text, empty element, comment, declaration, ...).
    Other,
    /// A reader error, with the position of the error.
    Fault(u64),
}

/// The events that `quick_xml::Reader` reads from `source` with end names
/// checked, up to and including the first end of input or error.
pub uninterp spec fn xml_events(source: Seq<u8>) -> Seq<XmlToken>;

/// Whether a token ends the event stream.
pub open spec fn ends_stream(t: XmlToken) -> bool {
    t is Eof || t is Fault
}

/// Runs `quick_xml::Reader::read_event` over `source` (end names checked)
/// until the end of input or the first error, keeping each event's kind and
/// the reader position the pass reports. Claimed: the events depend on the
/// bytes alone, and the stream stops at, and only at, its last event, which
/// is the end of input or an error.
#[verifier::external_body]
fn read_xml_events(source: &[u8]) -> (tokens: Vec<XmlToken>)
    ensures
        tokens@ == xml_events(source@),
        tokens@.len() > 0,
        ends_stream(tokens@.last()),
        forall|i: int| 0 <= i < tokens@.len() - 1 ==> !ends_stream(#[trigger] tokens@[i]),
{
    let mut reader = quick_xml::Reader::from_reader(source);
    reader.config_mut().check_end_names = true;
    let mut tokens = Vec::new();
    loop {
        let (token, last) = match reader.read_event() {
            Ok(Event::Start(_)) => (XmlToken::Open, false),
            Ok(Event::End(_)) => (XmlToken::Close(reader.buffer_position()), false),
            Ok(Event::Eof) => (XmlToken::Eof(reader.buffer_position()), true),
            Ok(Event::DocType(_)) => (XmlToken::DocType, false),
            Ok(_) => (XmlToken::Other, false),
            Err(_) => (XmlToken::Fault(reader.error_position()), true),
        };
        tokens.push(token);
        if last { return tokens; }
    }
}

/// A reader position as a byte offset, `usize::MAX` when it does not fit.
pub open spec fn offset_of(p: u64) -> usize {
    if p > usize::MAX {
        usize::MAX
    } else {
        p as usize
    }
}

/// The verdict of walking the events from `i` at element depth `depth`: a
/// start tag nests (saturating), an end tag at depth 0 or a reader error is
/// malformed at its position, a document type declaration is refused, and
/// the end of input is well-formed only with every element closed.
pub open spec fn control_walk(tokens: Seq<XmlToken>, i: int, depth: usize) -> Result<(), XmlStructureError>
    decreases tokens.len() - i,
{
    if i < 0 || i >= tokens.len() {
        Err(XmlStructureError::Malformed { offset: 0 })
    } else {
        match tokens[i] {
            XmlToken::Open => control_walk(tokens, i + 1, if depth == usize::MAX { depth } else { (depth + 1) as usize }),
            XmlToken::Close(p) => if depth == 0 {
                Err(XmlStructureError::Malformed { offset: offset_of(p) })
            } else {
                control_walk(tokens, i + 1, (depth - 1) as usize)
            },
            XmlToken::Eof(p) => if depth == 0 {
                Ok(())
            } else {
                Err(XmlStructureError::Malformed { offset: offset_of(p) })
            },
            XmlToken::DocType => Err(XmlStructureError::DtdDeclaration),
            XmlToken::Other => control_walk(tokens, i + 1, depth),
            XmlToken::Fault(p) => Err(XmlStructureError::Malformed { offset: offset_of(p) }),
        }
    }
}

/// The verdict on a control document: the common structure gate first,
/// then UTF-8, then the strict event walk.
pub open spec fn spec_control_xml(source: Seq<u8>, limits: XmlLimits) -> Result<(), XmlStructureError> {
    match structure_from(source, limits, 0, 0, 0) {
        Err(e) => Err(e),
        Ok(()) => if !vstd::utf8::valid_utf8(source) {
            Err(XmlStructureError::Malformed { offset: 0 })
        } else {
            control_walk(xml_events(source), 0, 0)
        },
    }
}

fn position_offset(p: u64) -> (o: usize)
    ensures
        o == offset_of(p),
{
    if p > usize::MAX as u64 {
        usize::MAX
    } else {
        p as usize
    }
}

/// Validates control-document well-formedness without resolving entities:
/// the structure gate (declarations, depth, node count), then UTF-8, then
/// quick-xml's strict reading with end names checked, refusing a document
/// type declaration and requiring every element closed at the end.
pub fn validate_control_xml(source: &[u8], limits: XmlLimits) -> (r: Result<(), XmlStructureError>)
    ensures
        r == spec_control_xml(source@, limits),
{
    let gate = validate_xml_structure(source, limits);
    if let Err(e) = gate {
        return Err(e);
    }
    match crate::text::utf8_text(source) {
        Err(_) => return Err(XmlStructureError::Malformed { offset: 0 }),
        Ok(_) => {},
    }
    let tokens = read_xml_events(source);
    let mut depth: usize = 0;
    let mut i: usize = 0;
    while i < tokens.len()
        invariant
            tokens@ == xml_events(source@),
            tokens@.len() > 0,
            ends_stream(tokens@.last()),
            forall|k: int| 0 <= k < tokens@.len() - 1 ==> !ends_stream(#[trigger] tokens@[k]),
            i < tokens@.len(),
            control_walk(tokens@, i as int, depth) == control_walk(tokens@, 0, 0),
            structure_from(source@, limits, 0, 0, 0) is Ok,
            vstd::utf8::valid_utf8(source@),
        decreases tokens.len() - i,
    {
        match tokens[i] {
            XmlToken::Open => {
                depth = depth.saturating_add(1);
            },
            XmlToken::Close(p) => {
                if depth == 0 {
                    return Err(XmlStructureError::Malformed { offset: position_offset(p) });
                }
                depth = depth - 1;
            },
            XmlToken::Eof(p) => {
                if depth == 0 {
                    return Ok(());
                }
                return Err(XmlStructureError::Malformed { offset: position_offset(p) });
            },
            XmlToken::DocType => {
                return Err(XmlStructureError::DtdDeclaration);
            },
            XmlToken::Other => {},
            XmlToken::Fault(p) => {
                return Err(XmlStructureError::Malformed { offset: position_offset(p) });
            },
        }
        proof {
            if i + 1 >= tokens@.len() {
                assert(tokens@[i as int] == tokens@.last());
            }
        }
        i = i + 1;
    }
    Err(XmlStructureError::Malformed { offset: 0 })
}

} // verus!
