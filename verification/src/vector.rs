//! Bounded, static SVG and SVGZ decoding: an input gate, a bounded gzip
//! probe, the XML structure gate, and a syntactic preflight that rejects
//! scripts, animation, external references and unbounded work before the
//! SVG parser ever runs.
use vstd::prelude::*;
use vstd::utf8::*;
use std::io::Read;

use crate::image::{default_image_limits, DecodedImage, ImageLimits};
use crate::paths::{ascii_lower, chars_of, text_of, to_ascii_lower};
use crate::strings::owned;
use crate::terminal_image::{first_non_white, is_white, spec_trim, trim, white};
use crate::bytes::{has_at, matches_at};
use crate::text::utf8_text;
use crate::strings::{push_decimal, push_str, spec_decimal};
use crate::structured::{structure_from, validate_xml_structure, xml_error_text, XmlLimits, XmlStructureError};

verus! {

/// Vector container selected from content evidence or a declaration.
#[derive(Clone, Copy, Debug, PartialEq, Eq, Structural)]
pub enum VectorFormat {
    /// Uncompressed UTF-8 SVG XML.
    Svg,
    /// Gzip-compressed SVG XML.
    Svgz,
}

/// Inclusive parser and rasterizer work limits beyond the shared image
/// limits.
#[derive(Clone, Copy, Debug, PartialEq, Eq, Structural)]
pub struct VectorLimits {
    /// XML nesting and element-opening limits.
    pub xml: XmlLimits,
    /// Maximum total bytes in all path `d` attributes.
    pub max_path_data_bytes: usize,
    /// Maximum command letters in all path `d` attributes.
    pub max_path_commands: usize,
    /// Maximum transform functions in all `transform` attributes.
    pub max_transform_operations: usize,
    /// Maximum bytes in any one XML attribute value.
    pub max_attribute_bytes: usize,
}

/// The vector policy: XML depth 128 and 100 000 element openings, 1 MiB
/// of path data, 100 000 path commands, 10 000 transform functions, and
/// 1 MiB in any attribute value.
pub open spec fn default_vector_limits() -> VectorLimits {
    VectorLimits {
        xml: XmlLimits { max_depth: 128, max_nodes: 100_000 },
        max_path_data_bytes: 1_048_576,
        max_path_commands: 100_000,
        max_transform_operations: 10_000,
        max_attribute_bytes: 1_048_576,
    }
}

impl Default for VectorLimits {
    fn default() -> (l: Self)
        ensures
            l == default_vector_limits(),
    {
        VectorLimits {
            xml: XmlLimits { max_depth: 128, max_nodes: 100_000 },
            max_path_data_bytes: 1024 * 1024,
            max_path_commands: 100_000,
            max_transform_operations: 10_000,
            max_attribute_bytes: 1024 * 1024,
        }
    }
}

/// Kind of syntactic work rejected before parsing or rendering.
#[derive(Clone, Copy, Debug, PartialEq, Eq, Structural)]
pub enum VectorWork {
    /// Bytes across path-data attributes.
    PathDataBytes,
    /// Path command letters.
    PathCommands,
    /// Transform functions.
    TransformOperations,
    /// Bytes in one attribute value.
    AttributeBytes,
}

/// The debug spelling of a work kind.
pub open spec fn work_name(w: VectorWork) -> Seq<char> {
    match w {
        VectorWork::PathDataBytes => "PathDataBytes"@,
        VectorWork::PathCommands => "PathCommands"@,
        VectorWork::TransformOperations => "TransformOperations"@,
        VectorWork::AttributeBytes => "AttributeBytes"@,
    }
}

/// Typed SVG/SVGZ policy, parse, and render failure.
#[derive(Clone, Debug, PartialEq, Eq)]
pub enum VectorImageError {
    /// The input is larger than the limit every image obeys.
    InputTooLarge { size: u64, limit: u64 },
    /// Input had neither gzip magic nor an SVG root or declaration.
    UnsupportedFormat,
    /// Actual XML bytes crossed the inclusive decompression limit.
    XmlTooLarge { limit: u64 },
    /// The gzip stream ended before its member and trailer were complete.
    GzipTruncated,
    /// The gzip trailer did not match the decompressed stream.
    GzipChecksum,
    /// The gzip header or deflate stream was malformed.
    GzipCorrupt,
    /// Bytes remained after the single permitted gzip member.
    GzipTrailingData,
    /// SVG XML was not UTF-8.
    InvalidUtf8,
    /// XML structure or declarations violated the pre-parse policy.
    UnsafeXml { source: XmlStructureError },
    /// An executable or animated element was present.
    ForbiddenElement { name: String },
    /// An event or animation attribute was present.
    ForbiddenAttribute { name: String },
    /// A non-local resource reference was present.
    ExternalReference { attribute: String },
    /// Filters and style sheets, whose cost cannot be bounded beforehand.
    UnsupportedFeature { feature: &'static str },
    /// Syntactic work crossed an inclusive limit.
    WorkLimit { work: VectorWork, observed: usize, limit: usize },
    /// Safe XML did not parse as a supported SVG tree.
    ParseFailed { detail: String },
    /// A declared side crossed the shared image dimension limit.
    DimensionTooLarge { width: u32, height: u32, limit: u32 },
    /// Output area crossed the shared pixel limit.
    TooManyPixels { pixels: u64, limit: u64 },
    /// The RGBA8 output crossed the shared allocation limit.
    AllocationTooLarge { bytes: u64, limit: u64 },
    /// The already-budgeted pixmap could not be allocated.
    RenderAllocationFailed,
}

/// The mathematical value of a [`VectorImageError`]: the same variants
/// with every text taken as its characters.
pub enum VectorFault {
    InputTooLarge { size: u64, limit: u64 },
    UnsupportedFormat,
    XmlTooLarge { limit: u64 },
    GzipTruncated,
    GzipChecksum,
    GzipCorrupt,
    GzipTrailingData,
    InvalidUtf8,
    UnsafeXml { source: XmlStructureError },
    ForbiddenElement { name: Seq<char> },
    ForbiddenAttribute { name: Seq<char> },
    ExternalReference { attribute: Seq<char> },
    UnsupportedFeature { feature: Seq<char> },
    WorkLimit { work: VectorWork, observed: usize, limit: usize },
    ParseFailed { detail: Seq<char> },
    DimensionTooLarge { width: u32, height: u32, limit: u32 },
    TooManyPixels { pixels: u64, limit: u64 },
    AllocationTooLarge { bytes: u64, limit: u64 },
    RenderAllocationFailed,
}

impl View for VectorImageError {
    type V = VectorFault;

    open spec fn view(&self) -> VectorFault {
        match self {
            VectorImageError::InputTooLarge { size, limit } => VectorFault::InputTooLarge { size: *size, limit: *limit },
            VectorImageError::UnsupportedFormat => VectorFault::UnsupportedFormat,
            VectorImageError::XmlTooLarge { limit } => VectorFault::XmlTooLarge { limit: *limit },
            VectorImageError::GzipTruncated => VectorFault::GzipTruncated,
            VectorImageError::GzipChecksum => VectorFault::GzipChecksum,
            VectorImageError::GzipCorrupt => VectorFault::GzipCorrupt,
            VectorImageError::GzipTrailingData => VectorFault::GzipTrailingData,
            VectorImageError::InvalidUtf8 => VectorFault::InvalidUtf8,
            VectorImageError::UnsafeXml { source } => VectorFault::UnsafeXml { source: *source },
            VectorImageError::ForbiddenElement { name } => VectorFault::ForbiddenElement { name: name@ },
            VectorImageError::ForbiddenAttribute { name } => VectorFault::ForbiddenAttribute { name: name@ },
            VectorImageError::ExternalReference { attribute } => VectorFault::ExternalReference { attribute: attribute@ },
            VectorImageError::UnsupportedFeature { feature } => VectorFault::UnsupportedFeature { feature: feature@ },
            VectorImageError::WorkLimit { work, observed, limit } => VectorFault::WorkLimit {
                work: *work,
                observed: *observed,
                limit: *limit,
            },
            VectorImageError::ParseFailed { detail } => VectorFault::ParseFailed { detail: detail@ },
            VectorImageError::DimensionTooLarge { width, height, limit } => VectorFault::DimensionTooLarge {
                width: *width,
                height: *height,
                limit: *limit,
            },
            VectorImageError::TooManyPixels { pixels, limit } => VectorFault::TooManyPixels { pixels: *pixels, limit: *limit },
            VectorImageError::AllocationTooLarge { bytes, limit } => VectorFault::AllocationTooLarge {
                bytes: *bytes,
                limit: *limit,
            },
            VectorImageError::RenderAllocationFailed => VectorFault::RenderAllocationFailed,
        }
    }
}

/// The text of each failure.
pub open spec fn vector_error_text(f: VectorFault) -> Seq<char> {
    match f {
        VectorFault::InputTooLarge { size, limit } => "vector resource is too large: "@ + spec_decimal(size as nat)
            + " bytes exceeds the "@ + spec_decimal(limit as nat) + " byte input limit"@,
        VectorFault::UnsupportedFormat => "unsupported vector data: expected SVG XML or an SVGZ gzip stream"@,
        VectorFault::XmlTooLarge { limit } => "SVG XML is too large: more than "@ + spec_decimal(limit as nat)
            + " decompressed bytes"@,
        VectorFault::GzipTruncated => "SVGZ stream is truncated"@,
        VectorFault::GzipChecksum => "SVGZ checksum does not match its decompressed data"@,
        VectorFault::GzipCorrupt => "SVGZ stream is corrupt"@,
        VectorFault::GzipTrailingData => "SVGZ contains trailing or concatenated data"@,
        VectorFault::InvalidUtf8 => "SVG XML is not valid UTF-8"@,
        VectorFault::UnsafeXml { source } => "unsafe SVG XML structure: "@ + xml_error_text(source),
        VectorFault::ForbiddenElement { name } => "SVG element '"@ + name + "' is not allowed in a static image"@,
        VectorFault::ForbiddenAttribute { name } => "SVG attribute '"@ + name + "' is not allowed in a static image"@,
        VectorFault::ExternalReference { attribute } => "external SVG resource reference in '"@ + attribute
            + "' is not allowed"@,
        VectorFault::UnsupportedFeature { feature } => "unsupported bounded SVG feature: "@ + feature,
        VectorFault::WorkLimit { work, observed, limit } => "SVG "@ + work_name(work) + " work "@ + spec_decimal(
            observed as nat,
        ) + " exceeds the "@ + spec_decimal(limit as nat) + " limit"@,
        VectorFault::ParseFailed { detail } => "could not parse bounded SVG: "@ + detail,
        VectorFault::DimensionTooLarge { width, height, limit } => "SVG declares "@ + spec_decimal(width as nat) + "x"@
            + spec_decimal(height as nat) + " pixels beyond the "@ + spec_decimal(limit as nat)
            + " pixel dimension limit"@,
        VectorFault::TooManyPixels { pixels, limit } => "SVG declares "@ + spec_decimal(pixels as nat)
            + " pixels beyond the "@ + spec_decimal(limit as nat) + " pixel limit"@,
        VectorFault::AllocationTooLarge { bytes, limit } => "SVG RGBA output requires "@ + spec_decimal(bytes as nat)
            + " bytes beyond the "@ + spec_decimal(limit as nat) + " byte allocation limit"@,
        VectorFault::RenderAllocationFailed => "could not allocate the bounded SVG output pixmap"@,
    }
}

impl VectorImageError {
    /// The text of this failure.
    #[verifier::rlimit(40)]
    pub fn message(&self) -> (m: String)
        ensures
            m@ == vector_error_text(self@),
    {
        let mut m = String::new();
        match self {
            VectorImageError::InputTooLarge { size, limit } => {
                push_str(&mut m, "vector resource is too large: ");
                push_decimal(&mut m, *size);
                push_str(&mut m, " bytes exceeds the ");
                push_decimal(&mut m, *limit);
                push_str(&mut m, " byte input limit");
            },
            VectorImageError::UnsupportedFormat => {
                push_str(&mut m, "unsupported vector data: expected SVG XML or an SVGZ gzip stream");
            },
            VectorImageError::XmlTooLarge { limit } => {
                push_str(&mut m, "SVG XML is too large: more than ");
                push_decimal(&mut m, *limit);
                push_str(&mut m, " decompressed bytes");
            },
            VectorImageError::GzipTruncated => push_str(&mut m, "SVGZ stream is truncated"),
            VectorImageError::GzipChecksum => push_str(&mut m, "SVGZ checksum does not match its decompressed data"),
            VectorImageError::GzipCorrupt => push_str(&mut m, "SVGZ stream is corrupt"),
            VectorImageError::GzipTrailingData => push_str(&mut m, "SVGZ contains trailing or concatenated data"),
            VectorImageError::InvalidUtf8 => push_str(&mut m, "SVG XML is not valid UTF-8"),
            VectorImageError::UnsafeXml { source } => {
                push_str(&mut m, "unsafe SVG XML structure: ");
                let text = source.message();
                push_str(&mut m, text.as_str());
            },
            VectorImageError::ForbiddenElement { name } => {
                push_str(&mut m, "SVG element '");
                push_str(&mut m, name.as_str());
                push_str(&mut m, "' is not allowed in a static image");
            },
            VectorImageError::ForbiddenAttribute { name } => {
                push_str(&mut m, "SVG attribute '");
                push_str(&mut m, name.as_str());
                push_str(&mut m, "' is not allowed in a static image");
            },
            VectorImageError::ExternalReference { attribute } => {
                push_str(&mut m, "external SVG resource reference in '");
                push_str(&mut m, attribute.as_str());
                push_str(&mut m, "' is not allowed");
            },
            VectorImageError::UnsupportedFeature { feature } => {
                push_str(&mut m, "unsupported bounded SVG feature: ");
                push_str(&mut m, feature);
            },
            VectorImageError::WorkLimit { work, observed, limit } => {
                push_str(&mut m, "SVG ");
                push_str(
                    &mut m,
                    match work {
                        VectorWork::PathDataBytes => "PathDataBytes",
                        VectorWork::PathCommands => "PathCommands",
                        VectorWork::TransformOperations => "TransformOperations",
                        VectorWork::AttributeBytes => "AttributeBytes",
                    },
                );
                push_str(&mut m, " work ");
                push_decimal(&mut m, *observed as u64);
                push_str(&mut m, " exceeds the ");
                push_decimal(&mut m, *limit as u64);
                push_str(&mut m, " limit");
            },
            VectorImageError::ParseFailed { detail } => {
                push_str(&mut m, "could not parse bounded SVG: ");
                push_str(&mut m, detail.as_str());
            },
            VectorImageError::DimensionTooLarge { width, height, limit } => {
                push_str(&mut m, "SVG declares ");
                push_decimal(&mut m, *width as u64);
                push_str(&mut m, "x");
                push_decimal(&mut m, *height as u64);
                push_str(&mut m, " pixels beyond the ");
                push_decimal(&mut m, *limit as u64);
                push_str(&mut m, " pixel dimension limit");
            },
            VectorImageError::TooManyPixels { pixels, limit } => {
                push_str(&mut m, "SVG declares ");
                push_decimal(&mut m, *pixels);
                push_str(&mut m, " pixels beyond the ");
                push_decimal(&mut m, *limit);
                push_str(&mut m, " pixel limit");
            },
            VectorImageError::AllocationTooLarge { bytes, limit } => {
                push_str(&mut m, "SVG RGBA output requires ");
                push_decimal(&mut m, *bytes);
                push_str(&mut m, " bytes beyond the ");
                push_decimal(&mut m, *limit);
                push_str(&mut m, " byte allocation limit");
            },
            VectorImageError::RenderAllocationFailed => {
                push_str(&mut m, "could not allocate the bounded SVG output pixmap");
            },
        }
        m
    }
}

// ---------------------------------------------------------------------------
// Character scanning primitives
// ---------------------------------------------------------------------------

/// `pat` occurs in `s` at index `i`.
pub open spec fn chars_at(s: Seq<char>, i: int, pat: Seq<char>) -> bool {
    &&& 0 <= i
    &&& i + pat.len() <= s.len()
    &&& s.subrange(i, i + pat.len()) == pat
}

/// The first index at or after `from` where `pat` occurs, if any.
pub open spec fn find_chars(s: Seq<char>, from: int, pat: Seq<char>) -> Option<int>
    decreases s.len() - from,
{
    if from < 0 || from >= s.len() || from + pat.len() > s.len() {
        None
    } else if chars_at(s, from, pat) {
        Some(from)
    } else {
        find_chars(s, from + 1, pat)
    }
}

pub proof fn lemma_find_chars_found(s: Seq<char>, from: int, pat: Seq<char>)
    ensures
        find_chars(s, from, pat) matches Some(i) ==> from <= i && chars_at(s, i, pat),
    decreases s.len() - from,
{
    if !(from < 0 || from >= s.len() || from + pat.len() > s.len()) && !chars_at(s, from, pat) {
        lemma_find_chars_found(s, from + 1, pat);
    }
}

/// Whether `pat` occurs anywhere in `s`.
pub open spec fn contains_chars(s: Seq<char>, pat: Seq<char>) -> bool {
    find_chars(s, 0, pat) is Some
}

fn matches_chars(s: &Vec<char>, i: usize, pat: &Vec<char>) -> (r: bool)
    ensures
        r == chars_at(s@, i as int, pat@),
{
    let n = s.len();
    if i > n || pat.len() > n - i {
        return false;
    }
    let mut k: usize = 0;
    while k < pat.len()
        invariant
            n == s@.len(),
            i + pat@.len() <= s@.len(),
            k <= pat@.len(),
            forall|j: int| 0 <= j < k ==> s@[i + j] == pat@[j],
        decreases pat.len() - k,
    {
        if s[i + k] != pat[k] {
            assert(s@.subrange(i as int, i + pat@.len())[k as int] != pat@[k as int]);
            return false;
        }
        k = k + 1;
    }
    assert(s@.subrange(i as int, i + pat@.len()) =~= pat@);
    true
}

fn find_in(s: &Vec<char>, from: usize, pat: &Vec<char>) -> (r: Option<usize>)
    ensures
        match r {
            Some(i) => find_chars(s@, from as int, pat@) == Some(i as int),
            None => find_chars(s@, from as int, pat@) is None,
        },
{
    let mut i = from;
    while i < s.len()
        invariant
            from <= i,
            find_chars(s@, from as int, pat@) == find_chars(s@, i as int, pat@),
        decreases s.len() - i,
    {
        if pat.len() > s.len() - i {
            return None;
        }
        if matches_chars(s, i, pat) {
            return Some(i);
        }
        i = i + 1;
    }
    None
}

fn contains_in(s: &str, pat: &str) -> (r: bool)
    ensures
        r == contains_chars(s@, pat@),
{
    let v = chars_of(s);
    let p = chars_of(pat);
    find_in(&v, 0, &p).is_some()
}

/// ASCII white space as `u8::is_ascii_whitespace` defines it.
pub open spec fn is_space_char(c: char) -> bool {
    c == ' ' || c == '\t' || c == '\n' || c == '\x0C' || c == '\r'
}

/// Name characters: ASCII letters and digits, `:`, `_`, `-` and `.`.
pub open spec fn is_name_char(c: char) -> bool {
    ('a' <= c <= 'z') || ('A' <= c <= 'Z') || ('0' <= c <= '9') || c == ':' || c == '_' || c == '-' || c == '.'
}

/// The first index at or after `i` that is not ASCII white space.
pub open spec fn skip_spaces(s: Seq<char>, i: int) -> int
    decreases s.len() - i,
{
    if 0 <= i < s.len() && is_space_char(s[i]) {
        skip_spaces(s, i + 1)
    } else {
        i
    }
}

/// The first index at or after `i` that is not a name character.
pub open spec fn name_end(s: Seq<char>, i: int) -> int
    decreases s.len() - i,
{
    if 0 <= i < s.len() && is_name_char(s[i]) {
        name_end(s, i + 1)
    } else {
        i
    }
}

/// The first index at or after `i` holding `q`, or the length.
pub open spec fn until_char(s: Seq<char>, i: int, q: char) -> int
    decreases s.len() - i,
{
    if i < 0 || i >= s.len() {
        if i < 0 { 0 } else { s.len() as int }
    } else if s[i] == q {
        i
    } else {
        until_char(s, i + 1, q)
    }
}

/// The index after the `>` closing a tag whose body continues at
/// `cursor`, skipping quoted runs, or the length when it never closes.
pub open spec fn close_scan(s: Seq<char>, cursor: int, quote: Option<char>) -> int
    decreases s.len() - cursor,
{
    if cursor < 0 || cursor >= s.len() {
        s.len() as int
    } else {
        let c = s[cursor];
        match quote {
            Some(q) => if c == q {
                close_scan(s, cursor + 1, None)
            } else {
                close_scan(s, cursor + 1, quote)
            },
            None => if c == '\'' || c == '"' {
                close_scan(s, cursor + 1, Some(c))
            } else if c == '>' {
                cursor + 1
            } else {
                close_scan(s, cursor + 1, None)
            },
        }
    }
}

/// The index just past the first `term` at or after `start`, or the
/// length.
pub open spec fn skip_markup(s: Seq<char>, start: int, term: Seq<char>) -> int {
    match find_chars(s, start, term) {
        Some(i) => i + term.len(),
        None => s.len() as int,
    }
}

/// The part of a qualified name after its last colon.
pub open spec fn spec_local_name(s: Seq<char>) -> Seq<char>
    decreases s.len(),
{
    if s.len() == 0 {
        s
    } else if s.last() == ':' {
        Seq::empty()
    } else {
        spec_local_name(s.drop_last()).push(s.last())
    }
}

pub proof fn lemma_skip_spaces_bounds(s: Seq<char>, i: int)
    requires
        0 <= i,
    ensures
        i <= skip_spaces(s, i),
        i <= s.len() ==> skip_spaces(s, i) <= s.len(),
    decreases s.len() - i,
{
    if 0 <= i < s.len() && is_space_char(s[i]) {
        lemma_skip_spaces_bounds(s, i + 1);
    }
}

pub proof fn lemma_name_end_bounds(s: Seq<char>, i: int)
    requires
        0 <= i,
    ensures
        i <= name_end(s, i),
        i <= s.len() ==> name_end(s, i) <= s.len(),
    decreases s.len() - i,
{
    if 0 <= i < s.len() && is_name_char(s[i]) {
        lemma_name_end_bounds(s, i + 1);
    }
}

pub proof fn lemma_until_char_bounds(s: Seq<char>, i: int, q: char)
    requires
        0 <= i <= s.len(),
    ensures
        i <= until_char(s, i, q) <= s.len(),
    decreases s.len() - i,
{
    if 0 <= i < s.len() && s[i] != q {
        lemma_until_char_bounds(s, i + 1, q);
    }
}

pub proof fn lemma_close_scan_bounds(s: Seq<char>, cursor: int, quote: Option<char>)
    requires
        0 <= cursor,
    ensures
        close_scan(s, cursor, quote) <= s.len(),
        cursor < s.len() ==> cursor < close_scan(s, cursor, quote),
        cursor >= s.len() ==> close_scan(s, cursor, quote) == s.len(),
    decreases s.len() - cursor,
{
    if cursor < s.len() {
        let c = s[cursor];
        lemma_close_scan_bounds(s, cursor + 1, None);
        lemma_close_scan_bounds(s, cursor + 1, quote);
        lemma_close_scan_bounds(s, cursor + 1, Some(c));
    }
}

fn space_char(c: char) -> (r: bool)
    ensures
        r == is_space_char(c),
{
    c == ' ' || c == '\t' || c == '\n' || c == '\x0C' || c == '\r'
}

fn name_char(c: char) -> (r: bool)
    ensures
        r == is_name_char(c),
{
    ('a' <= c && c <= 'z') || ('A' <= c && c <= 'Z') || ('0' <= c && c <= '9') || c == ':' || c == '_' || c == '-'
        || c == '.'
}

fn skip_space_at(s: &Vec<char>, i: usize) -> (r: usize)
    ensures
        r == skip_spaces(s@, i as int),
{
    let mut k = i;
    while k < s.len() && space_char(s[k])
        invariant
            i <= k,
            skip_spaces(s@, i as int) == skip_spaces(s@, k as int),
        decreases s.len() - k,
    {
        k = k + 1;
    }
    k
}

fn name_end_at(s: &Vec<char>, i: usize) -> (r: usize)
    ensures
        r == name_end(s@, i as int),
{
    let mut k = i;
    while k < s.len() && name_char(s[k])
        invariant
            i <= k,
            name_end(s@, i as int) == name_end(s@, k as int),
        decreases s.len() - k,
    {
        k = k + 1;
    }
    k
}

fn until_at(s: &Vec<char>, i: usize, q: char) -> (r: usize)
    requires
        i <= s@.len(),
    ensures
        r == until_char(s@, i as int, q),
{
    let mut k = i;
    while k < s.len() && s[k] != q
        invariant
            i <= k <= s@.len(),
            until_char(s@, i as int, q) == until_char(s@, k as int, q),
        decreases s.len() - k,
    {
        k = k + 1;
    }
    k
}

fn close_at(s: &Vec<char>, cursor: usize) -> (r: usize)
    ensures
        r == close_scan(s@, cursor as int, None),
{
    let mut k = cursor;
    let mut quote: Option<char> = None;
    while k < s.len()
        invariant
            cursor <= k,
            close_scan(s@, cursor as int, None) == close_scan(s@, k as int, quote),
        decreases s.len() - k,
    {
        let c = s[k];
        match quote {
            Some(q) => {
                if c == q {
                    quote = None;
                }
            },
            None => {
                if c == '\'' || c == '"' {
                    quote = Some(c);
                } else if c == '>' {
                    return k + 1;
                }
            },
        }
        k = k + 1;
    }
    s.len()
}

fn skip_markup_at(s: &Vec<char>, start: usize, term: &Vec<char>) -> (r: usize)
    ensures
        r == skip_markup(s@, start as int, term@),
{
    let n = s.len();
    match find_in(s, start, term) {
        Some(i) => {
            proof {
                lemma_find_chars_found(s@, start as int, term@);
            }
            assert(i + term@.len() <= n);
            i + term.len()
        },
        None => s.len(),
    }
}

fn local_name_of(s: &String) -> (r: String)
    ensures
        r@ == spec_local_name(s@),
{
    let v = chars_of(s.as_str());
    let mut i = v.len();
    while i > 0 && v[i - 1] != ':'
        invariant
            i <= v@.len(),
            forall|k: int| i <= k < v@.len() ==> v@[k] != ':',
        decreases i,
    {
        i = i - 1;
    }
    proof {
        lemma_local_name_suffix(v@, i as int);
    }
    text_of(&v, i, v.len())
}

proof fn lemma_local_name_suffix(s: Seq<char>, i: int)
    requires
        0 <= i <= s.len(),
        forall|k: int| i <= k < s.len() ==> s[k] != ':',
        i == 0 || s[i - 1] == ':',
    ensures
        spec_local_name(s) == s.subrange(i, s.len() as int),
    decreases s.len(),
{
    if s.len() > i {
        lemma_local_name_suffix(s.drop_last(), i);
        assert(s.drop_last().subrange(i, s.len() - 1).push(s.last()) =~= s.subrange(i, s.len() as int));
    } else if s.len() > 0 {
        assert(s.subrange(i, s.len() as int) =~= Seq::<char>::empty());
    } else {
        assert(s.subrange(i, s.len() as int) =~= s);
    }
}

// ---------------------------------------------------------------------------
// Element and attribute policy
// ---------------------------------------------------------------------------

/// Executable, animated, filtered or styled elements reject.
pub open spec fn element_fault(e: Seq<char>) -> Option<VectorFault> {
    if e == "script"@ || e == "foreignobject"@ || e == "animate"@ || e == "animatemotion"@ || e
        == "animatetransform"@ || e == "set"@ || e == "discard"@ {
        Some(VectorFault::ForbiddenElement { name: e })
    } else if e == "style"@ {
        Some(VectorFault::UnsupportedFeature { feature: "style sheet"@ })
    } else if e == "filter"@ || chars_at(e, 0, seq!['f', 'e']) {
        Some(VectorFault::UnsupportedFeature { feature: "filter"@ })
    } else {
        None
    }
}

fn inspect_element(e: &String) -> (r: Option<VectorImageError>)
    ensures
        match r {
            Some(x) => element_fault(e@) == Some(x@),
            None => element_fault(e@) is None,
        },
{
    if *e == "script".to_owned() || *e == "foreignobject".to_owned() || *e == "animate".to_owned() || *e
        == "animatemotion".to_owned() || *e == "animatetransform".to_owned() || *e == "set".to_owned() || *e
        == "discard".to_owned() {
        return Some(VectorImageError::ForbiddenElement { name: owned(e.as_str()) });
    }
    if *e == "style".to_owned() {
        return Some(VectorImageError::UnsupportedFeature { feature: "style sheet" });
    }
    let v = chars_of(e.as_str());
    if *e == "filter".to_owned() || matches_chars(&v, 0, &vec!['f', 'e']) {
        return Some(VectorImageError::UnsupportedFeature { feature: "filter" });
    }
    None
}

/// Animation timing and target attributes (`fill` doubles as a paint
/// attribute and stays allowed).
pub open spec fn is_animation_attribute(n: Seq<char>) -> bool {
    n == "begin"@ || n == "dur"@ || n == "end"@ || n == "min"@ || n == "max"@ || n == "restart"@ || n
        == "repeatcount"@ || n == "repeatdur"@ || n == "fill"@ || n == "calcmode"@ || n == "values"@ || n
        == "keytimes"@ || n == "keysplines"@ || n == "attributename"@
}

/// Quote characters, which `url()` targets may carry on both ends.
pub open spec fn is_quote(c: char) -> bool {
    c == '\'' || c == '"'
}

/// `s` without leading quote characters.
pub open spec fn strip_front_quotes(s: Seq<char>) -> Seq<char>
    decreases s.len(),
{
    if s.len() > 0 && is_quote(s[0]) {
        strip_front_quotes(s.drop_first())
    } else {
        s
    }
}

/// `s` without trailing quote characters.
pub open spec fn strip_back_quotes(s: Seq<char>) -> Seq<char>
    decreases s.len(),
{
    if s.len() > 0 && is_quote(s.last()) {
        strip_back_quotes(s.drop_last())
    } else {
        s
    }
}

/// `s` with quote characters removed from both ends.
pub open spec fn trim_quotes(s: Seq<char>) -> Seq<char> {
    strip_back_quotes(strip_front_quotes(s))
}

/// Whether some `url(...)` at or after `i` names anything but a local
/// fragment; an unclosed `url(` counts as external.
pub open spec fn external_url_from(s: Seq<char>, i: int) -> bool
    decreases s.len() - i,
{
    if i < 0 || i > s.len() {
        false
    } else {
        match find_chars(s, i, "url("@) {
            None => false,
            Some(p) => {
                let j = p + "url("@.len();
                match find_chars(s, j, seq![')']) {
                    None => true,
                    Some(e) => {
                        proof {
                            lemma_find_chars_found(s, i, "url("@);
                            lemma_find_chars_found(s, j, seq![')']);
                        }
                        let target = trim_quotes(spec_trim(s.subrange(j, e)));
                        if !(target.len() > 0 && target[0] == '#') {
                            true
                        } else {
                            external_url_from(s, e + 1)
                        }
                    },
                }
            },
        }
    }
}

/// The attribute policy: event handlers and animation attributes reject,
/// `href`, `src` and `base` must name local fragments, no value may
/// import or point at an external `url()`, and inline styles may not
/// animate.
pub open spec fn attribute_fault(n: Seq<char>, v: Seq<char>) -> Option<VectorFault> {
    let lower = ascii_lower(v);
    if chars_at(n, 0, seq!['o', 'n']) || (is_animation_attribute(n) && n != "fill"@) {
        Some(VectorFault::ForbiddenAttribute { name: n })
    } else if (n == "href"@ || n == "src"@ || n == "base"@) && !(spec_trim(v).len() > 0 && spec_trim(v)[0] == '#') {
        Some(VectorFault::ExternalReference { attribute: n })
    } else if contains_chars(lower, "@import"@) || external_url_from(lower, 0) {
        Some(VectorFault::ExternalReference { attribute: n })
    } else if n == "style"@ && (contains_chars(lower, "animation"@) || contains_chars(lower, "transition"@)) {
        Some(VectorFault::ForbiddenAttribute { name: n })
    } else {
        None
    }
}

fn trim_quotes_of(s: &String) -> (r: String)
    ensures
        r@ == trim_quotes(s@),
{
    let v = chars_of(s.as_str());
    let mut lo: usize = 0;
    assert(v@.subrange(0, v@.len() as int) =~= v@);
    while lo < v.len() && (v[lo] == '\'' || v[lo] == '"')
        invariant
            lo <= v@.len(),
            strip_front_quotes(v@) == strip_front_quotes(v@.subrange(lo as int, v@.len() as int)),
        decreases v.len() - lo,
    {
        assert(v@.subrange(lo as int, v@.len() as int).drop_first() =~= v@.subrange(lo + 1, v@.len() as int));
        lo = lo + 1;
    }
    let ghost front = v@.subrange(lo as int, v@.len() as int);
    let mut hi: usize = v.len();
    assert(front.subrange(0, front.len() as int) =~= front);
    while hi > lo && (v[hi - 1] == '\'' || v[hi - 1] == '"')
        invariant
            lo <= hi <= v@.len(),
            front == v@.subrange(lo as int, v@.len() as int),
            strip_back_quotes(front) == strip_back_quotes(v@.subrange(lo as int, hi as int)),
        decreases hi,
    {
        assert(v@.subrange(lo as int, hi as int).drop_last() =~= v@.subrange(lo as int, hi - 1));
        hi = hi - 1;
    }
    text_of(&v, lo, hi)
}

fn external_url(s: &Vec<char>) -> (r: bool)
    ensures
        r == external_url_from(s@, 0),
{
    let opener = chars_of("url(");
    let closer = vec![')'];
    proof {
        reveal_strlit("url(");
    }
    let mut i: usize = 0;
    while i <= s.len()
        invariant
            opener@ == "url("@,
            "url("@.len() == 4,
            closer@ == seq![')'],
            external_url_from(s@, 0) == external_url_from(s@, i as int),
        decreases s.len() + 1 - i,
    {
        let p = match find_in(s, i, &opener) {
            None => return false,
            Some(p) => p,
        };
        proof {
            lemma_find_chars_found(s@, i as int, opener@);
        }
        assert(p + 4 <= s@.len());
        let j = p + 4;
        let e = match find_in(s, j, &closer) {
            None => return true,
            Some(e) => e,
        };
        proof {
            lemma_find_chars_found(s@, j as int, closer@);
        }
        let inner = text_of(s, j, e);
        let trimmed = trim(inner.as_str());
        let target = trim_quotes_of(&trimmed);
        let tv = chars_of(target.as_str());
        if !(tv.len() > 0 && tv[0] == '#') {
            return true;
        }
        i = e + 1;
    }
    false
}

fn inspect_attribute(n: &String, v: &String) -> (r: Option<VectorImageError>)
    ensures
        match r {
            Some(x) => attribute_fault(n@, v@) == Some(x@),
            None => attribute_fault(n@, v@) is None,
        },
{
    let nv = chars_of(n.as_str());
    let animation = *n == "begin".to_owned() || *n == "dur".to_owned() || *n == "end".to_owned() || *n
        == "min".to_owned() || *n == "max".to_owned() || *n == "restart".to_owned() || *n == "repeatcount".to_owned()
        || *n == "repeatdur".to_owned() || *n == "fill".to_owned() || *n == "calcmode".to_owned() || *n
        == "values".to_owned() || *n == "keytimes".to_owned() || *n == "keysplines".to_owned() || *n
        == "attributename".to_owned();
    if matches_chars(&nv, 0, &vec!['o', 'n']) || (animation && *n != "fill".to_owned()) {
        return Some(VectorImageError::ForbiddenAttribute { name: owned(n.as_str()) });
    }
    if *n == "href".to_owned() || *n == "src".to_owned() || *n == "base".to_owned() {
        let t = trim(v.as_str());
        let tv = chars_of(t.as_str());
        if !(tv.len() > 0 && tv[0] == '#') {
            return Some(VectorImageError::ExternalReference { attribute: owned(n.as_str()) });
        }
    }
    let lower = to_ascii_lower(v.as_str());
    let lv = chars_of(lower.as_str());
    if contains_in(lower.as_str(), "@import") || external_url(&lv) {
        return Some(VectorImageError::ExternalReference { attribute: owned(n.as_str()) });
    }
    if *n == "style".to_owned() && (contains_in(lower.as_str(), "animation") || contains_in(
        lower.as_str(),
        "transition",
    )) {
        return Some(VectorImageError::ForbiddenAttribute { name: owned(n.as_str()) });
    }
    None
}

// ---------------------------------------------------------------------------
// Work accounting and the syntactic preflight
// ---------------------------------------------------------------------------

/// Running totals of syntactic work across one document.
#[derive(Clone, Copy, Debug, PartialEq, Eq, Structural)]
pub struct WorkTotals {
    pub path_bytes: usize,
    pub path_commands: usize,
    pub transforms: usize,
}

/// Path command letters.
pub open spec fn is_path_command(c: char) -> bool {
    c == 'M' || c == 'm' || c == 'Z' || c == 'z' || c == 'L' || c == 'l' || c == 'H' || c == 'h' || c == 'V' || c
        == 'v' || c == 'C' || c == 'c' || c == 'S' || c == 's' || c == 'Q' || c == 'q' || c == 'T' || c == 't' || c
        == 'A' || c == 'a'
}

/// The number of path command letters in `s`.
pub open spec fn count_commands(s: Seq<char>) -> nat
    decreases s.len(),
{
    if s.len() == 0 {
        0
    } else {
        count_commands(s.drop_last()) + if is_path_command(s.last()) { 1nat } else { 0nat }
    }
}

/// The number of occurrences of `c` in `s`.
pub open spec fn count_char(s: Seq<char>, c: char) -> nat
    decreases s.len(),
{
    if s.len() == 0 {
        0
    } else {
        count_char(s.drop_last(), c) + if s.last() == c { 1nat } else { 0nat }
    }
}

/// The UTF-8 length of a text.
pub open spec fn byte_len(s: Seq<char>) -> usize {
    encode_utf8(s).len() as usize
}

/// `a + b`, saturating at `usize::MAX`.
pub open spec fn sat_add(a: usize, b: int) -> usize {
    if a + b > usize::MAX {
        usize::MAX
    } else {
        (a + b) as usize
    }
}

/// Path data counts its bytes and command letters, each transform its
/// functions; every running total stays inside its limit.
pub open spec fn record_work(
    w: WorkTotals,
    element: Seq<char>,
    attribute: Seq<char>,
    value: Seq<char>,
    limits: VectorLimits,
) -> Result<WorkTotals, VectorFault> {
    let path = element == "path"@ && attribute == "d"@;
    let w1 = if path {
        WorkTotals {
            path_bytes: sat_add(w.path_bytes, byte_len(value) as int),
            path_commands: sat_add(w.path_commands, count_commands(value) as int),
            transforms: w.transforms,
        }
    } else {
        w
    };
    if path && w1.path_bytes > limits.max_path_data_bytes {
        Err(
            VectorFault::WorkLimit {
                work: VectorWork::PathDataBytes,
                observed: w1.path_bytes,
                limit: limits.max_path_data_bytes,
            },
        )
    } else if path && w1.path_commands > limits.max_path_commands {
        Err(
            VectorFault::WorkLimit {
                work: VectorWork::PathCommands,
                observed: w1.path_commands,
                limit: limits.max_path_commands,
            },
        )
    } else if attribute == "transform"@ {
        let t = sat_add(w1.transforms, count_char(value, '(') as int);
        if t > limits.max_transform_operations {
            Err(
                VectorFault::WorkLimit {
                    work: VectorWork::TransformOperations,
                    observed: t,
                    limit: limits.max_transform_operations,
                },
            )
        } else {
            Ok(WorkTotals { transforms: t, ..w1 })
        }
    } else {
        Ok(w1)
    }
}

fn counts_of(v: &Vec<char>) -> (r: (usize, usize))
    ensures
        r.0 == if count_commands(v@) > usize::MAX { usize::MAX as int } else { count_commands(v@) as int },
        r.1 == if count_char(v@, '(') > usize::MAX { usize::MAX as int } else { count_char(v@, '(') as int },
{
    let mut commands: usize = 0;
    let mut opens: usize = 0;
    let mut i: usize = 0;
    while i < v.len()
        invariant
            i <= v@.len(),
            commands == if count_commands(v@.take(i as int)) > usize::MAX {
                usize::MAX as int
            } else {
                count_commands(v@.take(i as int)) as int
            },
            opens == if count_char(v@.take(i as int), '(') > usize::MAX {
                usize::MAX as int
            } else {
                count_char(v@.take(i as int), '(') as int
            },
        decreases v.len() - i,
    {
        let c = v[i];
        assert(v@.take(i + 1).drop_last() =~= v@.take(i as int));
        if c == 'M' || c == 'm' || c == 'Z' || c == 'z' || c == 'L' || c == 'l' || c == 'H' || c == 'h' || c == 'V'
            || c == 'v' || c == 'C' || c == 'c' || c == 'S' || c == 's' || c == 'Q' || c == 'q' || c == 'T' || c
            == 't' || c == 'A' || c == 'a' {
            commands = commands.saturating_add(1);
        }
        if c == '(' {
            opens = opens.saturating_add(1);
        }
        i = i + 1;
    }
    assert(v@.take(i as int) =~= v@);
    (commands, opens)
}

fn record(
    w: WorkTotals,
    element: &String,
    attribute: &String,
    value: &String,
    limits: &VectorLimits,
) -> (r: Result<WorkTotals, VectorImageError>)
    ensures
        match r {
            Ok(t) => record_work(w, element@, attribute@, value@, *limits) == Ok::<WorkTotals, VectorFault>(t),
            Err(x) => record_work(w, element@, attribute@, value@, *limits) == Err::<WorkTotals, VectorFault>(x@),
        },
{
    let v = chars_of(value.as_str());
    let (commands, opens) = counts_of(&v);
    let path = *element == "path".to_owned() && *attribute == "d".to_owned();
    let mut w1 = w;
    if path {
        w1 = WorkTotals {
            path_bytes: w.path_bytes.saturating_add(value.as_str().len()),
            path_commands: w.path_commands.saturating_add(commands),
            transforms: w.transforms,
        };
    }
    if path && w1.path_bytes > limits.max_path_data_bytes {
        return Err(
            VectorImageError::WorkLimit {
                work: VectorWork::PathDataBytes,
                observed: w1.path_bytes,
                limit: limits.max_path_data_bytes,
            },
        );
    }
    if path && w1.path_commands > limits.max_path_commands {
        return Err(
            VectorImageError::WorkLimit {
                work: VectorWork::PathCommands,
                observed: w1.path_commands,
                limit: limits.max_path_commands,
            },
        );
    }
    if *attribute == "transform".to_owned() {
        let t = w1.transforms.saturating_add(opens);
        if t > limits.max_transform_operations {
            return Err(
                VectorImageError::WorkLimit {
                    work: VectorWork::TransformOperations,
                    observed: t,
                    limit: limits.max_transform_operations,
                },
            );
        }
        return Ok(WorkTotals { path_bytes: w1.path_bytes, path_commands: w1.path_commands, transforms: t });
    }
    Ok(w1)
}

/// The attributes of one start tag from `at`: each `name="value"` pair in
/// turn passes the size limit, the attribute policy and the work budget;
/// the result is the index after the tag and the updated totals. A bare
/// name moves on, and anything unexpected ends the tag at its `>`.
pub open spec fn attrs_from(
    s: Seq<char>,
    at: int,
    element: Seq<char>,
    w: WorkTotals,
    limits: VectorLimits,
) -> Result<(int, WorkTotals), VectorFault>
    decreases s.len() + 1 - at,
{
    if at < 0 || at > s.len() {
        Ok((s.len() as int, w))
    } else {
        proof {
            lemma_skip_spaces_bounds(s, at);
        }
        let a = skip_spaces(s, at);
        if a >= s.len() || s[a] == '>' || s[a] == '/' {
            Ok((close_scan(s, a, None), w))
        } else {
            proof {
                lemma_name_end_bounds(s, a);
            }
            let ne = name_end(s, a);
            if ne == a {
                Ok((close_scan(s, a, None), w))
            } else {
                let attribute = ascii_lower(spec_local_name(s.subrange(a, ne)));
                proof {
                    lemma_skip_spaces_bounds(s, ne);
                }
                let b = skip_spaces(s, ne);
                if !(b < s.len() && s[b] == '=') {
                    attrs_from(s, b, element, w, limits)
                } else {
                    proof {
                        lemma_skip_spaces_bounds(s, b + 1);
                    }
                    let c = skip_spaces(s, b + 1);
                    if !(c < s.len() && is_quote(s[c])) {
                        Ok((close_scan(s, c, None), w))
                    } else {
                        proof {
                            lemma_until_char_bounds(s, c + 1, s[c]);
                        }
                        let ve = until_char(s, c + 1, s[c]);
                        let value = s.subrange(c + 1, ve);
                        if byte_len(value) > limits.max_attribute_bytes {
                            Err(
                                VectorFault::WorkLimit {
                                    work: VectorWork::AttributeBytes,
                                    observed: byte_len(value),
                                    limit: limits.max_attribute_bytes,
                                },
                            )
                        } else {
                            match attribute_fault(attribute, value) {
                                Some(f) => Err(f),
                                None => match record_work(w, element, attribute, value, limits) {
                                    Err(f) => Err(f),
                                    Ok(w2) => attrs_from(s, ve + 1, element, w2, limits),
                                },
                            }
                        }
                    }
                }
            }
        }
    }
}

pub proof fn lemma_attrs_from_bounds(s: Seq<char>, at: int, element: Seq<char>, w: WorkTotals, limits: VectorLimits)
    requires
        0 <= at,
    ensures
        attrs_from(s, at, element, w, limits) matches Ok((c, _)) ==> c <= s.len() && (c == s.len() || c > at),
    decreases s.len() + 1 - at,
{
    if at <= s.len() {
        lemma_skip_spaces_bounds(s, at);
        let a = skip_spaces(s, at);
        lemma_close_scan_bounds(s, a, None);
        if !(a >= s.len() || s[a] == '>' || s[a] == '/') {
            lemma_name_end_bounds(s, a);
            let ne = name_end(s, a);
            if ne != a {
                lemma_skip_spaces_bounds(s, ne);
                let b = skip_spaces(s, ne);
                if !(b < s.len() && s[b] == '=') {
                    lemma_attrs_from_bounds(s, b, element, w, limits);
                } else {
                    lemma_skip_spaces_bounds(s, b + 1);
                    let c = skip_spaces(s, b + 1);
                    lemma_close_scan_bounds(s, c, None);
                    if c < s.len() && is_quote(s[c]) {
                        lemma_until_char_bounds(s, c + 1, s[c]);
                        let ve = until_char(s, c + 1, s[c]);
                        let value = s.subrange(c + 1, ve);
                        let attribute = ascii_lower(spec_local_name(s.subrange(a, ne)));
                        if let Ok(w2) = record_work(w, element, attribute, value, limits) {
                            lemma_attrs_from_bounds(s, ve + 1, element, w2, limits);
                        }
                    }
                }
            }
        }
    }
}

/// `<!--`
pub open spec fn comment_open() -> Seq<char> {
    seq!['<', '!', '-', '-']
}

/// `<![CDATA[`
pub open spec fn cdata_open() -> Seq<char> {
    seq!['<', '!', '[', 'C', 'D', 'A', 'T', 'A', '[']
}

/// The syntactic preflight from `cursor`: comments, CDATA sections and
/// processing instructions are skipped, end tags pass, and every start
/// tag's element and attributes meet the policy while the work totals
/// stay inside their limits.
pub open spec fn preflight_from(s: Seq<char>, cursor: int, w: WorkTotals, limits: VectorLimits) -> Result<
    (),
    VectorFault,
>
    decreases s.len() - cursor,
{
    if cursor < 0 || cursor >= s.len() {
        Ok(())
    } else {
        match find_chars(s, cursor, seq!['<']) {
            None => Ok(()),
            Some(start) => {
                proof {
                    lemma_find_chars_found(s, cursor, seq!['<']);
                    lemma_find_chars_found(s, start + 4, seq!['-', '-', '>']);
                    lemma_find_chars_found(s, start + 9, seq![']', ']', '>']);
                    lemma_find_chars_found(s, start + 2, seq!['?', '>']);
                    lemma_close_scan_bounds(s, start + 2, None);
                }
                if chars_at(s, start, comment_open()) {
                    preflight_from(s, skip_markup(s, start + 4, seq!['-', '-', '>']), w, limits)
                } else if chars_at(s, start, cdata_open()) {
                    preflight_from(s, skip_markup(s, start + 9, seq![']', ']', '>']), w, limits)
                } else if chars_at(s, start, seq!['<', '?']) {
                    preflight_from(s, skip_markup(s, start + 2, seq!['?', '>']), w, limits)
                } else if start + 1 < s.len() && s[start + 1] == '/' {
                    preflight_from(s, close_scan(s, start + 2, None), w, limits)
                } else {
                    proof {
                        lemma_skip_spaces_bounds(s, start + 1);
                    }
                    let a = skip_spaces(s, start + 1);
                    proof {
                        lemma_name_end_bounds(s, a);
                    }
                    let ne = name_end(s, a);
                    let element = ascii_lower(spec_local_name(s.subrange(a, ne)));
                    match element_fault(element) {
                        Some(f) => Err(f),
                        None => {
                            proof {
                                lemma_attrs_from_bounds(s, ne, element, w, limits);
                            }
                            match attrs_from(s, ne, element, w, limits) {
                                Err(f) => Err(f),
                                Ok((c, w2)) => preflight_from(s, c, w2, limits),
                            }
                        },
                    }
                }
            },
        }
    }
}

/// The work totals of a document before any attribute.
pub open spec fn no_work() -> WorkTotals {
    WorkTotals { path_bytes: 0, path_commands: 0, transforms: 0 }
}

fn lowered_local_name(s: &Vec<char>, start: usize, end: usize) -> (r: String)
    requires
        start <= end <= s@.len(),
    ensures
        r@ == ascii_lower(spec_local_name(s@.subrange(start as int, end as int))),
{
    let raw = text_of(s, start, end);
    let local = local_name_of(&raw);
    to_ascii_lower(local.as_str())
}

fn scan_attributes(
    s: &Vec<char>,
    from: usize,
    element: &String,
    totals: WorkTotals,
    limits: &VectorLimits,
) -> (r: Result<(usize, WorkTotals), VectorImageError>)
    ensures
        match r {
            Ok((c, t)) => attrs_from(s@, from as int, element@, totals, *limits) == Ok::<(int, WorkTotals), VectorFault>(
                (c as int, t),
            ),
            Err(x) => attrs_from(s@, from as int, element@, totals, *limits) == Err::<(int, WorkTotals), VectorFault>(
                x@,
            ),
        },
{
    let n = s.len();
    let mut at = from;
    let mut w = totals;
    while at <= n
        invariant
            n == s@.len(),
            attrs_from(s@, from as int, element@, totals, *limits) == attrs_from(s@, at as int, element@, w, *limits),
        decreases n + 1 - at,
    {
        proof {
            lemma_skip_spaces_bounds(s@, at as int);
        }
        let a = skip_space_at(s, at);
        if a >= n || s[a] == '>' || s[a] == '/' {
            return Ok((close_at(s, a), w));
        }
        proof {
            lemma_name_end_bounds(s@, a as int);
        }
        let ne = name_end_at(s, a);
        if ne == a {
            return Ok((close_at(s, a), w));
        }
        let attribute = lowered_local_name(s, a, ne);
        proof {
            lemma_skip_spaces_bounds(s@, ne as int);
        }
        let b = skip_space_at(s, ne);
        if !(b < n && s[b] == '=') {
            at = b;
            continue;
        }
        proof {
            lemma_skip_spaces_bounds(s@, b + 1);
        }
        let c = skip_space_at(s, b + 1);
        if !(c < n && (s[c] == '\'' || s[c] == '"')) {
            return Ok((close_at(s, c), w));
        }
        let q = s[c];
        proof {
            lemma_until_char_bounds(s@, c + 1, q);
        }
        let ve = until_at(s, c + 1, q);
        let value = text_of(s, c + 1, ve);
        let size = value.as_str().len();
        if size > limits.max_attribute_bytes {
            return Err(
                VectorImageError::WorkLimit {
                    work: VectorWork::AttributeBytes,
                    observed: size,
                    limit: limits.max_attribute_bytes,
                },
            );
        }
        match inspect_attribute(&attribute, &value) {
            Some(x) => return Err(x),
            None => {},
        }
        w = match record(w, element, &attribute, &value, limits) {
            Ok(t) => t,
            Err(x) => return Err(x),
        };
        if ve >= n {
            assert(attrs_from(s@, ve + 1, element@, w, *limits) == Ok::<(int, WorkTotals), VectorFault>(
                (n as int, w),
            ));
            return Ok((n, w));
        }
        at = ve + 1;
    }
    Ok((n, w))
}

/// Rejects scripts, animation, external references, filters, style
/// sheets and unbounded syntactic work before the SVG parser runs.
pub fn preflight_svg(text: &str, limits: &VectorLimits) -> (r: Result<(), VectorImageError>)
    ensures
        match r {
            Ok(_) => preflight_from(text@, 0, no_work(), *limits) == Ok::<(), VectorFault>(()),
            Err(x) => preflight_from(text@, 0, no_work(), *limits) == Err::<(), VectorFault>(x@),
        },
{
    let s = chars_of(text);
    let n = s.len();
    let lt = vec!['<'];
    let comment = vec!['<', '!', '-', '-'];
    let comment_end = vec!['-', '-', '>'];
    let cdata = vec!['<', '!', '[', 'C', 'D', 'A', 'T', 'A', '['];
    let cdata_end = vec![']', ']', '>'];
    let pi = vec!['<', '?'];
    let pi_end = vec!['?', '>'];
    let mut cursor: usize = 0;
    let mut w = WorkTotals { path_bytes: 0, path_commands: 0, transforms: 0 };
    while cursor < n
        invariant
            n == s@.len(),
            s@ == text@,
            lt@ == seq!['<'],
            comment@ == comment_open(),
            comment_end@ == seq!['-', '-', '>'],
            cdata@ == cdata_open(),
            cdata_end@ == seq![']', ']', '>'],
            pi@ == seq!['<', '?'],
            pi_end@ == seq!['?', '>'],
            preflight_from(text@, 0, no_work(), *limits) == preflight_from(s@, cursor as int, w, *limits),
        decreases n - cursor,
    {
        let start = match find_in(&s, cursor, &lt) {
            None => return Ok(()),
            Some(start) => start,
        };
        proof {
            lemma_find_chars_found(s@, cursor as int, lt@);
            lemma_find_chars_found(s@, start + 4, comment_end@);
            lemma_find_chars_found(s@, start + 9, cdata_end@);
            lemma_find_chars_found(s@, start + 2, pi_end@);
            lemma_close_scan_bounds(s@, start + 2, None);
        }
        if matches_chars(&s, start, &comment) {
            cursor = skip_markup_at(&s, start + 4, &comment_end);
            continue;
        }
        if matches_chars(&s, start, &cdata) {
            cursor = skip_markup_at(&s, start + 9, &cdata_end);
            continue;
        }
        if matches_chars(&s, start, &pi) {
            cursor = skip_markup_at(&s, start + 2, &pi_end);
            continue;
        }
        if start + 1 < n && s[start + 1] == '/' {
            cursor = close_at(&s, start + 2);
            continue;
        }
        proof {
            lemma_skip_spaces_bounds(s@, start + 1);
        }
        let a = skip_space_at(&s, start + 1);
        proof {
            lemma_name_end_bounds(s@, a as int);
        }
        let ne = name_end_at(&s, a);
        let element = lowered_local_name(&s, a, ne);
        match inspect_element(&element) {
            Some(x) => return Err(x),
            None => {},
        }
        proof {
            lemma_attrs_from_bounds(s@, ne as int, element@, w, *limits);
        }
        let (next, totals) = match scan_attributes(&s, ne, &element, w, limits) {
            Ok(pair) => pair,
            Err(x) => return Err(x),
        };
        cursor = next;
        w = totals;
    }
    Ok(())
}

// ---------------------------------------------------------------------------
// Format sniffing
// ---------------------------------------------------------------------------

/// The gzip magic.
pub open spec fn gzip_magic() -> Seq<u8> {
    seq![0x1fu8, 0x8bu8]
}

pub proof fn lemma_first_non_white_bounds(s: Seq<char>, i: int)
    requires
        0 <= i <= s.len(),
    ensures
        i <= first_non_white(s, i) <= s.len(),
    decreases s.len() - i,
{
    if i < s.len() && is_white(s[i]) {
        lemma_first_non_white_bounds(s, i + 1);
    }
}

/// Where the root begins once the XML declaration, processing
/// instructions and comments (each followed by white space) are passed;
/// an unterminated one leaves none.
pub open spec fn prolog_end(t: Seq<char>, i: int) -> Option<int>
    decreases t.len() + 1 - i,
{
    if i < 0 || i > t.len() {
        None
    } else if chars_at(t, i, seq!['<', '?']) {
        match find_chars(t, i, seq!['?', '>']) {
            None => None,
            Some(e) => {
                proof {
                    lemma_find_chars_found(t, i, seq!['?', '>']);
                    lemma_first_non_white_bounds(t, e + 2);
                }
                prolog_end(t, first_non_white(t, e + 2))
            },
        }
    } else if chars_at(t, i, comment_open()) {
        match find_chars(t, i, seq!['-', '-', '>']) {
            None => None,
            Some(e) => {
                proof {
                    lemma_find_chars_found(t, i, seq!['-', '-', '>']);
                    lemma_first_non_white_bounds(t, e + 3);
                }
                prolog_end(t, first_non_white(t, e + 3))
            },
        }
    } else {
        Some(i)
    }
}

/// `rest` begins with `word`, ignoring ASCII case.
pub open spec fn starts_ignoring_case(rest: Seq<char>, word: Seq<char>) -> bool {
    rest.len() >= word.len() && ascii_lower(rest.take(word.len() as int)) == word
}

/// Whether decoded text looks like SVG: after a byte-order mark, leading
/// white space and the prolog, it opens with a DTD declaration or an
/// `<svg` root tag.
pub open spec fn svg_text(text: Seq<char>) -> bool {
    let t = if text.len() > 0 && text[0] == '\u{feff}' { text.drop_first() } else { text };
    match prolog_end(t, first_non_white(t, 0)) {
        None => false,
        Some(p) => {
            let rest = t.subrange(p, t.len() as int);
            starts_ignoring_case(rest, "<!doctype"@) || starts_ignoring_case(rest, "<!entity"@)
                || starts_ignoring_case(rest, "<!element"@) || starts_ignoring_case(rest, "<!attlist"@)
                || starts_ignoring_case(rest, "<!notation"@) || (starts_ignoring_case(rest, "<svg"@) && rest.len()
                > 4 && (is_space_char(rest[4]) || rest[4] == '>' || rest[4] == '/'))
        },
    }
}

/// Whether bytes look like SVG: UTF-8 text that [`svg_text`] accepts.
pub open spec fn looks_like_svg(bytes: Seq<u8>) -> bool {
    valid_utf8(bytes) && svg_text(decode_utf8(bytes))
}

/// The container a byte stream shows: the gzip magic, or SVG text.
pub open spec fn spec_sniff_vector(bytes: Seq<u8>) -> Option<VectorFormat> {
    if has_at(bytes, 0, gzip_magic()) {
        Some(VectorFormat::Svgz)
    } else if looks_like_svg(bytes) {
        Some(VectorFormat::Svg)
    } else {
        None
    }
}

fn starts_ignoring_case_at(t: &Vec<char>, p: usize, word: &str) -> (r: bool)
    requires
        p <= t@.len(),
    ensures
        r == starts_ignoring_case(t@.subrange(p as int, t@.len() as int), word@),
{
    let w = chars_of(word);
    if t.len() - p < w.len() {
        return false;
    }
    let prefix = text_of(t, p, p + w.len());
    let lower = to_ascii_lower(prefix.as_str());
    assert(t@.subrange(p as int, t@.len() as int).take(w@.len() as int) =~= prefix@);
    lower == owned(word)
}

fn svg_text_of(text: &str) -> (r: bool)
    ensures
        r == svg_text(text@),
{
    let all = chars_of(text);
    let t = if all.len() > 0 && all[0] == '\u{feff}' {
        let n = all.len();
        let rest = text_of(&all, 1, n);
        assert(rest@ =~= all@.drop_first());
        chars_of(rest.as_str())
    } else {
        all
    };
    let ghost tv = if text@.len() > 0 && text@[0] == '\u{feff}' { text@.drop_first() } else { text@ };
    assert(t@ == tv);
    let mut i: usize = 0;
    while i < t.len() && white(t[i])
        invariant
            i <= t@.len(),
            first_non_white(t@, 0) == first_non_white(t@, i as int),
        decreases t.len() - i,
    {
        i = i + 1;
    }
    let pi_open = vec!['<', '?'];
    let pi_close = vec!['?', '>'];
    let comment = vec!['<', '!', '-', '-'];
    let comment_close = vec!['-', '-', '>'];
    loop
        invariant
            t@ == tv,
            tv == (if text@.len() > 0 && text@[0] == '\u{feff}' { text@.drop_first() } else { text@ }),
            i <= t@.len(),
            pi_open@ == seq!['<', '?'],
            pi_close@ == seq!['?', '>'],
            comment@ == comment_open(),
            comment_close@ == seq!['-', '-', '>'],
            prolog_end(t@, first_non_white(t@, 0)) == prolog_end(t@, i as int),
        ensures
            i <= t@.len(),
            prolog_end(t@, first_non_white(t@, 0)) == Some(i as int),
        decreases t.len() + 1 - i,
    {
        let is_pi = matches_chars(&t, i, &pi_open);
        let is_comment = !is_pi && matches_chars(&t, i, &comment);
        if !is_pi && !is_comment {
            break;
        }
        let term = if is_pi {
            &pi_close
        } else {
            &comment_close
        };
        assert(term@ == if is_pi { seq!['?', '>'] } else { seq!['-', '-', '>'] });
        let e = match find_in(&t, i, term) {
            None => {
                return false;
            },
            Some(e) => e,
        };
        proof {
            lemma_find_chars_found(t@, i as int, term@);
        }
        let mut k = e + term.len();
        proof {
            lemma_first_non_white_bounds(t@, k as int);
        }
        let ghost from = k as int;
        while k < t.len() && white(t[k])
            invariant
                from <= k <= t@.len(),
                first_non_white(t@, from) == first_non_white(t@, k as int),
            decreases t.len() - k,
        {
            k = k + 1;
        }
        i = k;
    }
    assert(t@.subrange(i as int, t@.len() as int).len() == t@.len() - i);
    starts_ignoring_case_at(&t, i, "<!doctype") || starts_ignoring_case_at(&t, i, "<!entity")
        || starts_ignoring_case_at(&t, i, "<!element") || starts_ignoring_case_at(&t, i, "<!attlist")
        || starts_ignoring_case_at(&t, i, "<!notation") || (starts_ignoring_case_at(&t, i, "<svg") && t.len() - i > 4
        && (space_char(t[i + 4]) || t[i + 4] == '>' || t[i + 4] == '/'))
}

/// Identifies SVG or SVGZ from leading content without parsing or
/// decompressing it.
pub fn sniff_vector_format(bytes: &[u8]) -> (r: Option<VectorFormat>)
    ensures
        r == spec_sniff_vector(bytes@),
{
    let magic = vec![0x1fu8, 0x8bu8];
    if matches_at(bytes, 0, magic.as_slice()) {
        return Some(VectorFormat::Svgz);
    }
    match utf8_text(bytes) {
        Ok(text) => {
            proof {
                encode_utf8_decode_utf8(text@);
            }
            if svg_text_of(text) {
                Some(VectorFormat::Svg)
            } else {
                None
            }
        },
        Err(_) => None,
    }
}

// ---------------------------------------------------------------------------
// Decompression, parsing and rendering
// ---------------------------------------------------------------------------

/// An I/O failure of the gzip decoder: whether it reported an unexpected
/// end of input, and its text.
#[derive(Clone, Debug, PartialEq, Eq)]
pub struct GzIoFault {
    pub end_of_file: bool,
    pub message: String,
}

/// What `flate2::bufread::GzDecoder` yields for `bytes` read through
/// `Read::take(max)` and `read_to_end`, with whether the input was used up
/// afterwards (`into_inner().is_empty()`).
pub uninterp spec fn gunzip_prefix(bytes: Seq<u8>, max: u64) -> (Result<Seq<u8>, GzIoFault>, bool);

/// What `usvg::Tree::from_str` makes of the text, with no resource
/// directory and every image reference resolving to nothing: the tree's
/// size rounded to whole pixels (`Size::to_int_size`), or the parser's
/// error text.
pub uninterp spec fn svg_parse(text: Seq<char>) -> Result<(u32, u32), Seq<char>>;

/// The premultiplied RGBA8 pixels `resvg::render` draws for the parsed
/// text onto a fresh pixmap of its size, or none when
/// `tiny_skia::Pixmap::new` refuses that size.
pub uninterp spec fn svg_raster(text: Seq<char>) -> Option<Seq<u8>>;

/// `flate2::bufread::GzDecoder` over `bytes`, read through
/// `Read::take(max)` and `read_to_end`; the error's kind and text are kept,
/// and whether input remains afterwards. Claimed: the outcome depends on
/// the bytes and the bound alone, and holds at most `max` bytes.
#[verifier::external_body]
fn inflate_prefix(bytes: &[u8], max: u64) -> (r: (Result<Vec<u8>, GzIoFault>, bool))
    ensures
        (match r.0 {
            Ok(v) => Ok::<Seq<u8>, GzIoFault>(v@),
            Err(f) => Err::<Seq<u8>, GzIoFault>(f),
        }, r.1) == gunzip_prefix(bytes@, max),
        r.0 matches Ok(v) ==> v@.len() <= max,
{
    let mut decoder = flate2::bufread::GzDecoder::new(bytes);
    let mut out = Vec::new();
    let read = (&mut decoder).take(max).read_to_end(&mut out).map(|_| out).map_err(|e| GzIoFault {
        end_of_file: e.kind() == std::io::ErrorKind::UnexpectedEof,
        message: e.to_string(),
    });
    (read, decoder.into_inner().is_empty())
}

/// `resvg::usvg::Tree`, carried opaquely.
#[verifier::external_type_specification]
#[verifier::external_body]
pub struct ExSvgTree(resvg::usvg::Tree);

/// A parsed SVG tree with its whole-pixel size and the text it came from.
pub struct ParsedSvg {
    tree: resvg::usvg::Tree,
    width: u32,
    height: u32,
    source: Ghost<Seq<char>>,
}

/// `usvg::Tree::from_str` with no resource directory and image references
/// resolving to nothing, then `Size::to_int_size`. Claimed: the size or
/// the error text depends on the text alone.
#[verifier::external_body]
fn parse_svg(text: &str) -> (r: Result<ParsedSvg, String>)
    ensures
        match r {
            Ok(p) => svg_parse(text@) == Ok::<(u32, u32), Seq<char>>((p.width, p.height)) && p.source@ == text@,
            Err(d) => svg_parse(text@) == Err::<(u32, u32), Seq<char>>(d@),
        },
{
    let resolver = resvg::usvg::ImageHrefResolver {
        resolve_data: Box::new(|_, _, _| None),
        resolve_string: Box::new(|_, _| None),
    };
    let options = resvg::usvg::Options { resources_dir: None, image_href_resolver: resolver, ..Default::default() };
    let tree = resvg::usvg::Tree::from_str(text, &options).map_err(|e| e.to_string())?;
    let size = tree.size().to_int_size();
    Ok(ParsedSvg { width: size.width(), height: size.height(), tree, source: Ghost(text@) })
}

/// `tiny_skia::Pixmap::new` at the tree's size, `resvg::render` with the
/// identity transform, then the premultiplied pixels (`Pixmap::take`).
#[verifier::external_body]
fn render_svg(svg: &ParsedSvg) -> (r: Option<Vec<u8>>)
    ensures
        match r {
            Some(v) => svg_raster(svg.source@) == Some(v@),
            None => svg_raster(svg.source@) is None,
        },
{
    let mut pixmap = resvg::tiny_skia::Pixmap::new(svg.width, svg.height)?;
    resvg::render(&svg.tree, resvg::tiny_skia::Transform::identity(), &mut pixmap.as_mut());
    Some(pixmap.take())
}

/// How a gzip read failure is reported: an unexpected end is truncation,
/// a checksum or CRC complaint is a checksum mismatch, anything else is
/// corruption.
pub open spec fn gzip_fault(f: GzIoFault) -> VectorFault {
    let lower = ascii_lower(f.message@);
    if f.end_of_file || contains_chars(lower, "unexpected end"@) {
        VectorFault::GzipTruncated
    } else if contains_chars(lower, "checksum"@) || contains_chars(lower, "crc"@) {
        VectorFault::GzipChecksum
    } else {
        VectorFault::GzipCorrupt
    }
}

/// One past `n`, saturating at `u64::MAX`.
pub open spec fn sat_inc(n: u64) -> u64 {
    if n == u64::MAX {
        n
    } else {
        (n + 1) as u64
    }
}

/// SVGZ decompression with a one-byte over-limit probe: more than `limit`
/// bytes is too large, and a stream with input left after its single
/// member is rejected.
pub open spec fn svgz_result(bytes: Seq<u8>, limit: u64) -> Result<Seq<u8>, VectorFault> {
    let (read, used_up) = gunzip_prefix(bytes, sat_inc(limit));
    match read {
        Err(f) => Err(gzip_fault(f)),
        Ok(out) => if out.len() > limit {
            Err(VectorFault::XmlTooLarge { limit })
        } else if !used_up {
            Err(VectorFault::GzipTrailingData)
        } else {
            Ok(out)
        },
    }
}

fn classify_gzip(f: &GzIoFault) -> (e: VectorImageError)
    ensures
        e@ == gzip_fault(*f),
{
    let lower = to_ascii_lower(f.message.as_str());
    if f.end_of_file || contains_in(lower.as_str(), "unexpected end") {
        VectorImageError::GzipTruncated
    } else if contains_in(lower.as_str(), "checksum") || contains_in(lower.as_str(), "crc") {
        VectorImageError::GzipChecksum
    } else {
        VectorImageError::GzipCorrupt
    }
}

fn decompress_svgz(bytes: &[u8], limit: u64) -> (r: Result<Vec<u8>, VectorImageError>)
    ensures
        match r {
            Ok(v) => svgz_result(bytes@, limit) == Ok::<Seq<u8>, VectorFault>(v@),
            Err(e) => svgz_result(bytes@, limit) == Err::<Seq<u8>, VectorFault>(e@),
        },
{
    let probe = if limit == u64::MAX {
        limit
    } else {
        limit + 1
    };
    let (read, used_up) = inflate_prefix(bytes, probe);
    match read {
        Err(f) => Err(classify_gzip(&f)),
        Ok(out) => {
            if out.len() as u64 > limit {
                Err(VectorImageError::XmlTooLarge { limit })
            } else if !used_up {
                Err(VectorImageError::GzipTrailingData)
            } else {
                Ok(out)
            }
        },
    }
}

/// Straight-alpha RGBA from premultiplied RGBA: colour channels of pixels
/// that are neither transparent nor opaque scale back by their alpha,
/// rounding to nearest and capping at 255.
pub open spec fn unpremultiplied(px: Seq<u8>) -> Seq<u8> {
    Seq::new(
        px.len(),
        |i: int|
            {
                let base = i - i % 4;
                let a = px[base + 3];
                if base + 4 > px.len() || i % 4 == 3 || a == 0 || a == 255 {
                    px[i]
                } else {
                    let v = (px[i] * 255 + a / 2) / (a as int);
                    if v > 255 {
                        255u8
                    } else {
                        v as u8
                    }
                }
            },
    )
}

fn unpremultiply(rgba: &mut Vec<u8>)
    ensures
        final(rgba)@ == unpremultiplied(old(rgba)@),
{
    let ghost original = rgba@;
    let n = rgba.len();
    let mut p: usize = 0;
    while n - p >= 4
        invariant
            n == original.len(),
            rgba@.len() == n,
            p % 4 == 0,
            p <= n,
            forall|i: int| 0 <= i < p ==> rgba@[i] == unpremultiplied(original)[i],
            forall|i: int| p <= i < n ==> rgba@[i] == original[i],
        decreases n - p,
    {
        let alpha = rgba[p + 3] as u32;
        if alpha != 0 && alpha != 255 {
            let mut c: usize = 0;
            while c < 3
                invariant
                    n == original.len(),
                    rgba@.len() == n,
                    p % 4 == 0,
                    p + 4 <= n,
                    c <= 3,
                    alpha == original[p + 3],
                    alpha != 0 && alpha != 255,
                    forall|i: int| 0 <= i < p ==> rgba@[i] == unpremultiplied(original)[i],
                    forall|i: int| p <= i < p + c ==> rgba@[i] == unpremultiplied(original)[i],
                    forall|i: int| p + c <= i < n ==> rgba@[i] == original[i],
                decreases 3 - c,
            {
                let channel = rgba[p + c] as u32;
                let value = (channel * 255 + alpha / 2) / alpha;
                let capped: u8 = if value > 255 {
                    255
                } else {
                    value as u8
                };
                proof {
                    let i = (p + c) as int;
                    assert(i % 4 == c as int) by (nonlinear_arith)
                        requires
                            p % 4 == 0,
                            c < 3,
                            i == p + c,
                    ;
                    assert(i - i % 4 == p);
                }
                rgba.set(p + c, capped);
                c = c + 1;
            }
            proof {
                let i = (p + 3) as int;
                assert(i % 4 == 3) by (nonlinear_arith)
                    requires
                        p % 4 == 0,
                        i == p + 3,
                ;
            }
        } else {
            proof {
                assert forall|i: int| p <= i < p + 4 implies rgba@[i] == unpremultiplied(original)[i] by {
                    assert(i - i % 4 == p) by (nonlinear_arith)
                        requires
                            p % 4 == 0,
                            p <= i < p + 4,
                    ;
                }
            }
        }
        p = p + 4;
    }
    proof {
        assert forall|i: int| p <= i < n implies rgba@[i] == unpremultiplied(original)[i] by {
            assert(i - i % 4 + 4 > n) by (nonlinear_arith)
                requires
                    p % 4 == 0,
                    p <= i < n,
                    p + 4 > n,
            ;
        }
        assert(rgba@ =~= unpremultiplied(original));
    }
}

// ---------------------------------------------------------------------------
// The bounded decode pipeline
// ---------------------------------------------------------------------------

/// The container to decode: gzip magic always means SVGZ; otherwise SVG
/// evidence, then the declaration.
pub open spec fn chosen_format(bytes: Seq<u8>, declared: Option<VectorFormat>) -> Option<VectorFormat> {
    if has_at(bytes, 0, gzip_magic()) {
        Some(VectorFormat::Svgz)
    } else {
        match spec_sniff_vector(bytes) {
            Some(f) => Some(f),
            None => declared,
        }
    }
}

/// The XML a vector resource stands for, after the input gate.
pub open spec fn vector_xml(bytes: Seq<u8>, image_limits: ImageLimits, declared: Option<VectorFormat>) -> Result<
    Seq<u8>,
    VectorFault,
> {
    if bytes.len() > image_limits.max_input_bytes {
        Err(VectorFault::InputTooLarge { size: bytes.len() as u64, limit: image_limits.max_input_bytes })
    } else {
        match chosen_format(bytes, declared) {
            None => Err(VectorFault::UnsupportedFormat),
            Some(VectorFormat::Svg) => if bytes.len() > image_limits.max_svg_xml_bytes {
                Err(VectorFault::XmlTooLarge { limit: image_limits.max_svg_xml_bytes })
            } else {
                Ok(bytes)
            },
            Some(VectorFormat::Svgz) => svgz_result(bytes, image_limits.max_svg_xml_bytes),
        }
    }
}

/// The outcome of decoding a vector resource: its XML must be UTF-8, pass
/// the structure gate and the preflight, parse, fit the shared geometry
/// and allocation limits, and render; the result is its size and its
/// straight-alpha RGBA pixels.
pub open spec fn vector_result(
    bytes: Seq<u8>,
    image_limits: ImageLimits,
    vector_limits: VectorLimits,
    declared: Option<VectorFormat>,
) -> Result<(u32, u32, Seq<u8>), VectorFault> {
    match vector_xml(bytes, image_limits, declared) {
        Err(f) => Err(f),
        Ok(xml) => if !valid_utf8(xml) {
            Err(VectorFault::InvalidUtf8)
        } else {
            let text = decode_utf8(xml);
            match structure_from(xml, vector_limits.xml, 0, 0, 0) {
                Err(x) => Err(VectorFault::UnsafeXml { source: x }),
                Ok(_) => match preflight_from(text, 0, no_work(), vector_limits) {
                    Err(f) => Err(f),
                    Ok(_) => match svg_parse(text) {
                        Err(d) => Err(VectorFault::ParseFailed { detail: d }),
                        Ok((width, height)) => {
                            let pixels = width * height;
                            let allocation = if pixels * 4 > u64::MAX { u64::MAX as int } else { pixels * 4 };
                            if width > image_limits.max_dimension || height > image_limits.max_dimension {
                                Err(
                                    VectorFault::DimensionTooLarge {
                                        width,
                                        height,
                                        limit: image_limits.max_dimension,
                                    },
                                )
                            } else if pixels > image_limits.max_pixels {
                                Err(VectorFault::TooManyPixels { pixels: pixels as u64, limit: image_limits.max_pixels })
                            } else if allocation > image_limits.max_allocation_bytes {
                                Err(
                                    VectorFault::AllocationTooLarge {
                                        bytes: allocation as u64,
                                        limit: image_limits.max_allocation_bytes,
                                    },
                                )
                            } else {
                                match svg_raster(text) {
                                    None => Err(VectorFault::RenderAllocationFailed),
                                    Some(px) => Ok((width, height, unpremultiplied(px))),
                                }
                            }
                        },
                    },
                },
            }
        },
    }
}

fn vector_xml_of(bytes: &[u8], image_limits: &ImageLimits, declared: Option<VectorFormat>) -> (r: Result<
    Vec<u8>,
    VectorImageError,
>)
    ensures
        match r {
            Ok(v) => vector_xml(bytes@, *image_limits, declared) == Ok::<Seq<u8>, VectorFault>(v@),
            Err(e) => vector_xml(bytes@, *image_limits, declared) == Err::<Seq<u8>, VectorFault>(e@),
        },
{
    let size = bytes.len() as u64;
    if size > image_limits.max_input_bytes {
        return Err(VectorImageError::InputTooLarge { size, limit: image_limits.max_input_bytes });
    }
    let magic = vec![0x1fu8, 0x8bu8];
    let format = if matches_at(bytes, 0, magic.as_slice()) {
        VectorFormat::Svgz
    } else {
        match sniff_vector_format(bytes) {
            Some(f) => f,
            None => match declared {
                Some(f) => f,
                None => return Err(VectorImageError::UnsupportedFormat),
            },
        }
    };
    match format {
        VectorFormat::Svg => {
            if size > image_limits.max_svg_xml_bytes {
                return Err(VectorImageError::XmlTooLarge { limit: image_limits.max_svg_xml_bytes });
            }
            Ok(copy_bytes(bytes))
        },
        VectorFormat::Svgz => decompress_svgz(bytes, image_limits.max_svg_xml_bytes),
    }
}

fn copy_bytes(bytes: &[u8]) -> (v: Vec<u8>)
    ensures
        v@ == bytes@,
{
    let mut v: Vec<u8> = Vec::new();
    let mut i: usize = 0;
    while i < bytes.len()
        invariant
            i <= bytes@.len(),
            v@ == bytes@.take(i as int),
        decreases bytes.len() - i,
    {
        v.push(bytes[i]);
        i = i + 1;
        assert(v@ =~= bytes@.take(i as int));
    }
    assert(bytes@.take(i as int) =~= bytes@);
    v
}

/// Decodes SVG or SVGZ under injectable inclusive limits.
pub fn decode_vector_bounded_with_limits(
    bytes: &[u8],
    image_limits: &ImageLimits,
    vector_limits: &VectorLimits,
    declared: Option<VectorFormat>,
) -> (r: Result<DecodedImage, VectorImageError>)
    ensures
        match r {
            Ok(d) => vector_result(bytes@, *image_limits, *vector_limits, declared) == Ok::<
                (u32, u32, Seq<u8>),
                VectorFault,
            >((d.spec_width(), d.spec_height(), d.spec_rgba())),
            Err(e) => vector_result(bytes@, *image_limits, *vector_limits, declared) == Err::<
                (u32, u32, Seq<u8>),
                VectorFault,
            >(e@),
        },
{
    let xml = match vector_xml_of(bytes, image_limits, declared) {
        Ok(xml) => xml,
        Err(e) => return Err(e),
    };
    let text = match utf8_text(xml.as_slice()) {
        Ok(text) => text,
        Err(_) => return Err(VectorImageError::InvalidUtf8),
    };
    proof {
        encode_utf8_decode_utf8(text@);
    }
    match validate_xml_structure(xml.as_slice(), vector_limits.xml) {
        Ok(_) => {},
        Err(source) => return Err(VectorImageError::UnsafeXml { source }),
    }
    match preflight_svg(text, vector_limits) {
        Ok(_) => {},
        Err(e) => return Err(e),
    }
    let svg = match parse_svg(text) {
        Ok(svg) => svg,
        Err(detail) => return Err(VectorImageError::ParseFailed { detail }),
    };
    let width = svg.width;
    let height = svg.height;
    if width > image_limits.max_dimension || height > image_limits.max_dimension {
        return Err(VectorImageError::DimensionTooLarge { width, height, limit: image_limits.max_dimension });
    }
    assert(width as u64 * height as u64 <= u64::MAX) by (nonlinear_arith)
        requires
            width <= u32::MAX,
            height <= u32::MAX,
    ;
    let pixels = width as u64 * height as u64;
    if pixels > image_limits.max_pixels {
        return Err(VectorImageError::TooManyPixels { pixels, limit: image_limits.max_pixels });
    }
    let allocation = match pixels.checked_mul(4) {
        Some(a) => a,
        None => u64::MAX,
    };
    if allocation > image_limits.max_allocation_bytes {
        return Err(VectorImageError::AllocationTooLarge { bytes: allocation, limit: image_limits.max_allocation_bytes });
    }
    let mut rgba = match render_svg(&svg) {
        Some(rgba) => rgba,
        None => return Err(VectorImageError::RenderAllocationFailed),
    };
    unpremultiply(&mut rgba);
    Ok(DecodedImage::new(width, height, rgba))
}

/// Decodes SVG or SVGZ under the default image and vector policies.
pub fn decode_vector_bounded(bytes: &[u8]) -> (r: Result<DecodedImage, VectorImageError>)
    ensures
        match r {
            Ok(d) => vector_result(bytes@, default_image_limits(), default_vector_limits(), None) == Ok::<
                (u32, u32, Seq<u8>),
                VectorFault,
            >((d.spec_width(), d.spec_height(), d.spec_rgba())),
            Err(e) => vector_result(bytes@, default_image_limits(), default_vector_limits(), None) == Err::<
                (u32, u32, Seq<u8>),
                VectorFault,
            >(e@),
        },
{
    let image_limits = ImageLimits::default();
    let vector_limits = VectorLimits::default();
    decode_vector_bounded_with_limits(bytes, &image_limits, &vector_limits, None)
}

} // verus!
