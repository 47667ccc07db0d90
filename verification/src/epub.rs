//! Reference resolution inside an EPUB package: a chapter's relative image
//! source becomes one canonical archive key, or nothing at all when it could
//! leave the book.
use vstd::prelude::*;
use vstd::utf8::*;

use crate::archive::{
    ArchiveError, ArchiveFault, ArchiveLimits, MemberRecord, spec_preflight, archive_error_text, canonical_key, default_read_limit, join_slash, lookup, rejection_reason, spec_canonical_key,
    spec_read, PreflightedArchive, PreflightedView,
};
use crate::error::{sanitize_path, spec_sanitized, DocumentError};
use crate::model::{
    default_navigation_of, position_check, Block, BlockKind, Document, DocumentId, InlineSpan, NavigationPoint, Section,
};
use core::ops::Range;
use crate::xhtml::{
    block_views, convert_xhtml, converted, html_tree_events, openings, BlockView, SemanticBlock, XhtmlBoundsError,
    MAX_XHTML_NODES,
};
use crate::paths::{chars_of, is_either, lemma_split_nonempty, split_either, split_on, text_of, views};
use crate::strings::{owned, push_char, push_str, utf8};
use crate::terminal_probe::{hex_value, is_hex};
use crate::terminal_image::{is_white, spec_trim, trim, white};
use crate::text::{file_stem_title, spec_title_for, utf8_text};

verus! {

/// The byte a two-character escape body stands for, as
/// `u8::from_str_radix(.., 16)` reads it: two hexadecimal digits, or a plus
/// sign and one digit.
pub open spec fn escape_value(h0: u8, h1: u8) -> Option<u8> {
    if is_hex(h0) && is_hex(h1) {
        Some((16 * hex_value(h0) + hex_value(h1)) as u8)
    } else if h0 == 0x2bu8 && is_hex(h1) {
        Some(hex_value(h1) as u8)
    } else {
        None
    }
}

/// The bytes from index `i` on with every `%` escape decoded; a `%` without
/// two valid escape bytes after it rejects the whole input.
pub open spec fn decode_from(b: Seq<u8>, i: int) -> Option<Seq<u8>>
    decreases b.len() - i,
{
    if i < 0 || i >= b.len() {
        Some(Seq::empty())
    } else if b[i] == 0x25u8 {
        if i + 3 > b.len() {
            None
        } else {
            match escape_value(b[i + 1], b[i + 2]) {
                None => None,
                Some(v) => match decode_from(b, i + 3) {
                    None => None,
                    Some(rest) => Some(seq![v] + rest),
                },
            }
        }
    } else {
        match decode_from(b, i + 1) {
            None => None,
            Some(rest) => Some(seq![b[i]] + rest),
        }
    }
}

/// Strict percent decoding: the decoded bytes must also be UTF-8.
pub open spec fn spec_percent_decode(s: Seq<char>) -> Option<Seq<char>> {
    match decode_from(utf8(s), 0) {
        None => None,
        Some(bytes) => if valid_utf8(bytes) {
            Some(decode_utf8(bytes))
        } else {
            None
        },
    }
}

fn escape_byte(h0: u8, h1: u8) -> (r: Option<u8>)
    ensures
        r == escape_value(h0, h1),
{
    let low = match crate::terminal_probe::hex_digit_value(h1) {
        Some(d) => d,
        None => return None,
    };
    if h0 == 0x2b {
        return Some(low);
    }
    match crate::terminal_probe::hex_digit_value(h0) {
        Some(high) => Some(high * 16 + low),
        None => None,
    }
}

/// Decodes percent escapes strictly; malformed sequences reject.
pub fn percent_decode(input: &str) -> (r: Option<String>)
    ensures
        match r {
            Some(s) => spec_percent_decode(input@) == Some(s@),
            None => spec_percent_decode(input@) is None,
        },
{
    let bytes = input.as_bytes();
    let ghost b = bytes@;
    assert(b == utf8(input@));
    let mut out: Vec<u8> = Vec::new();
    let mut index: usize = 0;
    while index < bytes.len()
        invariant
            b == bytes@,
            b == utf8(input@),
            index <= b.len(),
            decode_from(b, 0) == match decode_from(b, index as int) {
                None => None,
                Some(rest) => Some(out@ + rest),
            },
        decreases bytes.len() - index,
    {
        if bytes[index] == 0x25 {
            if bytes.len() - index < 3 {
                assert(decode_from(b, index as int) is None);
                return None;
            }
            let v = match escape_byte(bytes[index + 1], bytes[index + 2]) {
                Some(v) => v,
                None => {
                    assert(decode_from(b, index as int) is None);
                    return None;
                },
            };
            let ghost before = out@;
            out.push(v);
            proof {
                match decode_from(b, index + 3) {
                    None => {},
                    Some(rest) => {
                        assert(before + (seq![v] + rest) =~= out@ + rest);
                    },
                }
            }
            index = index + 3;
        } else {
            let ghost before = out@;
            out.push(bytes[index]);
            proof {
                match decode_from(b, index + 1) {
                    None => {},
                    Some(rest) => {
                        assert(before + (seq![b[index as int]] + rest) =~= out@ + rest);
                    },
                }
            }
            index = index + 1;
        }
    }
    assert(out@ + Seq::<u8>::empty() =~= out@);
    match utf8_text(out.as_slice()) {
        Ok(text) => {
            proof {
                lemma_decode_encode(text@, out@);
            }
            Some(text.to_owned())
        },
        Err(_) => None,
    }
}

proof fn lemma_decode_encode(s: Seq<char>, bytes: Seq<u8>)
    requires
        encode_utf8(s) == bytes,
    ensures
        decode_utf8(bytes) == s,
{
    encode_utf8_decode_utf8(s);
}

/// A `:` occurs before any `/`: the reference carries a scheme.
pub open spec fn scheme_like(s: Seq<char>) -> bool {
    exists|i: int| 0 <= i < s.len() && s[i] == ':' && forall|j: int| 0 <= j < i ==> s[j] != '/'
}

/// `s` without its leading slashes.
pub open spec fn skip_slashes(s: Seq<char>) -> Seq<char>
    decreases s.len(),
{
    if s.len() > 0 && s[0] == '/' {
        skip_slashes(s.drop_first())
    } else {
        s
    }
}

/// The segments after dot-segment merging: empty and `.` vanish, `..`
/// removes the previous segment, and `..` with nothing left to remove
/// escapes the package root.
pub open spec fn merge_segments(segs: Seq<Seq<char>>) -> Option<Seq<Seq<char>>>
    decreases segs.len(),
{
    if segs.len() == 0 {
        Some(Seq::empty())
    } else {
        match merge_segments(segs.drop_last()) {
            None => None,
            Some(stack) => {
                let s = segs.last();
                if s.len() == 0 || s == seq!['.'] {
                    Some(stack)
                } else if s == seq!['.', '.'] {
                    if stack.len() > 0 {
                        Some(stack.drop_last())
                    } else {
                        None
                    }
                } else {
                    Some(stack.push(s))
                }
            },
        }
    }
}

/// The canonical archive key a chapter's image reference names, if it stays
/// inside the book: fragments and queries strip first, escapes decode
/// strictly, scheme-like references reject, and dot segments merge against
/// the chapter directory without escaping the package root.
pub open spec fn spec_resolve_image_key(base_dir: Seq<char>, src: Seq<char>) -> Option<Seq<char>> {
    let cut = split_on(src, is_either('#', '?'))[0];
    match spec_percent_decode(cut) {
        None => None,
        Some(decoded) => if decoded.len() == 0 || scheme_like(decoded) {
            None
        } else {
            let joined = if decoded[0] == '/' {
                skip_slashes(decoded)
            } else if base_dir.len() == 0 {
                decoded
            } else {
                base_dir + seq!['/'] + decoded
            };
            key_from_segments(split_on(joined, is_either('/', '\\')))
        },
    }
}

/// The canonical key that merged path segments name, if any.
pub open spec fn key_from_segments(segs: Seq<Seq<char>>) -> Option<Seq<char>> {
    match merge_segments(segs) {
        None => None,
        Some(kept) => if kept.len() == 0 {
            None
        } else {
            match spec_canonical_key(join_slash(kept)) {
                Ok(key) => Some(key),
                Err(_) => None,
            }
        },
    }
}

proof fn lemma_merge_none_sticks(segs: Seq<Seq<char>>, i: int)
    requires
        0 <= i <= segs.len(),
        merge_segments(segs.take(i)) is None,
    ensures
        merge_segments(segs) is None,
    decreases segs.len() - i,
{
    if i < segs.len() {
        assert(segs.take(i + 1).drop_last() =~= segs.take(i));
        lemma_merge_none_sticks(segs, i + 1);
    } else {
        assert(segs.take(i) =~= segs);
    }
}

fn scheme_prefixed(v: &Vec<char>) -> (r: bool)
    ensures
        r == scheme_like(v@),
{
    let mut i: usize = 0;
    while i < v.len()
        invariant
            i <= v@.len(),
            forall|j: int| 0 <= j < i ==> v@[j] != ':' && v@[j] != '/',
        decreases v.len() - i,
    {
        if v[i] == ':' {
            return true;
        }
        if v[i] == '/' {
            assert forall|k: int| 0 <= k < v@.len() && v@[k] == ':' implies !(forall|j: int|
                0 <= j < k ==> v@[j] != '/') by {
                assert(k > i);
                assert(v@[i as int] == '/');
            }
            return false;
        }
        i = i + 1;
    }
    false
}

fn leading_slashes_removed(v: &Vec<char>) -> (s: String)
    ensures
        s@ == skip_slashes(v@),
{
    let mut k: usize = 0;
    assert(v@.skip(0) =~= v@);
    while k < v.len() && v[k] == '/'
        invariant
            k <= v@.len(),
            skip_slashes(v@) == skip_slashes(v@.skip(k as int)),
        decreases v.len() - k,
    {
        assert(v@.skip(k as int).drop_first() =~= v@.skip(k + 1));
        k = k + 1;
    }
    assert(v@.subrange(k as int, v@.len() as int) =~= v@.skip(k as int));
    text_of(v, k, v.len())
}

/// Reduces a relative chapter reference to a canonical archive key.
pub fn resolve_image_key(base_dir: &str, src: &str) -> (r: Option<String>)
    ensures
        match r {
            Some(k) => spec_resolve_image_key(base_dir@, src@) == Some(k@),
            None => spec_resolve_image_key(base_dir@, src@) is None,
        },
{
    let cuts = split_either(src, '#', '?');
    proof {
        lemma_split_nonempty(src@, is_either('#', '?'));
    }
    assert(views(cuts@)[0] == cuts@[0]@);
    let decoded = match percent_decode(cuts[0].as_str()) {
        Some(d) => d,
        None => return None,
    };
    let ghost expected_joined = if decoded@[0] == '/' {
        skip_slashes(decoded@)
    } else if base_dir@.len() == 0 {
        decoded@
    } else {
        base_dir@ + seq!['/'] + decoded@
    };
    let chars = chars_of(decoded.as_str());
    if chars.len() == 0 || scheme_prefixed(&chars) {
        return None;
    }
    let joined = if chars[0] == '/' {
        leading_slashes_removed(&chars)
    } else if base_dir.is_empty() {
        decoded
    } else {
        let mut j = base_dir.to_owned();
        push_char(&mut j, '/');
        push_str(&mut j, decoded.as_str());
        j
    };
    assert(joined@ == expected_joined);
    let pieces = split_either(joined.as_str(), '/', '\\');
    let ghost segs = views(pieces@);
    assert(spec_resolve_image_key(base_dir@, src@) == key_from_segments(segs));
    let mut stack: Vec<String> = Vec::new();
    let mut i: usize = 0;
    assert(segs.take(0) =~= Seq::<Seq<char>>::empty());
    assert(views(stack@) =~= Seq::<Seq<char>>::empty());
    while i < pieces.len()
        invariant
            segs == views(pieces@),
            spec_resolve_image_key(base_dir@, src@) == key_from_segments(segs),
            segs.len() == pieces@.len(),
            i <= pieces@.len(),
            merge_segments(segs.take(i as int)) == Some(views(stack@)),
        decreases pieces.len() - i,
    {
        let piece = &pieces[i];
        let ghost prior = segs.take(i as int);
        let ghost next = segs.take(i + 1);
        let ghost before = views(stack@);
        assert(next.drop_last() =~= prior);
        assert(next.last() == piece@);
        proof {
            reveal_strlit(".");
            reveal_strlit("..");
            assert("."@ =~= seq!['.']);
            assert(".."@ =~= seq!['.', '.']);
        }
        if piece.as_str().is_empty() || *piece == ".".to_owned() {
            assert(piece@.len() == 0 || piece@ == seq!['.']);
        } else if *piece == "..".to_owned() {
            assert(piece@ == seq!['.', '.']);
            if stack.len() == 0 {
                assert(merge_segments(next) is None);
                proof {
                    lemma_merge_none_sticks(segs, i + 1);
                }
                return None;
            }
            stack.pop();
            assert(views(stack@) =~= before.drop_last());
        } else {
            assert(piece@ != seq!['.', '.']);
            assert(piece@ != seq!['.']);
            stack.push(piece.clone());
            assert(views(stack@) =~= before.push(piece@));
        }
        i = i + 1;
    }
    assert(segs.take(i as int) =~= segs);
    if stack.len() == 0 {
        return None;
    }
    let mut path = String::new();
    let mut k: usize = 0;
    while k < stack.len()
        invariant
            1 <= stack@.len(),
            k <= stack@.len(),
            path@ == join_slash(views(stack@).take(k as int)),
        decreases stack.len() - k,
    {
        let ghost before = path@;
        if k > 0 {
            push_char(&mut path, '/');
        }
        push_str(&mut path, stack[k].as_str());
        proof {
            let t = views(stack@).take(k + 1);
            assert(t.drop_last() =~= views(stack@).take(k as int));
            assert(t.last() == stack@[k as int]@);
            if k == 0 {
                assert(path@ =~= t[0]);
            } else {
                assert(path@ =~= join_slash(t.drop_last()) + seq!['/'] + t.last());
            }
        }
        k = k + 1;
    }
    assert(views(stack@).take(k as int) =~= views(stack@));
    match canonical_key(path.as_str()) {
        Ok(key) => Some(key),
        Err(_) => None,
    }
}


/// What `rbook` reports of one spine item: whether it is linear, and the
/// decoded href of its manifest entry, when that entry exists.
pub struct SpineFact {
    pub linear: bool,
    pub href: Option<String>,
}

/// What `rbook` reports of one table-of-contents entry (nested entries
/// flattened in document order): its label and decoded href, if any.
pub struct TocFact {
    pub label: String,
    pub href: Option<String>,
}

/// The package facts that EPUB reading rests on: the title, the values of
/// the `rendition:layout` and `rendition#layout` metadata, the `properties`
/// of every manifest item, the spine and the table of contents.
pub struct PackageFacts {
    pub title: Option<String>,
    pub layouts: Vec<String>,
    pub manifest_properties: Vec<String>,
    pub spine: Vec<SpineFact>,
    pub toc: Vec<TocFact>,
}

#[verifier::external_type_specification]
#[verifier::external_body]
pub struct ExEpub(rbook::Epub);

/// `rbook::Epub::read` over a copy of the inspected bytes, the error as its
/// text. Nothing is claimed of the package it reads.
#[verifier::external_body]
fn read_epub(bytes: &[u8]) -> (r: Result<rbook::Epub, String>) {
    rbook::Epub::read(std::io::Cursor::new(bytes.to_vec())).map_err(|error| error.to_string())
}

/// The value of the package's first title (`EpubMetadata::title`), if any.
/// Nothing is claimed of it.
#[verifier::external_body]
fn epub_title(epub: &rbook::Epub) -> (r: Option<String>) {
    epub.metadata().title().map(|title| title.value().to_owned())
}

/// The values of the package metadata entries with `property`
/// (`EpubMetadata::by_property`). Nothing is claimed of them.
#[verifier::external_body]
fn metadata_values(epub: &rbook::Epub, property: &str) -> (r: Vec<String>) {
    epub.metadata().by_property(property).map(|entry| entry.value().to_owned()).collect()
}

/// The `properties` attribute of every manifest item, in manifest order.
/// Nothing is claimed of them.
#[verifier::external_body]
fn manifest_properties(epub: &rbook::Epub) -> (r: Vec<String>) {
    epub.manifest().iter().map(|item| item.properties().as_str().to_owned()).collect()
}

/// The spine in reading order: each item's linearity and the decoded href
/// of its manifest entry. Nothing is claimed of them.
#[verifier::external_body]
fn spine_facts(epub: &rbook::Epub) -> (r: Vec<SpineFact>) {
    epub.spine().iter().map(|entry| SpineFact {
        linear: entry.is_linear(),
        href: entry.manifest_entry().map(|item| item.href().decode().into_owned()),
    }).collect()
}

/// The table of contents flattened in document order: each entry's label
/// and decoded href. Nothing is claimed of them.
#[verifier::external_body]
fn toc_facts(epub: &rbook::Epub) -> (r: Vec<TocFact>) {
    match epub.toc().contents() {
        Some(root) => root.flatten().map(|entry| TocFact {
            label: entry.label().to_owned(),
            href: entry.href().map(|href| href.decode().into_owned()),
        }).collect(),
        None => Vec::new(),
    }
}

/// Gathers the package facts of a package `rbook` read.
fn package_facts(epub: &rbook::Epub) -> (f: PackageFacts) {
    let mut layouts = metadata_values(epub, "rendition:layout");
    let mut hashed = metadata_values(epub, "rendition#layout");
    layouts.append(&mut hashed);
    PackageFacts {
        title: epub_title(epub),
        layouts,
        manifest_properties: manifest_properties(epub),
        spine: spine_facts(epub),
        toc: toc_facts(epub),
    }
}

/// The canonical archive key a package href names: the part before any
/// `#` or `?`, without leading slashes, under the member-name policy; else
/// why the href is refused.
pub open spec fn spec_resource_key(href: Seq<char>) -> Result<Seq<char>, Seq<char>> {
    let path = skip_slashes(split_on(href, is_either('#', '?'))[0]);
    match spec_canonical_key(path) {
        Ok(k) => Ok(k),
        Err(r) => Err("resource href is not acceptable ("@ + rejection_reason(r) + ")"@),
    }
}

/// Reduces one package href to its canonical archive key.
pub fn resource_key(href: &str) -> (r: Result<String, String>)
    ensures
        match r {
            Ok(k) => spec_resource_key(href@) == Ok::<Seq<char>, Seq<char>>(k@),
            Err(d) => spec_resource_key(href@) == Err::<Seq<char>, Seq<char>>(d@),
        },
{
    let cuts = split_either(href, '#', '?');
    proof {
        lemma_split_nonempty(href@, is_either('#', '?'));
    }
    assert(views(cuts@)[0] == cuts@[0]@);
    let chars = chars_of(cuts[0].as_str());
    let trimmed = leading_slashes_removed(&chars);
    match canonical_key(trimmed.as_str()) {
        Ok(k) => Ok(k),
        Err(rejection) => {
            let mut d = String::new();
            push_str(&mut d, "resource href is not acceptable (");
            push_str(&mut d, rejection.reason());
            push_str(&mut d, ")");
            Err(d)
        },
    }
}

/// Whether `t` is one of the white-space separated tokens of `s`.
pub open spec fn has_token(s: Seq<char>, t: Seq<char>) -> bool {
    exists|i: int|
        0 <= i && i + t.len() <= s.len() && #[trigger] s.subrange(i, i + t.len()) == t && (i == 0 || is_white(
            s[i - 1],
        )) && (i + t.len() == s.len() || is_white(s[i + t.len()]))
}

/// The characters `v[i..i + t.len()]` are `t`.
fn chars_at(v: &Vec<char>, i: usize, t: &Vec<char>) -> (r: bool)
    requires
        i <= v@.len(),
    ensures
        r == (i + t@.len() <= v@.len() && v@.subrange(i as int, i + t@.len()) == t@),
{
    if t.len() > v.len() - i {
        return false;
    }
    let mut k: usize = 0;
    while k < t.len()
        invariant
            i + t@.len() <= v@.len(),
            k <= t@.len(),
            forall|j: int| 0 <= j < k ==> v@[i + j] == t@[j],
        decreases t@.len() - k,
    {
        assert(i + k < v.len());
        let at = i + k;
        if v[at] != t[k] {
            assert(v@.subrange(i as int, i + t@.len())[k as int] != t@[k as int]);
            return false;
        }
        k = k + 1;
    }
    assert(v@.subrange(i as int, i + t@.len()) =~= t@);
    true
}

/// Whether `t` is one of the white-space separated tokens of `s`.
fn token_in(s: &str, t: &str) -> (r: bool)
    requires
        t@.len() > 0,
    ensures
        r == has_token(s@, t@),
{
    let v = chars_of(s);
    let w = chars_of(t);
    let mut i: usize = 0;
    while i < v.len()
        invariant
            v@ == s@,
            w@ == t@,
            i <= v@.len(),
            forall|j: int|
                0 <= j < i ==> !(j + w@.len() <= v@.len() && #[trigger] v@.subrange(j, j + w@.len()) == w@ && (j == 0
                    || is_white(v@[j - 1])) && (j + w@.len() == v@.len() || is_white(v@[j + w@.len()]))),
        decreases v@.len() - i,
    {
        if chars_at(&v, i, &w) && (i == 0 || white(v[i - 1])) && (i + w.len() == v.len() || white(v[i + w.len()])) {
            return true;
        }
        i = i + 1;
    }
    proof {
        assert forall|j: int|
            0 <= j && j + w@.len() <= v@.len() && #[trigger] v@.subrange(j, j + w@.len()) == w@ implies !((j == 0
                || is_white(v@[j - 1])) && (j + w@.len() == v@.len() || is_white(v@[j + w@.len()]))) by {
            if j >= v@.len() {
                assert(w@.len() == 0);
                assert(j == v@.len());
            }
        }
    }
    false
}

/// Whether the package declares a fixed (pre-paginated) layout: a layout
/// metadata value is `pre-paginated`, or a manifest item carries the
/// `fixed-layout` property.
pub open spec fn fixed_layout(f: PackageFacts) -> bool {
    ||| exists|i: int| 0 <= i < f.layouts@.len() && (#[trigger] f.layouts@[i])@ == "pre-paginated"@
    ||| exists|i: int|
        0 <= i < f.manifest_properties@.len() && has_token((#[trigger] f.manifest_properties@[i])@, "fixed-layout"@)
}

/// Whether two texts are the same characters.
fn same_text(a: &str, b: &str) -> (r: bool)
    ensures
        r == (a@ == b@),
{
    let v = chars_of(a);
    let w = chars_of(b);
    let r = chars_at(&v, 0, &w) && v.len() == w.len();
    proof {
        if r {
            assert(v@ =~= v@.subrange(0, w@.len() as int));
        } else if v@ == w@ {
            assert(v@.subrange(0, w@.len() as int) =~= v@);
        }
    }
    r
}

/// Whether the package declares a fixed (pre-paginated) layout.
pub fn is_fixed_layout(facts: &PackageFacts) -> (r: bool)
    ensures
        r == fixed_layout(*facts),
{
    let mut i: usize = 0;
    while i < facts.layouts.len()
        invariant
            i <= facts.layouts@.len(),
            forall|j: int| 0 <= j < i ==> (#[trigger] facts.layouts@[j])@ != "pre-paginated"@,
        decreases facts.layouts@.len() - i,
    {
        if same_text(facts.layouts[i].as_str(), "pre-paginated") {
            return true;
        }
        i = i + 1;
    }
    proof {
        reveal_strlit("fixed-layout");
    }
    let mut k: usize = 0;
    while k < facts.manifest_properties.len()
        invariant
            k <= facts.manifest_properties@.len(),
            forall|j: int| 0 <= j < facts.layouts@.len() ==> (#[trigger] facts.layouts@[j])@ != "pre-paginated"@,
            forall|j: int| 0 <= j < k ==> !has_token((#[trigger] facts.manifest_properties@[j])@, "fixed-layout"@),
        decreases facts.manifest_properties@.len() - k,
    {
        proof {
            reveal_strlit("fixed-layout");
        }
        if token_in(facts.manifest_properties[k].as_str(), "fixed-layout") {
            return true;
        }
        k = k + 1;
    }
    false
}


/// The table-of-contents entries that name a resource, in order: each
/// entry's canonical key and label.
pub open spec fn toc_keys(toc: Seq<TocFact>) -> Seq<(Seq<char>, Seq<char>)>
    decreases toc.len(),
{
    if toc.len() == 0 {
        Seq::empty()
    } else {
        let rest = toc_keys(toc.drop_last());
        let e = toc.last();
        match e.href {
            Some(h) => match spec_resource_key(h@) {
                Ok(k) => rest.push((k, e.label@)),
                Err(_) => rest,
            },
            None => rest,
        }
    }
}

/// The label of the first table-of-contents entry that names `key`.
pub open spec fn toc_title(keys: Seq<(Seq<char>, Seq<char>)>, key: Seq<char>) -> Option<Seq<char>>
    decreases keys.len(),
{
    if keys.len() == 0 {
        None
    } else if keys[0].0 == key {
        Some(keys[0].1)
    } else {
        toc_title(keys.drop_first(), key)
    }
}

/// Key and label pairs as plain values.
pub open spec fn pair_views(v: Seq<(String, String)>) -> Seq<(Seq<char>, Seq<char>)> {
    v.map_values(|p: (String, String)| (p.0@, p.1@))
}

/// An optional text as plain values.
pub open spec fn opt_view(t: Option<String>) -> Option<Seq<char>> {
    match t {
        Some(s) => Some(s@),
        None => None,
    }
}

fn toc_key_list(toc: &Vec<TocFact>) -> (keys: Vec<(String, String)>)
    ensures
        pair_views(keys@) == toc_keys(toc@),
{
    let mut keys: Vec<(String, String)> = Vec::new();
    let mut i: usize = 0;
    while i < toc.len()
        invariant
            i <= toc@.len(),
            pair_views(keys@) == toc_keys(toc@.take(i as int)),
        decreases toc@.len() - i,
    {
        assert(toc@.take(i + 1).drop_last() =~= toc@.take(i as int));
        if let Some(h) = &toc[i].href {
            if let Ok(k) = resource_key(h.as_str()) {
                let ghost before = keys@;
                keys.push((k, toc[i].label.clone()));
                assert(pair_views(keys@) =~= pair_views(before).push((k@, toc@[i as int].label@)));
            }
        }
        i = i + 1;
    }
    assert(toc@.take(toc@.len() as int) =~= toc@);
    keys
}

fn title_for_key(keys: &Vec<(String, String)>, key: &str) -> (t: Option<String>)
    ensures
        opt_view(t) == toc_title(pair_views(keys@), key@),
{
    let mut i: usize = 0;
    assert(pair_views(keys@).skip(0) =~= pair_views(keys@));
    while i < keys.len()
        invariant
            i <= keys@.len(),
            toc_title(pair_views(keys@), key@) == toc_title(pair_views(keys@).skip(i as int), key@),
        decreases keys@.len() - i,
    {
        assert(pair_views(keys@).skip(i as int)[0] == (keys@[i as int].0@, keys@[i as int].1@));
        assert(pair_views(keys@).skip(i as int).drop_first() =~= pair_views(keys@).skip(i + 1));
        if same_text(keys[i].0.as_str(), key) {
            return Some(keys[i].1.clone());
        }
        i = i + 1;
    }
    assert(pair_views(keys@).skip(i as int).len() == 0);
    None
}

/// One chapter of the spine: its table-of-contents title, its archive key
/// and its converted blocks.
pub struct ChapterContent {
    pub title: Option<String>,
    pub key: String,
    pub blocks: Vec<SemanticBlock>,
}

/// A chapter as plain values.
pub struct ChapterSpec {
    pub title: Option<Seq<char>>,
    pub key: Seq<char>,
    pub blocks: Seq<BlockView>,
}

/// A chapter as plain values.
pub open spec fn chapter_view(c: ChapterContent) -> ChapterSpec {
    ChapterSpec { title: opt_view(c.title), key: c.key@, blocks: block_views(c.blocks@) }
}

/// Chapters as plain values.
pub open spec fn chapter_views(cs: Seq<ChapterContent>) -> Seq<ChapterSpec> {
    cs.map_values(|c: ChapterContent| chapter_view(c))
}

/// Why a package's chapters cannot be read: the package is unusable (with
/// the detail shown), or a chapter's markup is too large (with the chapter,
/// its node count and the limit).
pub enum PackageFault {
    Invalid(Seq<char>),
    TooComplex(Seq<char>, usize, usize),
}

/// What reading the spine item with manifest href `href` gives: its key
/// names a member of the archive that reads within its limit, decodes as
/// UTF-8 and converts within the node budget; its title is the first
/// table-of-contents label naming the key.
pub open spec fn spec_chapter(
    a: PreflightedView,
    href: Option<Seq<char>>,
    keys: Seq<(Seq<char>, Seq<char>)>,
) -> Result<ChapterSpec, PackageFault> {
    match href {
        None => Err(PackageFault::Invalid("the spine references a missing manifest entry"@)),
        Some(h) => match spec_resource_key(h) {
            Err(d) => Err(PackageFault::Invalid(d)),
            Ok(key) => if lookup(a.members, key) is None {
                Err(PackageFault::Invalid("the spine references missing resource '"@ + spec_sanitized(key) + "'"@))
            } else {
                match spec_read(a, key, default_read_limit(a, key)) {
                    Err(f) => Err(PackageFault::Invalid(archive_error_text(f))),
                    Ok(bytes) => if !valid_utf8(bytes) {
                        Err(
                            PackageFault::Invalid(
                                "chapter '"@ + spec_sanitized(key) + "' is not valid UTF-8"@,
                            ),
                        )
                    } else if openings(bytes) > MAX_XHTML_NODES {
                        Err(PackageFault::TooComplex(spec_sanitized(key), openings(bytes) as usize, MAX_XHTML_NODES))
                    } else {
                        Ok(
                            ChapterSpec {
                                title: toc_title(keys, key),
                                key,
                                blocks: converted(html_tree_events(decode_utf8(bytes))),
                            },
                        )
                    },
                }
            },
        },
    }
}

/// The chapters of the linear spine items, in spine order; the first
/// chapter that cannot be read decides the failure.
pub open spec fn spec_chapters(
    a: PreflightedView,
    spine: Seq<SpineFact>,
    keys: Seq<(Seq<char>, Seq<char>)>,
) -> Result<Seq<ChapterSpec>, PackageFault>
    decreases spine.len(),
{
    if spine.len() == 0 {
        Ok(Seq::empty())
    } else {
        match spec_chapters(a, spine.drop_last(), keys) {
            Err(f) => Err(f),
            Ok(cs) => if !spine.last().linear {
                Ok(cs)
            } else {
                match spec_chapter(a, opt_view(spine.last().href), keys) {
                    Err(f) => Err(f),
                    Ok(c) => Ok(cs.push(c)),
                }
            },
        }
    }
}

/// The error `r` reports fault `f` of the book shown as `display`.
pub open spec fn reports(display: Seq<char>, f: PackageFault, r: DocumentError) -> bool {
    match f {
        PackageFault::Invalid(d) => r matches DocumentError::InvalidPackage { path, detail } && path@ == display
            && detail@ == d,
        PackageFault::TooComplex(m, n, l) => r matches DocumentError::ChapterTooComplex { path, member, nodes, limit }
            && path@ == display && member@ == m && nodes == n && limit == l,
    }
}

proof fn lemma_chapters_stay_failed(
    a: PreflightedView,
    spine: Seq<SpineFact>,
    keys: Seq<(Seq<char>, Seq<char>)>,
    i: int,
)
    requires
        0 <= i <= spine.len(),
        spec_chapters(a, spine.take(i), keys) is Err,
    ensures
        spec_chapters(a, spine, keys) == spec_chapters(a, spine.take(i), keys),
    decreases spine.len() - i,
{
    if i < spine.len() {
        assert(spine.take(i + 1).drop_last() =~= spine.take(i));
        lemma_chapters_stay_failed(a, spine, keys, i + 1);
    } else {
        assert(spine.take(i) =~= spine);
    }
}

fn invalid(display: &str, detail: String) -> (e: DocumentError)
    ensures
        e matches DocumentError::InvalidPackage { path, detail: d } && path@ == display@ && d@ == detail@,
{
    DocumentError::InvalidPackage { path: owned(display), detail }
}

fn read_chapter(
    display: &str,
    archive: &PreflightedArchive,
    href: &Option<String>,
    keys: &Vec<(String, String)>,
) -> (r: Result<ChapterContent, DocumentError>)
    ensures
        match spec_chapter(archive@, opt_view(*href), pair_views(keys@)) {
            Ok(c) => r is Ok && chapter_view(r->Ok_0) == c,
            Err(f) => r is Err && reports(display@, f, r->Err_0),
        },
{
    let h = match href {
        None => return Err(invalid(display, owned("the spine references a missing manifest entry"))),
        Some(h) => h,
    };
    let key = match resource_key(h.as_str()) {
        Ok(k) => k,
        Err(detail) => return Err(invalid(display, detail)),
    };
    if archive.member(key.as_str()).is_none() {
        let mut d = String::new();
        push_str(&mut d, "the spine references missing resource '");
        push_str(&mut d, sanitize_path(key.as_str()).as_str());
        push_str(&mut d, "'");
        return Err(invalid(display, d));
    }
    let raw = match archive.read_member(key.as_str()) {
        Ok(b) => b,
        Err(e) => return Err(invalid(display, e.message())),
    };
    let source = match utf8_text(raw.as_slice()) {
        Ok(s) => s,
        Err(_) => {
            let mut d = String::new();
            push_str(&mut d, "chapter '");
            push_str(&mut d, sanitize_path(key.as_str()).as_str());
            push_str(&mut d, "' is not valid UTF-8");
            return Err(invalid(display, d));
        },
    };
    proof {
        encode_utf8_decode_utf8(source@);
    }
    let blocks = match convert_xhtml(source) {
        Ok(b) => b,
        Err(XhtmlBoundsError::TooManyNodes { nodes, limit }) => {
            return Err(
                DocumentError::ChapterTooComplex {
                    path: owned(display),
                    member: sanitize_path(key.as_str()),
                    nodes,
                    limit,
                },
            );
        },
    };
    let title = title_for_key(keys, key.as_str());
    Ok(ChapterContent { title, key, blocks })
}

/// Reads the chapters of the linear spine items of a package, in spine
/// order, over the inspected archive.
pub fn package_chapters(display: &str, archive: &PreflightedArchive, facts: &PackageFacts) -> (r: Result<
    Vec<ChapterContent>,
    DocumentError,
>)
    ensures
        match spec_chapters(archive@, facts.spine@, toc_keys(facts.toc@)) {
            Ok(cs) => r is Ok && chapter_views(r->Ok_0@) == cs,
            Err(f) => r is Err && reports(display@, f, r->Err_0),
        },
{
    let keys = toc_key_list(&facts.toc);
    let ghost kv = toc_keys(facts.toc@);
    let mut chapters: Vec<ChapterContent> = Vec::new();
    let mut i: usize = 0;
    assert(facts.spine@.take(0) =~= Seq::<SpineFact>::empty());
    assert(chapter_views(chapters@) =~= Seq::<ChapterSpec>::empty());
    while i < facts.spine.len()
        invariant
            i <= facts.spine@.len(),
            pair_views(keys@) == kv,
            kv == toc_keys(facts.toc@),
            spec_chapters(archive@, facts.spine@.take(i as int), kv) == Ok::<Seq<ChapterSpec>, PackageFault>(
                chapter_views(chapters@),
            ),
        decreases facts.spine@.len() - i,
    {
        assert(facts.spine@.take(i + 1).drop_last() =~= facts.spine@.take(i as int));
        assert(facts.spine@.take(i + 1).last() == facts.spine@[i as int]);
        if facts.spine[i].linear {
            match read_chapter(display, archive, &facts.spine[i].href, &keys) {
                Ok(c) => {
                    let ghost before = chapters@;
                    chapters.push(c);
                    assert(chapter_views(chapters@) =~= chapter_views(before).push(chapter_view(c)));
                },
                Err(e) => {
                    proof {
                        lemma_chapters_stay_failed(archive@, facts.spine@, kv, i + 1);
                    }
                    return Err(e);
                },
            }
        }
        i = i + 1;
    }
    assert(facts.spine@.take(i as int) =~= facts.spine@);
    Ok(chapters)
}


/// The texts of the blocks of the chapters `cs`, chapter after chapter.
pub open spec fn block_texts(cs: Seq<ChapterSpec>) -> Seq<Seq<char>>
    decreases cs.len(),
{
    if cs.len() == 0 {
        Seq::empty()
    } else {
        block_texts(cs.drop_last()) + cs.last().blocks.map_values(|b: BlockView| b.text)
    }
}

/// Texts joined by single newlines.
pub open spec fn joined(ts: Seq<Seq<char>>) -> Seq<char>
    decreases ts.len(),
{
    if ts.len() == 0 {
        Seq::empty()
    } else if ts.len() == 1 {
        ts[0]
    } else {
        joined(ts.drop_last()) + seq!['\n'] + ts.last()
    }
}

/// The titles of the chapters that hold blocks, in order: one section each.
pub open spec fn section_titles(cs: Seq<ChapterSpec>) -> Seq<Option<Seq<char>>>
    decreases cs.len(),
{
    if cs.len() == 0 {
        Seq::empty()
    } else if cs.last().blocks.len() == 0 {
        section_titles(cs.drop_last())
    } else {
        section_titles(cs.drop_last()).push(cs.last().title)
    }
}

/// Joins converted chapters into one document: consecutive blocks are
/// separated by one newline, a blank-line block between them unless two
/// list items meet (the newline then joins the first item's range); inline
/// decorations and table cells shift to document offsets; each chapter
/// with blocks becomes a section titled as the chapter, and a book without
/// any is one empty section. The model's own checks of the tiling and the
/// decorations decide success; on success the document's text is the
/// block texts joined by newlines.
pub fn assemble(id: DocumentId, title: Option<String>, chapters: &Vec<ChapterContent>) -> (r: Result<Document, String>)
    ensures
        r matches Ok(d) ==> {
            let cs = chapter_views(chapters@);
            &&& d.spec_id() == id
            &&& d.spec_title() == opt_view(title)
            &&& d.spec_canonical() == joined(block_texts(cs))
            &&& d.spec_sections().len() == if section_titles(cs).len() == 0 {
                1
            } else {
                section_titles(cs).len()
            }
            &&& forall|k: int|
                0 <= k < section_titles(cs).len() ==> (#[trigger] d.spec_sections()[k]).spec_title()
                    == section_titles(cs)[k]
            &&& default_navigation_of(d)
        },
{
    let ghost cs = chapter_views(chapters@);
    let mut canonical = String::new();
    let mut sections: Vec<Section> = Vec::new();
    let mut inline: Vec<InlineSpan> = Vec::new();
    let mut pending = false;
    let ghost mut done: Seq<Seq<char>> = Seq::empty();
    let mut c: usize = 0;
    assert(cs.take(0) =~= Seq::<ChapterSpec>::empty());
    while c < chapters.len()
        invariant
            c <= chapters@.len(),
            cs == chapter_views(chapters@),
            done == block_texts(cs.take(c as int)),
            canonical@ == joined(done),
            pending == (done.len() > 0),
            sections@.len() == section_titles(cs.take(c as int)).len(),
            forall|k: int|
                0 <= k < sections@.len() ==> (#[trigger] sections@[k]).spec_title() == section_titles(
                    cs.take(c as int),
                )[k],
        decreases chapters@.len() - c,
    {
        let chapter = &chapters[c];
        assert(cs.take(c + 1).drop_last() =~= cs.take(c as int));
        assert(cs.take(c + 1).last() == chapter_view(*chapter));
        let ghost texts = block_views(chapter.blocks@).map_values(|b: BlockView| b.text);
        if chapter.blocks.len() == 0 {
            assert(texts =~= Seq::<Seq<char>>::empty());
            assert(done + texts =~= done);
        } else {
            let mut blocks: Vec<Block> = Vec::new();
            let mut j: usize = 0;
            let ghost start_done = done;
            assert(texts.take(0) =~= Seq::<Seq<char>>::empty());
            assert(start_done + texts.take(0) =~= start_done);
            while j < chapter.blocks.len()
                invariant
                    j <= chapter.blocks@.len(),
                    texts == block_views(chapter.blocks@).map_values(|b: BlockView| b.text),
                    done == start_done + texts.take(j as int),
                    canonical@ == joined(done),
                    pending == (done.len() > 0),
                decreases chapter.blocks@.len() - j,
            {
                let semantic = &chapter.blocks[j];
                let tight = pending && blocks.len() > 0 && matches!(blocks[blocks.len() - 1].kind(), BlockKind::ListItem { .. })
                    && matches!(semantic.kind, BlockKind::ListItem { .. });
                if tight {
                    let separator = canonical.as_str().as_bytes().len();
                    push_char(&mut canonical, '\n');
                    let mut prev = blocks.pop().unwrap();
                    prev.extend_to(separator.saturating_add(1));
                    blocks.push(prev);
                } else if pending {
                    let at = canonical.as_str().as_bytes().len();
                    push_char(&mut canonical, '\n');
                    blocks.push(Block::new(BlockKind::BlankLine, at..at.saturating_add(1)));
                }
                let ghost before = canonical@;
                let start = canonical.as_str().as_bytes().len();
                push_str(&mut canonical, semantic.text.as_str());
                let mut q: usize = 0;
                while q < semantic.inline.len()
                    invariant
                        q <= semantic.inline@.len(),
                    decreases semantic.inline@.len() - q,
                {
                    let run = &semantic.inline[q];
                    inline.push(
                        InlineSpan::new(
                            run.kind,
                            start.saturating_add(run.range.start)..start.saturating_add(run.range.end),
                        ),
                    );
                    q = q + 1;
                }
                let end = canonical.as_str().as_bytes().len();
                if semantic.cells.len() == 0 {
                    blocks.push(Block::new(semantic.kind, start..end));
                } else {
                    let mut cells: Vec<Range<usize>> = Vec::new();
                    let mut k: usize = 0;
                    while k < semantic.cells.len()
                        invariant
                            k <= semantic.cells@.len(),
                        decreases semantic.cells@.len() - k,
                    {
                        let cell = &semantic.cells[k];
                        cells.push(start.saturating_add(cell.start)..start.saturating_add(cell.end));
                        k = k + 1;
                    }
                    blocks.push(Block::table(start..end, cells));
                }
                proof {
                    let t = texts[j as int];
                    assert(t == semantic.text@);
                    assert(texts.take(j + 1) =~= texts.take(j as int).push(t));
                    assert(start_done + texts.take(j + 1) =~= done.push(t));
                    if done.len() > 0 {
                        assert(done.push(t).drop_last() =~= done);
                        assert(canonical@ == joined(done) + seq!['\n'] + t);
                    } else {
                        assert(canonical@ =~= t);
                        assert(joined(done.push(t)) == done.push(t)[0]);
                    }
                    done = done.push(t);
                }
                pending = true;
                j = j + 1;
            }
            assert(texts.take(j as int) =~= texts);
            let ghost before = sections@;
            sections.push(Section::new(clone_title(&chapter.title), blocks));
            assert forall|k: int| 0 <= k < sections@.len() implies (#[trigger] sections@[k]).spec_title()
                == section_titles(cs.take(c + 1))[k] by {
                if k < before.len() {
                    assert(sections@[k] == before[k]);
                }
            }
        }
        c = c + 1;
    }
    assert(cs.take(c as int) =~= cs);
    if sections.len() == 0 {
        sections.push(Section::new(None, Vec::new()));
    }
    let document = match Document::from_sections(id, title, canonical, sections) {
        Ok(d) => d,
        Err(detail) => return Err(detail),
    };
    document.with_inline(inline)
}

fn clone_title(title: &Option<String>) -> (t: Option<String>)
    ensures
        opt_view(t) == opt_view(*title),
{
    match title {
        Some(s) => Some(owned(s.as_str())),
        None => None,
    }
}


/// The keys of the chapters that hold blocks, in order: one per section.
pub open spec fn section_keys(cs: Seq<ChapterSpec>) -> Seq<Seq<char>>
    decreases cs.len(),
{
    if cs.len() == 0 {
        Seq::empty()
    } else if cs.last().blocks.len() == 0 {
        section_keys(cs.drop_last())
    } else {
        section_keys(cs.drop_last()).push(cs.last().key)
    }
}

/// The last index of `key` in `keys`, or -1 when it is absent.
pub open spec fn last_index(keys: Seq<Seq<char>>, key: Seq<char>) -> int
    decreases keys.len(),
{
    if keys.len() == 0 {
        -1
    } else if keys.last() == key {
        keys.len() - 1
    } else {
        last_index(keys.drop_last(), key)
    }
}

/// The navigation the table of contents gives over `d`, whose sections
/// hold the chapters keyed `keys`: each entry in order whose href names a
/// chapter without a fragment, labelled as the entry, at the start of the
/// section of the last chapter with that key, when that start is a valid
/// position.
pub open spec fn toc_points(toc: Seq<TocFact>, keys: Seq<Seq<char>>, d: Document) -> Seq<(Seq<char>, usize)>
    decreases toc.len(),
{
    if toc.len() == 0 {
        Seq::empty()
    } else {
        let rest = toc_points(toc.drop_last(), keys, d);
        let e = toc.last();
        match e.href {
            Some(h) => if h@.contains('#') {
                rest
            } else {
                match spec_resource_key(h@) {
                    Ok(k) => {
                        let i = last_index(keys, k);
                        if i >= 0 && position_check(d, i as usize, 0, 0) is None {
                            rest.push((e.label@, i as usize))
                        } else {
                            rest
                        }
                    },
                    Err(_) => rest,
                }
            },
            None => rest,
        }
    }
}

proof fn lemma_points_follow_text(toc: Seq<TocFact>, keys: Seq<Seq<char>>, d1: Document, d2: Document)
    requires
        d1.spec_sections() == d2.spec_sections(),
        d1.spec_canonical() == d2.spec_canonical(),
    ensures
        toc_points(toc, keys, d1) == toc_points(toc, keys, d2),
    decreases toc.len(),
{
    if toc.len() > 0 {
        lemma_points_follow_text(toc.drop_last(), keys, d1, d2);
    }
}

/// The navigation `nav` holds exactly the points `pts`, each at offset 0
/// of the first block of its section.
pub open spec fn navigation_is(nav: Seq<NavigationPoint>, pts: Seq<(Seq<char>, usize)>) -> bool {
    &&& nav.len() == pts.len()
    &&& forall|i: int|
        0 <= i < pts.len() ==> (#[trigger] nav[i]).spec_title() == pts[i].0 && nav[i].spec_position().spec_section()
            == pts[i].1 && nav[i].spec_position().spec_block() == 0 && nav[i].spec_position().spec_offset() == 0
}

fn section_key_list(chapters: &Vec<ChapterContent>) -> (keys: Vec<String>)
    ensures
        views(keys@) == section_keys(chapter_views(chapters@)),
{
    let ghost cs = chapter_views(chapters@);
    let mut keys: Vec<String> = Vec::new();
    let mut c: usize = 0;
    assert(cs.take(0) =~= Seq::<ChapterSpec>::empty());
    assert(views(keys@) =~= Seq::<Seq<char>>::empty());
    while c < chapters.len()
        invariant
            c <= chapters@.len(),
            cs == chapter_views(chapters@),
            views(keys@) == section_keys(cs.take(c as int)),
        decreases chapters@.len() - c,
    {
        assert(cs.take(c + 1).drop_last() =~= cs.take(c as int));
        assert(cs.take(c + 1).last() == chapter_view(chapters@[c as int]));
        if chapters[c].blocks.len() > 0 {
            let ghost before = keys@;
            keys.push(owned(chapters[c].key.as_str()));
            assert(views(keys@) =~= views(before).push(chapters@[c as int].key@));
        } else {
            assert(block_views(chapters@[c as int].blocks@).len() == 0);
        }
        c = c + 1;
    }
    assert(cs.take(c as int) =~= cs);
    keys
}

fn find_last(keys: &Vec<String>, key: &str) -> (r: Option<usize>)
    ensures
        match r {
            Some(i) => last_index(views(keys@), key@) == i,
            None => last_index(views(keys@), key@) == -1,
        },
{
    let mut found: Option<usize> = None;
    let mut i: usize = 0;
    assert(views(keys@).take(0) =~= Seq::<Seq<char>>::empty());
    while i < keys.len()
        invariant
            i <= keys@.len(),
            match found {
                Some(j) => last_index(views(keys@).take(i as int), key@) == j,
                None => last_index(views(keys@).take(i as int), key@) == -1,
            },
        decreases keys@.len() - i,
    {
        assert(views(keys@).take(i + 1).drop_last() =~= views(keys@).take(i as int));
        assert(views(keys@).take(i + 1).last() == keys@[i as int]@);
        if same_text(keys[i].as_str(), key) {
            found = Some(i);
        }
        i = i + 1;
    }
    assert(views(keys@).take(i as int) =~= views(keys@));
    found
}

fn has_hash(s: &str) -> (r: bool)
    ensures
        r == s@.contains('#'),
{
    let v = chars_of(s);
    let mut i: usize = 0;
    while i < v.len()
        invariant
            v@ == s@,
            i <= v@.len(),
            forall|j: int| 0 <= j < i ==> v@[j] != '#',
        decreases v@.len() - i,
    {
        if v[i] == '#' {
            assert(s@[i as int] == '#');
            return true;
        }
        i = i + 1;
    }
    false
}

/// Sets the navigation of a built document from the table of contents,
/// keeping the default navigation when no entry resolves.
fn with_toc_navigation(d: Document, toc: &Vec<TocFact>, keys: &Vec<String>) -> (r: Document)
    ensures
        r.spec_id() == d.spec_id(),
        r.spec_title() == d.spec_title(),
        r.spec_canonical() == d.spec_canonical(),
        r.spec_sections() == d.spec_sections(),
        r.spec_inline() == d.spec_inline(),
        toc_points(toc@, views(keys@), d).len() > 0 ==> navigation_is(
            r.spec_navigation(),
            toc_points(toc@, views(keys@), d),
        ),
        toc_points(toc@, views(keys@), d).len() == 0 ==> r.spec_navigation() == d.spec_navigation(),
{
    let ghost kv = views(keys@);
    let mut points: Vec<NavigationPoint> = Vec::new();
    let mut t: usize = 0;
    assert(toc@.take(0) =~= Seq::<TocFact>::empty());
    while t < toc.len()
        invariant
            t <= toc@.len(),
            kv == views(keys@),
            navigation_is(points@, toc_points(toc@.take(t as int), kv, d)),
        decreases toc@.len() - t,
    {
        assert(toc@.take(t + 1).drop_last() =~= toc@.take(t as int));
        assert(toc@.take(t + 1).last() == toc@[t as int]);
        if let Some(h) = &toc[t].href {
            if !has_hash(h.as_str()) {
                if let Ok(k) = resource_key(h.as_str()) {
                    if let Some(i) = find_last(keys, k.as_str()) {
                        if let Ok(p) = d.position(i, 0, 0) {
                            let ghost before = points@;
                            points.push(NavigationPoint::new(toc[t].label.as_str(), p));
                            assert forall|q: int| 0 <= q < points@.len() implies (#[trigger] points@[q]).spec_title()
                                == toc_points(toc@.take(t + 1), kv, d)[q].0 && points@[q].spec_position().spec_section()
                                == toc_points(toc@.take(t + 1), kv, d)[q].1 && points@[q].spec_position().spec_block()
                                == 0 && points@[q].spec_position().spec_offset() == 0 by {
                                if q < before.len() {
                                    assert(points@[q] == before[q]);
                                }
                            }
                        }
                    }
                }
            }
        }
        t = t + 1;
    }
    assert(toc@.take(t as int) =~= toc@);
    if points.len() > 0 {
        d.with_navigation(points)
    } else {
        d
    }
}

/// The title of a book: its package title without surrounding white space
/// when that is not empty, else the title its path gives.
pub open spec fn book_title(display: Seq<char>, title: Option<String>) -> Seq<char> {
    match title {
        Some(t) => if spec_trim(t@).len() > 0 {
            spec_trim(t@)
        } else {
            spec_title_for(display)
        },
        None => spec_title_for(display),
    }
}

/// Builds the document of a package from its facts over the inspected
/// archive: a fixed layout is refused; else the chapters of the linear
/// spine, in order, join into one document identified by the path and
/// `:epub`, titled by the package title (or the path), one section per
/// chapter that holds blocks, titled by the table of contents.
pub fn document_from_package(display: &str, archive: &PreflightedArchive, facts: &PackageFacts) -> (r: Result<
    Document,
    DocumentError,
>)
    ensures
        fixed_layout(*facts) ==> (r matches Err(DocumentError::UnsupportedFixedLayout { path }) && path@ == display@),
        !fixed_layout(*facts) ==> match spec_chapters(archive@, facts.spine@, toc_keys(facts.toc@)) {
            Err(f) => r is Err && reports(display@, f, r->Err_0),
            Ok(cs) => match r {
                Ok(d) => {
                    &&& d.spec_id().spec_repr() == display@ + ":epub"@
                    &&& d.spec_title() == Some(book_title(display@, facts.title))
                    &&& d.spec_canonical() == joined(block_texts(cs))
                    &&& d.spec_sections().len() == if section_titles(cs).len() == 0 {
                        1
                    } else {
                        section_titles(cs).len()
                    }
                    &&& forall|k: int|
                        0 <= k < section_titles(cs).len() ==> (#[trigger] d.spec_sections()[k]).spec_title()
                            == section_titles(cs)[k]
                    &&& toc_points(facts.toc@, section_keys(cs), d).len() > 0 ==> navigation_is(
                        d.spec_navigation(),
                        toc_points(facts.toc@, section_keys(cs), d),
                    )
                    &&& toc_points(facts.toc@, section_keys(cs), d).len() == 0 ==> default_navigation_of(d)
                },
                Err(e) => e matches DocumentError::InvalidPackage { path, .. } && path@ == display@,
            },
        },
{
    if is_fixed_layout(facts) {
        return Err(DocumentError::UnsupportedFixedLayout { path: owned(display) });
    }
    let chapters = match package_chapters(display, archive, facts) {
        Ok(c) => c,
        Err(e) => return Err(e),
    };
    let title = match &facts.title {
        Some(t) => {
            let trimmed = trim(t.as_str());
            if chars_of(trimmed.as_str()).len() > 0 {
                trimmed
            } else {
                file_stem_title(display)
            }
        },
        None => file_stem_title(display),
    };
    let mut repr = owned(display);
    push_str(&mut repr, ":epub");
    let id = DocumentId::new(repr);
    match assemble(id, Some(title), &chapters) {
        Ok(d) => {
            let keys = section_key_list(&chapters);
            let ghost before = d;
            let navigated = with_toc_navigation(d, &facts.toc, &keys);
            proof {
                lemma_points_follow_text(facts.toc@, views(keys@), before, navigated);
            }
            Ok(navigated)
        },
        Err(detail) => Err(invalid(display, detail)),
    }
}

/// The archive member whose presence marks an encrypted book.
pub open spec fn encryption_key() -> Seq<char> {
    "META-INF/encryption.xml"@
}

/// Builds the logical document of an inspected EPUB archive: a book with
/// an encryption declaration is refused as encrypted; a package `rbook`
/// cannot read is refused as invalid, with its reason; else the package
/// facts decide, as `document_from_package` states.
pub fn build_document(display: &str, archive: &PreflightedArchive) -> (r: Result<Document, DocumentError>)
    ensures
        lookup(archive@.members, encryption_key()) is Some ==> (r matches Err(
            DocumentError::Archive(ArchiveError::EncryptedMember { path, member }),
        ) && path@ == display@ && member@ == encryption_key()),
{
    let marker = "META-INF/encryption.xml";
    if archive.member(marker).is_some() {
        return Err(
            DocumentError::Archive(ArchiveError::EncryptedMember { path: owned(display), member: owned(marker) }),
        );
    }
    let epub = match read_epub(archive.bytes()) {
        Ok(epub) => epub,
        Err(detail) => return Err(invalid(display, detail)),
    };
    let facts = package_facts(&epub);
    document_from_package(display, archive, &facts)
}


/// One EPUB source, inspected once: the bytes passed every archive
/// boundary, and building the document reads only those bytes.
pub struct EpubSnapshot {
    display: String,
    archive: PreflightedArchive,
}

impl EpubSnapshot {
    /// The path the book is shown as.
    pub closed spec fn spec_display(&self) -> Seq<char> {
        self.display@
    }

    /// The inspected archive.
    pub closed spec fn spec_archive(&self) -> PreflightedView {
        self.archive@
    }

    /// Stage one: preflights the bytes of the book shown as `display`;
    /// every archive rejection comes before any package parsing.
    pub fn open(display: &str, bytes: Vec<u8>, limits: &ArchiveLimits) -> (r: Result<Self, DocumentError>)
        ensures
            match r {
                Ok(s) => {
                    &&& spec_preflight(bytes@, display@, *limits) == Ok::<Seq<MemberRecord>, ArchiveFault>(
                        s.spec_archive().members,
                    )
                    &&& s.spec_archive().bytes == bytes@
                    &&& s.spec_display() == display@
                },
                Err(e) => e matches DocumentError::Archive(a) && spec_preflight(bytes@, display@, *limits) == Err::<
                    Seq<MemberRecord>,
                    ArchiveFault,
                >(a@),
            },
    {
        match PreflightedArchive::open(bytes, display, limits) {
            Ok(archive) => Ok(EpubSnapshot { display: owned(display), archive }),
            Err(e) => Err(DocumentError::Archive(e)),
        }
    }

    /// Stage two: builds the logical document from the inspected bytes
    /// alone, as `build_document` does.
    pub fn build(&self) -> (r: Result<Document, DocumentError>)
        ensures
            lookup(self.spec_archive().members, encryption_key()) is Some ==> (r matches Err(
                DocumentError::Archive(ArchiveError::EncryptedMember { path, member }),
            ) && path@ == self.spec_display() && member@ == encryption_key()),
    {
        build_document(self.display.as_str(), &self.archive)
    }
}


/// Table-of-contents entry `e` names the resource with canonical key `key`.
pub open spec fn names_key(e: TocFact, key: Seq<char>) -> bool {
    e.href matches Some(h) && spec_resource_key(h@) == Ok::<Seq<char>, Seq<char>>(key)
}

proof fn lemma_title_after_push(keys: Seq<(Seq<char>, Seq<char>)>, p: (Seq<char>, Seq<char>), key: Seq<char>)
    ensures
        toc_title(keys.push(p), key) == if toc_title(keys, key) is Some {
            toc_title(keys, key)
        } else if p.0 == key {
            Some(p.1)
        } else {
            None
        },
    decreases keys.len(),
{
    if keys.len() > 0 {
        assert(keys.push(p)[0] == keys[0]);
        assert(keys.push(p).drop_first() =~= keys.drop_first().push(p));
        lemma_title_after_push(keys.drop_first(), p, key);
    } else {
        assert(keys.push(p)[0] == p);
        assert(keys.push(p).drop_first() =~= Seq::<(Seq<char>, Seq<char>)>::empty());
        assert(toc_title(Seq::<(Seq<char>, Seq<char>)>::empty(), key) is None);
    }
}

/// A chapter's title comes from the first table-of-contents entry, in
/// order, that names its key: the title for `key` is the label of entry
/// `i` when entry `i` names `key` and no earlier entry does, whatever
/// later entries name; and there is no title when no entry names `key`.
pub proof fn lemma_first_entry_titles(toc: Seq<TocFact>, key: Seq<char>, i: int)
    ensures
        0 <= i < toc.len() && names_key(toc[i], key) && (forall|j: int| 0 <= j < i ==> !names_key(#[trigger] toc[j], key))
            ==> toc_title(toc_keys(toc), key) == Some(toc[i].label@),
        (forall|j: int| 0 <= j < toc.len() ==> !names_key(#[trigger] toc[j], key)) ==> toc_title(toc_keys(toc), key) is None,
    decreases toc.len(),
{
    if toc.len() > 0 {
        let init = toc.drop_last();
        lemma_first_entry_titles(init, key, i);
        let e = toc.last();
        if let Some(h) = e.href {
            if let Ok(k) = spec_resource_key(h@) {
                lemma_title_after_push(toc_keys(init), (k, e.label@), key);
            }
        }
        if 0 <= i < toc.len() && names_key(toc[i], key) && (forall|j: int| 0 <= j < i ==> !names_key(#[trigger] toc[j], key)) {
            if i == toc.len() - 1 {
                assert forall|j: int| 0 <= j < init.len() implies !names_key(#[trigger] init[j], key) by {
                    assert(init[j] == toc[j]);
                }
            } else {
                assert(init[i] == toc[i]);
                assert forall|j: int| 0 <= j < i implies !names_key(#[trigger] init[j], key) by {
                    assert(init[j] == toc[j]);
                }
            }
        }
        if forall|j: int| 0 <= j < toc.len() ==> !names_key(#[trigger] toc[j], key) {
            assert forall|j: int| 0 <= j < init.len() implies !names_key(#[trigger] init[j], key) by {
                assert(init[j] == toc[j]);
            }
            assert(!names_key(toc[toc.len() - 1], key));
        }
    }
}

/// A chapter read from the spine is titled by the first table-of-contents
/// entry that names its key.
pub proof fn lemma_chapter_titled_by_first_entry(
    a: PreflightedView,
    href: Option<Seq<char>>,
    toc: Seq<TocFact>,
    c: ChapterSpec,
    i: int,
)
    requires
        spec_chapter(a, href, toc_keys(toc)) == Ok::<ChapterSpec, PackageFault>(c),
        0 <= i < toc.len(),
        names_key(toc[i], c.key),
        forall|j: int| 0 <= j < i ==> !names_key(#[trigger] toc[j], c.key),
    ensures
        c.title == Some(toc[i].label@),
{
    lemma_first_entry_titles(toc, c.key, i);
}

} // verus!
