//! Archive-level policy in front of EPUB semantic parsing: member names
//! become one host-independent canonical key or are rejected, resource
//! classes carry their own size bounds, and the advertised expansion stays
//! inside an inclusive budget without saturating arithmetic.
use vstd::prelude::*;
use std::io::Read;
use std::sync::Arc;

use crate::native::share;

use crate::paths::{ascii_lower, chars_of, is_either, spec_extension, split_either, split_on, text_of, to_ascii_lower, views, extension};
use vstd::utf8::*;

use crate::error::{sanitize_path, spec_sanitized};
use crate::strings::{owned, push_char, push_decimal, push_str, spec_decimal};
use crate::structured::{structure_from, validate_xml_structure, xml_error_text, XmlStructureError};
use crate::text::utf8_text;
use crate::structured::XmlLimits;

verus! {

/// Inclusive archive policy limits.
#[derive(Clone, Copy, Debug)]
pub struct ArchiveLimits {
    /// Inclusive maximum compressed size of one source file in bytes.
    pub max_compressed_bytes: u64,
    /// Inclusive maximum number of ZIP members.
    pub max_members: usize,
    /// Inclusive maximum advertised total expansion in bytes.
    pub max_advertised_expansion: u64,
    /// Inclusive maximum decompressed size of container, OPF, NCX, or nav.
    pub max_control_member: u64,
    /// Inclusive maximum decompressed size of one XHTML chapter.
    pub max_chapter_member: u64,
    /// Inclusive maximum per-entry expansion ratio above the small-file
    /// exception.
    pub max_compression_ratio: u64,
    /// Entries whose uncompressed size stays within this bound bypass the
    /// ratio check because their absolute cost is bounded anyway.
    pub small_file_exception: u64,
    /// Pre-parse structure limits for XML control documents.
    pub xml: XmlLimits,
}

impl Default for ArchiveLimits {
    fn default() -> (l: Self)
        ensures
            l.max_compressed_bytes == 256 * 1024 * 1024,
            l.max_members == 10_000,
            l.max_advertised_expansion == 512 * 1024 * 1024,
            l.max_control_member == 16 * 1024 * 1024,
            l.max_chapter_member == 32 * 1024 * 1024,
            l.max_compression_ratio == 100,
            l.small_file_exception == 64 * 1024,
            l.xml.max_depth == 256,
            l.xml.max_nodes == 1_000_000,
    {
        ArchiveLimits {
            max_compressed_bytes: 256 * 1024 * 1024,
            max_members: 10_000,
            max_advertised_expansion: 512 * 1024 * 1024,
            max_control_member: 16 * 1024 * 1024,
            max_chapter_member: 32 * 1024 * 1024,
            max_compression_ratio: 100,
            small_file_exception: 64 * 1024,
            xml: XmlLimits::default(),
        }
    }
}

/// Resource classes with their own decompressed-size boundaries.
#[derive(Clone, Copy, Debug, PartialEq, Eq, Structural)]
pub enum MemberClass {
    /// Container, package, NCX, or navigation documents.
    Control,
    /// One XHTML chapter resource.
    Chapter,
    /// Images, fonts, and other lazy resources that text never decodes.
    Other,
}

/// The inclusive decompressed byte limit of a class; other resources share
/// the whole-book expansion budget.
pub open spec fn class_limit(class: MemberClass, limits: ArchiveLimits) -> u64 {
    match class {
        MemberClass::Control => limits.max_control_member,
        MemberClass::Chapter => limits.max_chapter_member,
        MemberClass::Other => limits.max_advertised_expansion,
    }
}

impl MemberClass {
    /// The inclusive decompressed byte limit for this class.
    pub fn limit(self, limits: &ArchiveLimits) -> (l: u64)
        ensures
            l == class_limit(self, *limits),
    {
        match self {
            MemberClass::Control => limits.max_control_member,
            MemberClass::Chapter => limits.max_chapter_member,
            MemberClass::Other => limits.max_advertised_expansion,
        }
    }

    /// The human name used in typed diagnostics.
    pub fn name(self) -> (n: &'static str)
        ensures
            n@ == match self {
                MemberClass::Control => "control"@,
                MemberClass::Chapter => "chapter"@,
                MemberClass::Other => "resource"@,
            },
    {
        match self {
            MemberClass::Control => "control",
            MemberClass::Chapter => "chapter",
            MemberClass::Other => "resource",
        }
    }
}

/// The class of a canonical member key: the exact container name and OPF
/// or NCX documents are control; XHTML, HTML and HTM files are chapters even
/// before the package declares their role; everything else is lazy.
pub open spec fn spec_classify(key: Seq<char>) -> MemberClass {
    let lower = ascii_lower(key);
    if lower == "meta-inf/container.xml"@ {
        MemberClass::Control
    } else {
        match spec_extension(lower) {
            Some(e) => if e == "opf"@ || e == "ncx"@ {
                MemberClass::Control
            } else if e == "xhtml"@ || e == "html"@ || e == "htm"@ {
                MemberClass::Chapter
            } else {
                MemberClass::Other
            },
            None => MemberClass::Other,
        }
    }
}

/// Classifies one canonical member key for boundary enforcement.
pub fn classify_member(key: &str) -> (c: MemberClass)
    ensures
        c == spec_classify(key@),
{
    let lower = to_ascii_lower(key);
    if lower == "meta-inf/container.xml".to_owned() {
        return MemberClass::Control;
    }
    proof {
        reveal_strlit("meta-inf/container.xml");
    }
    match extension(lower.as_str()) {
        Some(e) => {
            proof {
                reveal_strlit("opf");
                reveal_strlit("ncx");
                reveal_strlit("xhtml");
                reveal_strlit("html");
                reveal_strlit("htm");
            }
            if e == "opf".to_owned() || e == "ncx".to_owned() {
                MemberClass::Control
            } else if e == "xhtml".to_owned() || e == "html".to_owned() || e == "htm".to_owned() {
                MemberClass::Chapter
            } else {
                MemberClass::Other
            }
        },
        None => MemberClass::Other,
    }
}

/// Adds one advertised member size inside an inclusive budget; `None`
/// stands for arithmetic overflow or a total above the limit alike, so an
/// unrepresentable expansion can never pass as a saturated total.
pub fn checked_expansion_total(current: u64, member: u64, limit: u64) -> (r: Option<u64>)
    ensures
        match r {
            Some(total) => total == current + member && total <= limit,
            None => current + member > limit,
        },
{
    match current.checked_add(member) {
        Some(total) => if total <= limit {
            Some(total)
        } else {
            None
        },
        None => None,
    }
}

/// Rejection reasons for unsafe or ambiguous member names.
#[derive(Clone, Copy, Debug, PartialEq, Eq, Structural)]
pub enum NameRejection {
    /// The name contains interior NUL bytes.
    ContainsNul,
    /// The raw bytes are not UTF-8, so no host-independent key exists.
    NotUtf8,
    /// The name escapes the archive root through a parent segment.
    ParentEscape,
    /// A path segment contains a colon (drive, ADS, or device ambiguity).
    ColonInSegment,
    /// Every segment was empty or dot, leaving no usable name.
    EmptyName,
}

/// The reason text of each rejection.
pub open spec fn rejection_reason(r: NameRejection) -> Seq<char> {
    match r {
        NameRejection::ContainsNul => "the member name contains NUL bytes"@,
        NameRejection::NotUtf8 => "the member name is not UTF-8 text"@,
        NameRejection::ParentEscape => "the member name leaves the archive root"@,
        NameRejection::ColonInSegment => "a member name segment contains a colon"@,
        NameRejection::EmptyName => "the member has no usable name"@,
    }
}

impl NameRejection {
    pub fn reason(self) -> (s: &'static str)
        ensures
            s@ == rejection_reason(self),
    {
        match self {
            NameRejection::ContainsNul => "the member name contains NUL bytes",
            NameRejection::NotUtf8 => "the member name is not UTF-8 text",
            NameRejection::ParentEscape => "the member name leaves the archive root",
            NameRejection::ColonInSegment => "a member name segment contains a colon",
            NameRejection::EmptyName => "the member has no usable name",
        }
    }
}

/// `s` without its trailing dots and spaces.
pub open spec fn trim_dots_spaces(s: Seq<char>) -> Seq<char>
    decreases s.len(),
{
    if s.len() > 0 && (s.last() == '.' || s.last() == ' ') {
        trim_dots_spaces(s.drop_last())
    } else {
        s
    }
}

/// The kept segments of a member name, in order: empty and `.` segments
/// vanish, `..` escapes the root, a colon anywhere in a segment is
/// ambiguous, and the rest lose trailing dots and spaces (dropping segments
/// that become empty). The first offending segment decides the rejection.
pub open spec fn key_segments(segs: Seq<Seq<char>>) -> Result<Seq<Seq<char>>, NameRejection>
    decreases segs.len(),
{
    if segs.len() == 0 {
        Ok(Seq::empty())
    } else {
        match key_segments(segs.drop_last()) {
            Err(e) => Err(e),
            Ok(kept) => {
                let s = segs.last();
                if s.len() == 0 || s == seq!['.'] {
                    Ok(kept)
                } else if s == seq!['.', '.'] {
                    Err(NameRejection::ParentEscape)
                } else if s.contains(':') {
                    Err(NameRejection::ColonInSegment)
                } else if trim_dots_spaces(s).len() > 0 {
                    Ok(kept.push(trim_dots_spaces(s)))
                } else {
                    Ok(kept)
                }
            },
        }
    }
}

/// Parts joined with `/`.
pub open spec fn join_slash(parts: Seq<Seq<char>>) -> Seq<char>
    decreases parts.len(),
{
    if parts.len() == 0 {
        Seq::empty()
    } else if parts.len() == 1 {
        parts[0]
    } else {
        join_slash(parts.drop_last()) + seq!['/'] + parts.last()
    }
}

/// The canonical key of a raw member name: NUL bytes and root-anchored
/// names reject first, then the segment policy applies to the pieces
/// between `/` and `\` separators.
pub open spec fn spec_canonical_key(name: Seq<char>) -> Result<Seq<char>, NameRejection> {
    if name.contains('\0') {
        Err(NameRejection::ContainsNul)
    } else if name.len() > 0 && (name[0] == '/' || name[0] == '\\') {
        Err(NameRejection::ParentEscape)
    } else {
        match key_segments(split_on(name, is_either('/', '\\'))) {
            Err(e) => Err(e),
            Ok(kept) => if kept.len() == 0 {
                Err(NameRejection::EmptyName)
            } else {
                Ok(join_slash(kept))
            },
        }
    }
}

proof fn lemma_key_error_sticks(segs: Seq<Seq<char>>, i: int)
    requires
        0 <= i <= segs.len(),
        key_segments(segs.take(i)) is Err,
    ensures
        key_segments(segs) == key_segments(segs.take(i)),
    decreases segs.len() - i,
{
    if i < segs.len() {
        assert(segs.take(i + 1).drop_last() =~= segs.take(i));
        lemma_key_error_sticks(segs, i + 1);
    } else {
        assert(segs.take(i) =~= segs);
    }
}

/// A kept key segment: non-empty, free of separators, colons and NUL, and
/// not ending in a dot or a space.
pub open spec fn clean_segment(s: Seq<char>) -> bool {
    &&& s.len() > 0
    &&& forall|j: int| 0 <= j < s.len() ==> #[trigger] s[j] != '/' && s[j] != '\\' && s[j] != ':' && s[j] != '\0'
    &&& s.last() != '.' && s.last() != ' '
}

proof fn lemma_trim_prefix(s: Seq<char>)
    ensures
        trim_dots_spaces(s).len() <= s.len(),
        trim_dots_spaces(s) =~= s.take(trim_dots_spaces(s).len() as int),
        trim_dots_spaces(s).len() > 0 ==> trim_dots_spaces(s).last() != '.' && trim_dots_spaces(s).last() != ' ',
    decreases s.len(),
{
    if s.len() > 0 && (s.last() == '.' || s.last() == ' ') {
        lemma_trim_prefix(s.drop_last());
        let n = trim_dots_spaces(s.drop_last()).len() as int;
        assert(s.drop_last().take(n) =~= s.take(n));
    } else {
        assert(s.take(s.len() as int) =~= s);
    }
}

proof fn lemma_split_pieces(s: Seq<char>, sep: spec_fn(char) -> bool)
    ensures
        forall|k: int, j: int|
            0 <= k < split_on(s, sep).len() && 0 <= j < split_on(s, sep)[k].len() ==> !sep(
                #[trigger] split_on(s, sep)[k][j],
            ) && s.contains(split_on(s, sep)[k][j]),
    decreases s.len(),
{
    if s.len() > 0 {
        let d = s.drop_last();
        lemma_split_pieces(d, sep);
        crate::paths::lemma_split_nonempty(d, sep);
        let init = split_on(d, sep);
        let out = split_on(s, sep);
        assert forall|k: int, j: int| 0 <= k < out.len() && 0 <= j < out[k].len() implies !sep(
            #[trigger] out[k][j],
        ) && s.contains(out[k][j]) by {
            if sep(s.last()) {
                if k < init.len() {
                    assert(out[k] == init[k]);
                    let c = init[k][j];
                    assert(d.contains(c));
                    let w = choose|i: int| 0 <= i < d.len() && d[i] == c;
                    assert(s[w] == c);
                }
            } else if k < init.len() - 1 {
                assert(out[k] == init[k]);
                let c = init[k][j];
                assert(d.contains(c));
                let w = choose|i: int| 0 <= i < d.len() && d[i] == c;
                assert(s[w] == c);
            } else {
                assert(out[k] == init.last().push(s.last()));
                if j < init.last().len() {
                    let c = init[k][j];
                    assert(out[k][j] == c);
                    assert(d.contains(c));
                    let w = choose|i: int| 0 <= i < d.len() && d[i] == c;
                    assert(s[w] == c);
                } else {
                    assert(out[k][j] == s.last());
                    assert(s[s.len() - 1] == s.last());
                }
            }
        }
    }
}

proof fn lemma_split_append(a: Seq<char>, b: Seq<char>, sep: spec_fn(char) -> bool)
    requires
        forall|j: int| 0 <= j < b.len() ==> !sep(#[trigger] b[j]),
    ensures
        split_on(a + b, sep) =~= split_on(a, sep).update(split_on(a, sep).len() - 1, split_on(a, sep).last() + b),
    decreases b.len(),
{
    crate::paths::lemma_split_nonempty(a, sep);
    let sa = split_on(a, sep);
    if b.len() == 0 {
        assert(a + b =~= a);
        assert(sa.last() + b =~= sa.last());
    } else {
        let b0 = b.drop_last();
        lemma_split_append(a, b0, sep);
        assert((a + b).drop_last() =~= a + b0);
        assert((a + b).last() == b[b.len() - 1]);
        assert((sa.last() + b0).push(b[b.len() - 1]) =~= sa.last() + b);
    }
}

proof fn lemma_split_join(kept: Seq<Seq<char>>)
    requires
        kept.len() > 0,
        forall|k: int| 0 <= k < kept.len() ==> clean_segment(#[trigger] kept[k]),
    ensures
        split_on(join_slash(kept), is_either('/', '\\')) =~= kept,
    decreases kept.len(),
{
    let sep = is_either('/', '\\');
    let last = kept.last();
    assert(clean_segment(kept[kept.len() - 1]));
    assert forall|j: int| 0 <= j < last.len() implies !sep(#[trigger] last[j]) by {
        assert(last[j] != '/' && last[j] != '\\');
    }
    if kept.len() == 1 {
        lemma_split_append(Seq::empty(), last, sep);
        assert(Seq::<char>::empty() + last =~= last);
        assert(kept =~= seq![last]);
    } else {
        let init = kept.drop_last();
        assert forall|k: int| 0 <= k < init.len() implies clean_segment(#[trigger] init[k]) by {
            assert(init[k] == kept[k]);
        }
        lemma_split_join(init);
        let a = join_slash(init).push('/');
        assert(join_slash(kept) =~= a + last);
        lemma_split_append(a, last, sep);
        assert(a.drop_last() =~= join_slash(init));
        assert(sep(a.last()));
        assert(split_on(a, sep) =~= init.push(Seq::<char>::empty()));
        assert(Seq::<char>::empty() + last =~= last);
        assert(init.push(Seq::<char>::empty()).update(init.len() as int, last) =~= kept);
    }
}

proof fn lemma_clean_segments_kept(kept: Seq<Seq<char>>)
    requires
        forall|k: int| 0 <= k < kept.len() ==> clean_segment(#[trigger] kept[k]),
    ensures
        key_segments(kept) == Ok::<Seq<Seq<char>>, NameRejection>(kept),
    decreases kept.len(),
{
    if kept.len() > 0 {
        let init = kept.drop_last();
        assert forall|k: int| 0 <= k < init.len() implies clean_segment(#[trigger] init[k]) by {
            assert(init[k] == kept[k]);
        }
        lemma_clean_segments_kept(init);
        let s = kept.last();
        assert(clean_segment(kept[kept.len() - 1]));
        assert(s != seq!['.']) by {
            if s =~= seq!['.'] {
                assert(s.last() == '.');
            }
        }
        assert(s != seq!['.', '.']) by {
            if s =~= seq!['.', '.'] {
                assert(s.last() == '.');
            }
        }
        assert(!s.contains(':')) by {
            if s.contains(':') {
                let w = choose|i: int| 0 <= i < s.len() && s[i] == ':';
                assert(s[w] != ':');
            }
        }
        assert(trim_dots_spaces(s) == s);
        assert(init.push(s) =~= kept);
    } else {
        assert(kept =~= Seq::<Seq<char>>::empty());
    }
}

proof fn lemma_kept_clean(segs: Seq<Seq<char>>, kept: Seq<Seq<char>>)
    requires
        key_segments(segs) == Ok::<Seq<Seq<char>>, NameRejection>(kept),
        forall|k: int, j: int|
            0 <= k < segs.len() && 0 <= j < segs[k].len() ==> #[trigger] segs[k][j] != '/' && segs[k][j]
                != '\\' && segs[k][j] != '\0',
    ensures
        forall|k: int| 0 <= k < kept.len() ==> clean_segment(#[trigger] kept[k]),
    decreases segs.len(),
{
    if segs.len() > 0 {
        let init = segs.drop_last();
        let s = segs.last();
        assert forall|k: int, j: int| 0 <= k < init.len() && 0 <= j < init[k].len() implies #[trigger] init[k][j]
            != '/' && init[k][j] != '\\' && init[k][j] != '\0' by {
            assert(init[k] == segs[k]);
        }
        let prev = key_segments(init)->Ok_0;
        lemma_kept_clean(init, prev);
        if !(s.len() == 0 || s == seq!['.']) && s != seq!['.', '.'] && !s.contains(':')
            && trim_dots_spaces(s).len() > 0 {
            let t = trim_dots_spaces(s);
            lemma_trim_prefix(s);
            assert(kept == prev.push(t));
            assert forall|k: int| 0 <= k < kept.len() implies clean_segment(#[trigger] kept[k]) by {
                if k < prev.len() {
                    assert(kept[k] == prev[k]);
                } else {
                    assert(kept[k] == t);
                    assert forall|j: int| 0 <= j < t.len() implies #[trigger] t[j] != '/' && t[j] != '\\'
                        && t[j] != ':' && t[j] != '\0' by {
                        assert(t[j] == s[j]);
                        assert(s[j] == segs[segs.len() - 1][j]);
                        if s[j] == ':' {
                            assert(s.contains(':'));
                        }
                    }
                }
            }
        } else {
            assert(kept == prev);
        }
    }
}

proof fn lemma_join_chars(kept: Seq<Seq<char>>)
    requires
        kept.len() > 0,
        forall|k: int| 0 <= k < kept.len() ==> clean_segment(#[trigger] kept[k]),
    ensures
        join_slash(kept).len() > 0,
        join_slash(kept)[0] == kept[0][0],
        !join_slash(kept).contains('\0'),
        !join_slash(kept).contains('\\'),
        !join_slash(kept).contains(':'),
    decreases kept.len(),
{
    assert(clean_segment(kept[0]));
    if kept.len() > 1 {
        let init = kept.drop_last();
        assert forall|k: int| 0 <= k < init.len() implies clean_segment(#[trigger] init[k]) by {
            assert(init[k] == kept[k]);
        }
        lemma_join_chars(init);
        let a = join_slash(init);
        let l = kept.last();
        assert(clean_segment(kept[kept.len() - 1]));
        let j = a + seq!['/'] + l;
        assert(j == join_slash(kept));
        assert(j[0] == a[0]);
        assert(init[0] == kept[0]);
        assert forall|i: int| 0 <= i < j.len() implies j[i] != '\0' && j[i] != '\\' && j[i] != ':' by {
            if i < a.len() {
                assert(j[i] == a[i]);
                if a[i] == '\0' || a[i] == '\\' || a[i] == ':' {
                    assert(a.contains(a[i]));
                }
            } else if i > a.len() {
                assert(j[i] == l[i - a.len() - 1]);
            }
        }
    }
}

/// A canonical key (what `canonical_key` returns in `Ok`) is one canonical
/// spelling: it is non-empty and free of NUL, `\` and `:`, every `/`-separated segment is
/// non-empty, free of `\` and `:`, and ends in neither `.` nor a space (so
/// is neither `.` nor `..`), and running the name policy over the key gives
/// the same key back.
pub proof fn lemma_canonical_key_idempotent(name: Seq<char>, key: Seq<char>)
    requires
        spec_canonical_key(name) == Ok::<Seq<char>, NameRejection>(key),
    ensures
        spec_canonical_key(key) == Ok::<Seq<char>, NameRejection>(key),
        key.len() > 0,
        !key.contains('\0'),
        !key.contains('\\'),
        !key.contains(':'),
        forall|i: int|
            0 <= i < split_on(key, is_either('/', '\\')).len() ==> clean_segment(
                #[trigger] split_on(key, is_either('/', '\\'))[i],
            ),
{
    let sep = is_either('/', '\\');
    let segs = split_on(name, sep);
    lemma_split_pieces(name, sep);
    assert forall|k: int, j: int| 0 <= k < segs.len() && 0 <= j < segs[k].len() implies #[trigger] segs[k][j]
        != '/' && segs[k][j] != '\\' && segs[k][j] != '\0' by {
        assert(!sep(segs[k][j]));
        assert(name.contains(segs[k][j]));
    }
    let kept = key_segments(segs)->Ok_0;
    lemma_kept_clean(segs, kept);
    lemma_join_chars(kept);
    lemma_split_join(kept);
    lemma_clean_segments_kept(kept);
}

fn contains_char(s: &str, c: char) -> (r: bool)
    ensures
        r == s@.contains(c),
{
    let v = chars_of(s);
    let mut i: usize = 0;
    while i < v.len()
        invariant
            v@ == s@,
            i <= v@.len(),
            forall|k: int| 0 <= k < i ==> v@[k] != c,
        decreases v.len() - i,
    {
        if v[i] == c {
            assert(s@[i as int] == c);
            return true;
        }
        i = i + 1;
    }
    false
}

fn trim_end_dots_spaces(s: &str) -> (t: String)
    ensures
        t@ == trim_dots_spaces(s@),
{
    let v = chars_of(s);
    let mut end = v.len();
    assert(v@.take(end as int) =~= v@);
    while end > 0 && (v[end - 1] == '.' || v[end - 1] == ' ')
        invariant
            end <= v@.len(),
            trim_dots_spaces(v@) == trim_dots_spaces(v@.take(end as int)),
        decreases end,
    {
        assert(v@.take(end as int).drop_last() =~= v@.take(end - 1));
        end = end - 1;
    }
    assert(v@.subrange(0, end as int) =~= v@.take(end as int));
    text_of(&v, 0, end)
}

/// Builds one host-independent canonical key for a raw member name.
pub fn canonical_key(name: &str) -> (r: Result<String, NameRejection>)
    ensures
        match r {
            Ok(k) => spec_canonical_key(name@) == Ok::<Seq<char>, NameRejection>(k@),
            Err(e) => spec_canonical_key(name@) == Err::<Seq<char>, NameRejection>(e),
        },
{
    if contains_char(name, '\0') {
        return Err(NameRejection::ContainsNul);
    }
    let chars = chars_of(name);
    if chars.len() > 0 && (chars[0] == '/' || chars[0] == '\\') {
        return Err(NameRejection::ParentEscape);
    }
    let pieces = split_either(name, '/', '\\');
    let ghost segs = views(pieces@);
    let mut kept: Vec<String> = Vec::new();
    let mut joined = String::new();
    let mut i: usize = 0;
    assert(segs.take(0) =~= Seq::<Seq<char>>::empty());
    assert(views(kept@) =~= Seq::<Seq<char>>::empty());
    while i < pieces.len()
        invariant
            segs == views(pieces@),
            segs == split_on(name@, is_either('/', '\\')),
            !name@.contains('\0'),
            !(name@.len() > 0 && (name@[0] == '/' || name@[0] == '\\')),
            segs.len() == pieces@.len(),
            i <= pieces@.len(),
            key_segments(segs.take(i as int)) == Ok::<Seq<Seq<char>>, NameRejection>(views(kept@)),
            joined@ == join_slash(views(kept@)),
        decreases pieces.len() - i,
    {
        let piece = &pieces[i];
        let ghost prior = segs.take(i as int);
        let ghost next = segs.take(i + 1);
        assert(next.drop_last() =~= prior);
        assert(next.last() == piece@);
        proof {
            reveal_strlit(".");
            reveal_strlit("..");
            assert("."@ =~= seq!['.']);
            assert(".."@ =~= seq!['.', '.']);
        }
        if piece.as_str().is_empty() || *piece == ".".to_owned() {
            assert(piece@.len() == 0 || piece@ == seq!['.']);
            assert(key_segments(next) == key_segments(prior));
        } else if *piece == "..".to_owned() {
            assert(piece@ == seq!['.', '.']);
            assert(key_segments(next) == Err::<Seq<Seq<char>>, NameRejection>(NameRejection::ParentEscape));
            proof {
                lemma_key_error_sticks(segs, i + 1);
            }
            return Err(NameRejection::ParentEscape);
        } else if contains_char(piece.as_str(), ':') {
            assert(piece@ != seq!['.', '.']);
            assert(piece@ != seq!['.']);
            assert(key_segments(next) == Err::<Seq<Seq<char>>, NameRejection>(NameRejection::ColonInSegment));
            proof {
                lemma_key_error_sticks(segs, i + 1);
            }
            return Err(NameRejection::ColonInSegment);
        } else {
            assert(piece@ != seq!['.', '.']);
            assert(piece@ != seq!['.']);
            let trimmed = trim_end_dots_spaces(piece.as_str());
            if !trimmed.as_str().is_empty() {
                let ghost before = views(kept@);
                if kept.len() > 0 {
                    push_char(&mut joined, '/');
                }
                crate::strings::push_str(&mut joined, trimmed.as_str());
                kept.push(trimmed);
                proof {
                    assert(views(kept@) =~= before.push(trimmed@));
                    assert(views(kept@).drop_last() =~= before);
                    if before.len() == 0 {
                        assert(joined@ =~= trimmed@);
                    } else {
                        assert(joined@ =~= join_slash(before) + seq!['/'] + trimmed@);
                    }
                }
                assert(key_segments(next) == Ok::<Seq<Seq<char>>, NameRejection>(views(kept@)));
            } else {
                assert(key_segments(next) == key_segments(prior));
            }
        }
        i = i + 1;
    }
    assert(segs.take(i as int) =~= segs);
    if kept.len() == 0 {
        return Err(NameRejection::EmptyName);
    }
    Ok(joined)
}

/// One validated archive member as seen during preflight.
#[derive(Clone, Debug)]
pub struct MemberInfo {
    index: usize,
    key: String,
    class: MemberClass,
    declared_size: u64,
}

/// The mathematical value of a [`MemberInfo`].
pub struct MemberRecord {
    /// Position of the entry in the central directory.
    pub index: usize,
    pub key: Seq<char>,
    pub class: MemberClass,
    pub declared_size: u64,
}

impl View for MemberInfo {
    type V = MemberRecord;

    closed spec fn view(&self) -> MemberRecord {
        MemberRecord { index: self.index, key: self.key@, class: self.class, declared_size: self.declared_size }
    }
}

impl MemberInfo {
    /// Canonical archive key for this member.
    pub fn key(&self) -> (k: &str)
        ensures
            k@ == self@.key,
    {
        self.key.as_str()
    }

    /// Boundary class assigned during preflight.
    pub fn class(&self) -> (c: MemberClass)
        ensures
            c == self@.class,
    {
        self.class
    }

    /// Declared uncompressed size from the central directory.
    pub fn declared_size(&self) -> (s: u64)
        ensures
            s == self@.declared_size,
    {
        self.declared_size
    }
}

/// The records of a member list.
pub open spec fn records(ms: Seq<MemberInfo>) -> Seq<MemberRecord> {
    ms.map_values(|m: MemberInfo| m@)
}

// ---------------------------------------------------------------------------
// Central directory preflight
// ---------------------------------------------------------------------------

/// A ZIP reader failure, by kind.
#[derive(Clone, Debug, PartialEq, Eq)]
pub enum ZipFault {
    /// The archive structure is invalid, with the reader's explanation.
    Invalid(String),
    /// An expected entry is missing.
    Missing,
    /// Any other reader failure, with its text.
    Other(String),
}

/// The reader-facing detail of a reader failure.
pub open spec fn fault_detail(f: ZipFault) -> Seq<char> {
    match f {
        ZipFault::Invalid(d) => "the archive structure is invalid: "@ + d@,
        ZipFault::Missing => "an expected entry is missing"@,
        ZipFault::Other(d) => "the archive could not be parsed: "@ + d@,
    }
}

fn malformed_detail(f: &ZipFault) -> (d: String)
    ensures
        d@ == fault_detail(*f),
{
    let mut d = String::new();
    match f {
        ZipFault::Invalid(detail) => {
            push_str(&mut d, "the archive structure is invalid: ");
            push_str(&mut d, detail.as_str());
        },
        ZipFault::Missing => push_str(&mut d, "an expected entry is missing"),
        ZipFault::Other(detail) => {
            push_str(&mut d, "the archive could not be parsed: ");
            push_str(&mut d, detail.as_str());
        },
    }
    d
}

/// The central-directory facts preflight checks for one member.
#[derive(Clone, Debug, PartialEq, Eq)]
pub struct EntryFacts {
    /// The stored member name, as raw bytes.
    pub raw_name: Vec<u8>,
    /// The compression method's name (`Stored`, `Deflated`, ...).
    pub method: String,
    pub encrypted: bool,
    pub symlink: bool,
    /// Declared uncompressed size.
    pub size: u64,
    /// Declared compressed size.
    pub compressed_size: u64,
    /// Offset of the member's compressed data, when known.
    pub data_start: Option<u64>,
}

/// A failure reading one member's data.
#[derive(Clone, Debug, PartialEq, Eq)]
pub enum MemberFault {
    /// The entry could not be opened.
    Open(ZipFault),
    /// Decompression failed, with the reader's text.
    Read(String),
}

/// The central directory that `zip::ZipArchive` reads from `bytes`: every
/// entry in archive order, each read raw (`by_index_raw`), or the reader's
/// failure to open the archive.
pub uninterp spec fn zip_directory(bytes: Seq<u8>) -> Result<Seq<Result<EntryFacts, ZipFault>>, ZipFault>;

/// At most `max` leading decompressed bytes of member `index`
/// (`by_index`, then `Read::take` and `read_to_end`).
pub uninterp spec fn zip_member_prefix(bytes: Seq<u8>, index: int, max: u64) -> Result<Seq<u8>, MemberFault>;

/// The text `String::from_utf8_lossy` makes of raw bytes.
pub uninterp spec fn lossy_text(bytes: Seq<u8>) -> Seq<char>;

/// `zip::ZipArchive::new` and `by_index_raw` for every entry, each entry
/// reduced to the facts preflight checks; reader errors are told apart by
/// kind. Claimed: the result depends on the bytes alone.
#[verifier::external_body]
fn read_directory(bytes: &[u8]) -> (r: Result<Vec<Result<EntryFacts, ZipFault>>, ZipFault>)
    ensures
        match r {
            Ok(v) => zip_directory(bytes@) == Ok::<Seq<Result<EntryFacts, ZipFault>>, ZipFault>(v@),
            Err(f) => zip_directory(bytes@) == Err::<Seq<Result<EntryFacts, ZipFault>>, ZipFault>(f),
        },
{
    let mut archive = zip::ZipArchive::new(std::io::Cursor::new(bytes)).map_err(zip_fault)?;
    Ok((0..archive.len()).map(|i| archive.by_index_raw(i).map_err(zip_fault).map(|e| EntryFacts {
        raw_name: e.name_raw().to_vec(), method: format!("{:?}", e.compression()), encrypted: e.encrypted(),
        symlink: e.is_symlink(), size: e.size(), compressed_size: e.compressed_size(), data_start: e.data_start(),
    })).collect())
}

/// A `zip` reader error told apart by kind: invalid structure with its
/// explanation, a missing entry, or any other failure with its text.
#[verifier::external_body]
fn zip_fault(e: zip::result::ZipError) -> (f: ZipFault) {
    match e {
        zip::result::ZipError::InvalidArchive(d) => ZipFault::Invalid(d.to_string()),
        zip::result::ZipError::FileNotFound => ZipFault::Missing,
        other => ZipFault::Other(other.to_string()),
    }
}

/// `zip::result::ZipError`, carried opaquely.
#[verifier::external_type_specification]
#[verifier::external_body]
pub struct ExZipError(zip::result::ZipError);

/// `zip::ZipArchive::by_index` on member `index`, read through
/// `Read::take(max)` and `read_to_end`. Claimed: the result depends on the
/// bytes, the index and the bound alone, and holds at most `max` bytes.
#[verifier::external_body]
fn read_member_prefix(bytes: &[u8], index: usize, max: u64) -> (r: Result<Vec<u8>, MemberFault>)
    ensures
        match r {
            Ok(v) => zip_member_prefix(bytes@, index as int, max) == Ok::<Seq<u8>, MemberFault>(v@) && v@.len()
                <= max,
            Err(f) => zip_member_prefix(bytes@, index as int, max) == Err::<Seq<u8>, MemberFault>(f),
        },
{
    let fault = |e| MemberFault::Open(zip_fault(e));
    let mut archive = zip::ZipArchive::new(std::io::Cursor::new(bytes)).map_err(fault)?;
    let entry = archive.by_index(index).map_err(fault)?;
    let mut out = Vec::new();
    entry.take(max).read_to_end(&mut out).map_err(|e| MemberFault::Read(e.to_string()))?;
    Ok(out)
}

/// `String::from_utf8_lossy`: valid UTF-8 converts exactly.
#[verifier::external_body]
fn lossy(bytes: &[u8]) -> (s: String)
    ensures
        s@ == lossy_text(bytes@),
        valid_utf8(bytes@) ==> s@ == decode_utf8(bytes@),
{
    String::from_utf8_lossy(bytes).into_owned()
}

// ---------------------------------------------------------------------------
// Typed archive failures
// ---------------------------------------------------------------------------

/// Typed archive-policy failures; each names its book, the reason, and one
/// recovery action without leaking terminal-unsafe bytes.
#[derive(Clone, Debug, PartialEq, Eq)]
pub enum ArchiveError {
    /// The compressed file exceeds the compressed-size limit.
    TooLarge { path: String, size: u64, limit: u64 },
    /// An operating-system failure occurred while reading bounded bytes.
    Read { path: String, detail: String },
    /// The archive structure itself is unreadable, truncated, or corrupt.
    Malformed { path: String, detail: String },
    /// The archive holds more entries than the member limit.
    TooManyMembers { path: String, count: usize, limit: usize },
    /// Advertised expansion crossed the whole-book budget.
    AdvertisedExpansionTooLarge { path: String, member: String, total: u64, limit: u64 },
    /// A member name is unsafe or ambiguous under the canonical-key policy.
    UnsafeMemberName { path: String, member: String, reason: String },
    /// Two distinct member names collapse onto one canonical key.
    AmbiguousMemberName { path: String, member: String },
    /// A member carries a compression method outside stored/deflate policy.
    UnsupportedCompression { path: String, member: String, method: String },
    /// Encrypted content appeared before any resource decoding.
    EncryptedMember { path: String, member: String },
    /// A member presents itself as a symbolic link instead of content.
    SymlinkMember { path: String, member: String },
    /// Declared sizes contradict what the entry can legitimately contain.
    DishonestMetadata { path: String, member: String },
    /// A member expands past the compression-ratio policy.
    ExpansionRatioExceeded { path: String, member: String, size: u64, limit: u64 },
    /// A member expands past its class boundary by declared or actual size.
    MemberTooLarge { path: String, member: String, kind: String, size: u64, limit: u64 },
    /// Two members claim overlapping compressed data regions.
    OverlappingMembers { path: String, member: String },
    /// An XML control document failed its pre-parse structural gate.
    UnsafeXmlStructure { path: String, member: String, source: XmlStructureError },
}

/// The mathematical value of an [`ArchiveError`]: the same variants with
/// every text taken as its characters.
pub enum ArchiveFault {
    TooLarge { path: Seq<char>, size: u64, limit: u64 },
    Read { path: Seq<char>, detail: Seq<char> },
    Malformed { path: Seq<char>, detail: Seq<char> },
    TooManyMembers { path: Seq<char>, count: usize, limit: usize },
    AdvertisedExpansionTooLarge { path: Seq<char>, member: Seq<char>, total: u64, limit: u64 },
    UnsafeMemberName { path: Seq<char>, member: Seq<char>, reason: Seq<char> },
    AmbiguousMemberName { path: Seq<char>, member: Seq<char> },
    UnsupportedCompression { path: Seq<char>, member: Seq<char>, method: Seq<char> },
    EncryptedMember { path: Seq<char>, member: Seq<char> },
    SymlinkMember { path: Seq<char>, member: Seq<char> },
    DishonestMetadata { path: Seq<char>, member: Seq<char> },
    ExpansionRatioExceeded { path: Seq<char>, member: Seq<char>, size: u64, limit: u64 },
    MemberTooLarge { path: Seq<char>, member: Seq<char>, kind: Seq<char>, size: u64, limit: u64 },
    OverlappingMembers { path: Seq<char>, member: Seq<char> },
    UnsafeXmlStructure { path: Seq<char>, member: Seq<char>, source: XmlStructureError },
}

impl View for ArchiveError {
    type V = ArchiveFault;

    open spec fn view(&self) -> ArchiveFault {
        match self {
            ArchiveError::TooLarge { path, size, limit } => ArchiveFault::TooLarge { path: path@, size: *size, limit: *limit },
            ArchiveError::Read { path, detail } => ArchiveFault::Read { path: path@, detail: detail@ },
            ArchiveError::Malformed { path, detail } => ArchiveFault::Malformed { path: path@, detail: detail@ },
            ArchiveError::TooManyMembers { path, count, limit } => ArchiveFault::TooManyMembers {
                path: path@,
                count: *count,
                limit: *limit,
            },
            ArchiveError::AdvertisedExpansionTooLarge { path, member, total, limit } =>
                ArchiveFault::AdvertisedExpansionTooLarge { path: path@, member: member@, total: *total, limit: *limit },
            ArchiveError::UnsafeMemberName { path, member, reason } => ArchiveFault::UnsafeMemberName {
                path: path@,
                member: member@,
                reason: reason@,
            },
            ArchiveError::AmbiguousMemberName { path, member } => ArchiveFault::AmbiguousMemberName { path: path@, member: member@ },
            ArchiveError::UnsupportedCompression { path, member, method } => ArchiveFault::UnsupportedCompression {
                path: path@,
                member: member@,
                method: method@,
            },
            ArchiveError::EncryptedMember { path, member } => ArchiveFault::EncryptedMember { path: path@, member: member@ },
            ArchiveError::SymlinkMember { path, member } => ArchiveFault::SymlinkMember { path: path@, member: member@ },
            ArchiveError::DishonestMetadata { path, member } => ArchiveFault::DishonestMetadata { path: path@, member: member@ },
            ArchiveError::ExpansionRatioExceeded { path, member, size, limit } => ArchiveFault::ExpansionRatioExceeded {
                path: path@,
                member: member@,
                size: *size,
                limit: *limit,
            },
            ArchiveError::MemberTooLarge { path, member, kind, size, limit } => ArchiveFault::MemberTooLarge {
                path: path@,
                member: member@,
                kind: kind@,
                size: *size,
                limit: *limit,
            },
            ArchiveError::OverlappingMembers { path, member } => ArchiveFault::OverlappingMembers { path: path@, member: member@ },
            ArchiveError::UnsafeXmlStructure { path, member, source } => ArchiveFault::UnsafeXmlStructure {
                path: path@,
                member: member@,
                source: *source,
            },
        }
    }
}

/// `'text'`
pub open spec fn quoted(s: Seq<char>) -> Seq<char> {
    "'"@ + s + "'"@
}

/// The reader-facing text of each failure.
pub open spec fn archive_error_text(f: ArchiveFault) -> Seq<char> {
    match f {
        ArchiveFault::TooLarge { path, size, limit } => "book is too large: "@ + quoted(path) + " is "@
            + spec_decimal(size as nat) + " bytes and the limit is "@ + spec_decimal(limit as nat)
            + " bytes; split the book or choose a smaller file"@,
        ArchiveFault::Read { path, detail } => "could not read "@ + quoted(path) + ": "@ + detail,
        ArchiveFault::Malformed { path, detail } => "could not open "@ + quoted(path) + " as an EPUB archive: "@
            + detail + "; the file may be damaged or not an EPUB book"@,
        ArchiveFault::TooManyMembers { path, count, limit } => "book contains too many resources: "@ + quoted(path)
            + " holds "@ + spec_decimal(count as nat) + " entries and the limit is "@ + spec_decimal(limit as nat)
            + "; the file may be hostile or corrupt"@,
        ArchiveFault::AdvertisedExpansionTooLarge { path, member, total, limit } =>
            "book expands beyond the reading budget: "@ + quoted(member) + " helps advertise "@ + spec_decimal(
                total as nat,
            ) + " bytes inside "@ + quoted(path) + " and the limit is "@ + spec_decimal(limit as nat)
                + " bytes; choose a smaller book"@,
        ArchiveFault::UnsafeMemberName { path, member, reason } => "book resource "@ + quoted(member) + " in "@
            + quoted(path) + " is not acceptable: "@ + reason + "; the archive may be hostile or damaged"@,
        ArchiveFault::AmbiguousMemberName { path, member } => "book resource names collide after normalization on "@
            + quoted(member) + " in "@ + quoted(path) + "; the archive may be hostile or damaged"@,
        ArchiveFault::UnsupportedCompression { path, member, method } => "book resource "@ + quoted(member) + " in "@
            + quoted(path) + " uses unsupported compression ("@ + method
            + "); re-publish the book with standard deflate or stored entries"@,
        ArchiveFault::EncryptedMember { path, member } => "book resource "@ + quoted(member) + " in "@ + quoted(path)
            + " is encrypted; TermLeaf does not open encrypted books"@,
        ArchiveFault::SymlinkMember { path, member } => "book resource "@ + quoted(member) + " in "@ + quoted(path)
            + " is a symbolic link; the archive may be hostile and was not opened"@,
        ArchiveFault::DishonestMetadata { path, member } => "book resource "@ + quoted(member) + " in "@ + quoted(
            path,
        ) + " reports inconsistent sizes; the archive may be hostile or damaged"@,
        ArchiveFault::ExpansionRatioExceeded { path, member, size, limit } => "book resource "@ + quoted(member)
            + " in "@ + quoted(path) + " expands to "@ + spec_decimal(size as nat)
            + " bytes from its compressed form, past the "@ + spec_decimal(limit as nat)
            + ":1 budget; the entry may be hostile"@,
        ArchiveFault::MemberTooLarge { path, member, kind, size, limit } => kind + " resource "@ + quoted(member)
            + " in "@ + quoted(path) + " is "@ + spec_decimal(size as nat) + " bytes and the limit is "@
            + spec_decimal(limit as nat) + " bytes; the entry may be hostile or the book too large"@,
        ArchiveFault::OverlappingMembers { path, member } => "book resources overlap inside "@ + quoted(path)
            + " near "@ + quoted(member) + "; the archive may be hostile and was not opened"@,
        ArchiveFault::UnsafeXmlStructure { path, member, source } => "structured document "@ + quoted(member)
            + " in "@ + quoted(path) + " is not safe to parse: "@ + xml_error_text(source)
            + "; the book may be hostile or damaged"@,
    }
}

fn push_quoted(m: &mut String, s: &str)
    ensures
        final(m)@ == old(m)@ + quoted(s@),
{
    push_str(m, "'");
    push_str(m, s);
    push_str(m, "'");
    proof {
        assert(final(m)@ =~= old(m)@ + quoted(s@));
    }
}

impl ArchiveError {
    /// The reader-facing message for this failure.
    #[verifier::rlimit(40)]
    pub fn message(&self) -> (m: String)
        ensures
            m@ == archive_error_text(self@),
    {
        let mut m = String::new();
        match self {
            ArchiveError::TooLarge { path, size, limit } => {
                push_str(&mut m, "book is too large: ");
                push_quoted(&mut m, path.as_str());
                push_str(&mut m, " is ");
                push_decimal(&mut m, *size);
                push_str(&mut m, " bytes and the limit is ");
                push_decimal(&mut m, *limit);
                push_str(&mut m, " bytes; split the book or choose a smaller file");
            },
            ArchiveError::Read { path, detail } => {
                push_str(&mut m, "could not read ");
                push_quoted(&mut m, path.as_str());
                push_str(&mut m, ": ");
                push_str(&mut m, detail.as_str());
            },
            ArchiveError::Malformed { path, detail } => {
                push_str(&mut m, "could not open ");
                push_quoted(&mut m, path.as_str());
                push_str(&mut m, " as an EPUB archive: ");
                push_str(&mut m, detail.as_str());
                push_str(&mut m, "; the file may be damaged or not an EPUB book");
            },
            ArchiveError::TooManyMembers { path, count, limit } => {
                push_str(&mut m, "book contains too many resources: ");
                push_quoted(&mut m, path.as_str());
                push_str(&mut m, " holds ");
                push_decimal(&mut m, *count as u64);
                push_str(&mut m, " entries and the limit is ");
                push_decimal(&mut m, *limit as u64);
                push_str(&mut m, "; the file may be hostile or corrupt");
            },
            ArchiveError::AdvertisedExpansionTooLarge { path, member, total, limit } => {
                push_str(&mut m, "book expands beyond the reading budget: ");
                push_quoted(&mut m, member.as_str());
                push_str(&mut m, " helps advertise ");
                push_decimal(&mut m, *total);
                push_str(&mut m, " bytes inside ");
                push_quoted(&mut m, path.as_str());
                push_str(&mut m, " and the limit is ");
                push_decimal(&mut m, *limit);
                push_str(&mut m, " bytes; choose a smaller book");
            },
            ArchiveError::UnsafeMemberName { path, member, reason } => {
                push_str(&mut m, "book resource ");
                push_quoted(&mut m, member.as_str());
                push_str(&mut m, " in ");
                push_quoted(&mut m, path.as_str());
                push_str(&mut m, " is not acceptable: ");
                push_str(&mut m, reason.as_str());
                push_str(&mut m, "; the archive may be hostile or damaged");
            },
            ArchiveError::AmbiguousMemberName { path, member } => {
                push_str(&mut m, "book resource names collide after normalization on ");
                push_quoted(&mut m, member.as_str());
                push_str(&mut m, " in ");
                push_quoted(&mut m, path.as_str());
                push_str(&mut m, "; the archive may be hostile or damaged");
            },
            ArchiveError::UnsupportedCompression { path, member, method } => {
                push_str(&mut m, "book resource ");
                push_quoted(&mut m, member.as_str());
                push_str(&mut m, " in ");
                push_quoted(&mut m, path.as_str());
                push_str(&mut m, " uses unsupported compression (");
                push_str(&mut m, method.as_str());
                push_str(&mut m, "); re-publish the book with standard deflate or stored entries");
            },
            ArchiveError::EncryptedMember { path, member } => {
                push_str(&mut m, "book resource ");
                push_quoted(&mut m, member.as_str());
                push_str(&mut m, " in ");
                push_quoted(&mut m, path.as_str());
                push_str(&mut m, " is encrypted; TermLeaf does not open encrypted books");
            },
            ArchiveError::SymlinkMember { path, member } => {
                push_str(&mut m, "book resource ");
                push_quoted(&mut m, member.as_str());
                push_str(&mut m, " in ");
                push_quoted(&mut m, path.as_str());
                push_str(&mut m, " is a symbolic link; the archive may be hostile and was not opened");
            },
            ArchiveError::DishonestMetadata { path, member } => {
                push_str(&mut m, "book resource ");
                push_quoted(&mut m, member.as_str());
                push_str(&mut m, " in ");
                push_quoted(&mut m, path.as_str());
                push_str(&mut m, " reports inconsistent sizes; the archive may be hostile or damaged");
            },
            ArchiveError::ExpansionRatioExceeded { path, member, size, limit } => {
                push_str(&mut m, "book resource ");
                push_quoted(&mut m, member.as_str());
                push_str(&mut m, " in ");
                push_quoted(&mut m, path.as_str());
                push_str(&mut m, " expands to ");
                push_decimal(&mut m, *size);
                push_str(&mut m, " bytes from its compressed form, past the ");
                push_decimal(&mut m, *limit);
                push_str(&mut m, ":1 budget; the entry may be hostile");
            },
            ArchiveError::MemberTooLarge { path, member, kind, size, limit } => {
                push_str(&mut m, kind.as_str());
                push_str(&mut m, " resource ");
                push_quoted(&mut m, member.as_str());
                push_str(&mut m, " in ");
                push_quoted(&mut m, path.as_str());
                push_str(&mut m, " is ");
                push_decimal(&mut m, *size);
                push_str(&mut m, " bytes and the limit is ");
                push_decimal(&mut m, *limit);
                push_str(&mut m, " bytes; the entry may be hostile or the book too large");
            },
            ArchiveError::OverlappingMembers { path, member } => {
                push_str(&mut m, "book resources overlap inside ");
                push_quoted(&mut m, path.as_str());
                push_str(&mut m, " near ");
                push_quoted(&mut m, member.as_str());
                push_str(&mut m, "; the archive may be hostile and was not opened");
            },
            ArchiveError::UnsafeXmlStructure { path, member, source } => {
                push_str(&mut m, "structured document ");
                push_quoted(&mut m, member.as_str());
                push_str(&mut m, " in ");
                push_quoted(&mut m, path.as_str());
                push_str(&mut m, " is not safe to parse: ");
                let text = source.message();
                push_str(&mut m, text.as_str());
                push_str(&mut m, "; the book may be hostile or damaged");
            },
        }
        m
    }
}

// ---------------------------------------------------------------------------
// Central directory scan
// ---------------------------------------------------------------------------

/// The human name of a class, as [`MemberClass::name`] spells it.
pub open spec fn class_name(class: MemberClass) -> Seq<char> {
    match class {
        MemberClass::Control => "control"@,
        MemberClass::Chapter => "chapter"@,
        MemberClass::Other => "resource"@,
    }
}

/// `a * b`, saturating at `u64::MAX`.
pub open spec fn sat_mul(a: u64, b: u64) -> u64 {
    if a * b > u64::MAX {
        u64::MAX
    } else {
        (a * b) as u64
    }
}

/// `a + b`, saturating at `u64::MAX`.
pub open spec fn sat_add(a: u64, b: u64) -> u64 {
    if a + b > u64::MAX {
        u64::MAX
    } else {
        (a + b) as u64
    }
}

/// The canonical key of a raw stored name: names that are not UTF-8 have
/// none.
pub open spec fn spec_member_name(raw: Seq<u8>) -> Result<Seq<char>, NameRejection> {
    if valid_utf8(raw) {
        spec_canonical_key(decode_utf8(raw))
    } else {
        Err(NameRejection::NotUtf8)
    }
}

/// Name, compression method, encryption and link status of one entry, in
/// that order; the first violation decides. Only stored and deflated data
/// is read.
pub open spec fn spec_identity(f: EntryFacts, path: Seq<char>) -> Result<Seq<char>, ArchiveFault> {
    match spec_member_name(f.raw_name@) {
        Err(r) => Err(
            ArchiveFault::UnsafeMemberName {
                path,
                member: spec_sanitized(lossy_text(f.raw_name@)),
                reason: rejection_reason(r),
            },
        ),
        Ok(key) => if !(f.method@ == "Stored"@ || f.method@ == "Deflated"@) {
            Err(ArchiveFault::UnsupportedCompression { path, member: spec_sanitized(key), method: f.method@ })
        } else if f.encrypted {
            Err(ArchiveFault::EncryptedMember { path, member: spec_sanitized(key) })
        } else if f.symlink {
            Err(ArchiveFault::SymlinkMember { path, member: spec_sanitized(key) })
        } else {
            Ok(key)
        },
    }
}

/// The declared-size policy: empty entries pass; content with no
/// compressed bytes is a lying header; above the small-file exception the
/// declared size may not exceed the compressed size times the ratio.
pub open spec fn spec_size_policy(f: EntryFacts, key: Seq<char>, path: Seq<char>, limits: ArchiveLimits) -> Option<
    ArchiveFault,
> {
    if f.size == 0 {
        None
    } else if f.compressed_size == 0 {
        Some(ArchiveFault::DishonestMetadata { path, member: spec_sanitized(key) })
    } else if f.size > limits.small_file_exception && f.size > sat_mul(
        f.compressed_size,
        limits.max_compression_ratio,
    ) {
        Some(
            ArchiveFault::ExpansionRatioExceeded {
                path,
                member: spec_sanitized(key),
                size: f.size,
                limit: limits.max_compression_ratio,
            },
        )
    } else {
        None
    }
}

/// Whether `[start, end)` meets one of the claimed data regions.
pub open spec fn overlaps(regions: Seq<(u64, u64)>, start: u64, end: u64) -> bool {
    exists|j: int| 0 <= j < regions.len() && start < (#[trigger] regions[j]).1 && regions[j].0 < end
}

/// Whether a member with this key was already accepted.
pub open spec fn has_key(ms: Seq<MemberRecord>, key: Seq<char>) -> bool {
    exists|j: int| 0 <= j < ms.len() && (#[trigger] ms[j]).key == key
}

/// What the scan has accepted so far: members in archive order, the
/// compressed data regions they claim, and the advertised total.
pub struct ScanState {
    pub members: Seq<MemberRecord>,
    pub regions: Seq<(u64, u64)>,
    pub total: u64,
}

/// One central-directory entry against everything accepted before it.
pub open spec fn scan_entry(
    s: ScanState,
    index: int,
    e: Result<EntryFacts, ZipFault>,
    path: Seq<char>,
    limits: ArchiveLimits,
) -> Result<ScanState, ArchiveFault> {
    match e {
        Err(fault) => Err(ArchiveFault::Malformed { path, detail: fault_detail(fault) }),
        Ok(f) => match spec_identity(f, path) {
            Err(x) => Err(x),
            Ok(key) => match spec_size_policy(f, key, path, limits) {
                Some(x) => Err(x),
                None => {
                    let member = spec_sanitized(key);
                    let class = spec_classify(key);
                    if f.data_start is Some && overlaps(
                        s.regions,
                        f.data_start->0,
                        sat_add(f.data_start->0, f.compressed_size),
                    ) {
                        Err(ArchiveFault::OverlappingMembers { path, member })
                    } else if class != MemberClass::Other && f.size > class_limit(class, limits) {
                        Err(
                            ArchiveFault::MemberTooLarge {
                                path,
                                member,
                                kind: class_name(class),
                                size: f.size,
                                limit: class_limit(class, limits),
                            },
                        )
                    } else if s.total + f.size > limits.max_advertised_expansion {
                        Err(
                            ArchiveFault::AdvertisedExpansionTooLarge {
                                path,
                                member,
                                total: sat_add(s.total, f.size),
                                limit: limits.max_advertised_expansion,
                            },
                        )
                    } else if has_key(s.members, key) {
                        Err(ArchiveFault::AmbiguousMemberName { path, member })
                    } else {
                        Ok(
                            ScanState {
                                members: s.members.push(
                                    MemberRecord { index: index as usize, key, class, declared_size: f.size },
                                ),
                                regions: match f.data_start {
                                    Some(start) => s.regions.push((start, sat_add(start, f.compressed_size))),
                                    None => s.regions,
                                },
                                total: (s.total + f.size) as u64,
                            },
                        )
                    }
                },
            },
        },
    }
}

/// The scan over the first `n` entries, stopping at the first violation.
pub open spec fn scan_prefix(
    entries: Seq<Result<EntryFacts, ZipFault>>,
    n: nat,
    path: Seq<char>,
    limits: ArchiveLimits,
) -> Result<ScanState, ArchiveFault>
    decreases n,
{
    if n == 0 {
        Ok(ScanState { members: Seq::empty(), regions: Seq::empty(), total: 0 })
    } else {
        match scan_prefix(entries, (n - 1) as nat, path, limits) {
            Err(x) => Err(x),
            Ok(s) => scan_entry(s, n - 1, entries[n - 1], path, limits),
        }
    }
}

/// The metadata scan of a whole archive: the directory must open and hold
/// no more entries than the member limit, and every entry must pass.
pub open spec fn spec_scan(bytes: Seq<u8>, path: Seq<char>, limits: ArchiveLimits) -> Result<
    Seq<MemberRecord>,
    ArchiveFault,
> {
    match zip_directory(bytes) {
        Err(f) => Err(ArchiveFault::Malformed { path, detail: fault_detail(f) }),
        Ok(entries) => spec_check_members(entries, path, limits),
    }
}

/// The member policy over the entries of a central directory: the member
/// count limit, then every entry in order.
pub open spec fn spec_check_members(
    entries: Seq<Result<EntryFacts, ZipFault>>,
    path: Seq<char>,
    limits: ArchiveLimits,
) -> Result<Seq<MemberRecord>, ArchiveFault> {
    if entries.len() > limits.max_members {
        Err(ArchiveFault::TooManyMembers { path, count: entries.len() as usize, limit: limits.max_members })
    } else {
        match scan_prefix(entries, entries.len(), path, limits) {
            Err(x) => Err(x),
            Ok(s) => Ok(s.members),
        }
    }
}

fn member_name(raw: &[u8]) -> (r: Result<String, NameRejection>)
    ensures
        match r {
            Ok(k) => spec_member_name(raw@) == Ok::<Seq<char>, NameRejection>(k@),
            Err(e) => spec_member_name(raw@) == Err::<Seq<char>, NameRejection>(e),
        },
{
    match utf8_text(raw) {
        Ok(name) => {
            proof {
                encode_utf8_decode_utf8(name@);
            }
            canonical_key(name)
        },
        Err(_) => Err(NameRejection::NotUtf8),
    }
}

/// Validates name, encryption, compression method and link status for one
/// entry, returning its canonical key.
fn validate_identity(f: &EntryFacts, path: &str) -> (r: Result<String, ArchiveError>)
    ensures
        match r {
            Ok(k) => spec_identity(*f, path@) == Ok::<Seq<char>, ArchiveFault>(k@),
            Err(e) => spec_identity(*f, path@) == Err::<Seq<char>, ArchiveFault>(e@),
        },
{
    let key = match member_name(f.raw_name.as_slice()) {
        Ok(key) => key,
        Err(rejection) => {
            let text = lossy(f.raw_name.as_slice());
            return Err(
                ArchiveError::UnsafeMemberName {
                    path: owned(path),
                    member: sanitize_path(text.as_str()),
                    reason: owned(rejection.reason()),
                },
            );
        },
    };
    proof {
        reveal_strlit("Stored");
        reveal_strlit("Deflated");
    }
    if !(f.method == "Stored".to_owned() || f.method == "Deflated".to_owned()) {
        return Err(
            ArchiveError::UnsupportedCompression {
                path: owned(path),
                member: sanitize_path(key.as_str()),
                method: f.method.clone(),
            },
        );
    }
    if f.encrypted {
        return Err(ArchiveError::EncryptedMember { path: owned(path), member: sanitize_path(key.as_str()) });
    }
    if f.symlink {
        return Err(ArchiveError::SymlinkMember { path: owned(path), member: sanitize_path(key.as_str()) });
    }
    Ok(key)
}

fn saturating_mul(a: u64, b: u64) -> (r: u64)
    ensures
        r == sat_mul(a, b),
{
    match a.checked_mul(b) {
        Some(p) => p,
        None => u64::MAX,
    }
}

fn size_policy(f: &EntryFacts, key: &str, path: &str, limits: &ArchiveLimits) -> (r: Option<ArchiveError>)
    ensures
        match r {
            Some(e) => spec_size_policy(*f, key@, path@, *limits) == Some(e@),
            None => spec_size_policy(*f, key@, path@, *limits) is None,
        },
{
    if f.size == 0 {
        None
    } else if f.compressed_size == 0 {
        Some(ArchiveError::DishonestMetadata { path: owned(path), member: sanitize_path(key) })
    } else if f.size > limits.small_file_exception && f.size > saturating_mul(
        f.compressed_size,
        limits.max_compression_ratio,
    ) {
        Some(
            ArchiveError::ExpansionRatioExceeded {
                path: owned(path),
                member: sanitize_path(key),
                size: f.size,
                limit: limits.max_compression_ratio,
            },
        )
    } else {
        None
    }
}

fn overlapping(regions: &Vec<(u64, u64)>, start: u64, end: u64) -> (r: bool)
    ensures
        r == overlaps(regions@, start, end),
{
    let mut j: usize = 0;
    while j < regions.len()
        invariant
            j <= regions@.len(),
            forall|k: int| 0 <= k < j ==> !(start < (#[trigger] regions@[k]).1 && regions@[k].0 < end),
        decreases regions.len() - j,
    {
        let (a, b) = regions[j];
        if start < b && a < end {
            assert(start < regions@[j as int].1 && regions@[j as int].0 < end);
            return true;
        }
        j = j + 1;
    }
    false
}

fn holds_key(members: &Vec<MemberInfo>, key: &String) -> (r: bool)
    ensures
        r == has_key(records(members@), key@),
{
    let mut j: usize = 0;
    while j < members.len()
        invariant
            j <= members@.len(),
            forall|k: int| 0 <= k < j ==> (#[trigger] records(members@)[k]).key != key@,
        decreases members.len() - j,
    {
        if members[j].key == *key {
            assert(records(members@)[j as int].key == key@);
            return true;
        }
        j = j + 1;
    }
    false
}

proof fn lemma_scan_error_sticks(
    entries: Seq<Result<EntryFacts, ZipFault>>,
    n: nat,
    m: nat,
    path: Seq<char>,
    limits: ArchiveLimits,
)
    requires
        n <= m,
        scan_prefix(entries, n, path, limits) is Err,
    ensures
        scan_prefix(entries, m, path, limits) == scan_prefix(entries, n, path, limits),
    decreases m - n,
{
    if n < m {
        lemma_scan_error_sticks(entries, n, (m - 1) as nat, path, limits);
    }
}

/// Walks the central directory once, enforcing every metadata-level policy.
fn scan_members(bytes: &[u8], path: &str, limits: &ArchiveLimits) -> (r: Result<Vec<MemberInfo>, ArchiveError>)
    ensures
        match r {
            Ok(ms) => spec_scan(bytes@, path@, *limits) == Ok::<Seq<MemberRecord>, ArchiveFault>(records(ms@)),
            Err(e) => spec_scan(bytes@, path@, *limits) == Err::<Seq<MemberRecord>, ArchiveFault>(e@),
        },
{
    let entries = match read_directory(bytes) {
        Ok(entries) => entries,
        Err(fault) => {
            return Err(ArchiveError::Malformed { path: owned(path), detail: malformed_detail(&fault) });
        },
    };
    check_members(&entries, path, limits)
}

/// Applies the member policy to the entries of a central directory, in
/// order: the member count limit, then for each entry its reader fault,
/// name and identity, size policy, overlap with earlier data, class size
/// limit, advertised expansion total, and key uniqueness.
#[verifier::rlimit(60)]
pub fn check_members(entries: &Vec<Result<EntryFacts, ZipFault>>, path: &str, limits: &ArchiveLimits) -> (r: Result<
    Vec<MemberInfo>,
    ArchiveError,
>)
    ensures
        match r {
            Ok(ms) => spec_check_members(entries@, path@, *limits) == Ok::<Seq<MemberRecord>, ArchiveFault>(
                records(ms@),
            ),
            Err(e) => spec_check_members(entries@, path@, *limits) == Err::<Seq<MemberRecord>, ArchiveFault>(e@),
        },
{
    if entries.len() > limits.max_members {
        return Err(ArchiveError::TooManyMembers { path: owned(path), count: entries.len(), limit: limits.max_members });
    }
    let mut members: Vec<MemberInfo> = Vec::new();
    let mut regions: Vec<(u64, u64)> = Vec::new();
    let mut total: u64 = 0;
    let mut i: usize = 0;
    assert(records(members@) =~= Seq::<MemberRecord>::empty());
    while i < entries.len()
        invariant
            entries@.len() <= limits.max_members,
            i <= entries@.len(),
            scan_prefix(entries@, i as nat, path@, *limits) == Ok::<ScanState, ArchiveFault>(
                ScanState { members: records(members@), regions: regions@, total },
            ),
        decreases entries.len() - i,
    {
        let ghost before = ScanState { members: records(members@), regions: regions@, total };
        assert(scan_prefix(entries@, (i + 1) as nat, path@, *limits) == scan_entry(
            before,
            i as int,
            entries@[i as int],
            path@,
            *limits,
        ));
        let f = match &entries[i] {
            Ok(f) => f,
            Err(fault) => {
                let e = ArchiveError::Malformed { path: owned(path), detail: malformed_detail(fault) };
                proof {
                    lemma_scan_error_sticks(entries@, (i + 1) as nat, entries@.len(), path@, *limits);
                }
                return Err(e);
            },
        };
        let key = match validate_identity(f, path) {
            Ok(key) => key,
            Err(e) => {
                proof {
                    lemma_scan_error_sticks(entries@, (i + 1) as nat, entries@.len(), path@, *limits);
                }
                return Err(e);
            },
        };
        match size_policy(f, key.as_str(), path, limits) {
            Some(e) => {
                proof {
                    lemma_scan_error_sticks(entries@, (i + 1) as nat, entries@.len(), path@, *limits);
                }
                return Err(e);
            },
            None => {},
        }
        match f.data_start {
            Some(start) => {
                let end = start.saturating_add(f.compressed_size);
                if overlapping(&regions, start, end) {
                    proof {
                        lemma_scan_error_sticks(entries@, (i + 1) as nat, entries@.len(), path@, *limits);
                    }
                    return Err(ArchiveError::OverlappingMembers { path: owned(path), member: sanitize_path(key.as_str()) });
                }
            },
            None => {},
        }
        let class = classify_member(key.as_str());
        if class != MemberClass::Other && f.size > class.limit(limits) {
            proof {
                lemma_scan_error_sticks(entries@, (i + 1) as nat, entries@.len(), path@, *limits);
            }
            return Err(
                ArchiveError::MemberTooLarge {
                    path: owned(path),
                    member: sanitize_path(key.as_str()),
                    kind: owned(class.name()),
                    size: f.size,
                    limit: class.limit(limits),
                },
            );
        }
        let next = match checked_expansion_total(total, f.size, limits.max_advertised_expansion) {
            Some(next) => next,
            None => {
                proof {
                    lemma_scan_error_sticks(entries@, (i + 1) as nat, entries@.len(), path@, *limits);
                }
                return Err(
                    ArchiveError::AdvertisedExpansionTooLarge {
                        path: owned(path),
                        member: sanitize_path(key.as_str()),
                        total: total.saturating_add(f.size),
                        limit: limits.max_advertised_expansion,
                    },
                );
            },
        };
        if holds_key(&members, &key) {
            proof {
                lemma_scan_error_sticks(entries@, (i + 1) as nat, entries@.len(), path@, *limits);
            }
            return Err(ArchiveError::AmbiguousMemberName { path: owned(path), member: sanitize_path(key.as_str()) });
        }
        match f.data_start {
            Some(start) => regions.push((start, start.saturating_add(f.compressed_size))),
            None => {},
        }
        total = next;
        let ghost key_view = key@;
        members.push(MemberInfo { index: i, key, class, declared_size: f.size });
        proof {
            assert(records(members@) =~= before.members.push(
                MemberRecord { index: i, key: key_view, class, declared_size: f.size },
            ));
        }
        i = i + 1;
    }
    Ok(members)
}

// ---------------------------------------------------------------------------
// Actual-byte verification
// ---------------------------------------------------------------------------

/// One past `n`, saturating at `u64::MAX`.
pub open spec fn sat_inc(n: u64) -> u64 {
    if n == u64::MAX {
        n
    } else {
        (n + 1) as u64
    }
}

/// The detail of a member whose data failed to decompress.
pub open spec fn decompress_detail(key: Seq<char>, text: Seq<char>) -> Seq<char> {
    "could not decompress "@ + quoted(spec_sanitized(key)) + ": "@ + text
}

/// A failure reading member data, as an archive failure.
pub open spec fn read_fault(path: Seq<char>, key: Seq<char>, f: MemberFault) -> ArchiveFault {
    match f {
        MemberFault::Open(z) => ArchiveFault::Malformed { path, detail: fault_detail(z) },
        MemberFault::Read(t) => ArchiveFault::Malformed { path, detail: decompress_detail(key, t@) },
    }
}

/// Control and chapter members with content must decompress to exactly
/// their declared size without crossing their class bound; lazy resources
/// are never decompressed here.
pub open spec fn size_fault(bytes: Seq<u8>, path: Seq<char>, limits: ArchiveLimits, m: MemberRecord) -> Option<
    ArchiveFault,
> {
    if m.class == MemberClass::Other || m.declared_size == 0 {
        None
    } else {
        let limit = class_limit(m.class, limits);
        match zip_member_prefix(bytes, m.index as int, sat_inc(limit)) {
            Err(f) => Some(read_fault(path, m.key, f)),
            Ok(data) => if data.len() > limit {
                Some(
                    ArchiveFault::MemberTooLarge {
                        path,
                        member: spec_sanitized(m.key),
                        kind: class_name(m.class),
                        size: (limit + 1) as u64,
                        limit,
                    },
                )
            } else if data.len() != m.declared_size {
                Some(ArchiveFault::DishonestMetadata { path, member: spec_sanitized(m.key) })
            } else {
                None
            },
        }
    }
}

/// The first size failure in member order.
pub open spec fn first_size_fault(bytes: Seq<u8>, path: Seq<char>, limits: ArchiveLimits, ms: Seq<MemberRecord>) -> Option<
    ArchiveFault,
>
    decreases ms.len(),
{
    if ms.len() == 0 {
        None
    } else {
        match first_size_fault(bytes, path, limits, ms.drop_last()) {
            Some(x) => Some(x),
            None => size_fault(bytes, path, limits, ms.last()),
        }
    }
}

/// Every control document and every HTML nav candidate passes the XML
/// structure gate before the package parser can inspect semantics.
pub open spec fn xml_fault(bytes: Seq<u8>, path: Seq<char>, limits: ArchiveLimits, m: MemberRecord) -> Option<
    ArchiveFault,
> {
    if m.class == MemberClass::Other {
        None
    } else {
        match zip_member_prefix(bytes, m.index as int, u64::MAX) {
            Err(f) => Some(read_fault(path, m.key, f)),
            Ok(source) => match structure_from(source, limits.xml, 0, 0, 0) {
                Err(x) => Some(ArchiveFault::UnsafeXmlStructure { path, member: spec_sanitized(m.key), source: x }),
                Ok(_) => None,
            },
        }
    }
}

/// The first XML structure failure in member order.
pub open spec fn first_xml_fault(bytes: Seq<u8>, path: Seq<char>, limits: ArchiveLimits, ms: Seq<MemberRecord>) -> Option<
    ArchiveFault,
>
    decreases ms.len(),
{
    if ms.len() == 0 {
        None
    } else {
        match first_xml_fault(bytes, path, limits, ms.drop_last()) {
            Some(x) => Some(x),
            None => xml_fault(bytes, path, limits, ms.last()),
        }
    }
}

/// The whole preflight in structural order: compressed size, directory
/// scan, actual sizes, then XML structure.
pub open spec fn spec_preflight(bytes: Seq<u8>, path: Seq<char>, limits: ArchiveLimits) -> Result<
    Seq<MemberRecord>,
    ArchiveFault,
> {
    if bytes.len() > limits.max_compressed_bytes {
        Err(ArchiveFault::TooLarge { path, size: bytes.len() as u64, limit: limits.max_compressed_bytes })
    } else {
        match spec_scan(bytes, path, limits) {
            Err(x) => Err(x),
            Ok(ms) => match first_size_fault(bytes, path, limits, ms) {
                Some(x) => Err(x),
                None => match first_xml_fault(bytes, path, limits, ms) {
                    Some(x) => Err(x),
                    None => Ok(ms),
                },
            },
        }
    }
}

fn decompress_error(path: &str, key: &str, fault: &MemberFault) -> (e: ArchiveError)
    ensures
        e@ == read_fault(path@, key@, *fault),
{
    match fault {
        MemberFault::Open(z) => ArchiveError::Malformed { path: owned(path), detail: malformed_detail(z) },
        MemberFault::Read(text) => {
            let mut detail = String::new();
            push_str(&mut detail, "could not decompress ");
            let member = sanitize_path(key);
            push_quoted(&mut detail, member.as_str());
            push_str(&mut detail, ": ");
            push_str(&mut detail, text.as_str());
            ArchiveError::Malformed { path: owned(path), detail }
        },
    }
}

fn saturating_inc(n: u64) -> (r: u64)
    ensures
        r == sat_inc(n),
{
    if n == u64::MAX {
        n
    } else {
        n + 1
    }
}

fn check_size(bytes: &[u8], path: &str, limits: &ArchiveLimits, info: &MemberInfo) -> (r: Option<ArchiveError>)
    ensures
        match r {
            Some(e) => size_fault(bytes@, path@, *limits, info@) == Some(e@),
            None => size_fault(bytes@, path@, *limits, info@) is None,
        },
{
    if info.class == MemberClass::Other || info.declared_size == 0 {
        return None;
    }
    let limit = info.class.limit(limits);
    match read_member_prefix(bytes, info.index, saturating_inc(limit)) {
        Err(fault) => Some(decompress_error(path, info.key.as_str(), &fault)),
        Ok(data) => {
            let counted = data.len() as u64;
            if counted > limit {
                Some(
                    ArchiveError::MemberTooLarge {
                        path: owned(path),
                        member: sanitize_path(info.key.as_str()),
                        kind: owned(info.class.name()),
                        size: counted,
                        limit,
                    },
                )
            } else if counted != info.declared_size {
                Some(ArchiveError::DishonestMetadata { path: owned(path), member: sanitize_path(info.key.as_str()) })
            } else {
                None
            }
        },
    }
}

fn check_xml(bytes: &[u8], path: &str, limits: &ArchiveLimits, info: &MemberInfo) -> (r: Option<ArchiveError>)
    ensures
        match r {
            Some(e) => xml_fault(bytes@, path@, *limits, info@) == Some(e@),
            None => xml_fault(bytes@, path@, *limits, info@) is None,
        },
{
    if info.class == MemberClass::Other {
        return None;
    }
    match read_member_prefix(bytes, info.index, u64::MAX) {
        Err(fault) => Some(decompress_error(path, info.key.as_str(), &fault)),
        Ok(source) => match validate_xml_structure(source.as_slice(), limits.xml) {
            Err(x) => Some(
                ArchiveError::UnsafeXmlStructure { path: owned(path), member: sanitize_path(info.key.as_str()), source: x },
            ),
            Ok(_) => None,
        },
    }
}

/// Counts actual decompressed bytes for every control and chapter member.
fn verify_actual_sizes(bytes: &[u8], path: &str, limits: &ArchiveLimits, members: &Vec<MemberInfo>) -> (r: Result<
    (),
    ArchiveError,
>)
    ensures
        match r {
            Ok(_) => first_size_fault(bytes@, path@, *limits, records(members@)) is None,
            Err(e) => first_size_fault(bytes@, path@, *limits, records(members@)) == Some(e@),
        },
{
    let mut i: usize = 0;
    while i < members.len()
        invariant
            i <= members@.len(),
            first_size_fault(bytes@, path@, *limits, records(members@).take(i as int)) is None,
        decreases members.len() - i,
    {
        proof {
            assert(records(members@).take(i + 1).drop_last() =~= records(members@).take(i as int));
        }
        match check_size(bytes, path, limits, &members[i]) {
            Some(e) => {
                proof {
                    lemma_first_size_fault_sticks(bytes@, path@, *limits, records(members@), i + 1);
                }
                return Err(e);
            },
            None => {},
        }
        i = i + 1;
    }
    assert(records(members@).take(i as int) =~= records(members@));
    Ok(())
}

proof fn lemma_first_size_fault_sticks(
    bytes: Seq<u8>,
    path: Seq<char>,
    limits: ArchiveLimits,
    ms: Seq<MemberRecord>,
    n: int,
)
    requires
        0 <= n <= ms.len(),
        first_size_fault(bytes, path, limits, ms.take(n)) is Some,
    ensures
        first_size_fault(bytes, path, limits, ms) == first_size_fault(bytes, path, limits, ms.take(n)),
    decreases ms.len() - n,
{
    if n < ms.len() {
        assert(ms.take(n + 1).drop_last() =~= ms.take(n));
        lemma_first_size_fault_sticks(bytes, path, limits, ms, n + 1);
    } else {
        assert(ms.take(n) =~= ms);
    }
}

proof fn lemma_first_xml_fault_sticks(
    bytes: Seq<u8>,
    path: Seq<char>,
    limits: ArchiveLimits,
    ms: Seq<MemberRecord>,
    n: int,
)
    requires
        0 <= n <= ms.len(),
        first_xml_fault(bytes, path, limits, ms.take(n)) is Some,
    ensures
        first_xml_fault(bytes, path, limits, ms) == first_xml_fault(bytes, path, limits, ms.take(n)),
    decreases ms.len() - n,
{
    if n < ms.len() {
        assert(ms.take(n + 1).drop_last() =~= ms.take(n));
        lemma_first_xml_fault_sticks(bytes, path, limits, ms, n + 1);
    } else {
        assert(ms.take(n) =~= ms);
    }
}

/// Gates every control document and HTML nav candidate.
fn verify_xml_structures(bytes: &[u8], path: &str, limits: &ArchiveLimits, members: &Vec<MemberInfo>) -> (r: Result<
    (),
    ArchiveError,
>)
    ensures
        match r {
            Ok(_) => first_xml_fault(bytes@, path@, *limits, records(members@)) is None,
            Err(e) => first_xml_fault(bytes@, path@, *limits, records(members@)) == Some(e@),
        },
{
    let mut i: usize = 0;
    while i < members.len()
        invariant
            i <= members@.len(),
            first_xml_fault(bytes@, path@, *limits, records(members@).take(i as int)) is None,
        decreases members.len() - i,
    {
        proof {
            assert(records(members@).take(i + 1).drop_last() =~= records(members@).take(i as int));
        }
        match check_xml(bytes, path, limits, &members[i]) {
            Some(e) => {
                proof {
                    lemma_first_xml_fault_sticks(bytes@, path@, *limits, records(members@), i + 1);
                }
                return Err(e);
            },
            None => {},
        }
        i = i + 1;
    }
    assert(records(members@).take(i as int) =~= records(members@));
    Ok(())
}

// ---------------------------------------------------------------------------
// The preflighted archive
// ---------------------------------------------------------------------------

/// No two members share a canonical key.
pub open spec fn distinct_keys(ms: Seq<MemberRecord>) -> bool {
    forall|i: int, j: int| 0 <= i < j < ms.len() ==> (#[trigger] ms[i]).key != (#[trigger] ms[j]).key
}

proof fn lemma_scan_distinct(
    entries: Seq<Result<EntryFacts, ZipFault>>,
    n: nat,
    path: Seq<char>,
    limits: ArchiveLimits,
)
    requires
        scan_prefix(entries, n, path, limits) is Ok,
    ensures
        distinct_keys(scan_prefix(entries, n, path, limits)->Ok_0.members),
    decreases n,
{
    if n > 0 {
        lemma_scan_distinct(entries, (n - 1) as nat, path, limits);
        let s = scan_prefix(entries, (n - 1) as nat, path, limits)->Ok_0;
        let t = scan_prefix(entries, n, path, limits)->Ok_0;
        assert forall|i: int, j: int| 0 <= i < j < t.members.len() implies (#[trigger] t.members[i]).key
            != (#[trigger] t.members[j]).key by {
            if j == s.members.len() {
                assert(t.members[i] == s.members[i]);
            } else {
                assert(t.members[i] == s.members[i]);
                assert(t.members[j] == s.members[j]);
            }
        }
    }
}

/// The member with this key, if any.
pub open spec fn lookup(ms: Seq<MemberRecord>, key: Seq<char>) -> Option<MemberRecord> {
    if has_key(ms, key) {
        Some(ms[choose|j: int| 0 <= j < ms.len() && (#[trigger] ms[j]).key == key])
    } else {
        None
    }
}

/// The mathematical value of a [`PreflightedArchive`].
pub struct PreflightedView {
    pub bytes: Seq<u8>,
    pub display_path: Seq<char>,
    pub limits: ArchiveLimits,
    pub members: Seq<MemberRecord>,
}

/// An archive snapshot that passed every preflight boundary. The inspected
/// bytes stay immutable in memory, so every later read sees exactly the
/// content the checks approved.
#[derive(Debug)]
pub struct PreflightedArchive {
    bytes: Arc<Vec<u8>>,
    display_path: String,
    limits: ArchiveLimits,
    members: Vec<MemberInfo>,
}

impl View for PreflightedArchive {
    type V = PreflightedView;

    closed spec fn view(&self) -> PreflightedView {
        PreflightedView {
            bytes: (*self.bytes)@,
            display_path: self.display_path@,
            limits: self.limits,
            members: records(self.members@),
        }
    }
}

proof fn lemma_records_push(s: Seq<MemberInfo>, x: MemberInfo)
    ensures
        records(s.push(x)) == records(s).push(x@),
{
    assert(records(s.push(x)) =~= records(s).push(x@));
}

fn copy_members(ms: &Vec<MemberInfo>) -> (r: Vec<MemberInfo>)
    ensures
        records(r@) == records(ms@),
{
    let mut r: Vec<MemberInfo> = Vec::new();
    let mut i: usize = 0;
    while i < ms.len()
        invariant
            i <= ms@.len(),
            records(r@) == records(ms@).take(i as int),
        decreases ms.len() - i,
    {
        let m = &ms[i];
        let ghost prev = r@;
        let copy = MemberInfo { index: m.index, key: owned(m.key.as_str()), class: m.class, declared_size: m.declared_size };
        assert(copy@ == m@);
        r.push(copy);
        proof {
            lemma_records_push(prev, copy);
            assert(records(ms@).take(i + 1) =~= records(ms@).take(i as int).push(records(ms@)[i as int]));
        }
        i = i + 1;
    }
    assert(records(ms@).take(i as int) =~= records(ms@));
    r
}

impl Clone for PreflightedArchive {
    fn clone(&self) -> (r: Self)
        ensures
            r@ == self@,
    {
        proof {
            use_type_invariant(self);
        }
        PreflightedArchive {
            bytes: share(&self.bytes),
            display_path: owned(self.display_path.as_str()),
            limits: self.limits,
            members: copy_members(&self.members),
        }
    }
}

/// The limit a plain read applies: the member's class limit, or the
/// whole-book budget for a key that names no member.
pub open spec fn default_read_limit(a: PreflightedView, key: Seq<char>) -> u64 {
    match lookup(a.members, key) {
        Some(m) => class_limit(m.class, a.limits),
        None => a.limits.max_advertised_expansion,
    }
}

/// A bounded read of one member: the smaller of its class limit and the
/// caller's limit applies to the bytes actually decompressed.
pub open spec fn spec_read(a: PreflightedView, key: Seq<char>, caller_limit: u64) -> Result<Seq<u8>, ArchiveFault> {
    match lookup(a.members, key) {
        None => Err(
            ArchiveFault::Malformed {
                path: a.display_path,
                detail: "resource "@ + quoted(spec_sanitized(key)) + " vanished after preflight"@,
            },
        ),
        Some(m) => {
            let limit = if class_limit(m.class, a.limits) <= caller_limit {
                class_limit(m.class, a.limits)
            } else {
                caller_limit
            };
            match zip_member_prefix(a.bytes, m.index as int, sat_inc(limit)) {
                Err(f) => Err(read_fault(a.display_path, key, f)),
                Ok(data) => if data.len() > limit {
                    Err(
                        ArchiveFault::MemberTooLarge {
                            path: a.display_path,
                            member: spec_sanitized(key),
                            kind: class_name(m.class),
                            size: (limit + 1) as u64,
                            limit,
                        },
                    )
                } else {
                    Ok(data)
                },
            }
        },
    }
}

impl PreflightedArchive {
    #[verifier::type_invariant]
    spec fn keys_are_distinct(&self) -> bool {
        distinct_keys(records(self.members@))
    }

    /// Validates raw archive bytes against the supplied limits, reporting
    /// the first violation in structural order: size, parse, count, member
    /// names, methods, encryption, links, ratios, overlaps, class bounds,
    /// expansion, duplicates, then actual bytes and XML structure.
    pub fn open(bytes: Vec<u8>, display_path: &str, limits: &ArchiveLimits) -> (r: Result<Self, ArchiveError>)
        ensures
            match r {
                Ok(a) => {
                    &&& spec_preflight(bytes@, display_path@, *limits) == Ok::<Seq<MemberRecord>, ArchiveFault>(
                        a@.members,
                    )
                    &&& a@.bytes == bytes@
                    &&& a@.display_path == display_path@
                    &&& a@.limits == *limits
                },
                Err(e) => spec_preflight(bytes@, display_path@, *limits) == Err::<Seq<MemberRecord>, ArchiveFault>(e@),
            },
    {
        let size = bytes.len() as u64;
        if size > limits.max_compressed_bytes {
            return Err(
                ArchiveError::TooLarge { path: owned(display_path), size, limit: limits.max_compressed_bytes },
            );
        }
        let members = match scan_members(bytes.as_slice(), display_path, limits) {
            Ok(members) => members,
            Err(e) => return Err(e),
        };
        match verify_actual_sizes(bytes.as_slice(), display_path, limits, &members) {
            Ok(_) => {},
            Err(e) => return Err(e),
        }
        match verify_xml_structures(bytes.as_slice(), display_path, limits, &members) {
            Ok(_) => {},
            Err(e) => return Err(e),
        }
        proof {
            let entries = zip_directory(bytes@)->Ok_0;
            lemma_scan_distinct(entries, entries.len(), display_path@, *limits);
        }
        Ok(PreflightedArchive { bytes: Arc::new(bytes), display_path: owned(display_path), limits: *limits, members })
    }

    fn find(&self, key: &str) -> (r: Option<usize>)
        ensures
            match r {
                Some(j) => j < self@.members.len() && lookup(self@.members, key@) == Some(self@.members[j as int]),
                None => lookup(self@.members, key@) is None,
            },
    {
        proof {
            use_type_invariant(self);
        }
        let wanted = owned(key);
        let mut j: usize = 0;
        while j < self.members.len()
            invariant
                wanted@ == key@,
                j <= self@.members.len(),
                self@.members == records(self.members@),
                distinct_keys(self@.members),
                forall|k: int| 0 <= k < j ==> (#[trigger] self@.members[k]).key != key@,
            decreases self.members.len() - j,
        {
            if self.members[j].key == wanted {
                proof {
                    let ms = self@.members;
                    assert(ms[j as int].key == key@);
                    let c = choose|c: int| 0 <= c < ms.len() && (#[trigger] ms[c]).key == key@;
                    if c != j as int {
                        if c < j {
                            assert(ms[c].key != ms[j as int].key);
                        } else {
                            assert(ms[j as int].key != ms[c].key);
                        }
                    }
                }
                return Some(j);
            }
            j = j + 1;
        }
        None
    }

    /// Looks up a validated member by canonical key.
    pub fn member(&self, key: &str) -> (r: Option<&MemberInfo>)
        ensures
            match r {
                Some(m) => lookup(self@.members, key@) == Some(m@),
                None => lookup(self@.members, key@) is None,
            },
    {
        match self.find(key) {
            Some(j) => Some(&self.members[j]),
            None => None,
        }
    }

    /// The inspected bytes.
    pub fn bytes(&self) -> (r: &[u8])
        ensures
            r@ == self@.bytes,
    {
        self.bytes.as_slice()
    }

    /// All validated members in archive order.
    pub fn members(&self) -> (r: &[MemberInfo])
        ensures
            records(r@) == self@.members,
    {
        self.members.as_slice()
    }

    /// Reads and bounds one member by its class limit; the decompressed
    /// bytes are counted again on every call.
    pub fn read_member(&self, key: &str) -> (r: Result<Vec<u8>, ArchiveError>)
        ensures
            match r {
                Ok(data) => spec_read(self@, key@, default_read_limit(self@, key@)) == Ok::<Seq<u8>, ArchiveFault>(
                    data@,
                ),
                Err(e) => spec_read(self@, key@, default_read_limit(self@, key@)) == Err::<Seq<u8>, ArchiveFault>(e@),
            },
    {
        let limit = match self.member(key) {
            Some(info) => info.class.limit(&self.limits),
            None => self.limits.max_advertised_expansion,
        };
        self.read_member_bounded(key, limit)
    }

    /// Reads one member without letting it exceed the caller's tighter
    /// limit or its class limit.
    pub fn read_member_bounded(&self, key: &str, caller_limit: u64) -> (r: Result<Vec<u8>, ArchiveError>)
        ensures
            match r {
                Ok(data) => spec_read(self@, key@, caller_limit) == Ok::<Seq<u8>, ArchiveFault>(data@),
                Err(e) => spec_read(self@, key@, caller_limit) == Err::<Seq<u8>, ArchiveFault>(e@),
            },
    {
        let info = match self.member(key) {
            Some(info) => info,
            None => {
                let mut detail = String::new();
                push_str(&mut detail, "resource ");
                let member = sanitize_path(key);
                push_quoted(&mut detail, member.as_str());
                push_str(&mut detail, " vanished after preflight");
                return Err(ArchiveError::Malformed { path: self.display_path.clone(), detail });
            },
        };
        let class_bound = info.class.limit(&self.limits);
        let limit = if class_bound <= caller_limit {
            class_bound
        } else {
            caller_limit
        };
        match read_member_prefix(self.bytes.as_slice(), info.index, saturating_inc(limit)) {
            Err(fault) => Err(decompress_error(self.display_path.as_str(), key, &fault)),
            Ok(data) => {
                let counted = data.len() as u64;
                if counted > limit {
                    Err(
                        ArchiveError::MemberTooLarge {
                            path: self.display_path.clone(),
                            member: sanitize_path(key),
                            kind: owned(info.class.name()),
                            size: counted,
                            limit,
                        },
                    )
                } else {
                    Ok(data)
                }
            },
        }
    }

    /// A clonable handle over the inspected bytes for semantic parsers.
    pub fn shared_bytes(&self) -> (r: SharedBookBytes)
        ensures
            r@ == self@.bytes,
    {
        SharedBookBytes(share(&self.bytes))
    }
}

/// Clonable handle over one immutable inspected buffer.
#[derive(Clone, Debug)]
pub struct SharedBookBytes(Arc<Vec<u8>>);

impl View for SharedBookBytes {
    type V = Seq<u8>;

    closed spec fn view(&self) -> Seq<u8> {
        (*self.0)@
    }
}

impl SharedBookBytes {
    /// A fresh cursor at the start of the shared bytes.
    pub fn cursor(&self) -> (c: SharedBookCursor)
        ensures
            c@ == (self@, 0u64),
    {
        SharedBookCursor { bytes: SharedBookBytes(share(&self.0)), position: 0 }
    }
}

/// Where a seek is measured from.
#[derive(Clone, Copy, Debug, PartialEq, Eq, Structural)]
pub enum SeekTarget {
    Start(u64),
    End(i64),
    Current(i64),
}

/// Positioned reader over [`SharedBookBytes`]; its position never passes
/// the end of the bytes.
#[derive(Debug)]
pub struct SharedBookCursor {
    bytes: SharedBookBytes,
    position: u64,
}

impl View for SharedBookCursor {
    type V = (Seq<u8>, u64);

    closed spec fn view(&self) -> (Seq<u8>, u64) {
        (self.bytes@, self.position)
    }
}

/// The position a seek lands on: the target clamped into the bytes.
pub open spec fn seek_position(len: nat, position: u64, target: SeekTarget) -> u64 {
    let raw: int = match target {
        SeekTarget::Start(offset) => offset as int,
        SeekTarget::End(offset) => len + offset,
        SeekTarget::Current(offset) => position + offset,
    };
    if raw < 0 {
        0
    } else if raw > len {
        len as u64
    } else {
        raw as u64
    }
}

impl SharedBookCursor {
    #[verifier::type_invariant]
    spec fn within_bytes(&self) -> bool {
        self.position <= self.bytes@.len()
    }

    /// Copies the next bytes into `buf`, as many as fit and remain, and
    /// moves past them.
    pub fn read(&mut self, buf: &mut [u8]) -> (count: usize)
        ensures
            final(self)@.0 == old(self)@.0,
            count as int == if old(buf)@.len() <= old(self)@.0.len() - old(self)@.1 {
                old(buf)@.len() as int
            } else {
                old(self)@.0.len() - old(self)@.1
            },
            final(self)@.1 == old(self)@.1 + count,
            final(buf)@.len() == old(buf)@.len(),
            final(buf)@.take(count as int) == old(self)@.0.subrange(old(self)@.1 as int, old(self)@.1 + count),
            final(buf)@.skip(count as int) == old(buf)@.skip(count as int),
    {
        proof {
            use_type_invariant(&*self);
        }
        let data: &Vec<u8> = &self.bytes.0;
        let length = data.len();
        assert(self.position <= length);
        let start = self.position as usize;
        let remaining = data.len() - start;
        let count = if buf.len() <= remaining {
            buf.len()
        } else {
            remaining
        };
        let mut k: usize = 0;
        while k < count
            invariant
                start as int == old(self)@.1,
                data@ == old(self)@.0,
                start + count <= data@.len(),
                data@.len() == length,
                count <= buf@.len(),
                k <= count,
                buf@.len() == old(buf)@.len(),
                forall|t: int| 0 <= t < k ==> buf@[t] == data@[start + t],
                forall|t: int| count <= t < buf@.len() ==> buf@[t] == old(buf)@[t],
            decreases count - k,
        {
            assert(start + k < data@.len());
            buf[k] = data[start + k];
            k = k + 1;
        }
        self.position = self.position + count as u64;
        proof {
            assert(buf@.take(count as int) =~= data@.subrange(start as int, start + count));
            assert(buf@.skip(count as int) =~= old(buf)@.skip(count as int));
        }
        count
    }

    /// Moves to the target position, clamped into the bytes, and returns it.
    pub fn seek(&mut self, target: SeekTarget) -> (p: u64)
        ensures
            final(self)@.0 == old(self)@.0,
            p == seek_position(old(self)@.0.len(), old(self)@.1, target),
            final(self)@.1 == p,
    {
        proof {
            use_type_invariant(&*self);
        }
        let length = self.bytes.0.len() as u64;
        let raw: i128 = match target {
            SeekTarget::Start(offset) => offset as i128,
            SeekTarget::End(offset) => length as i128 + offset as i128,
            SeekTarget::Current(offset) => self.position as i128 + offset as i128,
        };
        let p: u64 = if raw < 0 {
            0
        } else if raw > length as i128 {
            length
        } else {
            raw as u64
        };
        self.position = p;
        p
    }
}

} // verus!
