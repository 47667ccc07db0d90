//! Bounded, one-shot terminal graphics capability probing.
//!
//! The library owns the query packet, the response grammar and the
//! bookkeeping of one probe session; the terminal input loop that feeds it
//! lives with the program. Responses are accepted only when complete and
//! correlated with the query that asked for them.
use vstd::prelude::*;
use vstd::utf8::*;

use crate::terminal_image::{CapabilityEvidence, ImageCapabilities};
use crate::bytes::{decimal_bytes, push_decimal_bytes, ends_with, ends_with_bytes, find, has_at, lemma_find_found, matches_at, slice_range, spec_find, starts_with};
use crate::text::utf8_text;

verus! {

/// Total response bytes retained during the one-shot probe.
pub const PROBE_RESPONSE_LIMIT: usize = 4096;

/// Maximum bytes accepted for one APC or DCS response frame.
pub const PROBE_FRAME_LIMIT: usize = 1024;

/// Longest hexadecimal terminal name accepted in an XTGETTCAP reply.
pub const HEX_NAME_LIMIT: usize = 256;

// ---------------------------------------------------------------------------
// Wire constants
// ---------------------------------------------------------------------------

/// String terminator `ESC \`.
pub open spec fn st_seq() -> Seq<u8> {
    seq![0x1bu8, 0x5cu8]
}

/// Start of a Kitty graphics APC reply, `ESC _ G`.
pub open spec fn kitty_start() -> Seq<u8> {
    seq![0x1bu8, 0x5fu8, 0x47u8]
}

/// Start of a DCS reply, `ESC P`.
pub open spec fn dcs_start() -> Seq<u8> {
    seq![0x1bu8, 0x50u8]
}

/// `ESC P > | iTerm2 ` that opens iTerm2's extended device attributes.
pub open spec fn iterm2_prefix() -> Seq<u8> {
    seq![0x1bu8, 0x50u8, 0x3eu8, 0x7cu8, 0x69u8, 0x54u8, 0x65u8, 0x72u8, 0x6du8, 0x32u8, 0x20u8]
}

/// `ESC P 1 + r 544e =` that opens a successful XTGETTCAP `TN` reply.
pub open spec fn sixel_positive_prefix() -> Seq<u8> {
    seq![0x1bu8, 0x50u8, 0x31u8, 0x2bu8, 0x72u8, 0x35u8, 0x34u8, 0x34u8, 0x65u8, 0x3du8]
}

/// `ESC P 0 + r 544e ESC \`: the terminal does not know `TN`.
pub open spec fn sixel_refusal_named() -> Seq<u8> {
    seq![0x1bu8, 0x50u8, 0x30u8, 0x2bu8, 0x72u8, 0x35u8, 0x34u8, 0x34u8, 0x65u8, 0x1bu8, 0x5cu8]
}

/// `ESC P 0 + r ESC \`: the terminal refused the request.
pub open spec fn sixel_refusal_bare() -> Seq<u8> {
    seq![0x1bu8, 0x50u8, 0x30u8, 0x2bu8, 0x72u8, 0x1bu8, 0x5cu8]
}

/// The Kitty query's text before its image id, `ESC _ G i =`.
pub open spec fn kitty_query_prefix() -> Seq<u8> {
    seq![0x1bu8, 0x5fu8, 0x47u8, 0x69u8, 0x3du8]
}

/// The Kitty query's text after its image id:
/// `,s=1,v=1,a=q,t=d,f=24;AAAA ESC \`.
pub open spec fn kitty_query_suffix() -> Seq<u8> {
    seq![
        0x2cu8, 0x73u8, 0x3du8, 0x31u8, 0x2cu8, 0x76u8, 0x3du8, 0x31u8, 0x2cu8, 0x61u8,
        0x3du8, 0x71u8, 0x2cu8, 0x74u8, 0x3du8, 0x64u8, 0x2cu8, 0x66u8, 0x3du8, 0x32u8,
        0x34u8, 0x3bu8, 0x41u8, 0x41u8, 0x41u8, 0x41u8, 0x1bu8, 0x5cu8,
    ]
}

/// XTGETTCAP query for `TN`: `ESC P + q 544e ESC \`.
pub open spec fn sixel_query() -> Seq<u8> {
    seq![0x1bu8, 0x50u8, 0x2bu8, 0x71u8, 0x35u8, 0x34u8, 0x34u8, 0x65u8, 0x1bu8, 0x5cu8]
}

/// iTerm2's extended device attributes query, `ESC [ > q`.
pub open spec fn iterm2_query() -> Seq<u8> {
    seq![0x1bu8, 0x5bu8, 0x3eu8, 0x71u8]
}

fn st_bytes() -> (v: Vec<u8>)
    ensures
        v@ == st_seq(),
{
    let v = vec![0x1bu8, 0x5cu8];
    assert(v@ =~= st_seq());
    v
}

fn kitty_start_bytes() -> (v: Vec<u8>)
    ensures
        v@ == kitty_start(),
{
    let v = vec![0x1bu8, 0x5fu8, 0x47u8];
    assert(v@ =~= kitty_start());
    v
}

fn dcs_start_bytes() -> (v: Vec<u8>)
    ensures
        v@ == dcs_start(),
{
    let v = vec![0x1bu8, 0x50u8];
    assert(v@ =~= dcs_start());
    v
}

fn iterm2_prefix_bytes() -> (v: Vec<u8>)
    ensures
        v@ == iterm2_prefix(),
{
    let v = vec![0x1bu8, 0x50u8, 0x3eu8, 0x7cu8, 0x69u8, 0x54u8, 0x65u8, 0x72u8, 0x6du8, 0x32u8, 0x20u8];
    assert(v@ =~= iterm2_prefix());
    v
}

fn sixel_positive_prefix_bytes() -> (v: Vec<u8>)
    ensures
        v@ == sixel_positive_prefix(),
{
    let v = vec![0x1bu8, 0x50u8, 0x31u8, 0x2bu8, 0x72u8, 0x35u8, 0x34u8, 0x34u8, 0x65u8, 0x3du8];
    assert(v@ =~= sixel_positive_prefix());
    v
}

fn sixel_refusal_named_bytes() -> (v: Vec<u8>)
    ensures
        v@ == sixel_refusal_named(),
{
    let v = vec![0x1bu8, 0x50u8, 0x30u8, 0x2bu8, 0x72u8, 0x35u8, 0x34u8, 0x34u8, 0x65u8, 0x1bu8, 0x5cu8];
    assert(v@ =~= sixel_refusal_named());
    v
}

fn sixel_refusal_bare_bytes() -> (v: Vec<u8>)
    ensures
        v@ == sixel_refusal_bare(),
{
    let v = vec![0x1bu8, 0x50u8, 0x30u8, 0x2bu8, 0x72u8, 0x1bu8, 0x5cu8];
    assert(v@ =~= sixel_refusal_bare());
    v
}

/// Appends every byte of `tail` to `out`.
fn append_bytes(out: &mut Vec<u8>, tail: &[u8])
    ensures
        final(out)@ == old(out)@ + tail@,
{
    let mut i: usize = 0;
    while i < tail.len()
        invariant
            i <= tail@.len(),
            out@ == old(out)@ + tail@.subrange(0, i as int),
        decreases tail.len() - i,
    {
        out.push(tail[i]);
        i = i + 1;
        assert(out@ =~= old(out)@ + tail@.subrange(0, i as int));
    }
    assert(tail@.subrange(0, tail@.len() as int) =~= tail@);
}

// ---------------------------------------------------------------------------
// Outcomes
// ---------------------------------------------------------------------------

/// What one protocol's probe established.
#[derive(Clone, Copy, Debug, PartialEq, Eq, Structural)]
pub enum ProbeOutcome {
    Positive,
    Negative,
    Malformed,
    Partial,
    OverLimit,
    Absent,
}

impl ProbeOutcome {
    /// The capability evidence an outcome amounts to: unfinished or
    /// oversized replies count as malformed, never as support.
    pub open spec fn spec_evidence(self) -> CapabilityEvidence {
        match self {
            ProbeOutcome::Positive => CapabilityEvidence::Positive,
            ProbeOutcome::Negative => CapabilityEvidence::Negative,
            ProbeOutcome::Malformed | ProbeOutcome::Partial | ProbeOutcome::OverLimit => CapabilityEvidence::Malformed,
            ProbeOutcome::Absent => CapabilityEvidence::Absent,
        }
    }

    pub fn evidence(self) -> (e: CapabilityEvidence)
        ensures
            e == self.spec_evidence(),
    {
        match self {
            ProbeOutcome::Positive => CapabilityEvidence::Positive,
            ProbeOutcome::Negative => CapabilityEvidence::Negative,
            ProbeOutcome::Malformed | ProbeOutcome::Partial | ProbeOutcome::OverLimit => CapabilityEvidence::Malformed,
            ProbeOutcome::Absent => CapabilityEvidence::Absent,
        }
    }
}

/// One outcome per probed protocol.
#[derive(Clone, Copy, Debug, PartialEq, Eq, Structural)]
pub struct ProbeReport {
    pub kitty: ProbeOutcome,
    pub sixel: ProbeOutcome,
    pub iterm2: ProbeOutcome,
}

/// The report before any reply arrived.
pub open spec fn absent_report() -> ProbeReport {
    ProbeReport { kitty: ProbeOutcome::Absent, sixel: ProbeOutcome::Absent, iterm2: ProbeOutcome::Absent }
}

impl Default for ProbeReport {
    fn default() -> (r: Self)
        ensures
            r == absent_report(),
    {
        ProbeReport { kitty: ProbeOutcome::Absent, sixel: ProbeOutcome::Absent, iterm2: ProbeOutcome::Absent }
    }
}

impl ProbeReport {
    /// The capabilities the report establishes; colour depth is never
    /// probed here and stays absent.
    pub open spec fn spec_capabilities(self) -> ImageCapabilities {
        ImageCapabilities {
            kitty: self.kitty.spec_evidence(),
            sixel: self.sixel.spec_evidence(),
            iterm2: self.iterm2.spec_evidence(),
            true_color: CapabilityEvidence::Absent,
            ansi256: CapabilityEvidence::Absent,
        }
    }

    pub fn capabilities(self) -> (c: ImageCapabilities)
        ensures
            c == self.spec_capabilities(),
    {
        ImageCapabilities {
            kitty: self.kitty.evidence(),
            sixel: self.sixel.evidence(),
            iterm2: self.iterm2.evidence(),
            true_color: CapabilityEvidence::Absent,
            ansi256: CapabilityEvidence::Absent,
        }
    }
}

// ---------------------------------------------------------------------------
// Kitty replies
// ---------------------------------------------------------------------------

/// A printable, non-space ASCII byte.
pub open spec fn is_graphic(b: u8) -> bool {
    0x21 <= b <= 0x7e
}

/// The reply prefix that correlates with the query for image `id`:
/// `ESC _ G i = <id> ;`.
pub open spec fn kitty_expected(id: u32) -> Seq<u8> {
    kitty_query_prefix() + decimal_bytes(id as nat) + seq![0x3bu8]
}

/// The outcome a complete Kitty reply frame gives.
pub open spec fn spec_parse_kitty(frame: Seq<u8>, id: u32) -> ProbeOutcome {
    let expected = kitty_expected(id);
    if !starts_with(frame, expected) || !ends_with(frame, st_seq()) {
        ProbeOutcome::Malformed
    } else {
        let status = frame.subrange(expected.len() as int, frame.len() - 2);
        if status == seq![0x4fu8, 0x4bu8] {
            ProbeOutcome::Positive
        } else if status.len() > 0 && (forall|i: int| 0 <= i < status.len() ==> is_graphic(#[trigger] status[i])) {
            ProbeOutcome::Negative
        } else {
            ProbeOutcome::Malformed
        }
    }
}

fn kitty_query_prefix_bytes() -> (v: Vec<u8>)
    ensures
        v@ == kitty_query_prefix(),
{
    let v = vec![0x1bu8, 0x5fu8, 0x47u8, 0x69u8, 0x3du8];
    assert(v@ =~= kitty_query_prefix());
    v
}

/// A frame that starts with `prefix` and ends with the string terminator is
/// long enough to hold both, when the prefix's last byte cannot begin or end
/// the terminator.
proof fn lemma_room_for_terminator(frame: Seq<u8>, prefix: Seq<u8>)
    requires
        prefix.len() >= 1,
        prefix.last() != 0x1bu8,
        prefix.last() != 0x5cu8,
        starts_with(frame, prefix),
        ends_with(frame, st_seq()),
    ensures
        frame.len() >= prefix.len() + 2,
{
    let n = prefix.len() as int;
    assert(frame[n - 1] == prefix[n - 1]) by {
        assert(frame.subrange(0, n)[n - 1] == frame[n - 1]);
    }
    let l = frame.len() as int;
    assert(frame[l - 2] == 0x1bu8 && frame[l - 1] == 0x5cu8) by {
        assert(frame.subrange(l - 2, l)[0] == frame[l - 2]);
        assert(frame.subrange(l - 2, l)[1] == frame[l - 1]);
    }
    if l == n {
    } else if l == n + 1 {
    }
}

fn all_graphic(b: &[u8]) -> (r: bool)
    ensures
        r == (forall|i: int| 0 <= i < b@.len() ==> is_graphic(#[trigger] b@[i])),
{
    let mut i: usize = 0;
    while i < b.len()
        invariant
            i <= b@.len(),
            forall|j: int| 0 <= j < i ==> is_graphic(#[trigger] b@[j]),
        decreases b.len() - i,
    {
        if b[i] < 0x21 || b[i] > 0x7e {
            return false;
        }
        i = i + 1;
    }
    true
}

/// Classifies a complete Kitty reply frame for the query with image `kitty_id`.
pub fn parse_kitty(frame: &[u8], kitty_id: u32) -> (o: ProbeOutcome)
    ensures
        o == spec_parse_kitty(frame@, kitty_id),
{
    let mut expected = kitty_query_prefix_bytes();
    push_decimal_bytes(&mut expected, kitty_id as u64);
    expected.push(0x3b);
    assert(expected@ =~= kitty_expected(kitty_id));
    let st = st_bytes();
    if !matches_at(frame, 0, &expected) || !ends_with_bytes(frame, &st) {
        return ProbeOutcome::Malformed;
    }
    proof {
        lemma_room_for_terminator(frame@, expected@);
    }
    let status = slice_range(frame, expected.len(), frame.len() - 2);
    if status.len() == 2 && status[0] == 0x4f && status[1] == 0x4b {
        assert(status@ =~= seq![0x4fu8, 0x4bu8]);
        ProbeOutcome::Positive
    } else {
        assert(status@ != seq![0x4fu8, 0x4bu8]) by {
            if status@ == seq![0x4fu8, 0x4bu8] {
                assert(status@[0] == 0x4f && status@[1] == 0x4b);
            }
        }
        if status.len() > 0 && all_graphic(status) {
            ProbeOutcome::Negative
        } else {
            ProbeOutcome::Malformed
        }
    }
}

// ---------------------------------------------------------------------------
// XTGETTCAP replies (Sixel)
// ---------------------------------------------------------------------------

/// An ASCII hexadecimal digit, either case.
pub open spec fn is_hex(b: u8) -> bool {
    (0x30 <= b <= 0x39) || (0x41 <= b <= 0x46) || (0x61 <= b <= 0x66)
}

/// The value of a hexadecimal digit.
pub open spec fn hex_value(b: u8) -> int {
    if b <= 0x39 {
        b - 0x30
    } else if b <= 0x46 {
        b - 0x41 + 10
    } else {
        b - 0x61 + 10
    }
}

/// Decodes a bounded, even-length hexadecimal string into bytes.
pub open spec fn spec_decode_hex(encoded: Seq<u8>) -> Option<Seq<u8>> {
    if encoded.len() % 2 != 0 || encoded.len() > HEX_NAME_LIMIT
        || !(forall|i: int| 0 <= i < encoded.len() ==> is_hex(#[trigger] encoded[i])) {
        None
    } else {
        Some(Seq::new(
            (encoded.len() / 2) as nat,
            |k: int| (16 * hex_value(encoded[2 * k]) + hex_value(encoded[2 * k + 1])) as u8,
        ))
    }
}

pub(crate) fn hex_digit_value(b: u8) -> (v: Option<u8>)
    ensures
        match v {
            Some(d) => is_hex(b) && d == hex_value(b) && d < 16,
            None => !is_hex(b),
        },
{
    if 0x30 <= b && b <= 0x39 {
        Some(b - 0x30)
    } else if 0x41 <= b && b <= 0x46 {
        Some(b - 0x41 + 10)
    } else if 0x61 <= b && b <= 0x66 {
        Some(b - 0x61 + 10)
    } else {
        None
    }
}

/// Decodes the hexadecimal terminal name of an XTGETTCAP reply.
pub fn decode_hex(encoded: &[u8]) -> (r: Option<Vec<u8>>)
    ensures
        match r {
            Some(v) => spec_decode_hex(encoded@) == Some(v@),
            None => spec_decode_hex(encoded@) is None,
        },
{
    if encoded.len() % 2 != 0 || encoded.len() > HEX_NAME_LIMIT {
        return None;
    }
    let half = encoded.len() / 2;
    let mut out: Vec<u8> = Vec::new();
    let mut k: usize = 0;
    while k < half
        invariant
            half * 2 == encoded@.len(),
            encoded@.len() <= HEX_NAME_LIMIT,
            k <= half,
            out@.len() == k,
            forall|i: int| 0 <= i < 2 * k ==> is_hex(#[trigger] encoded@[i]),
            forall|j: int| 0 <= j < k ==> #[trigger] out@[j] == (16 * hex_value(encoded@[2 * j]) + hex_value(encoded@[2 * j + 1])) as u8,
        decreases half - k,
    {
        let high = hex_digit_value(encoded[2 * k]);
        let low = hex_digit_value(encoded[2 * k + 1]);
        match (high, low) {
            (Some(h), Some(l)) => {
                out.push(h * 16 + l);
            },
            _ => {
                assert(!is_hex(encoded@[2 * k as int]) || !is_hex(encoded@[2 * k + 1]));
                return None;
            },
        }
        k = k + 1;
    }
    assert(out@ =~= Seq::new(
        (encoded@.len() / 2) as nat,
        |k: int| (16 * hex_value(encoded@[2 * k]) + hex_value(encoded@[2 * k + 1])) as u8,
    ));
    Some(out)
}

/// An ASCII letter or digit.
pub open spec fn is_alnum(b: u8) -> bool {
    (0x30 <= b <= 0x39) || (0x41 <= b <= 0x5a) || (0x61 <= b <= 0x7a)
}

/// ASCII lower-casing of one byte.
pub open spec fn lower_byte(b: u8) -> u8 {
    if 0x41 <= b <= 0x5a {
        (b + 0x20) as u8
    } else {
        b
    }
}

/// The word `sixel`.
pub open spec fn sixel_word() -> Seq<u8> {
    seq![0x73u8, 0x69u8, 0x78u8, 0x65u8, 0x6cu8]
}

/// At index `i`, `name` holds a whole alphanumeric word that reads `sixel`
/// in any ASCII case.
pub open spec fn word_at(name: Seq<u8>, i: int) -> bool {
    &&& 0 <= i
    &&& i + 5 <= name.len()
    &&& (i == 0 || !is_alnum(name[i - 1]))
    &&& (i + 5 == name.len() || !is_alnum(name[i + 5]))
    &&& forall|k: int| 0 <= k < 5 ==> lower_byte(#[trigger] name[i + k]) == sixel_word()[k]
}

/// Some alphanumeric word of the terminal name is `sixel`, ignoring ASCII
/// case. Non-ASCII characters separate words; in UTF-8 their bytes are never
/// ASCII letters or digits.
pub open spec fn names_sixel(name: Seq<u8>) -> bool {
    exists|i: int| word_at(name, i)
}

/// The outcome a complete XTGETTCAP `TN` reply frame gives.
pub open spec fn spec_parse_sixel(frame: Seq<u8>) -> ProbeOutcome {
    if frame == sixel_refusal_named() || frame == sixel_refusal_bare() {
        ProbeOutcome::Negative
    } else if !starts_with(frame, sixel_positive_prefix()) || !ends_with(frame, st_seq()) {
        ProbeOutcome::Malformed
    } else {
        match spec_decode_hex(frame.subrange(sixel_positive_prefix().len() as int, frame.len() - 2)) {
            None => ProbeOutcome::Malformed,
            Some(name) => if !valid_utf8(name) {
                ProbeOutcome::Malformed
            } else if names_sixel(name) {
                ProbeOutcome::Positive
            } else {
                ProbeOutcome::Negative
            },
        }
    }
}

fn is_alnum_byte(b: u8) -> (r: bool)
    ensures
        r == is_alnum(b),
{
    (0x30 <= b && b <= 0x39) || (0x41 <= b && b <= 0x5a) || (0x61 <= b && b <= 0x7a)
}

fn lower(b: u8) -> (r: u8)
    ensures
        r == lower_byte(b),
{
    if 0x41 <= b && b <= 0x5a {
        b + 0x20
    } else {
        b
    }
}

fn word_at_exec(name: &[u8], i: usize) -> (r: bool)
    requires
        i + 5 <= name@.len(),
    ensures
        r == word_at(name@, i as int),
{
    if i > 0 && is_alnum_byte(name[i - 1]) {
        return false;
    }
    if i + 5 < name.len() && is_alnum_byte(name[i + 5]) {
        return false;
    }
    let word = [0x73u8, 0x69u8, 0x78u8, 0x65u8, 0x6cu8];
    let mut k: usize = 0;
    while k < 5
        invariant
            i + 5 <= name@.len(),
            name@.len() == name.len(),
            k <= 5,
            word@ == sixel_word(),
            forall|j: int| 0 <= j < k ==> lower_byte(#[trigger] name@[i + j]) == sixel_word()[j],
        decreases 5 - k,
    {
        if lower(name[i + k]) != word[k] {
            return false;
        }
        k = k + 1;
    }
    true
}

fn find_sixel_word(name: &[u8]) -> (r: bool)
    ensures
        r == names_sixel(name@),
{
    if name.len() < 5 {
        return false;
    }
    let mut i: usize = 0;
    while i <= name.len() - 5
        invariant
            5 <= name@.len(),
            forall|j: int| 0 <= j < i ==> !word_at(name@, j),
        decreases name.len() - i,
    {
        if word_at_exec(name, i) {
            return true;
        }
        i = i + 1;
    }
    assert forall|j: int| !word_at(name@, j) by {
        if 0 <= j < i {
        }
    }
    false
}

/// Classifies a complete XTGETTCAP `TN` reply frame.
pub fn parse_sixel(frame: &[u8]) -> (o: ProbeOutcome)
    ensures
        o == spec_parse_sixel(frame@),
{
    let named = sixel_refusal_named_bytes();
    let bare = sixel_refusal_bare_bytes();
    if (frame.len() == named.len() && matches_at(frame, 0, &named))
        || (frame.len() == bare.len() && matches_at(frame, 0, &bare)) {
        proof {
            if frame@.len() == named@.len() && has_at(frame@, 0, named@) {
                assert(frame@ =~= frame@.subrange(0, named@.len() as int));
            } else {
                assert(frame@ =~= frame@.subrange(0, bare@.len() as int));
            }
        }
        return ProbeOutcome::Negative;
    }
    proof {
        if frame@ == sixel_refusal_named() {
            assert(frame@.subrange(0, named@.len() as int) =~= frame@);
        }
        if frame@ == sixel_refusal_bare() {
            assert(frame@.subrange(0, bare@.len() as int) =~= frame@);
        }
    }
    let prefix = sixel_positive_prefix_bytes();
    let st = st_bytes();
    if !matches_at(frame, 0, &prefix) || !ends_with_bytes(frame, &st) {
        return ProbeOutcome::Malformed;
    }
    proof {
        lemma_room_for_terminator(frame@, prefix@);
    }
    let encoded = slice_range(frame, prefix.len(), frame.len() - 2);
    let name = match decode_hex(encoded) {
        Some(name) => name,
        None => return ProbeOutcome::Malformed,
    };
    match utf8_text(name.as_slice()) {
        Err(_) => ProbeOutcome::Malformed,
        Ok(_) => {
            if find_sixel_word(name.as_slice()) {
                ProbeOutcome::Positive
            } else {
                ProbeOutcome::Negative
            }
        },
    }
}

// ---------------------------------------------------------------------------
// iTerm2 replies
// ---------------------------------------------------------------------------

/// A dotted version of ASCII digits, with no empty component.
pub open spec fn version_ok(v: Seq<u8>) -> bool {
    &&& v.len() > 0
    &&& forall|i: int| 0 <= i < v.len() ==> (0x30 <= #[trigger] v[i] <= 0x39 || v[i] == 0x2eu8)
    &&& v[0] != 0x2eu8
    &&& v[v.len() - 1] != 0x2eu8
    &&& forall|i: int| #![trigger v[i]] 1 <= i < v.len() && v[i] == 0x2eu8 ==> v[i - 1] != 0x2eu8
}

/// The outcome a complete iTerm2 device attributes frame gives.
pub open spec fn spec_parse_iterm2(frame: Seq<u8>) -> ProbeOutcome {
    if !starts_with(frame, iterm2_prefix()) || !ends_with(frame, st_seq()) {
        ProbeOutcome::Malformed
    } else if version_ok(frame.subrange(iterm2_prefix().len() as int, frame.len() - 2)) {
        ProbeOutcome::Positive
    } else {
        ProbeOutcome::Malformed
    }
}

fn version_valid(v: &[u8]) -> (r: bool)
    ensures
        r == version_ok(v@),
{
    if v.len() == 0 || v[0] == 0x2e || v[v.len() - 1] == 0x2e {
        return false;
    }
    let mut i: usize = 0;
    while i < v.len()
        invariant
            0 < v@.len(),
            i <= v@.len(),
            forall|j: int| 0 <= j < i ==> (0x30 <= #[trigger] v@[j] <= 0x39 || v@[j] == 0x2eu8),
            forall|j: int| #![trigger v@[j]] 1 <= j < i && v@[j] == 0x2eu8 ==> v@[j - 1] != 0x2eu8,
        decreases v.len() - i,
    {
        let b = v[i];
        if !((0x30 <= b && b <= 0x39) || b == 0x2e) {
            return false;
        }
        if i > 0 && b == 0x2e && v[i - 1] == 0x2e {
            return false;
        }
        i = i + 1;
    }
    true
}

/// Classifies a complete iTerm2 extended device attributes frame.
pub fn parse_iterm2(frame: &[u8]) -> (o: ProbeOutcome)
    ensures
        o == spec_parse_iterm2(frame@),
{
    let prefix = iterm2_prefix_bytes();
    let st = st_bytes();
    if !matches_at(frame, 0, &prefix) || !ends_with_bytes(frame, &st) {
        return ProbeOutcome::Malformed;
    }
    proof {
        lemma_room_for_terminator(frame@, prefix@);
    }
    let version = slice_range(frame, prefix.len(), frame.len() - 2);
    if version_valid(version) {
        ProbeOutcome::Positive
    } else {
        ProbeOutcome::Malformed
    }
}

// ---------------------------------------------------------------------------
// Response stream analysis
// ---------------------------------------------------------------------------

/// The two reply framings: Kitty's APC and the DCS used by XTGETTCAP and iTerm2.
#[derive(Clone, Copy, Debug, PartialEq, Eq, Structural)]
pub enum FrameKind {
    Kitty,
    Dcs,
}

/// A byte range `start..end` of the response stream taken by one reply.
#[derive(Clone, Copy, Debug, PartialEq, Eq, Structural)]
pub struct ResponseRange {
    pub start: usize,
    pub end: usize,
}

/// Ranges as pairs of integers.
pub open spec fn ranges_view(v: Seq<ResponseRange>) -> Seq<(int, int)> {
    v.map_values(|r: ResponseRange| (r.start as int, r.end as int))
}

/// The earliest reply frame that starts at or after `from`, and its kind.
pub open spec fn spec_next_frame(b: Seq<u8>, from: int) -> Option<(int, FrameKind)> {
    match (spec_find(b, from, kitty_start()), spec_find(b, from, dcs_start())) {
        (Some(k), Some(d)) => if k <= d {
            Some((k, FrameKind::Kitty))
        } else {
            Some((d, FrameKind::Dcs))
        },
        (Some(k), None) => Some((k, FrameKind::Kitty)),
        (None, Some(d)) => Some((d, FrameKind::Dcs)),
        (None, None) => None,
    }
}

pub proof fn lemma_next_frame(b: Seq<u8>, from: int)
    ensures
        spec_next_frame(b, from) matches Some((start, kind)) ==> from <= start && start + 2 <= b.len(),
{
    lemma_find_found(b, from, kitty_start());
    lemma_find_found(b, from, dcs_start());
}

/// Sets the outcome of the protocol that a frame of `kind` answers by default.
pub open spec fn apply_outcome(r: ProbeReport, kind: FrameKind, o: ProbeOutcome) -> ProbeReport {
    match kind {
        FrameKind::Kitty => ProbeReport { kitty: o, sixel: r.sixel, iterm2: r.iterm2 },
        FrameKind::Dcs => ProbeReport { kitty: r.kitty, sixel: o, iterm2: r.iterm2 },
    }
}

/// The report after one complete, terminated frame: oversized frames are
/// refused unread, DCS frames with iTerm2's prefix answer the iTerm2 query,
/// and other DCS frames answer the Sixel query.
pub open spec fn record_frame(r: ProbeReport, kind: FrameKind, frame: Seq<u8>, id: u32) -> ProbeReport {
    let iterm2 = kind == FrameKind::Dcs && starts_with(frame, iterm2_prefix());
    let o = if frame.len() > PROBE_FRAME_LIMIT {
        ProbeOutcome::OverLimit
    } else {
        match kind {
            FrameKind::Kitty => spec_parse_kitty(frame, id),
            FrameKind::Dcs => if iterm2 {
                spec_parse_iterm2(frame)
            } else {
                spec_parse_sixel(frame)
            },
        }
    };
    if iterm2 {
        ProbeReport { kitty: r.kitty, sixel: r.sixel, iterm2: o }
    } else {
        apply_outcome(r, kind, o)
    }
}

/// The outcome of an unterminated frame that starts at `start`.
pub open spec fn unterminated(b: Seq<u8>, start: int) -> ProbeOutcome {
    if b.len() - start > PROBE_FRAME_LIMIT {
        ProbeOutcome::OverLimit
    } else {
        ProbeOutcome::Partial
    }
}

/// Scans the stream from `cursor`: each reply frame, found in stream order,
/// updates the report and is recorded as consumed; an unterminated frame
/// ends the scan.
pub open spec fn analyze_from(
    b: Seq<u8>,
    id: u32,
    cursor: int,
    r: ProbeReport,
    consumed: Seq<(int, int)>,
) -> (ProbeReport, Seq<(int, int)>)
    decreases b.len() - cursor,
{
    if cursor < 0 || cursor >= b.len() {
        (r, consumed)
    } else {
        match spec_next_frame(b, cursor) {
            None => (r, consumed),
            Some((start, kind)) => match spec_find(b, start + 2, st_seq()) {
                None => (apply_outcome(r, kind, unterminated(b, start)), consumed.push((start, b.len() as int))),
                Some(t) => {
                    proof {
                        lemma_next_frame(b, cursor);
                        lemma_find_found(b, start + 2, st_seq());
                    }
                    analyze_from(
                        b,
                        id,
                        t + 2,
                        record_frame(r, kind, b.subrange(start, t + 2), id),
                        consumed.push((start, t + 2)),
                    )
                },
            },
        }
    }
}

/// The report and consumed ranges for a whole response stream.
pub open spec fn spec_analyze(b: Seq<u8>, id: u32) -> (ProbeReport, Seq<(int, int)>) {
    analyze_from(b, id, 0, absent_report(), Seq::empty())
}

fn next_frame(b: &[u8], from: usize) -> (r: Option<(usize, FrameKind)>)
    ensures
        match r {
            Some((start, kind)) => spec_next_frame(b@, from as int) == Some((start as int, kind)),
            None => spec_next_frame(b@, from as int) is None,
        },
{
    let kitty = find(b, from, &kitty_start_bytes());
    let dcs = find(b, from, &dcs_start_bytes());
    match (kitty, dcs) {
        (Some(k), Some(d)) => if k <= d {
            Some((k, FrameKind::Kitty))
        } else {
            Some((d, FrameKind::Dcs))
        },
        (Some(k), None) => Some((k, FrameKind::Kitty)),
        (None, Some(d)) => Some((d, FrameKind::Dcs)),
        (None, None) => None,
    }
}

fn classify_frame(frame: &[u8], kind: FrameKind, kitty_id: u32, report: ProbeReport) -> (r: ProbeReport)
    ensures
        r == record_frame(report, kind, frame@, kitty_id),
{
    let is_iterm2 = match kind {
        FrameKind::Dcs => matches_at(frame, 0, &iterm2_prefix_bytes()),
        FrameKind::Kitty => false,
    };
    let outcome = if frame.len() > PROBE_FRAME_LIMIT {
        ProbeOutcome::OverLimit
    } else {
        match kind {
            FrameKind::Kitty => parse_kitty(frame, kitty_id),
            FrameKind::Dcs => if is_iterm2 {
                parse_iterm2(frame)
            } else {
                parse_sixel(frame)
            },
        }
    };
    if is_iterm2 {
        ProbeReport { kitty: report.kitty, sixel: report.sixel, iterm2: outcome }
    } else {
        set_outcome(report, kind, outcome)
    }
}

fn set_outcome(report: ProbeReport, kind: FrameKind, outcome: ProbeOutcome) -> (r: ProbeReport)
    ensures
        r == apply_outcome(report, kind, outcome),
{
    match kind {
        FrameKind::Kitty => ProbeReport { kitty: outcome, sixel: report.sixel, iterm2: report.iterm2 },
        FrameKind::Dcs => ProbeReport { kitty: report.kitty, sixel: outcome, iterm2: report.iterm2 },
    }
}

/// Reads every reply frame out of the collected response bytes: the report
/// of each protocol's outcome, and the byte ranges the replies took.
pub fn analyze(bytes: &[u8], kitty_id: u32) -> (out: (ProbeReport, Vec<ResponseRange>))
    ensures
        out.0 == spec_analyze(bytes@, kitty_id).0,
        ranges_view(out.1@) == spec_analyze(bytes@, kitty_id).1,
{
    let mut report = ProbeReport::default();
    let mut consumed: Vec<ResponseRange> = Vec::new();
    let mut cursor: usize = 0;
    let st = st_bytes();
    assert(ranges_view(consumed@) =~= Seq::<(int, int)>::empty());
    while cursor < bytes.len()
        invariant
            st@ == st_seq(),
            analyze_from(bytes@, kitty_id, cursor as int, report, ranges_view(consumed@))
                == spec_analyze(bytes@, kitty_id),
        decreases bytes.len() - cursor,
    {
        let ghost before = ranges_view(consumed@);
        let (start, kind) = match next_frame(bytes, cursor) {
            Some(found) => found,
            None => return (report, consumed),
        };
        proof {
            lemma_next_frame(bytes@, cursor as int);
        }
        match find(bytes, start + 2, &st) {
            None => {
                let outcome = if bytes.len() - start > PROBE_FRAME_LIMIT {
                    ProbeOutcome::OverLimit
                } else {
                    ProbeOutcome::Partial
                };
                let report = set_outcome(report, kind, outcome);
                consumed.push(ResponseRange { start, end: bytes.len() });
                assert(ranges_view(consumed@) =~= before.push((start as int, bytes@.len() as int)));
                return (report, consumed);
            },
            Some(t) => {
                proof {
                    lemma_find_found(bytes@, start + 2, st_seq());
                }
                let end = t + 2;
                let frame = slice_range(bytes, start, end);
                report = classify_frame(frame, kind, kitty_id, report);
                consumed.push(ResponseRange { start, end });
                assert(ranges_view(consumed@) =~= before.push((start as int, end as int)));
                cursor = end;
            },
        }
    }
    (report, consumed)
}

/// Neither absent nor waiting for the rest of its reply.
pub open spec fn settled(o: ProbeOutcome) -> bool {
    o != ProbeOutcome::Absent && o != ProbeOutcome::Partial
}

/// Every protocol has a final answer in the collected bytes.
pub open spec fn spec_all_complete(b: Seq<u8>, id: u32) -> bool {
    let r = spec_analyze(b, id).0;
    settled(r.kitty) && settled(r.sixel) && settled(r.iterm2)
}

fn is_settled(o: ProbeOutcome) -> (r: bool)
    ensures
        r == settled(o),
{
    !matches!(o, ProbeOutcome::Absent | ProbeOutcome::Partial)
}

/// Whether every protocol already has a final answer, so that probing may stop.
pub fn all_complete(bytes: &[u8], kitty_id: u32) -> (r: bool)
    ensures
        r == spec_all_complete(bytes@, kitty_id),
{
    let (report, _) = analyze(bytes, kitty_id);
    is_settled(report.kitty) && is_settled(report.sixel) && is_settled(report.iterm2)
}

// ---------------------------------------------------------------------------
// Queries
// ---------------------------------------------------------------------------

/// The whole query packet, in protocol order: Kitty (correlated by image id),
/// XTGETTCAP `TN`, then iTerm2's device attributes.
pub open spec fn query_packet(kitty_id: u32) -> Seq<u8> {
    kitty_query_prefix() + decimal_bytes(kitty_id as nat) + kitty_query_suffix() + sixel_query()
        + iterm2_query()
}

/// Appends every protocol query, once and in order, to `output`.
pub fn write_queries(output: &mut Vec<u8>, kitty_id: u32)
    ensures
        final(output)@ == old(output)@ + query_packet(kitty_id),
{
    let prefix = kitty_query_prefix_bytes();
    append_bytes(output, &prefix);
    push_decimal_bytes(output, kitty_id as u64);
    let suffix = vec![
        0x2cu8, 0x73u8, 0x3du8, 0x31u8, 0x2cu8, 0x76u8, 0x3du8, 0x31u8, 0x2cu8, 0x61u8,
        0x3du8, 0x71u8, 0x2cu8, 0x74u8, 0x3du8, 0x64u8, 0x2cu8, 0x66u8, 0x3du8, 0x32u8,
        0x34u8, 0x3bu8, 0x41u8, 0x41u8, 0x41u8, 0x41u8, 0x1bu8, 0x5cu8,
    ];
    assert(suffix@ =~= kitty_query_suffix());
    append_bytes(output, &suffix);
    let sixel = vec![0x1bu8, 0x50u8, 0x2bu8, 0x71u8, 0x35u8, 0x34u8, 0x34u8, 0x65u8, 0x1bu8, 0x5cu8];
    assert(sixel@ =~= sixel_query());
    append_bytes(output, &sixel);
    let iterm2 = vec![0x1bu8, 0x5bu8, 0x3eu8, 0x71u8];
    assert(iterm2@ =~= iterm2_query());
    append_bytes(output, &iterm2);
    assert(output@ =~= old(output)@ + query_packet(kitty_id));
}

// ---------------------------------------------------------------------------
// Key events that carry reply bytes
// ---------------------------------------------------------------------------

/// The key of a terminal key event, as far as reply reconstruction needs it.
#[derive(Clone, Copy, Debug, PartialEq, Eq, Structural)]
pub enum ProbeKey {
    Escape,
    Char(char),
    Other,
}

/// Modifier state of a key event: Shift, Alt, and whether any other
/// modifier (Control, Super, Hyper, Meta) was held.
#[derive(Clone, Copy, Debug, PartialEq, Eq, Structural)]
pub struct ProbeModifiers {
    pub shift: bool,
    pub alt: bool,
    pub other: bool,
}

/// The reply bytes a key event stands for. An unmodified Escape is `ESC`;
/// a character with at most Shift and Alt is its UTF-8 encoding, after an
/// `ESC` when Alt was held. Other events carry no reply bytes.
pub open spec fn spec_key_bytes(key: ProbeKey, modifiers: ProbeModifiers) -> Option<Seq<u8>> {
    match key {
        ProbeKey::Escape => if !modifiers.shift && !modifiers.alt && !modifiers.other {
            Some(seq![0x1bu8])
        } else {
            None
        },
        ProbeKey::Char(c) => if !modifiers.other {
            Some(if modifiers.alt { seq![0x1bu8] } else { Seq::empty() } + encode_utf8(seq![c]))
        } else {
            None
        },
        ProbeKey::Other => None,
    }
}

/// Reconstructs the reply bytes a key event stands for.
pub fn key_bytes(key: ProbeKey, modifiers: ProbeModifiers) -> (r: Option<Vec<u8>>)
    ensures
        match r {
            Some(v) => spec_key_bytes(key, modifiers) == Some(v@),
            None => spec_key_bytes(key, modifiers) is None,
        },
{
    match key {
        ProbeKey::Escape => if !modifiers.shift && !modifiers.alt && !modifiers.other {
            let v = vec![0x1bu8];
            assert(v@ =~= seq![0x1bu8]);
            Some(v)
        } else {
            None
        },
        ProbeKey::Char(c) => if !modifiers.other {
            let mut encoded: Vec<u8> = Vec::new();
            if modifiers.alt {
                encoded.push(0x1b);
            }
            let ghost prefix = encoded@;
            assert(prefix =~= if modifiers.alt { seq![0x1bu8] } else { Seq::<u8>::empty() });
            let mut text = String::new();
            crate::strings::push_char(&mut text, c);
            assert(text@ =~= seq![c]);
            let utf8 = text.as_str().as_bytes();
            append_bytes(&mut encoded, utf8);
            Some(encoded)
        } else {
            None
        },
        ProbeKey::Other => None,
    }
}

// ---------------------------------------------------------------------------
// One probe session
// ---------------------------------------------------------------------------

/// The probe's running state: the reply bytes collected so far (bounded),
/// the byte range each observed event contributed, and whether any bytes
/// had to be dropped at the response limit.
pub struct ProbeSession {
    kitty_id: u32,
    bytes: Vec<u8>,
    observed: Vec<ResponseRange>,
    over_limit: bool,
}

/// Marks every protocol still without a reply as over the limit.
pub open spec fn mark_over_limit(r: ProbeReport) -> ProbeReport {
    ProbeReport {
        kitty: if r.kitty == ProbeOutcome::Absent { ProbeOutcome::OverLimit } else { r.kitty },
        sixel: if r.sixel == ProbeOutcome::Absent { ProbeOutcome::OverLimit } else { r.sixel },
        iterm2: if r.iterm2 == ProbeOutcome::Absent { ProbeOutcome::OverLimit } else { r.iterm2 },
    }
}

/// An event overlaps a consumed reply range.
pub open spec fn overlaps(event: (int, int), consumed: Seq<(int, int)>) -> bool {
    exists|j: int| 0 <= j < consumed.len() && event.0 < (#[trigger] consumed[j]).1 && event.1 > consumed[j].0
}

/// An event goes back to the ordinary event loop when it carried no reply
/// bytes, or none of its bytes belong to a consumed reply.
pub open spec fn keep_event(event: (int, int), consumed: Seq<(int, int)>) -> bool {
    event.0 == event.1 || !overlaps(event, consumed)
}

impl ProbeSession {
    #[verifier::type_invariant]
    spec fn bounded(self) -> bool {
        &&& self.bytes@.len() <= PROBE_RESPONSE_LIMIT
        &&& forall|i: int| 0 <= i < self.observed@.len() ==> (#[trigger] self.observed@[i]).start <= self.observed@[i].end
    }

    pub closed spec fn spec_kitty_id(&self) -> u32 {
        self.kitty_id
    }

    /// The reply bytes collected so far.
    pub closed spec fn spec_bytes(&self) -> Seq<u8> {
        self.bytes@
    }

    /// The byte range each observed event contributed, in arrival order.
    pub closed spec fn spec_observed(&self) -> Seq<(int, int)> {
        ranges_view(self.observed@)
    }

    /// Some event's bytes were dropped at the response limit.
    pub closed spec fn spec_over_limit(&self) -> bool {
        self.over_limit
    }

    /// Starts a probe for the Kitty query with image id `kitty_id`.
    pub fn new(kitty_id: u32) -> (s: Self)
        ensures
            s.spec_kitty_id() == kitty_id,
            s.spec_bytes() == Seq::<u8>::empty(),
            s.spec_observed() == Seq::<(int, int)>::empty(),
            !s.spec_over_limit(),
    {
        let s = ProbeSession { kitty_id, bytes: Vec::new(), observed: Vec::new(), over_limit: false };
        assert(ranges_view(s.observed@) =~= Seq::<(int, int)>::empty());
        s
    }

    pub fn kitty_id(&self) -> (id: u32)
        ensures
            id == self.spec_kitty_id(),
    {
        self.kitty_id
    }

    /// Records one terminal event with the reply bytes it stands for, if
    /// any. Bytes that would take the total over the response limit are
    /// dropped and remembered as such. Returns whether every protocol now
    /// has a final answer, so that probing may stop.
    pub fn record(&mut self, encoded: Option<&[u8]>) -> (complete: bool)
        ensures
            final(self).spec_kitty_id() == old(self).spec_kitty_id(),
            match encoded {
                Some(e) => if old(self).spec_bytes().len() + e@.len() > PROBE_RESPONSE_LIMIT {
                    final(self).spec_bytes() == old(self).spec_bytes() && final(self).spec_over_limit()
                } else {
                    final(self).spec_bytes() == old(self).spec_bytes() + e@
                        && final(self).spec_over_limit() == old(self).spec_over_limit()
                },
                None => final(self).spec_bytes() == old(self).spec_bytes()
                    && final(self).spec_over_limit() == old(self).spec_over_limit(),
            },
            final(self).spec_observed() == old(self).spec_observed().push(
                (old(self).spec_bytes().len() as int, final(self).spec_bytes().len() as int),
            ),
            complete == spec_all_complete(final(self).spec_bytes(), final(self).spec_kitty_id()),
    {
        proof {
            use_type_invariant(&*self);
        }
        let start = self.bytes.len();
        let ghost before = ranges_view(self.observed@);
        if let Some(e) = encoded {
            if e.len() > PROBE_RESPONSE_LIMIT - start {
                self.over_limit = true;
            } else {
                let mut bytes = Vec::new();
                std::mem::swap(&mut bytes, &mut self.bytes);
                append_bytes(&mut bytes, e);
                self.bytes = bytes;
            }
        }
        let end = self.bytes.len();
        let mut observed = Vec::new();
        std::mem::swap(&mut observed, &mut self.observed);
        observed.push(ResponseRange { start, end });
        self.observed = observed;
        assert(ranges_view(self.observed@) =~= before.push((start as int, end as int)));
        all_complete(self.bytes.as_slice(), self.kitty_id)
    }

    /// The final report, with protocols still unanswered marked over the
    /// limit when bytes were dropped, and for each observed event whether it
    /// goes back to the ordinary event loop.
    pub fn finish(&self) -> (out: (ProbeReport, Vec<bool>))
        ensures
            out.0 == (if self.spec_over_limit() {
                mark_over_limit(spec_analyze(self.spec_bytes(), self.spec_kitty_id()).0)
            } else {
                spec_analyze(self.spec_bytes(), self.spec_kitty_id()).0
            }),
            out.1@.len() == self.spec_observed().len(),
            forall|i: int| 0 <= i < out.1@.len() ==> #[trigger] out.1@[i] == keep_event(
                self.spec_observed()[i],
                spec_analyze(self.spec_bytes(), self.spec_kitty_id()).1,
            ),
    {
        let (mut report, consumed) = analyze(self.bytes.as_slice(), self.kitty_id);
        if self.over_limit {
            if report.kitty == ProbeOutcome::Absent {
                report.kitty = ProbeOutcome::OverLimit;
            }
            if report.sixel == ProbeOutcome::Absent {
                report.sixel = ProbeOutcome::OverLimit;
            }
            if report.iterm2 == ProbeOutcome::Absent {
                report.iterm2 = ProbeOutcome::OverLimit;
            }
        }
        let mut keep: Vec<bool> = Vec::new();
        let mut i: usize = 0;
        while i < self.observed.len()
            invariant
                i <= self.observed@.len(),
                keep@.len() == i,
                ranges_view(consumed@) == spec_analyze(self.bytes@, self.kitty_id).1,
                forall|k: int| 0 <= k < i ==> #[trigger] keep@[k] == keep_event(
                    ranges_view(self.observed@)[k],
                    ranges_view(consumed@),
                ),
            decreases self.observed.len() - i,
        {
            let item = self.observed[i];
            let mut hit = false;
            let mut j: usize = 0;
            while j < consumed.len()
                invariant
                    j <= consumed@.len(),
                    hit == (exists|m: int| 0 <= m < j && item.start < (#[trigger] consumed@[m]).end && item.end > consumed@[m].start),
                decreases consumed.len() - j,
            {
                if item.start < consumed[j].end && item.end > consumed[j].start {
                    hit = true;
                }
                j = j + 1;
            }
            proof {
                let ev = ranges_view(self.observed@)[i as int];
                let cv = ranges_view(consumed@);
                if hit {
                    let m = choose|m: int| 0 <= m < consumed@.len() && item.start < (#[trigger] consumed@[m]).end && item.end > consumed@[m].start;
                    assert(ev.0 < cv[m].1 && ev.1 > cv[m].0);
                } else {
                    assert forall|m: int| 0 <= m < cv.len() implies !(ev.0 < (#[trigger] cv[m]).1 && ev.1 > cv[m].0) by {
                        assert(!(item.start < consumed@[m].end && item.end > consumed@[m].start));
                    }
                }
            }
            keep.push(item.start == item.end || !hit);
            i = i + 1;
        }
        (report, keep)
    }
}

} // verus!
