//! Small verified string helpers shared by the text, layout, and path code.
use vstd::prelude::*;
use vstd::utf8::*;
use vstd::string::*;

verus! {

/// Appends one character: `String::push` from std.
#[verifier::external_body]
pub fn push_char(s: &mut String, c: char)
    ensures
        final(s)@ == old(s)@.push(c),
{
    s.push(c);
}

/// Appends a string slice: `String::push_str` from std.
#[verifier::external_body]
pub fn push_str(s: &mut String, tail: &str)
    ensures
        final(s)@ == old(s)@ + tail@,
{
    s.push_str(tail);
}

/// A fresh empty string: `String::new` from std.
pub fn empty_string() -> (s: String)
    ensures
        s@ == Seq::<char>::empty(),
{
    String::new()
}

/// An owned copy of a string slice: `str::to_owned` from std.
pub fn owned(s: &str) -> (o: String)
    ensures
        o@ == s@,
{
    s.to_owned()
}

/// The UTF-8 bytes of a character sequence.
pub open spec fn utf8(s: Seq<char>) -> Seq<u8> {
    encode_utf8(s)
}

/// Whether byte `index` splits no character of the UTF-8 text `bytes`
/// (the end counts as a boundary). Kept opaque so that proofs over many
/// boundaries do not unfold the UTF-8 decoder; `reveal` it where needed.
#[verifier::opaque]
pub open spec fn char_boundary(bytes: Seq<u8>, index: int) -> bool {
    is_char_boundary(bytes, index)
}

/// Boundaries of a prefix are the boundaries of the whole text below its end.
pub proof fn lemma_boundary_in_prefix(bytes: Seq<u8>, i: int, j: int)
    requires
        valid_utf8(bytes),
        0 <= i <= j <= bytes.len(),
        is_char_boundary(bytes, i),
        is_char_boundary(bytes, j),
    ensures
        valid_utf8(bytes.subrange(0, j)),
        is_char_boundary(bytes.subrange(0, j), i),
{
    broadcast use group_utf8_lib;
    let pre = bytes.subrange(0, j);
    assert(valid_utf8(pre));
    if i == j {
        is_char_boundary_start_end_of_seq(pre);
    } else if i > 0 {
        assert(pre[i] == bytes[i]);
        is_char_boundary_iff_not_is_continuation_byte(bytes, i);
        is_char_boundary_iff_not_is_continuation_byte(pre, i);
    }
}

/// A boundary of the window `a..b` of a valid text is a boundary of the
/// whole text.
pub proof fn lemma_boundary_from_window(bytes: Seq<u8>, a: int, b: int, i: int)
    requires
        valid_utf8(bytes),
        0 <= a <= b <= bytes.len(),
        is_char_boundary(bytes, a),
        is_char_boundary(bytes, b),
        0 <= i <= b - a,
        is_char_boundary(bytes.subrange(a, b), i),
    ensures
        is_char_boundary(bytes, a + i),
{
    broadcast use group_utf8_lib;
    if 0 < i < b - a {
        let tail = bytes.subrange(a, bytes.len() as int);
        assert(valid_utf8(tail));
        if b < bytes.len() {
            is_char_boundary_iff_not_is_continuation_byte(bytes, b);
            assert(tail[b - a] == bytes[b]);
            is_char_boundary_iff_not_is_continuation_byte(tail, b - a);
        } else {
            assert(is_char_boundary(tail, tail.len() as int));
        }
        assert(is_char_boundary(tail, b - a));
        let w = bytes.subrange(a, b);
        assert(tail.subrange(0, b - a) =~= w);
        assert(valid_utf8(tail.subrange(0, b - a)));
        is_char_boundary_iff_not_is_continuation_byte(w, i);
        assert(w[i] == bytes[a + i]);
        is_char_boundary_iff_not_is_continuation_byte(bytes, a + i);
    }
}

/// The text up to `e` decodes as the text up to `s` followed by `s..e`.
pub proof fn lemma_decode_join(bytes: Seq<u8>, s: int, e: int)
    requires
        valid_utf8(bytes),
        0 <= s <= e <= bytes.len(),
        is_char_boundary(bytes, s),
        is_char_boundary(bytes, e),
    ensures
        decode_utf8(bytes.subrange(0, e)) == decode_utf8(bytes.subrange(0, s)) + decode_utf8(bytes.subrange(s, e)),
{
    broadcast use group_utf8_lib;
    lemma_boundary_in_prefix(bytes, s, e);
    let pre = bytes.subrange(0, e);
    decode_utf8_split(pre, s);
    assert(pre.subrange(0, s) =~= bytes.subrange(0, s));
    assert(pre.subrange(s, pre.len() as int) =~= bytes.subrange(s, e));
}

/// In valid UTF-8, an ASCII byte starts a character and so does whatever
/// follows it.
pub proof fn lemma_boundary_after_ascii(bytes: Seq<u8>, i: int)
    requires
        valid_utf8(bytes),
        0 <= i < bytes.len(),
        bytes[i] < 0x80,
    ensures
        is_char_boundary(bytes, i),
        is_char_boundary(bytes, i + 1),
    decreases bytes.len(),
{
    broadcast use group_utf8_lib;
    is_char_boundary_iff_is_leading_byte(bytes, i);
    if i < length_of_first_scalar(bytes) {
        if i > 0 {
            assert(is_continuation_byte(bytes[i]));
        }
        assert(length_of_first_scalar(bytes) == 1);
        reveal_with_fuel(is_char_boundary, 2);
        if bytes.len() > 1 {
            is_char_boundary_start_end_of_seq(pop_first_scalar(bytes));
        }
    } else {
        let rest = pop_first_scalar(bytes);
        let k = length_of_first_scalar(bytes);
        assert(rest[i - k] == bytes[i]);
        lemma_boundary_after_ascii(rest, i - k);
        reveal_with_fuel(is_char_boundary, 2);
    }
}

/// The byte sub-slice `start..end` of `s`, when both ends are in bounds and
/// on character boundaries (`str::get` with a byte range, from std).
pub fn str_range(s: &str, start: usize, end: usize) -> (r: Option<&str>)
    ensures
        match r {
            Some(t) => start <= end <= s.spec_bytes().len()
                && is_char_boundary(s.spec_bytes(), start as int)
                && is_char_boundary(s.spec_bytes(), end as int)
                && t.spec_bytes() == s.spec_bytes().subrange(start as int, end as int)
                && t@ == decode_utf8(s.spec_bytes().subrange(start as int, end as int)),
            None => !(start <= end <= s.spec_bytes().len()
                && is_char_boundary(s.spec_bytes(), start as int)
                && is_char_boundary(s.spec_bytes(), end as int)),
        },
{
    broadcast use group_utf8_lib;
    let len = s.as_bytes().len();
    if !(start <= end && end <= len) {
        return None;
    }
    if !s.is_char_boundary(start) || !s.is_char_boundary(end) {
        return None;
    }
    proof {
        lemma_boundary_in_prefix(s.spec_bytes(), start as int, end as int);
    }
    let (head, _) = s.split_at(end);
    let (_, mid) = head.split_at(start);
    proof {
        let b = s.spec_bytes();
        assert(head.spec_bytes().subrange(start as int, head.spec_bytes().len() as int)
            =~= b.subrange(start as int, end as int));
        assert(mid@ == decode_utf8(encode_utf8(mid@)));
    }
    Some(mid)
}

/// The decimal digit character for `d < 10`.
pub open spec fn digit_char(d: int) -> char {
    ((0x30 + d) as u8) as char
}

/// The decimal spelling of `n`, without sign or leading zeros.
pub open spec fn spec_decimal(n: nat) -> Seq<char>
    decreases n,
{
    if n < 10 {
        seq![digit_char(n as int)]
    } else {
        spec_decimal(n / 10).push(digit_char((n % 10) as int))
    }
}

/// Appends the decimal spelling of `n` to `out`.
pub fn push_decimal(out: &mut String, n: u64)
    ensures
        final(out)@ == old(out)@ + spec_decimal(n as nat),
    decreases n,
{
    if n >= 10 {
        push_decimal(out, n / 10);
    }
    let d = (n % 10) as u8;
    push_char(out, (0x30 + d) as char);
    assert(spec_decimal(n as nat) =~= if n < 10 { seq![digit_char(n as int)] } else {
        spec_decimal((n / 10) as nat).push(digit_char((n % 10) as int)) });
}

/// Formats `n` in decimal, as `{n}` formatting does.
pub fn decimal(n: u64) -> (s: String)
    ensures
        s@ == spec_decimal(n as nat),
{
    let mut out = String::new();
    push_decimal(&mut out, n);
    assert(Seq::<char>::empty() + spec_decimal(n as nat) =~= spec_decimal(n as nat));
    out
}

} // verus!
