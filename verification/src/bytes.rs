//! Byte-sequence search primitives shared by the bounded scanners.
use vstd::prelude::*;

verus! {

/// `pat` occurs in `b` starting at index `i`.
pub open spec fn has_at(b: Seq<u8>, i: int, pat: Seq<u8>) -> bool {
    &&& 0 <= i
    &&& i + pat.len() <= b.len()
    &&& b.subrange(i, i + pat.len()) == pat
}

/// `b` begins with `pat`.
pub open spec fn starts_with(b: Seq<u8>, pat: Seq<u8>) -> bool {
    has_at(b, 0, pat)
}

/// `b` ends with `pat`.
pub open spec fn ends_with(b: Seq<u8>, pat: Seq<u8>) -> bool {
    pat.len() <= b.len() && has_at(b, b.len() - pat.len(), pat)
}

/// The first index at or after `from` where `pat` occurs, if any.
pub open spec fn spec_find(b: Seq<u8>, from: int, pat: Seq<u8>) -> Option<int>
    decreases b.len() - from,
{
    if from < 0 || from >= b.len() || from + pat.len() > b.len() {
        None
    } else if has_at(b, from, pat) {
        Some(from)
    } else {
        spec_find(b, from + 1, pat)
    }
}

/// A found occurrence lies at or after the starting point and really is one.
pub proof fn lemma_find_found(b: Seq<u8>, from: int, pat: Seq<u8>)
    ensures
        spec_find(b, from, pat) matches Some(i) ==> from <= i && has_at(b, i, pat),
    decreases b.len() - from,
{
    if !(from < 0 || from >= b.len() || from + pat.len() > b.len()) && !has_at(b, from, pat) {
        lemma_find_found(b, from + 1, pat);
    }
}

pub fn matches_at(b: &[u8], i: usize, pat: &[u8]) -> (r: bool)
    ensures
        r == has_at(b@, i as int, pat@),
{
    if i > b.len() || pat.len() > b.len() - i {
        return false;
    }
    let mut k: usize = 0;
    while k < pat.len()
        invariant
            i + pat@.len() <= b@.len(),
            b@.len() == b.len(),
            k <= pat@.len(),
            forall|j: int| 0 <= j < k ==> b@[i + j] == pat@[j],
        decreases pat.len() - k,
    {
        if b[i + k] != pat[k] {
            assert(b@.subrange(i as int, i + pat@.len())[k as int] != pat@[k as int]);
            return false;
        }
        k = k + 1;
    }
    assert(b@.subrange(i as int, i + pat@.len()) =~= pat@);
    true
}

pub fn ends_with_bytes(b: &[u8], pat: &[u8]) -> (r: bool)
    ensures
        r == ends_with(b@, pat@),
{
    if pat.len() > b.len() {
        false
    } else {
        matches_at(b, b.len() - pat.len(), pat)
    }
}

pub fn find(b: &[u8], from: usize, pat: &[u8]) -> (r: Option<usize>)
    ensures
        match r {
            Some(i) => spec_find(b@, from as int, pat@) == Some(i as int),
            None => spec_find(b@, from as int, pat@) is None,
        },
{
    let mut i = from;
    while i < b.len()
        invariant
            from <= i,
            spec_find(b@, from as int, pat@) == spec_find(b@, i as int, pat@),
        decreases b.len() - i,
    {
        if pat.len() > b.len() - i {
            return None;
        }
        if matches_at(b, i, pat) {
            return Some(i);
        }
        i = i + 1;
    }
    None
}

pub fn slice_range(b: &[u8], start: usize, end: usize) -> (s: &[u8])
    requires
        start <= end <= b@.len(),
    ensures
        s@ == b@.subrange(start as int, end as int),
{
    let (head, _) = b.split_at(end);
    let (_, s) = head.split_at(start);
    s
}

/// The ASCII decimal spelling of `n`.
pub open spec fn decimal_bytes(n: nat) -> Seq<u8>
    decreases n,
{
    if n < 10 {
        seq![(0x30 + n) as u8]
    } else {
        decimal_bytes(n / 10).push((0x30 + n % 10) as u8)
    }
}

pub fn push_decimal_bytes(out: &mut Vec<u8>, n: u64)
    ensures
        final(out)@ == old(out)@ + decimal_bytes(n as nat),
    decreases n,
{
    if n >= 10 {
        push_decimal_bytes(out, n / 10);
    }
    let d = (n % 10) as u8;
    out.push(0x30 + d);
    assert(decimal_bytes(n as nat) =~= if n < 10 {
        seq![(0x30 + n) as u8]
    } else {
        decimal_bytes((n / 10) as nat).push((0x30 + n % 10) as u8)
    });
}

/// Appends every byte of `tail` to `out`.
pub fn extend_bytes(out: &mut Vec<u8>, tail: &[u8])
    ensures
        final(out)@ == old(out)@ + tail@,
{
    let mut i: usize = 0;
    while i < tail.len()
        invariant
            i <= tail@.len(),
            out@ == old(out)@ + tail@.subrange(0, i as int),
        decreases tail.len() - i,
    {
        out.push(tail[i]);
        i = i + 1;
        assert(out@ =~= old(out)@ + tail@.subrange(0, i as int));
    }
    assert(tail@.subrange(0, tail@.len() as int) =~= tail@);
}

/// Ten to the power `k`.
pub open spec fn pow10(k: nat) -> nat
    decreases k,
{
    if k == 0 {
        1
    } else {
        10 * pow10((k - 1) as nat)
    }
}

/// A number below ten to the `k` has at most `k` decimal digits.
pub proof fn lemma_decimal_len(n: nat, k: nat)
    requires
        k >= 1,
        n < pow10(k),
    ensures
        decimal_bytes(n).len() <= k,
    decreases n,
{
    if n >= 10 {
        assert(k >= 2) by {
            if k == 1 {
                assert(pow10(1) == 10 * pow10(0));
            }
        }
        assert(pow10(k) == 10 * pow10((k - 1) as nat));
        assert(n / 10 < pow10((k - 1) as nat));
        lemma_decimal_len(n / 10, (k - 1) as nat);
    }
}

/// Every `u64` has at most twenty decimal digits.
pub proof fn lemma_decimal_len_u64(n: u64)
    ensures
        decimal_bytes(n as nat).len() <= 20,
{
    assert(pow10(20) == 100000000000000000000nat) by {
        reveal_with_fuel(pow10, 21);
    }
    lemma_decimal_len(n as nat, 20);
}

} // verus!
