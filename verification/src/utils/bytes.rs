//! Spec vocabulary for byte-buffer scanning: whitespace classes,
//! prefix and occurrence predicates.

use vstd::prelude::*;

verus! {

/// Whitespace as the cursor skips it: space, tab, carriage return, line feed.
pub open spec fn is_skip_ws(b: u8) -> bool {
    b == 32u8 || b == 9u8 || b == 13u8 || b == 10u8
}

/// Whitespace as the parser's lookahead scans recognize it
/// (the class of `u8::is_ascii_whitespace`): space, tab, line feed,
/// form feed, carriage return.
pub open spec fn is_ascii_ws(b: u8) -> bool {
    b == 32u8 || b == 9u8 || b == 10u8 || b == 12u8 || b == 13u8
}

/// `p` stands at the start of `s`.
pub open spec fn starts_with(s: Seq<u8>, p: Seq<u8>) -> bool {
    p.len() <= s.len() && s.subrange(0, p.len() as int) == p
}

/// `p` stands in `s` at position `i`.
pub open spec fn matches_at(s: Seq<u8>, p: Seq<u8>, i: int) -> bool {
    0 <= i && i + p.len() <= s.len() && s.subrange(i, i + p.len()) == p
}

/// `p` stands somewhere in `s`.
pub open spec fn occurs_in(s: Seq<u8>, p: Seq<u8>) -> bool {
    exists|i: int| matches_at(s, p, i)
}

/// First position at or after `i` whose byte is outside the cursor's
/// whitespace class (or the end of `s`).
pub open spec fn skip_ws_end(s: Seq<u8>, i: int) -> int
    decreases s.len() - i,
{
    if 0 <= i && i < s.len() && is_skip_ws(s[i]) {
        skip_ws_end(s, i + 1)
    } else {
        i
    }
}

/// First position at or after `i` whose byte is outside `is_ascii_ws`
/// (or the end of `s`).
pub open spec fn ascii_ws_end(s: Seq<u8>, i: int) -> int
    decreases s.len() - i,
{
    if 0 <= i && i < s.len() && is_ascii_ws(s[i]) {
        ascii_ws_end(s, i + 1)
    } else {
        i
    }
}

/// `skip_ws_end` stays between `i` and the end of `s`, skips only
/// whitespace, and stops at the first byte that is none.
pub proof fn lemma_skip_ws_end(s: Seq<u8>, i: int)
    requires
        0 <= i <= s.len(),
    ensures
        i <= skip_ws_end(s, i) <= s.len(),
        forall|j: int| i <= j < skip_ws_end(s, i) ==> is_skip_ws(#[trigger] s[j]),
        skip_ws_end(s, i) == s.len() || !is_skip_ws(s[skip_ws_end(s, i)]),
    decreases s.len() - i,
{
    if i < s.len() && is_skip_ws(s[i]) {
        lemma_skip_ws_end(s, i + 1);
    }
}

/// `ascii_ws_end` stays between `i` and the end of `s`, skips only
/// whitespace, and stops at the first byte that is none.
pub proof fn lemma_ascii_ws_end(s: Seq<u8>, i: int)
    requires
        0 <= i <= s.len(),
    ensures
        i <= ascii_ws_end(s, i) <= s.len(),
        forall|j: int| i <= j < ascii_ws_end(s, i) ==> is_ascii_ws(#[trigger] s[j]),
        ascii_ws_end(s, i) == s.len() || !is_ascii_ws(s[ascii_ws_end(s, i)]),
    decreases s.len() - i,
{
    if i < s.len() && is_ascii_ws(s[i]) {
        lemma_ascii_ws_end(s, i + 1);
    }
}

/// Byte-for-byte test that `p` stands in `s` at offset `i`.
pub fn prefix_at(s: &[u8], p: &[u8], i: usize) -> (r: bool)
    requires
        i <= s@.len(),
    ensures
        r == matches_at(s@, p@, i as int),
{
    let slen = s.len();
    if p.len() > slen - i {
        return false;
    }
    let mut j: usize = 0;
    while j < p.len()
        invariant
            j <= p.len(),
            i + p@.len() <= slen,
            slen == s@.len(),
            forall|k: int| 0 <= k < j ==> s@[i + k] == p@[k],
        decreases p.len() - j,
    {
        if s[i + j] != p[j] {
            return false;
        }
        j = j + 1;
    }
    proof {
        assert(s@.subrange(i as int, i + p@.len()) =~= p@);
    }
    true
}

/// What occurs in a suffix of `buf` occurs in any longer suffix.
pub proof fn lemma_occurs_shift(buf: Seq<u8>, p1: int, p2: int, pat: Seq<u8>)
    requires
        0 <= p1 <= p2 <= buf.len(),
        occurs_in(buf.subrange(p2, buf.len() as int), pat),
    ensures
        occurs_in(buf.subrange(p1, buf.len() as int), pat),
{
    let s2 = buf.subrange(p2, buf.len() as int);
    let s1 = buf.subrange(p1, buf.len() as int);
    let i = choose|i: int| matches_at(s2, pat, i);
    assert(s1.subrange(p2 - p1 + i, p2 - p1 + i + pat.len()) =~= s2.subrange(i, i + pat.len()));
    assert(matches_at(s1, pat, p2 - p1 + i));
}

/// Byte-for-byte equality of two buffers.
pub fn bytes_eq(a: &[u8], b: &[u8]) -> (r: bool)
    ensures
        r == (a@ == b@),
{
    if a.len() != b.len() {
        proof {
            assert(a@.len() != b@.len());
        }
        return false;
    }
    let mut j: usize = 0;
    while j < a.len()
        invariant
            j <= a@.len(),
            a@.len() == b@.len(),
            forall|k: int| 0 <= k < j ==> a@[k] == b@[k],
        decreases a@.len() - j,
    {
        if a[j] != b[j] {
            return false;
        }
        j = j + 1;
    }
    proof {
        assert(a@ =~= b@);
    }
    true
}

} // verus!
