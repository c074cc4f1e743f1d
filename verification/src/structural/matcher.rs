//! Multi-pattern key matcher: built once per object schema from all
//! declared field names, two quote-style variants per name, and searched
//! leftmost-first over a byte buffer.

use vstd::prelude::*;
use crate::utils::bytes::{matches_at, prefix_at};

verus! {

/// `name` enclosed in the quote byte `q`.
pub open spec fn quoted(name: Seq<u8>, q: u8) -> Seq<u8> {
    seq![q] + name + seq![q]
}

/// Some pattern of `pats` stands in `hay` at position `i`.
pub open spec fn any_match_at(pats: Seq<Vec<u8>>, hay: Seq<u8>, i: int) -> bool {
    exists|k: int| 0 <= k < pats.len() && matches_at(hay, #[trigger] pats[k]@, i)
}

/// What a leftmost-first search over `pats` in `hay`, starting at `from`,
/// returns: the nearest position where any pattern stands, and there the
/// first such pattern in declaration order; `None` when no pattern stands
/// anywhere at or after `from`.
pub open spec fn find_post(
    pats: Seq<Vec<u8>>,
    hay: Seq<u8>,
    from: int,
    r: Option<(usize, usize)>,
) -> bool {
    match r {
        Option::Some((k, s)) => {
            &&& from <= s < hay.len()
            &&& 0 <= k < pats.len()
            &&& matches_at(hay, pats[k as int]@, s as int)
            &&& forall|i: int| from <= i < s ==> !any_match_at(pats, hay, i)
            &&& forall|k2: int| 0 <= k2 < k ==> !matches_at(hay, #[trigger] pats[k2]@, s as int)
        },
        Option::None => forall|i: int| from <= i < hay.len() ==> !any_match_at(pats, hay, i),
    }
}

/// The per-object multi-pattern search structure. For every declared
/// field name it holds the name enclosed in ASCII double quotes and the
/// name enclosed in ASCII single quotes, in declaration order.
pub struct KeyMatcher {
    patterns: Vec<Vec<u8>>,
}

impl KeyMatcher {
    /// The patterns, in order: both quote variants of the first name,
    /// then both variants of the second, and so on.
    pub closed spec fn pats(&self) -> Seq<Vec<u8>> {
        self.patterns@
    }

    /// The pattern list a matcher over `names` holds.
    pub open spec fn pats_of(&self, names: Seq<Vec<u8>>) -> bool {
        &&& self.pats().len() == 2 * names.len()
        &&& forall|k: int|
            0 <= k < names.len() ==> (#[trigger] self.pats()[2 * k]@) == quoted(names[k]@, 34u8)
        &&& forall|k: int|
            0 <= k < names.len() ==> (#[trigger] self.pats()[2 * k + 1]@) == quoted(names[k]@, 39u8)
    }

    /// Builds the matcher from the declared field names.
    pub fn from_names(names: &Vec<Vec<u8>>) -> (r: Self)
        ensures
            r.pats_of(names@),
    {
        let mut patterns: Vec<Vec<u8>> = Vec::new();
        let mut n: usize = 0;
        while n < names.len()
            invariant
                n <= names@.len(),
                patterns@.len() == 2 * n,
                forall|k: int|
                    0 <= k < n ==> (#[trigger] patterns@[2 * k]@) == quoted(names@[k]@, 34u8),
                forall|k: int|
                    0 <= k < n ==> (#[trigger] patterns@[2 * k + 1]@) == quoted(names@[k]@, 39u8),
            decreases names@.len() - n,
        {
            let name = &names[n];
            let mut dq: Vec<u8> = Vec::new();
            dq.push(34u8);
            let mut j: usize = 0;
            while j < name.len()
                invariant
                    j <= name@.len(),
                    dq@ == seq![34u8] + name@.subrange(0, j as int),
                decreases name@.len() - j,
            {
                dq.push(name[j]);
                proof {
                    assert(seq![34u8] + name@.subrange(0, j as int) + seq![name@[j as int]]
                        =~= seq![34u8] + name@.subrange(0, j + 1));
                }
                j = j + 1;
            }
            dq.push(34u8);
            let mut sq: Vec<u8> = Vec::new();
            sq.push(39u8);
            let mut j2: usize = 0;
            while j2 < name.len()
                invariant
                    j2 <= name@.len(),
                    sq@ == seq![39u8] + name@.subrange(0, j2 as int),
                decreases name@.len() - j2,
            {
                sq.push(name[j2]);
                proof {
                    assert(seq![39u8] + name@.subrange(0, j2 as int) + seq![name@[j2 as int]]
                        =~= seq![39u8] + name@.subrange(0, j2 + 1));
                }
                j2 = j2 + 1;
            }
            sq.push(39u8);
            proof {
                assert(name@.subrange(0, name@.len() as int) =~= name@);
                assert(dq@ =~= quoted(name@, 34u8));
                assert(sq@ =~= quoted(name@, 39u8));
            }
            patterns.push(dq);
            patterns.push(sq);
            n = n + 1;
        }
        KeyMatcher { patterns }
    }

    /// How many patterns the matcher holds.
    pub fn pattern_count(&self) -> (r: usize)
        ensures
            r == self.pats().len(),
    {
        self.patterns.len()
    }

    /// The length of one pattern.
    pub fn pattern_len(&self, k: usize) -> (r: usize)
        requires
            k < self.pats().len(),
        ensures
            r == self.pats()[k as int]@.len(),
    {
        self.patterns[k].len()
    }

    /// Leftmost-first search for any pattern in `hay`, starting at `from`.
    /// Returns the pattern's index and the position where it stands.
    pub fn find_from(&self, hay: &[u8], from: usize) -> (r: Option<(usize, usize)>)
        ensures
            find_post(self.pats(), hay@, from as int, r),
    {
        let mut i: usize = from;
        while i < hay.len()
            invariant
                from <= i,
                forall|i2: int| from <= i2 < i ==> !any_match_at(self.pats(), hay@, i2),
            decreases hay@.len() - i,
        {
            let mut k: usize = 0;
            while k < self.patterns.len()
                invariant
                    from <= i < hay@.len(),
                    forall|i2: int| from <= i2 < i ==> !any_match_at(self.pats(), hay@, i2),
                    forall|k2: int|
                        0 <= k2 < k ==> !matches_at(hay@, #[trigger] self.pats()[k2]@, i as int),
                decreases self.pats().len() - k,
            {
                if prefix_at(hay, self.patterns[k].as_slice(), i) {
                    return Some((k, i));
                }
                k = k + 1;
            }
            proof {
                assert(!any_match_at(self.pats(), hay@, i as int));
            }
            i = i + 1;
        }
        None
    }
}

/// The first pattern index at or after `k0` whose pattern stands in
/// `hay` at position `i`.
pub open spec fn first_pat_at(pats: Seq<Vec<u8>>, hay: Seq<u8>, i: int, k0: int) -> Option<int>
    decreases pats.len() - k0,
{
    if k0 < 0 || k0 >= pats.len() {
        Option::None
    } else if matches_at(hay, pats[k0]@, i) {
        Option::Some(k0)
    } else {
        first_pat_at(pats, hay, i, k0 + 1)
    }
}

/// The result a leftmost-first search returns, as a function of the
/// patterns, the haystack and the start offset: the nearest position
/// with a match and the first pattern matching there.
pub open spec fn find_fn(pats: Seq<Vec<u8>>, hay: Seq<u8>, from: int) -> Option<(int, int)>
    decreases hay.len() - from,
{
    if from < 0 || from >= hay.len() {
        Option::None
    } else {
        match first_pat_at(pats, hay, from, 0) {
            Option::Some(k) => Option::Some((k, from)),
            Option::None => find_fn(pats, hay, from + 1),
        }
    }
}

/// What `first_pat_at` returns, characterized.
pub proof fn lemma_first_pat_from(pats: Seq<Vec<u8>>, hay: Seq<u8>, i: int, k0: int)
    requires
        0 <= k0 <= pats.len(),
    ensures
        match first_pat_at(pats, hay, i, k0) {
            Option::Some(k) => k0 <= k < pats.len() && matches_at(hay, pats[k]@, i) && forall|
                k2: int,
            | k0 <= k2 < k ==> !matches_at(hay, #[trigger] pats[k2]@, i),
            Option::None => forall|k2: int|
                k0 <= k2 < pats.len() ==> !matches_at(hay, #[trigger] pats[k2]@, i),
        },
    decreases pats.len() - k0,
{
    if k0 < pats.len() && !matches_at(hay, pats[k0]@, i) {
        lemma_first_pat_from(pats, hay, i, k0 + 1);
    }
}

/// A result satisfying `find_post` is exactly `find_fn`'s result.
pub proof fn lemma_find_post_fn(
    pats: Seq<Vec<u8>>,
    hay: Seq<u8>,
    from: int,
    r: Option<(usize, usize)>,
)
    requires
        0 <= from,
        find_post(pats, hay, from, r),
    ensures
        match r {
            Option::Some((k, s)) => find_fn(pats, hay, from) == Option::Some((k as int, s as int)),
            Option::None => find_fn(pats, hay, from) is None,
        },
    decreases hay.len() - from,
{
    lemma_first_pat_from(pats, hay, from, 0);
    match r {
        Option::Some((k, s)) => {
            if from < s {
                assert(!any_match_at(pats, hay, from));
                assert(first_pat_at(pats, hay, from, 0) is None) by {
                    if first_pat_at(pats, hay, from, 0) matches Option::Some(k1) {
                        assert(any_match_at(pats, hay, from));
                    }
                }
                assert(find_post(pats, hay, from + 1, r));
                lemma_find_post_fn(pats, hay, from + 1, r);
            } else {
                assert(from == s);
                assert(matches_at(hay, pats[k as int]@, s as int));
                match first_pat_at(pats, hay, from, 0) {
                    Option::Some(k1) => {
                        if k1 < k {
                            assert(!matches_at(hay, pats[k1]@, s as int));
                        }
                        if k < k1 {
                            assert(!matches_at(hay, pats[k as int]@, s as int));
                        }
                        assert(k1 == k);
                    },
                    Option::None => {
                        assert(!matches_at(hay, pats[k as int]@, from));
                    },
                }
            }
        },
        Option::None => {
            if from < hay.len() {
                assert(!any_match_at(pats, hay, from));
                assert(first_pat_at(pats, hay, from, 0) is None) by {
                    if first_pat_at(pats, hay, from, 0) matches Option::Some(k1) {
                        assert(any_match_at(pats, hay, from));
                    }
                }
                assert(find_post(pats, hay, from + 1, r));
                lemma_find_post_fn(pats, hay, from + 1, r);
            }
        },
    }
}

/// Each pattern of a matcher over `names` is one of the names enclosed
/// in quotes: the even patterns in double quotes, the odd in single.
pub proof fn lemma_pat_of_name(m: &KeyMatcher, names: Seq<Vec<u8>>, k: int)
    requires
        m.pats_of(names),
        0 <= k < m.pats().len(),
    ensures
        0 <= k / 2 < names.len(),
        m.pats()[k]@ == quoted(names[k / 2]@, if k % 2 == 0 { 34u8 } else { 39u8 }),
        m.pats()[k]@.len() == names[k / 2]@.len() + 2,
{
    let mm = k / 2;
    assert(k % 2 == 0 || k % 2 == 1);
    assert(k == 2 * mm + k % 2);
    if k % 2 == 0 {
        assert(m.pats()[2 * mm]@ == quoted(names[mm]@, 34u8));
    } else {
        assert(m.pats()[2 * mm + 1]@ == quoted(names[mm]@, 39u8));
    }
}

/// Stripping the enclosing quotes from a quoted pattern gives the name.
pub proof fn lemma_quoted_content(name: Seq<u8>, q: u8)
    ensures
        quoted(name, q).subrange(1, 1 + name.len() as int) == name,
{
    assert(quoted(name, q).subrange(1, 1 + name.len() as int) =~= name);
}

/// Two matchers whose patterns hold the same bytes return the same
/// result for every haystack and start position: the search outcome is a
/// function of the pattern contents alone.
pub proof fn lemma_find_unique(
    p1: Seq<Vec<u8>>,
    p2: Seq<Vec<u8>>,
    hay: Seq<u8>,
    from: int,
    r1: Option<(usize, usize)>,
    r2: Option<(usize, usize)>,
)
    requires
        p1.len() == p2.len(),
        forall|k: int| 0 <= k < p1.len() ==> (#[trigger] p1[k]@) == p2[k]@,
        find_post(p1, hay, from, r1),
        find_post(p2, hay, from, r2),
    ensures
        r1 == r2,
{
    assert forall|i: int| any_match_at(p1, hay, i) implies any_match_at(p2, hay, i) by {
        let k = choose|k: int| 0 <= k < p1.len() && matches_at(hay, #[trigger] p1[k]@, i);
        assert(matches_at(hay, p2[k]@, i));
    }
    assert forall|i: int| any_match_at(p2, hay, i) implies any_match_at(p1, hay, i) by {
        let k = choose|k: int| 0 <= k < p2.len() && matches_at(hay, #[trigger] p2[k]@, i);
        assert(matches_at(hay, p1[k]@, i));
    }
    match (r1, r2) {
        (Option::Some((k1, s1)), Option::Some((k2, s2))) => {
            assert(matches_at(hay, p1[k1 as int]@, s1 as int));
            assert(any_match_at(p1, hay, s1 as int));
            assert(matches_at(hay, p2[k2 as int]@, s2 as int));
            assert(any_match_at(p2, hay, s2 as int));
            assert(s1 == s2);
            assert(matches_at(hay, p2[k1 as int]@, s1 as int));
            assert(matches_at(hay, p1[k2 as int]@, s2 as int));
            assert(!(k1 < k2));
            assert(!(k2 < k1));
        },
        (Option::Some((k1, s1)), Option::None) => {
            assert(any_match_at(p1, hay, s1 as int));
        },
        (Option::None, Option::Some((k2, s2))) => {
            assert(any_match_at(p2, hay, s2 as int));
        },
        (Option::None, Option::None) => {},
    }
}

} // verus!

verus! {

/// `first_pat_at` depends only on the patterns' bytes.
pub proof fn lemma_first_pat_congr(
    p1: Seq<Vec<u8>>,
    p2: Seq<Vec<u8>>,
    hay: Seq<u8>,
    i: int,
    k0: int,
)
    requires
        p1.len() == p2.len(),
        forall|k: int| 0 <= k < p1.len() ==> (#[trigger] p1[k])@ == p2[k]@,
    ensures
        first_pat_at(p1, hay, i, k0) == first_pat_at(p2, hay, i, k0),
    decreases p1.len() - k0,
{
    if 0 <= k0 < p1.len() && !matches_at(hay, p1[k0]@, i) {
        lemma_first_pat_congr(p1, p2, hay, i, k0 + 1);
    }
}

/// `find_fn` depends only on the patterns' bytes.
pub proof fn lemma_find_fn_congr(p1: Seq<Vec<u8>>, p2: Seq<Vec<u8>>, hay: Seq<u8>, from: int)
    requires
        p1.len() == p2.len(),
        forall|k: int| 0 <= k < p1.len() ==> (#[trigger] p1[k])@ == p2[k]@,
    ensures
        find_fn(p1, hay, from) == find_fn(p2, hay, from),
    decreases hay.len() - from,
{
    if 0 <= from < hay.len() {
        lemma_first_pat_congr(p1, p2, hay, from, 0);
        if first_pat_at(p1, hay, from, 0) is None {
            lemma_find_fn_congr(p1, p2, hay, from + 1);
        }
    }
}

} // verus!
