//! Non-owning forward scan position over an immutable byte buffer.

use vstd::prelude::*;
use crate::utils::bytes::{is_skip_ws, matches_at, prefix_at, skip_ws_end, starts_with,
    lemma_skip_ws_end};

verus! {

/// A forward-only position into a borrowed byte buffer. The cursor never
/// owns or copies the buffer; only its position moves.
pub struct Cursor<'a> {
    pub input: &'a [u8],
    pub pos: usize,
}

impl<'a> Cursor<'a> {
    /// The bytes the cursor scans over.
    pub open spec fn buf(&self) -> Seq<u8> {
        self.input@
    }

    /// The position never passes the end of the buffer.
    pub open spec fn wf(&self) -> bool {
        self.pos <= self.buf().len()
    }

    /// The bytes from the current position to the end of the buffer.
    pub open spec fn rem(&self) -> Seq<u8> {
        if self.pos <= self.buf().len() {
            self.buf().subrange(self.pos as int, self.buf().len() as int)
        } else {
            Seq::empty()
        }
    }

    pub fn new(input: &'a [u8]) -> (r: Self)
        ensures
            r.buf() == input@,
            r.pos == 0,
            r.wf(),
    {
        Self { input, pos: 0 }
    }

    /// View from the current position to the buffer end; empty if past it.
    pub fn remaining(&self) -> (r: &'a [u8])
        ensures
            r@ == self.rem(),
    {
        if self.pos >= self.input.len() {
            &self.input[self.input.len()..self.input.len()]
        } else {
            &self.input[self.pos..self.input.len()]
        }
    }

    /// Moves the position forward by `n`; over-advancing degrades to an
    /// empty remainder rather than a fault. Deliberately, the position
    /// is clamped at the buffer end: a position past the end carries no
    /// information (the remainder is empty either way, and every other
    /// operation behaves identically), and clamping keeps the cursor
    /// well-formed without an overflow precondition on callers that
    /// over-advance on purpose.
    pub fn advance(&mut self, n: usize)
        requires
            old(self).wf(),
        ensures
            final(self).buf() == old(self).buf(),
            final(self).wf(),
            final(self).pos == if old(self).pos + n <= old(self).buf().len() {
                old(self).pos + n
            } else {
                old(self).buf().len() as int
            },
    {
        let len = self.input.len();
        if n >= len - self.pos {
            self.pos = len;
        } else {
            self.pos = self.pos + n;
        }
    }

    /// Advances over ASCII space, tab, carriage return and line feed.
    pub fn skip_whitespace(&mut self)
        requires
            old(self).wf(),
        ensures
            final(self).buf() == old(self).buf(),
            final(self).wf(),
            old(self).pos <= final(self).pos,
            final(self).pos == skip_ws_end(old(self).buf(), old(self).pos as int),
    {
        proof {
            lemma_skip_ws_end(self.buf(), self.pos as int);
        }
        while self.pos < self.input.len() && (self.input[self.pos] == 32u8
            || self.input[self.pos] == 10u8 || self.input[self.pos] == 9u8
            || self.input[self.pos] == 13u8)
            invariant
                self.wf(),
                self.buf() == old(self).buf(),
                skip_ws_end(self.buf(), self.pos as int)
                    == skip_ws_end(old(self).buf(), old(self).pos as int),
            decreases self.buf().len() - self.pos,
        {
            proof {
                assert(is_skip_ws(self.buf()[self.pos as int]));
            }
            self.pos = self.pos + 1;
        }
    }

    /// Non-consuming test that `pattern` stands at the current position.
    pub fn matches(&self, pattern: &[u8]) -> (r: bool)
        ensures
            r == starts_with(self.rem(), pattern@),
    {
        let rem = self.remaining();
        if pattern.len() > rem.len() {
            return false;
        }
        let mut j: usize = 0;
        while j < pattern.len()
            invariant
                j <= pattern.len() <= rem.len(),
                rem@ == self.rem(),
                forall|k: int| 0 <= k < j ==> rem@[k] == pattern@[k],
            decreases pattern.len() - j,
        {
            if rem[j] != pattern[j] {
                return false;
            }
            j = j + 1;
        }
        proof {
            assert(self.rem().subrange(0, pattern@.len() as int) =~= pattern@);
        }
        true
    }

    /// Finds the nearest position, looking ahead at most 512 bytes, where
    /// one of `anchors` begins, and returns that anchor and the absolute
    /// position; ties at one position go to the first anchor in the list.
    pub fn find_next_anchor<'b>(&self, anchors: &'b [Vec<u8>]) -> (r: Option<(&'b [u8], usize)>)
        ensures
            match r {
                Some((a, p)) => {
                    &&& self.pos <= p
                    &&& p - self.pos < 512
                    &&& matches_at(self.rem(), a@, p - self.pos)
                    &&& exists|k: int|
                        {
                            &&& 0 <= k < anchors@.len()
                            &&& a@ == anchors@[k]@
                            &&& forall|k2: int|
                                0 <= k2 < k ==> !matches_at(
                                    self.rem(),
                                    #[trigger] anchors@[k2]@,
                                    p - self.pos,
                                )
                        }
                    &&& forall|i: int, k: int|
                        0 <= i < p - self.pos && 0 <= k < anchors@.len() ==> !(
                        #[trigger] matches_at(self.rem(), anchors@[k]@, i))
                },
                None => forall|i: int, k: int|
                    0 <= i < 512 && i < self.rem().len() && 0 <= k < anchors@.len() ==> !(
                    #[trigger] matches_at(self.rem(), anchors@[k]@, i)),
            },
    {
        let input = self.remaining();
        let limit = if input.len() < 512 { input.len() } else { 512 };
        let mut i: usize = 0;
        while i < limit
            invariant
                i <= limit <= input@.len(),
                limit == if input@.len() < 512 { input@.len() as int } else { 512int },
                input@ == self.rem(),
                forall|i2: int, k: int|
                    0 <= i2 < i && 0 <= k < anchors@.len() ==> !(
                    #[trigger] matches_at(self.rem(), anchors@[k]@, i2)),
            decreases limit - i,
        {
            let mut k: usize = 0;
            while k < anchors.len()
                invariant
                    i < limit <= input@.len(),
                    limit <= 512,
                    input@ == self.rem(),
                    forall|i2: int, k2: int|
                        0 <= i2 < i && 0 <= k2 < anchors@.len() ==> !(
                        #[trigger] matches_at(self.rem(), anchors@[k2]@, i2)),
                    forall|k2: int|
                        0 <= k2 < k ==> !(#[trigger] matches_at(
                            self.rem(),
                            anchors@[k2]@,
                            i as int,
                        )),
                decreases anchors@.len() - k,
            {
                let anchor = &anchors[k];
                if prefix_at(input, anchor.as_slice(), i) {
                    proof {
                        assert(self.rem().len() > 0);
                        assert(self.pos <= self.buf().len());
                        assert(self.rem().len() == self.buf().len() - self.pos);
                        assert(vstd::slice::spec_slice_len(self.input) == self.input@.len());
                    }
                    return Some((anchor.as_slice(), self.pos + i));
                }
                k = k + 1;
            }
            i = i + 1;
        }
        None
    }
}

} // verus!
