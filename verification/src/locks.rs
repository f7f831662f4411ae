//! The writes that are under way: one for a principal at a time.
//!
//! A write waits for its embedding between its checks and its commit. While
//! it waits, no other write of the same principal may begin; reads are not
//! held up.

use crate::types::Principal;
use vstd::prelude::*;

verus! {

/// Whether `p` is among the principals.
pub open spec fn among(held: Seq<Principal>, p: Seq<u8>) -> bool {
    exists|i: int| 0 <= i < held.len() && (#[trigger] held[i])@ == p
}

/// The principals whose write is under way.
pub struct WriteLocks {
    pub held: Vec<Principal>,
}

impl WriteLocks {
    /// A write of `p` is under way.
    pub open spec fn holds(&self, p: Seq<u8>) -> bool {
        among(self.held@, p)
    }

    /// No write is under way.
    pub fn new() -> (l: Self)
        ensures
            forall|p: Seq<u8>| !l.holds(p),
    {
        WriteLocks { held: Vec::new() }
    }

    /// Whether a write of `p` is under way.
    pub fn is_held(&self, p: &Principal) -> (r: bool)
        ensures
            r == self.holds(p@),
    {
        let mut i: usize = 0;
        while i < self.held.len()
            invariant
                i <= self.held@.len(),
                forall|k: int| 0 <= k < i ==> (#[trigger] self.held@[k])@ != p@,
            decreases self.held@.len() - i,
        {
            if self.held[i].same(p) {
                return true;
            }
            i += 1;
        }
        false
    }

    /// Begins a write of `p` unless one is under way. Says whether it began.
    pub fn acquire(&mut self, p: &Principal) -> (began: bool)
        ensures
            began == !old(self).holds(p@),
            final(self).holds(p@),
            forall|q: Seq<u8>| q != p@ ==> final(self).holds(q) == old(self).holds(q),
    {
        if self.is_held(p) {
            return false;
        }
        let ghost before = self.held@;
        self.held.push(p.duplicate());
        proof {
            let after = self.held@;
            assert(after[before.len() as int]@ == p@);
            assert forall|q: Seq<u8>| q != p@ implies among(after, q) == among(before, q) by {
                if among(before, q) {
                    let i = choose|i: int| 0 <= i < before.len() && (#[trigger] before[i])@ == q;
                    assert(after[i]@ == q);
                }
                if among(after, q) {
                    let i = choose|i: int| 0 <= i < after.len() && (#[trigger] after[i])@ == q;
                    assert(before[i]@ == q);
                }
            }
        }
        true
    }

    /// Ends the write of `p`, if one is under way.
    pub fn release(&mut self, p: &Principal)
        ensures
            !final(self).holds(p@),
            forall|q: Seq<u8>| q != p@ ==> final(self).holds(q) == old(self).holds(q),
    {
        let mut kept: Vec<Principal> = Vec::new();
        let mut i: usize = 0;
        while i < self.held.len()
            invariant
                i <= self.held@.len(),
                self.held@ == old(self).held@,
                !among(kept@, p@),
                forall|q: Seq<u8>|
                    q != p@ ==> among(kept@, q) == among(self.held@.take(i as int), q),
            decreases self.held@.len() - i,
        {
            let ghost kept_before = kept@;
            let ghost seen = self.held@.take(i as int);
            let ghost next = self.held@.take(i + 1);
            let ghost item = self.held@[i as int];
            let stays = !self.held[i].same(p);
            if stays {
                kept.push(self.held[i].duplicate());
            }
            proof {
                assert(next == seen.push(item));
                if among(kept@, p@) {
                    let j = choose|j: int| 0 <= j < kept@.len() && (#[trigger] kept@[j])@ == p@;
                    if j < kept_before.len() {
                        assert(kept_before[j]@ == p@);
                    }
                }
                assert forall|q: Seq<u8>| q != p@ implies among(kept@, q) == among(next, q) by {
                    if among(kept@, q) {
                        let j = choose|j: int| 0 <= j < kept@.len() && (#[trigger] kept@[j])@ == q;
                        if j < kept_before.len() {
                            assert(kept_before[j]@ == q);
                            assert(among(kept_before, q));
                            assert(among(seen, q));
                            let h = choose|h: int| 0 <= h < seen.len() && (#[trigger] seen[h])@ == q;
                            assert(next[h]@ == q);
                        } else {
                            assert(next[i as int]@ == q);
                        }
                    }
                    if among(next, q) {
                        let h = choose|h: int| 0 <= h < next.len() && (#[trigger] next[h])@ == q;
                        if h < i {
                            assert(seen[h]@ == q);
                            assert(among(seen, q));
                            assert(among(kept_before, q));
                            let j = choose|j: int|
                                0 <= j < kept_before.len() && (#[trigger] kept_before[j])@ == q;
                            assert(kept@[j]@ == q);
                        } else {
                            assert(kept@[kept@.len() - 1]@ == q);
                        }
                    }
                }
            }
            i += 1;
        }
        proof {
            assert(self.held@.take(i as int) == self.held@);
        }
        self.held = kept;
    }
}

} // verus!
