//! The tile cache: a mapping from a tile's exact identity to its previously
//! computed result.
//!
//! Entries are only ever inserted coherent — the stored result is exactly
//! what resolving the key yields — so a hit can stand in for a fresh
//! computation.  The cache supports lookup, insertion and a wholesale clear;
//! there is no eviction policy.  The owner clears it whenever the zoom or the
//! iteration bound changes, since identities minted under the old values
//! would never be looked up again.

use vstd::prelude::*;
use crate::square::{Square, SquareResult};

verus! {

/// The stored result is exactly what resolving `k` produces.
pub open spec fn coherent(k: Square, v: SquareResult) -> bool {
    &&& k.wf()
    &&& v.x == k.x
    &&& v.y == k.y
    &&& v.size == k.size
    &&& v.colors@ == k.colors_spec()
}

/// A tile cache: tile identities paired with their resolved pixels.
pub struct SquareCache {
    entries: Vec<(Square, SquareResult)>,
}

impl SquareCache {
    /// Every entry is coherent and no key occurs twice.
    pub closed spec fn wf(self) -> bool {
        &&& forall|i: int|
            0 <= i < self.entries@.len() ==> coherent(
                (#[trigger] self.entries@[i]).0,
                self.entries@[i].1,
            )
        &&& forall|i: int, j: int|
            0 <= i < j < self.entries@.len() ==> (#[trigger] self.entries@[i]).0 != (
            #[trigger] self.entries@[j]).0
    }

    /// Whether the cache holds an entry for `k`.
    pub closed spec fn contains(self, k: Square) -> bool {
        exists|i: int| 0 <= i < self.entries@.len() && (#[trigger] self.entries@[i]).0 == k
    }

    /// The number of cached tiles.
    pub closed spec fn spec_len(self) -> nat {
        self.entries@.len()
    }

    /// An empty cache.
    pub fn new() -> (result: Self)
        ensures
            result.wf(),
            result.spec_len() == 0,
            forall|k: Square| !result.contains(k),
    {
        SquareCache { entries: Vec::new() }
    }

    /// The number of cached tiles.
    pub fn len(&self) -> (result: usize)
        ensures
            result == self.spec_len(),
    {
        self.entries.len()
    }

    /// Looks the tile `k` up: its cached result, or `None` on a miss.
    pub fn get(&self, k: &Square) -> (result: Option<&SquareResult>)
        requires
            self.wf(),
        ensures
            result is Some <==> self.contains(*k),
            result matches Some(v) ==> coherent(*k, *v),
    {
        let mut i: usize = 0;
        while i < self.entries.len()
            invariant
                self.wf(),
                i <= self.entries@.len(),
                forall|j: int| 0 <= j < i ==> (#[trigger] self.entries@[j]).0 != *k,
            decreases self.entries@.len() - i,
        {
            if self.entries[i].0 == *k {
                return Some(&self.entries[i].1);
            }
            i = i + 1;
        }
        None
    }

    /// Inserts the coherent result `v` for the tile `k`.  Idempotent on a
    /// key that is already present: the stored entry is coherent too, so it
    /// is kept as it is.
    pub fn put(&mut self, k: Square, v: SquareResult)
        requires
            old(self).wf(),
            coherent(k, v),
        ensures
            final(self).wf(),
            forall|k2: Square|
                #[trigger] final(self).contains(k2) <==> (old(self).contains(k2) || k2 == k),
    {
        let mut i: usize = 0;
        while i < self.entries.len()
            invariant
                self.wf(),
                i <= self.entries@.len(),
                forall|j: int| 0 <= j < i ==> (#[trigger] self.entries@[j]).0 != k,
            decreases self.entries@.len() - i,
        {
            if self.entries[i].0 == k {
                proof {
                    assert forall|k2: Square|
                        #[trigger] self.contains(k2) <==> (self.contains(k2) || k2 == k) by {
                        if k2 == k {
                            assert(self.entries@[i as int].0 == k2);
                        }
                    }
                }
                return ;
            }
            i = i + 1;
        }
        let ghost pre = self.entries@;
        self.entries.push((k, v));
        proof {
            assert forall|k2: Square|
                #[trigger] self.contains(k2) implies (old(self).contains(k2) || k2 == k) by {
                let w = choose|w: int|
                    0 <= w < self.entries@.len() && (#[trigger] self.entries@[w]).0 == k2;
                if w < pre.len() {
                    assert(pre[w].0 == k2);
                }
            }
            assert forall|k2: Square| (old(self).contains(k2) || k2 == k)
                implies #[trigger] self.contains(k2) by {
                if k2 == k {
                    assert(self.entries@[pre.len() as int].0 == k2);
                } else {
                    let w = choose|w: int| 0 <= w < pre.len() && (#[trigger] pre[w]).0 == k2;
                    assert(self.entries@[w].0 == k2);
                }
            }
        }
    }

    /// Drops every entry.
    pub fn clear(&mut self)
        ensures
            final(self).wf(),
            final(self).spec_len() == 0,
            forall|k: Square| !final(self).contains(k),
    {
        self.entries = Vec::new();
    }
}

} // verus!
