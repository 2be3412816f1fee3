//! A map from cell positions to tracked facts that remembers the order in
//! which positions were first entered, so that listing its entries is a
//! function of the operations applied to it.

use crate::ir::Offset;
use std::collections::HashMap;
use vstd::prelude::*;
use vstd::std_specs::hash::*;

verus! {

/// Mathematical content of a [`CellMap`]: the facts by position, and the
/// positions in the order of their first entry.
pub ghost struct Cells<V> {
    pub map: Map<Offset, V>,
    pub keys: Seq<Offset>,
}

impl<V> Cells<V> {
    /// No position is tracked.
    pub open spec fn empty() -> Self {
        Cells { map: Map::empty(), keys: Seq::empty() }
    }

    /// The listed positions are exactly the tracked ones, each listed once.
    pub open spec fn wf(self) -> bool {
        &&& self.keys.no_duplicates()
        &&& forall|k: Offset| self.map.contains_key(k) <==> self.keys.contains(k)
    }

    /// Whether a position is tracked.
    pub open spec fn has(self, k: Offset) -> bool {
        self.map.contains_key(k)
    }

    /// The fact at a position, if one is tracked.
    pub open spec fn get(self, k: Offset) -> Option<V> {
        if self.map.contains_key(k) {
            Some(self.map[k])
        } else {
            None
        }
    }

    /// The fact at a position, or a default.
    pub open spec fn get_or(self, k: Offset, default: V) -> V {
        if self.map.contains_key(k) {
            self.map[k]
        } else {
            default
        }
    }

    /// Tracks `v` at `k`.  A position not tracked before goes last.
    pub open spec fn set(self, k: Offset, v: V) -> Self {
        Cells {
            map: self.map.insert(k, v),
            keys: if self.map.contains_key(k) {
                self.keys
            } else {
                self.keys.push(k)
            },
        }
    }

    /// Stops tracking `k`; the other positions keep their order.
    pub open spec fn unset(self, k: Offset) -> Self {
        Cells {
            map: self.map.remove(k),
            keys: if self.keys.contains(k) {
                self.keys.remove(self.keys.index_of(k))
            } else {
                self.keys
            },
        }
    }

    /// Setting keeps the content well formed.
    pub proof fn lemma_set_wf(self, k: Offset, v: V)
        requires
            self.wf(),
        ensures
            self.set(k, v).wf(),
    {
        let after = self.set(k, v);
        if self.map.contains_key(k) {
            assert forall|x: Offset| after.map.contains_key(x) <==> after.keys.contains(x) by {}
        } else {
            assert(!self.keys.contains(k));
            assert forall|x: Offset| after.map.contains_key(x) <==> after.keys.contains(x) by {
                if x == k {
                    assert(after.keys[self.keys.len() as int] == k);
                } else if self.keys.contains(x) {
                    let i = self.keys.index_of(x);
                    assert(after.keys[i] == x);
                } else if after.keys.contains(x) {
                    let i = after.keys.index_of(x);
                    assert(i < self.keys.len());
                    assert(self.keys[i] == x);
                }
            }
        }
    }

    /// Unsetting keeps the content well formed.
    pub proof fn lemma_unset_wf(self, k: Offset)
        requires
            self.wf(),
        ensures
            self.unset(k).wf(),
    {
        let after = self.unset(k);
        if self.keys.contains(k) {
            let i = self.keys.index_of(k);
            assert(self.keys[i] == k);
            assert forall|a: int, b: int|
                0 <= a < after.keys.len() && 0 <= b < after.keys.len() && a != b implies after.keys[a]
                != after.keys[b] by {
                let a0 = if a < i { a } else { a + 1 };
                let b0 = if b < i { b } else { b + 1 };
                assert(after.keys[a] == self.keys[a0]);
                assert(after.keys[b] == self.keys[b0]);
            }
            assert forall|x: Offset| after.map.contains_key(x) <==> after.keys.contains(x) by {
                if after.keys.contains(x) {
                    let a = after.keys.index_of(x);
                    let a0 = if a < i { a } else { a + 1 };
                    assert(after.keys[a] == self.keys[a0]);
                    assert(self.keys.contains(x));
                    assert(a0 != i);
                }
                if x != k && self.keys.contains(x) {
                    let j = self.keys.index_of(x);
                    assert(j != i);
                    let j1 = if j < i { j } else { j - 1 };
                    assert(after.keys[j1] == x);
                }
            }
        } else {
            assert(after.map =~= self.map);
        }
    }
}

/// A map from cell positions to facts, listing its positions in the order
/// of their first entry.
pub struct CellMap<V> {
    map: HashMap<Offset, V>,
    keys: Vec<Offset>,
}

impl<V: Copy> CellMap<V> {
    /// The mathematical content.
    pub closed spec fn view(&self) -> Cells<V> {
        Cells { map: self.map@, keys: self.keys@ }
    }

    /// A map that tracks nothing.
    pub fn new() -> (r: Self)
        ensures
            r@ == Cells::<V>::empty(),
            r@.wf(),
    {
        CellMap { map: HashMap::new(), keys: Vec::new() }
    }

    /// The fact at a position, if one is tracked.
    pub fn get(&self, k: Offset) -> (r: Option<V>)
        ensures
            r == self@.get(k),
    {
        broadcast use group_hash_axioms;

        match self.map.get(&k) {
            Some(v) => Some(*v),
            None => None,
        }
    }

    /// Tracks `v` at `k`.
    pub fn insert(&mut self, k: Offset, v: V)
        requires
            old(self)@.wf(),
        ensures
            final(self)@ == old(self)@.set(k, v),
            final(self)@.wf(),
    {
        broadcast use group_hash_axioms;

        proof {
            self@.lemma_set_wf(k, v);
        }
        if !self.map.contains_key(&k) {
            self.keys.push(k);
        }
        self.map.insert(k, v);
    }

    /// Stops tracking `k` and returns what was tracked there.
    pub fn remove(&mut self, k: Offset) -> (r: Option<V>)
        requires
            old(self)@.wf(),
        ensures
            r == old(self)@.get(k),
            final(self)@ == old(self)@.unset(k),
            final(self)@.wf(),
    {
        broadcast use group_hash_axioms;

        proof {
            self@.lemma_unset_wf(k);
        }
        let r = self.map.remove(&k);
        if r.is_some() {
            let mut i: usize = 0;
            while self.keys[i] != k
                invariant
                    self.keys@ == old(self).keys@,
                    self.keys@.contains(k),
                    0 <= i < self.keys.len(),
                    forall|j: int| 0 <= j < i ==> self.keys@[j] != k,
                decreases self.keys.len() - i,
            {
                i += 1;
                proof {
                    let w = self.keys@.index_of(k);
                    assert(w >= i);
                }
            }
            proof {
                let w = old(self).keys@.index_of(k);
                assert(old(self).keys@[w] == k);
                assert(w == i);
            }
            self.keys.remove(i);
        }
        assert(self.map@ =~= old(self)@.unset(k).map);
        r
    }

    /// The number of tracked positions.
    pub fn len(&self) -> (r: usize)
        ensures
            r == self@.keys.len(),
    {
        self.keys.len()
    }

    /// The `i`-th position in order of first entry, with its fact.
    pub fn entry_at(&self, i: usize) -> (r: (Offset, V))
        requires
            self@.wf(),
            i < self@.keys.len(),
        ensures
            r.0 == self@.keys[i as int],
            self@.map.contains_key(r.0),
            r.1 == self@.map[r.0],
    {
        broadcast use group_hash_axioms;

        let k = self.keys[i];
        assert(self@.keys.contains(k));
        let v = self.map.get(&k);
        assert(v is Some);
        (k, *v.unwrap())
    }

    /// Stops tracking every position.
    pub fn clear(&mut self)
        ensures
            final(self)@ == Cells::<V>::empty(),
            final(self)@.wf(),
    {
        self.map.clear();
        self.keys.clear();
    }
}

} // verus!
