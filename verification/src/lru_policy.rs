//! Least-recently-used replacement as a policy of the buffer pool.
//!
//! The ids that may be evicted wait in the order in which they became
//! evictable or were last accessed; the pinned ids are kept apart and have
//! no place in that order. The victim is the id that has waited longest.

use crate::error::PoolError;
use crate::lru_replacer::LRUCache;
use crate::lru_state::LruState;
use crate::policy::{access_result, held_after_access, PolicyModel, ReplacementPolicy};
use std::collections::HashSet;
use vstd::prelude::*;

verus! {

broadcast use vstd::std_specs::hash::group_hash_axioms;

/// The policy as a mathematical value: the evictable ids in order of use,
/// the pinned ids, and the number of ids that it can hold.
pub struct LruPolicyState {
    pub ready: LruState<usize, ()>,
    pub pinned: Set<usize>,
    pub capacity: nat,
}

impl LruPolicyState {
    /// How many ids the policy holds.
    pub open spec fn count(self) -> nat {
        self.ready.entries.len() + self.pinned.len()
    }

    /// The evictable ids of a valid policy, as a set.
    pub open spec fn ready_ids(self) -> Set<usize> {
        Set::new(|id: usize| self.ready.contains(id))
    }

    /// The policy holds as many ids as `count` says.
    pub proof fn lemma_count(self)
        requires
            self.valid(),
        ensures
            self.held().dom().finite(),
            self.held().dom().len() == self.count(),
    {
        let keys = self.ready.entries.map_values(|e: (usize, ())| e.0);
        assert forall|p: int, q: int| 0 <= p < keys.len() && 0 <= q < keys.len() && p != q implies keys[p]
            != keys[q] by {
            if p < q {
                assert(self.ready.entries[p].0 != self.ready.entries[q].0);
            } else {
                assert(self.ready.entries[q].0 != self.ready.entries[p].0);
            }
        }
        keys.unique_seq_to_set();
        assert forall|id: usize| keys.to_set().contains(id) <==> self.ready.contains(id) by {
            if keys.to_set().contains(id) {
                let p = choose|p: int| 0 <= p < keys.len() && keys[p] == id;
                assert(self.ready.holds_at(p, id));
            }
            if self.ready.contains(id) {
                let p = choose|p: int| self.ready.holds_at(p, id);
                assert(self.ready.holds_at(p, id));
                assert(keys[p] == id);
            }
        }
        assert(keys.to_set() =~= self.ready_ids());
        assert(self.ready_ids().disjoint(self.pinned));
        vstd::set_lib::lemma_set_disjoint_lens(self.ready_ids(), self.pinned);
        assert(self.held().dom() =~= self.ready_ids() + self.pinned);
    }
}

impl LruPolicyState {
    /// An access keeps the policy valid.
    pub proof fn lemma_accessed_valid(self, id: usize)
        requires
            self.valid(),
        ensures
            self.accessed(id).valid(),
    {
        let after = self.accessed(id);
        if self.pinned.contains(id) {
        } else if self.ready.contains(id) {
            self.ready.lemma_get(id);
            assert forall|x: usize| !(#[trigger] after.ready.contains(x) && after.pinned.contains(
                x,
            )) by {
                if after.ready.contains(x) {
                    assert(self.ready.contains(x));
                }
            }
        } else if self.count() < self.capacity {
            self.ready.lemma_put(id, ());
            assert(!self.ready.full());
            assert(after.ready.wf());
            assert(after.ready.capacity == usize::MAX);
            assert(after.count() <= after.capacity);
            assert forall|x: usize| !(#[trigger] after.ready.contains(x) && after.pinned.contains(
                x,
            )) by {
                if after.ready.contains(x) && x != id {
                    assert(self.ready.contains(x));
                }
            }
        } else {
            match self.ready.oldest() {
                Some(v) => {
                    assert(self.ready.holds_at(0, v));
                    self.ready.lemma_remove(v);
                    let rest = self.ready.remove(v);
                    rest.lemma_put(id, ());
                    assert(!rest.full());
                    assert(!rest.contains(id));
                    assert(after.ready == rest.put(id, ()));
                    assert(after.count() <= after.capacity);
                    assert forall|x: usize| !(#[trigger] after.ready.contains(x)
                        && after.pinned.contains(x)) by {
                        if after.ready.contains(x) && x != id {
                            assert(rest.contains(x));
                            assert(self.ready.contains(x));
                        }
                    }
                },
                None => {},
            }
        }
    }

    /// Setting a flag keeps the policy valid.
    pub proof fn lemma_flagged_valid(self, id: usize, evictable: bool)
        requires
            self.valid(),
        ensures
            self.flagged(id, evictable).valid(),
    {
        let after = self.flagged(id, evictable);
        if evictable {
            if self.pinned.contains(id) {
                self.ready.lemma_put(id, ());
                vstd::set::axiom_set_remove_len(self.pinned, id);
                assert(!self.ready.contains(id));
                assert(!self.ready.full());
                assert(after.count() <= after.capacity);
                assert forall|x: usize| !(#[trigger] after.ready.contains(x)
                    && after.pinned.contains(x)) by {
                    if after.ready.contains(x) && x != id {
                        assert(self.ready.contains(x));
                    }
                }
            }
        } else {
            if self.ready.contains(id) {
                self.ready.lemma_remove(id);
                vstd::set::axiom_set_insert_len(self.pinned, id);
                assert(!self.pinned.contains(id));
                assert(after.count() <= after.capacity);
                assert forall|x: usize| !(#[trigger] after.ready.contains(x)
                    && after.pinned.contains(x)) by {
                    if after.ready.contains(x) {
                        assert(self.ready.contains(x));
                    }
                }
            }
        }
    }
}

impl PolicyModel for LruPolicyState {
    /// No id waits twice, no pinned id waits, the order of use itself never
    /// puts an id out, and the ids are no more than the capacity.
    open spec fn valid(self) -> bool {
        &&& self.ready.wf()
        &&& self.ready.capacity == usize::MAX
        &&& self.pinned.finite()
        &&& forall|id: usize| !(#[trigger] self.ready.contains(id) && self.pinned.contains(id))
        &&& self.count() <= self.capacity
        &&& self.capacity <= usize::MAX
    }

    open spec fn capacity(self) -> nat {
        self.capacity
    }

    open spec fn held(self) -> Map<usize, bool> {
        Map::new(
            |id: usize| self.ready.contains(id) || self.pinned.contains(id),
            |id: usize| !self.pinned.contains(id),
        )
    }

    /// The evictable id that was used longest ago.
    open spec fn victim(self) -> Option<usize> {
        self.ready.oldest()
    }

    /// An access to a pinned id changes nothing. An evictable id becomes
    /// the one used last. A new id comes in as the one used last, in place
    /// of the victim where there is no room.
    open spec fn accessed(self, id: usize) -> Self {
        if self.pinned.contains(id) {
            self
        } else if self.ready.contains(id) {
            LruPolicyState { ready: self.ready.get(id), ..self }
        } else if self.count() < self.capacity {
            LruPolicyState { ready: self.ready.put(id, ()), ..self }
        } else {
            match self.ready.oldest() {
                Some(v) => LruPolicyState { ready: self.ready.remove(v).put(id, ()), ..self },
                None => self,
            }
        }
    }

    /// A pinned id that is made evictable becomes the one used last; an
    /// evictable id that is pinned leaves the order of use.
    open spec fn flagged(self, id: usize, evictable: bool) -> Self {
        if evictable {
            if self.pinned.contains(id) {
                LruPolicyState {
                    ready: self.ready.put(id, ()),
                    pinned: self.pinned.remove(id),
                    ..self
                }
            } else {
                self
            }
        } else {
            if self.ready.contains(id) {
                LruPolicyState {
                    ready: self.ready.remove(id),
                    pinned: self.pinned.insert(id),
                    ..self
                }
            } else {
                self
            }
        }
    }

    proof fn lemma_within_capacity(self) {
        self.lemma_count();
    }

    proof fn lemma_victim(self) {
        if self.ready.entries.len() > 0 {
            assert(self.ready.holds_at(0, self.ready.entries[0].0));
        } else {
            assert forall|id: usize| #[trigger] self.held().contains_key(id) implies !self.held()[id] by {
                if self.ready.contains(id) {
                    let p = choose|p: int| self.ready.holds_at(p, id);
                    assert(self.ready.holds_at(p, id));
                }
            }
        }
    }

    proof fn lemma_accessed(self, id: usize) {
        self.lemma_count();
        let after = self.accessed(id);
        self.lemma_accessed_valid(id);
        let expected = held_after_access(self.held(), self.capacity(), self.victim(), id);
        if self.pinned.contains(id) {
        } else if self.ready.contains(id) {
            self.ready.lemma_get(id);
            assert(after.held() =~= expected);
        } else if self.count() < self.capacity {
            self.ready.lemma_put(id, ());
            assert(!self.ready.full());
            assert(after.held() =~= expected);
        } else {
            match self.ready.oldest() {
                Some(v) => {
                    assert(self.ready.holds_at(0, v));
                    self.ready.lemma_remove(v);
                    let rest = self.ready.remove(v);
                    rest.lemma_put(id, ());
                    assert(!rest.full());
                    assert(!rest.contains(id));
                    assert(after.held() =~= expected);
                },
                None => {},
            }
        }
    }

    proof fn lemma_flagged(self, id: usize, evictable: bool) {
        let after = self.flagged(id, evictable);
        self.lemma_flagged_valid(id, evictable);
        let expected = if self.held().contains_key(id) {
            self.held().insert(id, evictable)
        } else {
            self.held()
        };
        if evictable {
            if self.pinned.contains(id) {
                self.ready.lemma_put(id, ());
                vstd::set::axiom_set_remove_len(self.pinned, id);
                assert(!self.ready.contains(id));
                assert(!self.ready.full());
                assert(after.held() =~= expected);
            } else {
                assert(after.held() =~= expected);
            }
        } else {
            if self.ready.contains(id) {
                self.ready.lemma_remove(id);
                vstd::set::axiom_set_insert_len(self.pinned, id);
                assert(!self.pinned.contains(id));
                assert(after.held() =~= expected);
            } else {
                assert(after.held() =~= expected);
            }
        }
    }
}

/// Least-recently-used replacement over page ids.
pub struct LruReplacer {
    capacity: usize,
    ready: LRUCache<usize, ()>,
    pinned: HashSet<usize>,
}

impl View for LruReplacer {
    type V = LruPolicyState;

    closed spec fn view(&self) -> LruPolicyState {
        LruPolicyState { ready: self.ready@, pinned: self.pinned@, capacity: self.capacity as nat }
    }
}

impl LruReplacer {
    /// A policy that holds no id yet and has room for `capacity`.
    pub fn new(capacity: usize) -> (replacer: Self)
        ensures
            replacer.inv(),
            replacer@.capacity == capacity,
            replacer@.ready.entries == Seq::<(usize, ())>::empty(),
            replacer@.pinned == Set::<usize>::empty(),
            replacer@.held().dom() == Set::<usize>::empty(),
    {
        let replacer = LruReplacer {
            capacity,
            ready: LRUCache::new(usize::MAX),
            pinned: HashSet::new(),
        };
        proof {
            assert forall|id: usize| !replacer@.ready.contains(id) by {
                if replacer@.ready.contains(id) {
                    let p = choose|p: int| replacer@.ready.holds_at(p, id);
                    assert(replacer@.ready.holds_at(p, id));
                }
            }
            assert(replacer@.held().dom() =~= Set::<usize>::empty());
        }
        replacer
    }
}

impl ReplacementPolicy for LruReplacer {
    type Model = LruPolicyState;

    open spec fn model(&self) -> LruPolicyState {
        self@
    }

    closed spec fn inv(&self) -> bool {
        self.ready.wf() && self@.valid()
    }

    proof fn lemma_inv(&self) {
    }

    fn slots(&self) -> (n: usize) {
        self.capacity
    }

    fn record_access(&mut self, id: usize) -> (result: Result<Option<usize>, PoolError>) {
        proof {
            self@.lemma_count();
            self@.lemma_accessed(id);
        }
        if self.pinned.contains(&id) {
            return Ok(None);
        }
        if self.ready.contains(id) {
            let _ = self.ready.get(id);
            return Ok(None);
        }
        let count = self.ready.size() + self.pinned.len();
        if count < self.capacity {
            self.ready.put(id, ());
            return Ok(None);
        }
        match self.ready.oldest() {
            Some(v) => {
                let _ = self.ready.remove(v);
                self.ready.put(id, ());
                Ok(Some(v))
            },
            None => Err(PoolError::CapacityExhausted),
        }
    }

    fn set_evictable(&mut self, id: usize, evictable: bool) -> (found: bool) {
        proof {
            self@.lemma_count();
            self@.lemma_flagged(id, evictable);
        }
        if evictable {
            if self.pinned.remove(&id) {
                self.ready.put(id, ());
                true
            } else {
                assert(self.pinned@ =~= old(self).pinned@);
                self.ready.contains(id)
            }
        } else {
            if self.ready.remove(id).is_some() {
                let _ = self.pinned.insert(id);
                true
            } else {
                self.pinned.contains(&id)
            }
        }
    }
}

} // verus!
