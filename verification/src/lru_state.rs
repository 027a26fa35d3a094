//! The least-recently-used cache as a mathematical value: its entries in
//! order of use, the one used longest ago first.

use vstd::prelude::*;

verus! {

/// The entries of the cache, the least recently used first, and the number
/// of entries that it is meant to hold.
pub struct LruState<K, V> {
    pub entries: Seq<(K, V)>,
    pub capacity: usize,
}

impl<K, V> LruState<K, V> {
    /// Place `p` holds the entry for `key`.
    pub open spec fn holds_at(self, p: int, key: K) -> bool {
        0 <= p < self.entries.len() && self.entries[p].0 == key
    }

    /// The cache has an entry for `key`.
    pub open spec fn contains(self, key: K) -> bool {
        exists|p: int| self.holds_at(p, key)
    }

    /// The place of the entry for `key`.
    pub open spec fn position(self, key: K) -> int {
        choose|p: int| self.holds_at(p, key)
    }

    /// No key occurs twice.
    pub open spec fn wf(self) -> bool {
        forall|p: int, q: int|
            0 <= p < q < self.entries.len() ==> (#[trigger] self.entries[p]).0 != (
            #[trigger] self.entries[q]).0
    }

    /// The entries after the one at place `p` became the one used last.
    pub open spec fn moved_to_back(self, p: int) -> Self {
        LruState { entries: self.entries.remove(p).push(self.entries[p]), capacity: self.capacity }
    }

    /// The cache after a look-up of `key`: an entry that is there becomes
    /// the one used last.
    pub open spec fn get(self, key: K) -> Self {
        if self.contains(key) {
            self.moved_to_back(self.position(key))
        } else {
            self
        }
    }

    /// What a look-up of `key` returns.
    pub open spec fn get_result(self, key: K) -> Option<V> {
        if self.contains(key) {
            Some(self.entries[self.position(key)].1)
        } else {
            None
        }
    }

    /// A new key can only come in if an entry leaves.
    pub open spec fn full(self) -> bool {
        self.entries.len() >= self.capacity && self.entries.len() > 0
    }

    /// The cache after `value` was stored under `key`. The entry becomes the
    /// one used last; for a new key in a full cache the entry used longest
    /// ago leaves.
    pub open spec fn put(self, key: K, value: V) -> Self {
        if self.contains(key) {
            LruState {
                entries: self.entries.remove(self.position(key)).push((key, value)),
                capacity: self.capacity,
            }
        } else if self.full() {
            LruState { entries: self.entries.drop_first().push((key, value)), capacity: self.capacity }
        } else {
            LruState { entries: self.entries.push((key, value)), capacity: self.capacity }
        }
    }

    /// The cache after the entry for `key`, if there is one, was taken out.
    pub open spec fn remove(self, key: K) -> Self {
        if self.contains(key) {
            LruState { entries: self.entries.remove(self.position(key)), capacity: self.capacity }
        } else {
            self
        }
    }

    /// The key of the entry used longest ago.
    pub open spec fn oldest(self) -> Option<K> {
        if self.entries.len() > 0 {
            Some(self.entries[0].0)
        } else {
            None
        }
    }

    /// Where no key occurs twice, the place that holds a key is its
    /// position.
    pub proof fn lemma_position(self, key: K, p: int)
        requires
            self.wf(),
            self.holds_at(p, key),
        ensures
            self.contains(key),
            self.position(key) == p,
    {
        let q = self.position(key);
        assert(self.holds_at(q, key));
        if q < p {
            assert(self.entries[q].0 != self.entries[p].0);
        } else if p < q {
            assert(self.entries[p].0 != self.entries[q].0);
        }
    }
}

impl<K, V> LruState<K, V> {
    /// A look-up keeps the entries, in another order.
    pub proof fn lemma_get(self, key: K)
        requires
            self.wf(),
        ensures
            self.get(key).wf(),
            self.get(key).capacity == self.capacity,
            self.get(key).entries.len() == self.entries.len(),
            forall|k: K| self.get(key).contains(k) <==> self.contains(k),
            self.contains(key) ==> self.get(key).entries.last() == self.entries[self.position(key)],
    {
        if self.contains(key) {
            let pos = self.position(key);
            assert(self.holds_at(pos, key));
            let after = self.get(key);
            let n = self.entries.len() as int;
            assert forall|p: int| 0 <= p < n implies #[trigger] after.entries[p] == self.entries[if p
                == n - 1 {
                pos
            } else if p < pos {
                p
            } else {
                p + 1
            }] by {}
            assert forall|p: int, q: int| 0 <= p < q < n implies (#[trigger] after.entries[p]).0 != (
            #[trigger] after.entries[q]).0 by {
                let a = if p < pos {
                    p
                } else {
                    p + 1
                };
                let b = if q == n - 1 {
                    pos
                } else if q < pos {
                    q
                } else {
                    q + 1
                };
                assert(after.entries[p] == self.entries[a]);
                assert(after.entries[q] == self.entries[b]);
                if a < b {
                    assert(self.entries[a].0 != self.entries[b].0);
                } else {
                    assert(self.entries[b].0 != self.entries[a].0);
                }
            }
            assert forall|k: K| after.contains(k) <==> self.contains(k) by {
                if after.contains(k) {
                    let p = choose|p: int| after.holds_at(p, k);
                    assert(after.holds_at(p, k));
                    let a = if p == n - 1 {
                        pos
                    } else if p < pos {
                        p
                    } else {
                        p + 1
                    };
                    assert(self.holds_at(a, k));
                }
                if self.contains(k) {
                    let a = choose|a: int| self.holds_at(a, k);
                    assert(self.holds_at(a, k));
                    let p = if a == pos {
                        n - 1
                    } else if a < pos {
                        a
                    } else {
                        a - 1
                    };
                    assert(after.holds_at(p, k));
                }
            }
        }
    }

    /// Taking an entry out keeps the others in their order.
    pub proof fn lemma_remove(self, key: K)
        requires
            self.wf(),
        ensures
            self.remove(key).wf(),
            self.remove(key).capacity == self.capacity,
            self.remove(key).entries.len() == self.entries.len() - (if self.contains(key) {
                1int
            } else {
                0int
            }),
            forall|k: K| self.remove(key).contains(k) <==> self.contains(k) && k != key,
    {
        let after = self.remove(key);
        if self.contains(key) {
            let pos = self.position(key);
            assert(self.holds_at(pos, key));
            let n = self.entries.len() as int;
            assert forall|p: int, q: int| 0 <= p < q < n - 1 implies (#[trigger] after.entries[p]).0
                != (#[trigger] after.entries[q]).0 by {
                let a = if p < pos {
                    p
                } else {
                    p + 1
                };
                let b = if q < pos {
                    q
                } else {
                    q + 1
                };
                assert(after.entries[p] == self.entries[a]);
                assert(after.entries[q] == self.entries[b]);
                assert(self.entries[a].0 != self.entries[b].0);
            }
            assert forall|k: K| after.contains(k) <==> self.contains(k) && k != key by {
                if after.contains(k) {
                    let p = choose|p: int| after.holds_at(p, k);
                    assert(after.holds_at(p, k));
                    let a = if p < pos {
                        p
                    } else {
                        p + 1
                    };
                    assert(self.holds_at(a, k));
                    if a < pos {
                        assert(self.entries[a].0 != self.entries[pos].0);
                    } else {
                        assert(self.entries[pos].0 != self.entries[a].0);
                    }
                }
                if self.contains(k) && k != key {
                    let a = choose|a: int| self.holds_at(a, k);
                    assert(self.holds_at(a, k));
                    let p = if a < pos {
                        a
                    } else {
                        a - 1
                    };
                    assert(after.holds_at(p, k));
                }
            }
        } else {
            assert forall|k: K| after.contains(k) <==> self.contains(k) && k != key by {}
        }
    }

    /// After `put` the cache has the new entry as the one used last. A new
    /// key in a full cache puts out exactly the entry used longest ago;
    /// otherwise no entry leaves. The cache never grows beyond its capacity
    /// unless that is zero.
    pub proof fn lemma_put(self, key: K, value: V)
        requires
            self.wf(),
        ensures
            self.put(key, value).wf(),
            self.put(key, value).capacity == self.capacity,
            self.put(key, value).entries.last() == (key, value),
            forall|k: K|
                self.put(key, value).contains(k) <==> k == key || (self.contains(k) && !(
                !self.contains(key) && self.full() && self.oldest() == Some(k))),
            self.put(key, value).entries.len() == (if self.contains(key) || (!self.contains(key)
                && self.full()) {
                self.entries.len()
            } else {
                self.entries.len() + 1
            }),
    {
        let after = self.put(key, value);
        let n = self.entries.len() as int;
        if self.contains(key) {
            let pos = self.position(key);
            self.lemma_remove(key);
            let rest = self.remove(key);
            assert(after.entries == rest.entries.push((key, value)));
            assert(!rest.contains(key));
            rest.lemma_push(key, value);
        } else if self.full() {
            let rest = LruState { entries: self.entries.drop_first(), capacity: self.capacity };
            assert(self.holds_at(0, self.entries[0].0));
            self.lemma_position(self.entries[0].0, 0);
            assert(self.remove(self.entries[0].0).entries =~= rest.entries);
            self.lemma_remove(self.entries[0].0);
            assert(!rest.contains(key));
            rest.lemma_push(key, value);
        } else {
            self.lemma_push(key, value);
        }
    }

    /// A new key at the end keeps what was there.
    pub proof fn lemma_push(self, key: K, value: V)
        requires
            self.wf(),
            !self.contains(key),
        ensures
            (LruState { entries: self.entries.push((key, value)), capacity: self.capacity }).wf(),
            forall|k: K|
                (LruState {
                    entries: self.entries.push((key, value)),
                    capacity: self.capacity,
                }).contains(k) <==> k == key || self.contains(k),
    {
        let after = LruState { entries: self.entries.push((key, value)), capacity: self.capacity };
        let n = self.entries.len() as int;
        assert forall|p: int, q: int| 0 <= p < q < n + 1 implies (#[trigger] after.entries[p]).0 != (
        #[trigger] after.entries[q]).0 by {
            if q == n {
                if after.entries[p].0 == key {
                    assert(self.holds_at(p, key));
                }
            } else {
                assert(self.entries[p].0 != self.entries[q].0);
            }
        }
        assert forall|k: K| after.contains(k) <==> k == key || self.contains(k) by {
            if after.contains(k) {
                let p = choose|p: int| after.holds_at(p, k);
                assert(after.holds_at(p, k));
                if p < n {
                    assert(self.holds_at(p, k));
                }
            }
            if k == key {
                assert(after.holds_at(n, k));
            }
            if self.contains(k) {
                let p = choose|p: int| self.holds_at(p, k);
                assert(self.holds_at(p, k));
                assert(after.holds_at(p, k));
            }
        }
    }
}

} // verus!
