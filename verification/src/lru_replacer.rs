//! A least-recently-used cache: a table from keys to the nodes of a doubly
//! linked list that is kept in order of use, so that a look-up, an insert
//! and an eviction each take a constant number of steps.

use crate::lru_state::LruState;
use std::collections::HashMap;
use std::hash::Hash;
use vstd::prelude::*;
use vstd::std_specs::hash::obeys_key_model;

verus! {

broadcast use vstd::std_specs::hash::group_hash_axioms;

/// One entry of the cache with its neighbours in the order of use:
/// `prev` was used before it, `next` after it.
struct LruNode<K, V> {
    key: K,
    value: V,
    prev: Option<usize>,
    next: Option<usize>,
}

/// The cache. Its nodes live in `nodes` and are never moved; `head` is the
/// node that was used longest ago and `tail` the one used last. `order`
/// lists the nodes from `head` to `tail`.
pub struct LRUCache<K, V> where K: Hash + Eq + Copy, V: Copy {
    capacity: usize,
    cache: HashMap<K, usize>,
    nodes: Vec<LruNode<K, V>>,
    head: Option<usize>,
    tail: Option<usize>,
    order: Ghost<Seq<usize>>,
}

impl<K: Hash + Eq + Copy, V: Copy> View for LRUCache<K, V> {
    type V = LruState<K, V>;

    closed spec fn view(&self) -> LruState<K, V> {
        LruState {
            entries: Seq::new(
                self.order@.len(),
                |p: int|
                    (self.nodes@[self.order@[p] as int].key, self.nodes@[self.order@[p] as int].value),
            ),
            capacity: self.capacity,
        }
    }
}

impl<K: Hash + Eq + Copy, V: Copy> LRUCache<K, V> {
    /// The node at place `p` of the order is linked to the nodes at the
    /// places next to it.
    spec fn linked(&self, p: int) -> bool {
        let node = self.nodes@[self.order@[p] as int];
        &&& node.prev == (if p == 0 {
            None
        } else {
            Some(self.order@[p - 1])
        })
        &&& node.next == (if p == self.order@.len() - 1 {
            None
        } else {
            Some(self.order@[p + 1])
        })
    }

    /// Node `i` stands at place `p` of the order.
    spec fn placed(&self, i: int, p: int) -> bool {
        0 <= p < self.order@.len() && self.order@[p] == i
    }

    /// Node `i` stands somewhere in the order.
    spec fn listed(&self, i: int) -> bool {
        exists|p: int| self.placed(i, p)
    }

    /// The table finds node `i` by its key.
    spec fn indexed(&self, i: int) -> bool {
        self.cache@.contains_key(self.nodes@[i].key) && self.cache@[self.nodes@[i].key] == i
    }

    /// The order lists every node once, the links follow the order, and the
    /// table maps each key to its node.
    pub closed spec fn wf(&self) -> bool {
        let n = self.nodes@.len();
        &&& obeys_key_model::<K>()
        &&& self.order@.len() == n
        &&& forall|p: int| 0 <= p < n ==> 0 <= #[trigger] self.order@[p] < n
        &&& forall|p: int, q: int| 0 <= p < q < n ==> self.order@[p] != self.order@[q]
        &&& forall|i: int| 0 <= i < n ==> #[trigger] self.listed(i)
        &&& forall|p: int| 0 <= p < n ==> #[trigger] self.linked(p)
        &&& self.head == (if n == 0 {
            None
        } else {
            Some(self.order@[0])
        })
        &&& self.tail == (if n == 0 {
            None
        } else {
            Some(self.order@[n - 1])
        })
        &&& forall|i: int| 0 <= i < n ==> #[trigger] self.indexed(i)
        &&& forall|k: K| #[trigger]
            self.cache@.contains_key(k) ==> self.cache@[k] < n && self.nodes@[self.cache@[k] as int].key
                == k
    }

    /// The place of node `i` in the order.
    spec fn rank(&self, i: int) -> int {
        choose|p: int| self.placed(i, p)
    }

    /// In a well-formed cache no key occurs twice.
    pub proof fn lemma_distinct(&self)
        requires
            self.wf(),
        ensures
            self@.wf(),
    {
        self.lemma_wf();
    }

    /// In a well-formed cache no key occurs twice, and the table knows
    /// exactly the keys of the entries.
    proof fn lemma_wf(&self)
        requires
            self.wf(),
        ensures
            self@.wf(),
            forall|k: K| self@.contains(k) <==> self.cache@.contains_key(k),
    {
        let n = self.nodes@.len() as int;
        assert forall|p: int, q: int| 0 <= p < q < n implies (#[trigger] self@.entries[p]).0 != (
        #[trigger] self@.entries[q]).0 by {
            assert(self.indexed(self.order@[p] as int));
            assert(self.indexed(self.order@[q] as int));
        }
        assert forall|k: K| self@.contains(k) <==> self.cache@.contains_key(k) by {
            if self@.contains(k) {
                let p = choose|p: int| self@.holds_at(p, k);
                assert(self@.holds_at(p, k));
                assert(self.indexed(self.order@[p] as int));
            }
            if self.cache@.contains_key(k) {
                let i = self.cache@[k] as int;
                assert(self.listed(i));
                let p = choose|p: int| self.placed(i, p);
                assert(self.placed(i, p));
                assert(self@.holds_at(p, k));
            }
        }
    }

    /// The key that the table maps to node `i` stands at the place of that
    /// node.
    proof fn lemma_rank(&self, k: K)
        requires
            self.wf(),
            self.cache@.contains_key(k),
        ensures
            self@.contains(k),
            self@.position(k) == self.rank(self.cache@[k] as int),
            self.placed(self.cache@[k] as int, self.rank(self.cache@[k] as int)),
    {
        self.lemma_wf();
        let i = self.cache@[k] as int;
        let p = self.rank(i);
        assert(self.listed(i));
        assert(self.placed(i, p));
        assert(self@.holds_at(p, k));
        self@.lemma_position(k, p);
    }

    /// An empty cache for `capacity` entries.
    pub fn new(capacity: usize) -> (cache: Self)
        requires
            obeys_key_model::<K>(),
        ensures
            cache.wf(),
            cache@ == (LruState::<K, V> { entries: Seq::empty(), capacity }),
    {
        let cache = LRUCache {
            capacity,
            cache: HashMap::new(),
            nodes: Vec::new(),
            head: None,
            tail: None,
            order: Ghost(Seq::empty()),
        };
        assert(cache@.entries =~= Seq::empty());
        cache
    }

    /// The number of entries.
    pub fn size(&self) -> (n: usize)
        requires
            self.wf(),
        ensures
            n == self@.entries.len(),
    {
        self.nodes.len()
    }

    /// Where the node at place `p` of the order stood before the node at
    /// place `pos` was moved to the end of an order of `n` nodes.
    spec fn origin(p: int, pos: int, n: int) -> int {
        if p == n - 1 {
            pos
        } else if p < pos {
            p
        } else {
            p + 1
        }
    }

    /// `post` is `pre` after the node `i` at place `pos`, which is not the
    /// last, was unlinked and linked in again behind the last node.
    spec fn relinked(pre: &Self, post: &Self, i: int, pos: int) -> bool {
        let n = pre.nodes@.len() as int;
        let order = pre.order@;
        let last = order[n - 1];
        let after = order[pos + 1];
        &&& post.capacity == pre.capacity
        &&& post.cache@ == pre.cache@
        &&& post.nodes@.len() == n
        &&& post.order@ == order.remove(pos).push(i as usize)
        &&& post.head == (if pos == 0 {
            Some(after)
        } else {
            pre.head
        })
        &&& post.tail == Some(i as usize)
        &&& forall|j: int|
            0 <= j < n ==> (#[trigger] post.nodes@[j]).key == pre.nodes@[j].key && post.nodes@[j].value
                == pre.nodes@[j].value
        &&& forall|j: int|
            0 <= j < n ==> (#[trigger] post.nodes@[j]).prev == (if j == i {
                Some(last)
            } else if j == after {
                pre.nodes@[i].prev
            } else {
                pre.nodes@[j].prev
            })
        &&& forall|j: int|
            0 <= j < n ==> (#[trigger] post.nodes@[j]).next == (if j == i {
                None
            } else if j == last {
                Some(i as usize)
            } else if pos > 0 && j == order[pos - 1] {
                Some(after)
            } else {
                pre.nodes@[j].next
            })
    }

    /// Each place of the order after a move holds the node of its origin.
    proof fn lemma_origin(pre: &Self, post: &Self, i: int, pos: int)
        requires
            pre.wf(),
            pre.placed(i, pos),
            pos < pre.nodes@.len() - 1,
            post.order@ == pre.order@.remove(pos).push(i as usize),
        ensures
            post.order@.len() == pre.order@.len(),
            forall|p: int|
                0 <= p < pre.order@.len() ==> #[trigger] post.order@[p] == pre.order@[Self::origin(
                    p,
                    pos,
                    pre.order@.len() as int,
                )],
    {
    }

    /// The links and the table are right after a move.
    proof fn lemma_relinked(pre: &Self, post: &Self, i: int, pos: int)
        requires
            pre.wf(),
            pre.placed(i, pos),
            pos < pre.nodes@.len() - 1,
            Self::relinked(pre, post, i, pos),
        ensures
            post.wf(),
            post@ == pre@.moved_to_back(pos),
    {
        let n = pre.nodes@.len() as int;
        let order = pre.order@;
        let moved = post.order@;
        Self::lemma_origin(pre, post, i, pos);
        assert forall|p: int| 0 <= p < n implies 0 <= #[trigger] moved[p] < n by {
            assert(moved[p] == order[Self::origin(p, pos, n)]);
        }
        assert forall|p: int, q: int| 0 <= p < q < n implies moved[p] != moved[q] by {
            assert(moved[p] == order[Self::origin(p, pos, n)]);
            assert(moved[q] == order[Self::origin(q, pos, n)]);
        }
        assert forall|j: int| 0 <= j < n implies #[trigger] post.listed(j) by {
            assert(pre.listed(j));
            let r = choose|r: int| pre.placed(j, r);
            assert(pre.placed(j, r));
            let p = if r < pos {
                r
            } else if r == pos {
                n - 1
            } else {
                r - 1
            };
            assert(moved[p] == order[Self::origin(p, pos, n)]);
            assert(post.placed(j, p));
        }
        assert forall|p: int| 0 <= p < n implies #[trigger] post.linked(p) by {
            Self::lemma_linked(pre, post, i, pos, p);
        }
        assert forall|j: int| 0 <= j < n implies #[trigger] post.indexed(j) by {
            assert(pre.indexed(j));
        }
        assert(pre.linked(0));
        assert(moved[0] == order[Self::origin(0, pos, n)]);
        assert(moved[n - 1] == order[Self::origin(n - 1, pos, n)]);
        assert forall|p: int| 0 <= p < n implies post@.entries[p] == pre@.moved_to_back(
            pos,
        ).entries[p] by {
            assert(moved[p] == order[Self::origin(p, pos, n)]);
        }
        assert(post@.entries =~= pre@.moved_to_back(pos).entries);
    }

    /// The node at place `p` is linked to its neighbours after a move.
    proof fn lemma_linked(pre: &Self, post: &Self, i: int, pos: int, p: int)
        requires
            pre.wf(),
            pre.placed(i, pos),
            pos < pre.nodes@.len() - 1,
            Self::relinked(pre, post, i, pos),
            0 <= p < pre.nodes@.len(),
        ensures
            post.linked(p),
    {
        let n = pre.nodes@.len() as int;
        let order = pre.order@;
        let moved = post.order@;
        Self::lemma_origin(pre, post, i, pos);
        let src = Self::origin(p, pos, n);
        let j = moved[p] as int;
        assert(moved[p] == order[src]);
        assert(pre.linked(src));
        assert(pre.linked(pos));
        if p > 0 {
            assert(moved[p - 1] == order[Self::origin(p - 1, pos, n)]);
        }
        if p < n - 1 {
            assert(moved[p + 1] == order[Self::origin(p + 1, pos, n)]);
        }
        assert(0 <= j < n);
        if src != pos {
            assert(order[src] != order[pos]);
        }
        if src != pos + 1 {
            assert(order[src] != order[pos + 1]);
        }
        if src != n - 1 {
            assert(order[src] != order[n - 1]);
        }
        if pos > 0 && src != pos - 1 {
            assert(order[src] != order[pos - 1]);
        }
        assert(post.nodes@[j].prev == (if j == i {
            Some(order[n - 1])
        } else if j == order[pos + 1] {
            pre.nodes@[i].prev
        } else {
            pre.nodes@[j].prev
        }));
        assert(post.nodes@[j].next == (if j == i {
            None
        } else if j == order[n - 1] {
            Some(i as usize)
        } else if pos > 0 && j == order[pos - 1] {
            Some(order[pos + 1])
        } else {
            pre.nodes@[j].next
        }));
    }

    /// Makes node `i` the one used last.
    fn touch(&mut self, i: usize)
        requires
            old(self).wf(),
            i < old(self).nodes@.len(),
        ensures
            final(self).wf(),
            final(self).capacity == old(self).capacity,
            final(self).cache@ == old(self).cache@,
            final(self).nodes@.len() == old(self).nodes@.len(),
            forall|j: int|
                0 <= j < old(self).nodes@.len() ==> (#[trigger] final(self).nodes@[j]).key == old(
                    self,
                ).nodes@[j].key && final(self).nodes@[j].value == old(self).nodes@[j].value,
            final(self)@ == old(self)@.moved_to_back(old(self).rank(i as int)),
    {
        let ghost pre = *self;
        let ghost n = self.nodes@.len() as int;
        let ghost pos = self.rank(i as int);
        let ghost order = self.order@;
        proof {
            assert(self.listed(i as int));
            assert(self.placed(i as int, pos));
            assert(self.linked(pos));
            assert(self.linked(n - 1));
        }
        let prev = self.nodes[i].prev;
        let next = self.nodes[i].next;
        let last = match self.tail {
            Some(t) => t,
            None => {
                return ;
            },
        };
        let after = match next {
            Some(x) => x,
            None => {
                proof {
                    assert(pos == n - 1);
                    assert(self@.entries =~= pre@.moved_to_back(pos).entries);
                }
                return ;
            },
        };
        proof {
            assert(pos < n - 1);
            assert(after == order[pos + 1]);
            assert(last == order[n - 1]);
            assert(order[pos] != order[pos + 1]);
            assert(order[pos] != order[n - 1]);
            if pos > 0 {
                assert(order[pos - 1] != order[pos]);
                assert(order[pos - 1] != order[pos + 1]);
                assert(order[pos - 1] != order[n - 1]);
            }
        }
        self.nodes[after].prev = prev;
        match prev {
            Some(b) => {
                self.nodes[b].next = next;
            },
            None => {
                self.head = next;
            },
        }
        self.nodes[last].next = Some(i);
        self.nodes[i].prev = Some(last);
        self.nodes[i].next = None;
        self.tail = Some(i);
        proof {
            self.order = Ghost(order.remove(pos).push(i));
            assert(Self::relinked(&pre, self, i as int, pos));
            Self::lemma_relinked(&pre, self, i as int, pos);
        }
    }

    /// Looks `key` up. If it is there, it becomes the entry used last and
    /// its value is returned.
    pub fn get(&mut self, key: K) -> (result: Option<V>)
        requires
            old(self).wf(),
        ensures
            final(self).wf(),
            final(self)@ == old(self)@.get(key),
            result == old(self)@.get_result(key),
    {
        proof {
            self.lemma_wf();
        }
        let found = match self.cache.get(&key) {
            Some(i) => Some(*i),
            None => None,
        };
        match found {
            Some(i) => {
                proof {
                    self.lemma_rank(key);
                }
                self.touch(i);
                Some(self.nodes[i].value)
            },
            None => None,
        }
    }

    /// Stores `value` under `key` and makes the entry the one used last. If
    /// the key is new and the cache is full, the entry used longest ago
    /// leaves first.
    pub fn put(&mut self, key: K, value: V)
        requires
            old(self).wf(),
        ensures
            final(self).wf(),
            final(self)@ == old(self)@.put(key, value),
    {
        let ghost pre = *self;
        let ghost n = self.nodes@.len() as int;
        proof {
            self.lemma_wf();
        }
        let found = match self.cache.get(&key) {
            Some(i) => Some(*i),
            None => None,
        };
        match found {
            Some(i) => {
                proof {
                    self.lemma_rank(key);
                }
                self.nodes[i].value = value;
                proof {
                    assert forall|p: int| 0 <= p < n implies #[trigger] self.linked(p) by {
                        assert(pre.linked(p));
                    }
                    assert forall|j: int| 0 <= j < n implies #[trigger] self.indexed(j) by {
                        assert(pre.indexed(j));
                    }
                    assert forall|j: int| 0 <= j < n implies #[trigger] self.listed(j) by {
                        assert(pre.listed(j));
                        let r = choose|r: int| pre.placed(j, r);
                        assert(pre.placed(j, r));
                        assert(self.placed(j, r));
                    }
                    assert(self.wf());
                    assert(self.placed(i as int, pre.rank(i as int)));
                    self.lemma_rank(key);
                    assert(self.rank(i as int) == pre.rank(i as int)) by {
                        let a = self.rank(i as int);
                        let b = pre.rank(i as int);
                        if a < b {
                            assert(self.order@[a] != self.order@[b]);
                        } else if b < a {
                            assert(self.order@[b] != self.order@[a]);
                        }
                    }
                    assert(self@.entries =~= pre@.entries.update(pre@.position(key), (key, value)));
                }
                self.touch(i);
                proof {
                    assert(self@.entries =~= pre@.put(key, value).entries);
                }
            },
            None => {
                let len = self.nodes.len();
                if len >= self.capacity && len > 0 {
                    let oldest = match self.head {
                        Some(h) => h,
                        None => {
                            return ;
                        },
                    };
                    let gone = self.nodes[oldest].key;
                    proof {
                        assert(pre.indexed(oldest as int));
                    }
                    self.cache.remove(&gone);
                    self.nodes[oldest].key = key;
                    self.nodes[oldest].value = value;
                    self.cache.insert(key, oldest);
                    proof {
                        assert forall|p: int| 0 <= p < n implies #[trigger] self.linked(p) by {
                            assert(pre.linked(p));
                        }
                        assert forall|j: int| 0 <= j < n implies #[trigger] self.indexed(j) by {
                            assert(pre.indexed(j));
                        }
                        assert forall|j: int| 0 <= j < n implies #[trigger] self.listed(j) by {
                            assert(pre.listed(j));
                            let r = choose|r: int| pre.placed(j, r);
                            assert(pre.placed(j, r));
                            assert(self.placed(j, r));
                        }
                        assert(self.wf());
                        assert(self.placed(oldest as int, 0));
                        assert(self.rank(oldest as int) == 0) by {
                            let a = self.rank(oldest as int);
                            assert(self.listed(oldest as int));
                            assert(self.placed(oldest as int, a));
                            if a > 0 {
                                assert(self.order@[0] != self.order@[a]);
                            }
                        }
                        assert(self@.entries =~= pre@.entries.update(0, (key, value)));
                    }
                    self.touch(oldest);
                    proof {
                        assert(self@.entries =~= pre@.put(key, value).entries);
                    }
                } else {
                    let node = LruNode { key, value, prev: self.tail, next: None };
                    match self.tail {
                        Some(t) => {
                            proof {
                                assert(pre.linked(n - 1));
                            }
                            self.nodes[t].next = Some(len);
                        },
                        None => {
                            self.head = Some(len);
                        },
                    }
                    self.nodes.push(node);
                    self.tail = Some(len);
                    self.cache.insert(key, len);
                    proof {
                        self.order = Ghost(pre.order@.push(len));
                        assert forall|p: int| 0 <= p < n + 1 implies #[trigger] self.linked(p) by {
                            if p < n {
                                assert(pre.linked(p));
                            }
                        }
                        assert forall|j: int| 0 <= j < n + 1 implies #[trigger] self.indexed(j) by {
                            if j < n {
                                assert(pre.indexed(j));
                            }
                        }
                        assert forall|j: int| 0 <= j < n + 1 implies #[trigger] self.listed(j) by {
                            if j < n {
                                assert(pre.listed(j));
                                let r = choose|r: int| pre.placed(j, r);
                                assert(pre.placed(j, r));
                                assert(self.placed(j, r));
                            } else {
                                assert(self.placed(j, n));
                            }
                        }
                        assert(self@.entries =~= pre@.put(key, value).entries);
                    }
                }
            },
        }
    }
}

impl<K: Hash + Eq + Copy, V: Copy> LRUCache<K, V> {
    /// Whether the cache has an entry for `key`. The order of use stays as
    /// it is.
    pub fn contains(&self, key: K) -> (found: bool)
        requires
            self.wf(),
        ensures
            found == self@.contains(key),
    {
        proof {
            self.lemma_wf();
        }
        self.cache.contains_key(&key)
    }

    /// The key of the entry used longest ago, if the cache has an entry.
    pub fn oldest(&self) -> (key: Option<K>)
        requires
            self.wf(),
        ensures
            key == self@.oldest(),
    {
        match self.head {
            Some(h) => Some(self.nodes[h].key),
            None => None,
        }
    }

    /// The number that node `x` goes by once the last node has taken the
    /// place of node `i`.
    spec fn renamed(x: usize, i: int, last: int) -> usize {
        if x == last {
            i as usize
        } else {
            x
        }
    }

    /// A link after that renaming.
    spec fn renamed_link(link: Option<usize>, i: int, last: int) -> Option<usize> {
        match link {
            Some(x) => Some(Self::renamed(x, i, last)),
            None => None,
        }
    }

    /// `post` is `pre` without the node `i` at place `pos`: its neighbours
    /// are linked to each other, and the last node of the arena has moved
    /// into its place.
    spec fn removed(pre: &Self, post: &Self, i: int, pos: int) -> bool {
        let n = pre.nodes@.len() as int;
        let last = n - 1;
        let order = pre.order@;
        let gone = pre.nodes@[i];
        &&& post.capacity == pre.capacity
        &&& post.nodes@.len() == n - 1
        &&& post.order@ == Seq::new(
            (n - 1) as nat,
            |p: int| Self::renamed(order.remove(pos)[p], i, last),
        )
        &&& post.cache@ == (if i != last {
            pre.cache@.remove(gone.key).insert(pre.nodes@[last].key, i as usize)
        } else {
            pre.cache@.remove(gone.key)
        })
        &&& post.head == Self::renamed_link(
            if pos == 0 {
                gone.next
            } else {
                pre.head
            },
            i,
            last,
        )
        &&& post.tail == Self::renamed_link(
            if pos == n - 1 {
                gone.prev
            } else {
                pre.tail
            },
            i,
            last,
        )
        &&& forall|j: int|
            0 <= j < n - 1 ==> {
                let x = if j == i {
                    last
                } else {
                    j
                };
                &&& (#[trigger] post.nodes@[j]).key == pre.nodes@[x].key
                &&& post.nodes@[j].value == pre.nodes@[x].value
                &&& post.nodes@[j].prev == Self::renamed_link(
                    if pos + 1 < n && x == order[pos + 1] {
                        gone.prev
                    } else {
                        pre.nodes@[x].prev
                    },
                    i,
                    last,
                )
                &&& post.nodes@[j].next == Self::renamed_link(
                    if pos > 0 && x == order[pos - 1] {
                        gone.next
                    } else {
                        pre.nodes@[x].next
                    },
                    i,
                    last,
                )
            }
    }

    /// The place in the old order of the node at place `p` of the order
    /// from which place `pos` was taken out.
    spec fn before_removal(p: int, pos: int) -> int {
        if p < pos {
            p
        } else {
            p + 1
        }
    }

    /// The node at place `p` is linked to its neighbours after a removal.
    proof fn lemma_removed_linked(pre: &Self, post: &Self, i: int, pos: int, p: int)
        requires
            pre.wf(),
            pre.placed(i, pos),
            Self::removed(pre, post, i, pos),
            0 <= p < pre.nodes@.len() - 1,
        ensures
            post.linked(p),
            0 <= post.order@[p] < pre.nodes@.len() - 1,
            post.order@[p] == Self::renamed(
                pre.order@[Self::before_removal(p, pos)],
                i,
                pre.nodes@.len() - 1,
            ),
            pre.order@[Self::before_removal(p, pos)] != i,
            post.nodes@[post.order@[p] as int].key == pre.nodes@[pre.order@[Self::before_removal(
                p,
                pos,
            )] as int].key,
            post.nodes@[post.order@[p] as int].value == pre.nodes@[pre.order@[Self::before_removal(
                p,
                pos,
            )] as int].value,
    {
        let n = pre.nodes@.len() as int;
        let last = n - 1;
        let order = pre.order@;
        let o = Self::before_removal(p, pos);
        let x = order[o];
        assert(order.remove(pos)[p] == x);
        assert(order[o] != order[pos]);
        assert(pre.linked(o));
        assert(pre.linked(pos));
        let j = Self::renamed(x, i, last) as int;
        assert(post.order@[p] == j);
        assert(0 <= j < n - 1);
        assert((if j == i {
            last
        } else {
            j
        }) == x);
        if p > 0 {
            let ob = Self::before_removal(p - 1, pos);
            assert(order.remove(pos)[p - 1] == order[ob]);
            assert(post.order@[p - 1] == Self::renamed(order[ob], i, last));
        }
        if p < n - 2 {
            let oa = Self::before_removal(p + 1, pos);
            assert(order.remove(pos)[p + 1] == order[oa]);
            assert(post.order@[p + 1] == Self::renamed(order[oa], i, last));
        }
        if pos + 1 < n && o != pos + 1 {
            assert(order[o] != order[pos + 1]);
        }
        if pos > 0 && o != pos - 1 {
            assert(order[o] != order[pos - 1]);
        }
    }

    /// The cache is well formed after a removal and has lost the entry at
    /// place `pos`.
    proof fn lemma_removed(pre: &Self, post: &Self, i: int, pos: int)
        requires
            pre.wf(),
            pre.placed(i, pos),
            Self::removed(pre, post, i, pos),
        ensures
            post.wf(),
            post@.entries == pre@.entries.remove(pos),
            post@.capacity == pre@.capacity,
    {
        let n = pre.nodes@.len() as int;
        let last = n - 1;
        let order = pre.order@;
        let m = n - 1;
        assert forall|p: int| 0 <= p < m implies 0 <= #[trigger] post.order@[p] < m by {
            Self::lemma_removed_linked(pre, post, i, pos, p);
        }
        assert forall|p: int, q: int| 0 <= p < q < m implies post.order@[p] != post.order@[q] by {
            Self::lemma_removed_linked(pre, post, i, pos, p);
            Self::lemma_removed_linked(pre, post, i, pos, q);
            assert(order[Self::before_removal(p, pos)] != order[Self::before_removal(q, pos)]);
        }
        assert forall|j: int| 0 <= j < m implies #[trigger] post.listed(j) by {
            let x = if j == i {
                last
            } else {
                j
            };
            assert(pre.listed(x));
            let r = choose|r: int| pre.placed(x, r);
            assert(pre.placed(x, r));
            assert(r != pos);
            let p = if r < pos {
                r
            } else {
                r - 1
            };
            Self::lemma_removed_linked(pre, post, i, pos, p);
            assert(post.placed(j, p));
        }
        assert forall|p: int| 0 <= p < m implies #[trigger] post.linked(p) by {
            Self::lemma_removed_linked(pre, post, i, pos, p);
        }
        assert forall|j: int| 0 <= j < m implies #[trigger] post.indexed(j) by {
            let x = if j == i {
                last
            } else {
                j
            };
            assert(pre.indexed(x));
            assert(pre.indexed(j));
            assert(pre.indexed(i));
            assert(pre.indexed(last));
        }
        assert forall|k: K| #[trigger] post.cache@.contains_key(k) implies post.cache@[k] < m
            && post.nodes@[post.cache@[k] as int].key == k by {
            assert(pre.indexed(i));
            assert(pre.indexed(last));
            if i != last && k == pre.nodes@[last].key {
            } else {
                assert(pre.cache@.contains_key(k));
                let x = pre.cache@[k] as int;
                assert(x != i);
                if x == last {
                    assert(pre.nodes@[last].key == k);
                }
            }
        }
        assert(pre.linked(pos));
        assert(pre.linked(0));
        assert(pre.linked(n - 1));
        if m > 0 {
            Self::lemma_removed_linked(pre, post, i, pos, 0);
            Self::lemma_removed_linked(pre, post, i, pos, m - 1);
        }
        assert forall|p: int| 0 <= p < m implies post@.entries[p] == pre@.entries.remove(pos)[p] by {
            Self::lemma_removed_linked(pre, post, i, pos, p);
        }
        assert(post@.entries =~= pre@.entries.remove(pos));
    }

    /// `mid` is `pre` with the node `i` at place `pos` linked out: its
    /// neighbours point at each other, and its key is gone from the table.
    spec fn unlinked(pre: &Self, mid: &Self, i: int, pos: int) -> bool {
        let n = pre.nodes@.len() as int;
        let order = pre.order@;
        let gone = pre.nodes@[i];
        &&& mid.capacity == pre.capacity
        &&& mid.nodes@.len() == n
        &&& mid.cache@ == pre.cache@.remove(gone.key)
        &&& mid.head == (if pos == 0 {
            gone.next
        } else {
            pre.head
        })
        &&& mid.tail == (if pos == n - 1 {
            gone.prev
        } else {
            pre.tail
        })
        &&& forall|j: int|
            0 <= j < n ==> {
                &&& (#[trigger] mid.nodes@[j]).key == pre.nodes@[j].key
                &&& mid.nodes@[j].value == pre.nodes@[j].value
                &&& mid.nodes@[j].prev == (if pos + 1 < n && j == order[pos + 1] {
                    gone.prev
                } else {
                    pre.nodes@[j].prev
                })
                &&& mid.nodes@[j].next == (if pos > 0 && j == order[pos - 1] {
                    gone.next
                } else {
                    pre.nodes@[j].next
                })
            }
    }

    /// `post` is `mid` after its last node moved into the place of node
    /// `i`, which is not the last: the neighbours of the last node point at
    /// `i`, and the table finds its key there.
    spec fn refilled(mid: &Self, post: &Self, i: int) -> bool {
        let n = mid.nodes@.len() as int;
        let moved = mid.nodes@[n - 1];
        &&& post.capacity == mid.capacity
        &&& post.nodes@.len() == n - 1
        &&& post.cache@ == mid.cache@.insert(moved.key, i as usize)
        &&& post.head == (if moved.prev.is_none() {
            Some(i as usize)
        } else {
            mid.head
        })
        &&& post.tail == (if moved.next.is_none() {
            Some(i as usize)
        } else {
            mid.tail
        })
        &&& post.nodes@[i].key == moved.key
        &&& post.nodes@[i].value == moved.value
        &&& post.nodes@[i].prev == moved.prev
        &&& post.nodes@[i].next == moved.next
        &&& forall|j: int|
            0 <= j < n - 1 && j != i ==> {
                &&& (#[trigger] post.nodes@[j]).key == mid.nodes@[j].key
                &&& post.nodes@[j].value == mid.nodes@[j].value
                &&& post.nodes@[j].prev == (if moved.next == Some(j as usize) {
                    Some(i as usize)
                } else {
                    mid.nodes@[j].prev
                })
                &&& post.nodes@[j].next == (if moved.prev == Some(j as usize) {
                    Some(i as usize)
                } else {
                    mid.nodes@[j].next
                })
            }
    }

    /// `post` is `mid` without its last node, which is the node that was
    /// linked out.
    spec fn shortened(mid: &Self, post: &Self) -> bool {
        let n = mid.nodes@.len() as int;
        &&& post.capacity == mid.capacity
        &&& post.nodes@.len() == n - 1
        &&& post.cache@ == mid.cache@
        &&& post.head == mid.head
        &&& post.tail == mid.tail
        &&& forall|j: int| 0 <= j < n - 1 ==> #[trigger] post.nodes@[j] == mid.nodes@[j]
    }

    /// Linking a node out and filling its place with the last node is a
    /// removal.
    proof fn lemma_unlinked_refilled(pre: &Self, mid: &Self, post: &Self, i: int, pos: int)
        requires
            pre.wf(),
            pre.placed(i, pos),
            Self::unlinked(pre, mid, i, pos),
            i != pre.nodes@.len() - 1 ==> Self::refilled(mid, post, i),
            i == pre.nodes@.len() - 1 ==> Self::shortened(mid, post),
            post.order@ == Seq::new(
                (pre.nodes@.len() - 1) as nat,
                |p: int| Self::renamed(pre.order@.remove(pos)[p], i, pre.nodes@.len() - 1),
            ),
        ensures
            Self::removed(pre, post, i, pos),
    {
        let n = pre.nodes@.len() as int;
        let last = n - 1;
        let order = pre.order@;
        let gone = pre.nodes@[i];
        assert(pre.linked(pos));
        assert(pre.listed(last));
        let rl = pre.rank(last);
        assert(pre.placed(last, rl));
        assert(pre.linked(rl));
        assert(pre.linked(0));
        assert(pre.linked(n - 1));
        if pos > 0 {
            assert(order[pos - 1] != order[pos]);
        }
        if pos + 1 < n {
            assert(order[pos] != order[pos + 1]);
        }
        if rl != pos {
            assert(order[rl] != order[pos]);
        }
        assert forall|j: int| 0 <= j < n - 1 implies {
            let x = if j == i {
                last
            } else {
                j
            };
            &&& (#[trigger] post.nodes@[j]).key == pre.nodes@[x].key
            &&& post.nodes@[j].value == pre.nodes@[x].value
            &&& post.nodes@[j].prev == Self::renamed_link(
                if pos + 1 < n && x == order[pos + 1] {
                    gone.prev
                } else {
                    pre.nodes@[x].prev
                },
                i,
                last,
            )
            &&& post.nodes@[j].next == Self::renamed_link(
                if pos > 0 && x == order[pos - 1] {
                    gone.next
                } else {
                    pre.nodes@[x].next
                },
                i,
                last,
            )
        } by {
            let x = if j == i {
                last
            } else {
                j
            };
            assert(pre.listed(x));
            let r = pre.rank(x);
            assert(pre.placed(x, r));
            assert(pre.linked(r));
            assert(r != pos);
            assert(order[r] != order[pos]);
            if r > 0 {
                assert(order[r - 1] != order[r]);
                assert(pre.linked(r - 1));
            }
            if r + 1 < n {
                assert(order[r] != order[r + 1]);
                assert(pre.linked(r + 1));
            }
            if pos > 0 && r != pos - 1 {
                assert(order[r] != order[pos - 1]);
            }
            if pos + 1 < n && r != pos + 1 {
                assert(order[r] != order[pos + 1]);
            }
            if r != rl {
                assert(order[r] != order[rl]);
            }
            if rl > 0 && r != rl - 1 {
                assert(order[r] != order[rl - 1]);
            }
            if rl + 1 < n && r != rl + 1 {
                assert(order[r] != order[rl + 1]);
            }
            if pos > 0 && rl != pos - 1 {
                assert(order[rl] != order[pos - 1]);
            }
            if pos + 1 < n && rl != pos + 1 {
                assert(order[rl] != order[pos + 1]);
            }
            if pos > 0 && pos + 1 < n {
                assert(order[pos - 1] != order[pos + 1]);
            }
        }
        if pos > 0 && rl != pos - 1 {
            assert(order[rl] != order[pos - 1]);
        }
        if pos + 1 < n && rl != pos + 1 {
            assert(order[rl] != order[pos + 1]);
        }
        if rl != 0 {
            assert(order[0] != order[rl]);
        }
        if rl != n - 1 {
            assert(order[rl] != order[n - 1]);
        }
        if pos != 0 {
            assert(order[0] != order[pos]);
        }
        if pos != n - 1 {
            assert(order[pos] != order[n - 1]);
        }
    }

    /// Takes the entry for `key` out of the cache and returns its value, if
    /// there is one. The order of use of the other entries stays as it is.
    pub fn remove(&mut self, key: K) -> (result: Option<V>)
        requires
            old(self).wf(),
        ensures
            final(self).wf(),
            final(self)@ == old(self)@.remove(key),
            result == old(self)@.get_result(key),
    {
        let ghost pre = *self;
        let ghost n = self.nodes@.len() as int;
        let ghost order = self.order@;
        proof {
            self.lemma_wf();
        }
        let found = match self.cache.get(&key) {
            Some(i) => Some(*i),
            None => None,
        };
        let i = match found {
            Some(i) => i,
            None => {
                return None;
            },
        };
        let ghost pos = self.rank(i as int);
        proof {
            self.lemma_rank(key);
            assert(self.linked(pos));
            if pos > 0 {
                assert(order[pos - 1] != order[pos]);
            }
            if pos + 1 < n {
                assert(order[pos] != order[pos + 1]);
            }
            if pos > 0 && pos + 1 < n {
                assert(order[pos - 1] != order[pos + 1]);
            }
        }
        let value = self.nodes[i].value;
        let prev = self.nodes[i].prev;
        let next = self.nodes[i].next;
        match prev {
            Some(b) => {
                self.nodes[b].next = next;
            },
            None => {
                self.head = next;
            },
        }
        match next {
            Some(a) => {
                self.nodes[a].prev = prev;
            },
            None => {
                self.tail = prev;
            },
        }
        self.cache.remove(&key);
        let ghost mid = *self;
        proof {
            assert(Self::unlinked(&pre, &mid, i as int, pos));
            if i != n - 1 {
                assert(pre.listed(n - 1));
                let rl = pre.rank(n - 1);
                assert(pre.placed(n - 1, rl));
                assert(pre.linked(rl));
                assert(order[rl] != order[pos]);
                if rl > 0 {
                    assert(order[rl - 1] != order[rl]);
                }
                if rl + 1 < n {
                    assert(order[rl] != order[rl + 1]);
                }
                if pos > 0 && rl != pos - 1 {
                    assert(order[rl] != order[pos - 1]);
                }
                if pos + 1 < n && rl != pos + 1 {
                    assert(order[rl] != order[pos + 1]);
                }
                if rl > 0 && rl - 1 != pos {
                    assert(order[rl - 1] != order[pos]);
                }
                if rl + 1 < n && rl + 1 != pos {
                    assert(order[rl + 1] != order[pos]);
                }
            }
        }
        self.fill(i);
        proof {
            self.order = Ghost(
                Seq::new(
                    (n - 1) as nat,
                    |p: int| Self::renamed(order.remove(pos)[p], i as int, n - 1),
                ),
            );
            Self::lemma_unlinked_refilled(&pre, &mid, self, i as int, pos);
            Self::lemma_removed(&pre, self, i as int, pos);
        }
        Some(value)
    }

    /// Moves the last node of the arena into the place of node `i`, which
    /// is linked out, and shortens the arena by one.
    fn fill(&mut self, i: usize)
        requires
            i < old(self).nodes@.len(),
            obeys_key_model::<K>(),
            i != old(self).nodes@.len() - 1 ==> {
                let moved = old(self).nodes@[old(self).nodes@.len() - 1];
                &&& moved.prev.is_some() ==> moved.prev.unwrap() < old(self).nodes@.len() - 1
                    && moved.prev.unwrap() != i
                &&& moved.next.is_some() ==> moved.next.unwrap() < old(self).nodes@.len() - 1
                    && moved.next.unwrap() != i
            },
        ensures
            final(self).order@ == old(self).order@,
            i != old(self).nodes@.len() - 1 ==> Self::refilled(old(self), final(self), i as int),
            i == old(self).nodes@.len() - 1 ==> Self::shortened(old(self), final(self)),
    {
        let last = self.nodes.len() - 1;
        if i != last {
            let moved_key = self.nodes[last].key;
            let moved_value = self.nodes[last].value;
            let mprev = self.nodes[last].prev;
            let mnext = self.nodes[last].next;
            match mprev {
                Some(b) => {
                    self.nodes[b].next = Some(i);
                },
                None => {
                    self.head = Some(i);
                },
            }
            match mnext {
                Some(a) => {
                    self.nodes[a].prev = Some(i);
                },
                None => {
                    self.tail = Some(i);
                },
            }
            self.nodes[i] = LruNode { key: moved_key, value: moved_value, prev: mprev, next: mnext };
            self.cache.insert(moved_key, i);
        }
        self.nodes.pop();
    }
}

} // verus!
