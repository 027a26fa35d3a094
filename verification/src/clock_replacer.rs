//! The CLOCK page-replacement policy: a ring of slots, a reference counter
//! per slot and a hand that sweeps the ring for a victim.

use crate::error::PoolError;
use vstd::prelude::*;

verus! {

/// What the policy has to know of an entry that it tracks.
pub trait Evictable<T> {
    /// The entry that `new` makes for `id`.
    spec fn node_for(id: usize) -> T;

    /// Whether the entry may not be evicted.
    spec fn is_pinned(&self) -> bool;

    /// The id that the entry is found by.
    spec fn ident(&self) -> usize;

    fn new(id: usize) -> (node: T)
        ensures
            node == Self::node_for(id),
    ;

    fn pinned(&self) -> (p: bool)
        ensures
            p == self.is_pinned(),
    ;

    fn id(&self) -> (i: usize)
        ensures
            i == self.ident(),
    ;
}

/// An entry that is never pinned and keeps the low eight bits of its id.
impl Evictable<u8> for u8 {
    open spec fn node_for(id: usize) -> u8 {
        id as u8
    }

    open spec fn is_pinned(&self) -> bool {
        false
    }

    open spec fn ident(&self) -> usize {
        *self as usize
    }

    fn new(id: usize) -> (node: u8) {
        #[verifier::truncate]
        (id as u8)
    }

    fn pinned(&self) -> (p: bool) {
        false
    }

    fn id(&self) -> (i: usize) {
        *self as usize
    }
}

/// The entry that the buffer pool tracks for a resident page.
#[derive(Clone, Copy, Debug, PartialEq, Eq, Structural)]
pub struct ReplacerNode {
    pub page_id: usize,
    pub evictable: bool,
}

impl Evictable<ReplacerNode> for ReplacerNode {
    open spec fn node_for(id: usize) -> ReplacerNode {
        ReplacerNode { page_id: id, evictable: true }
    }

    open spec fn is_pinned(&self) -> bool {
        !self.evictable
    }

    open spec fn ident(&self) -> usize {
        self.page_id
    }

    fn new(id: usize) -> (node: ReplacerNode) {
        ReplacerNode { page_id: id, evictable: true }
    }

    fn pinned(&self) -> (p: bool) {
        !self.evictable
    }

    fn id(&self) -> (i: usize) {
        self.page_id
    }
}

/// The ring as a mathematical value: what each slot holds, each slot's
/// reference counter, and where the hand stands.
pub struct ClockState<T> {
    pub slots: Seq<Option<T>>,
    pub refs: Seq<u8>,
    pub hand: int,
}

/// How an access to the ring ended.
pub enum ClockOutcome {
    /// The id was there: the slot's counter went up.
    Hit { slot: int },
    /// The id went into a slot that was free.
    Filled { slot: int },
    /// The id took the place of the entry in this slot.
    Evicted { slot: int },
    /// The ring is full and every entry is pinned.
    Stuck,
}

impl<T: Evictable<T>> ClockState<T> {
    /// One counter per slot, the hand on the ring or just past its end, and
    /// the used slots before the free ones.
    pub open spec fn wf(self) -> bool {
        &&& self.refs.len() == self.slots.len()
        &&& 0 <= self.hand <= self.slots.len()
        &&& forall|i: int, j: int|
            0 <= i < j < self.slots.len() && (#[trigger] self.slots[j]).is_some() ==> (
            #[trigger] self.slots[i]).is_some()
    }

    /// No two slots hold the same id.
    pub open spec fn distinct(self) -> bool {
        forall|i: int, j: int|
            0 <= i < self.slots.len() && 0 <= j < self.slots.len() && i != j && (
            #[trigger] self.slots[i]).is_some() && (#[trigger] self.slots[j]).is_some()
                ==> self.slots[i].unwrap().ident() != self.slots[j].unwrap().ident()
    }

    /// Slot `i` holds the entry for `id`.
    pub open spec fn holds_at(self, i: int, id: usize) -> bool {
        &&& 0 <= i < self.slots.len()
        &&& self.slots[i].is_some()
        &&& self.slots[i].unwrap().ident() == id
    }

    /// Some slot holds the entry for `id`.
    pub open spec fn tracks(self, id: usize) -> bool {
        exists|i: int| self.holds_at(i, id)
    }

    /// Slot `i` is free.
    pub open spec fn free_at(self, i: int) -> bool {
        0 <= i < self.slots.len() && self.slots[i].is_none()
    }

    /// Slot `i` holds an entry that may be evicted.
    pub open spec fn unpinned_at(self, i: int) -> bool {
        &&& 0 <= i < self.slots.len()
        &&& self.slots[i].is_some()
        &&& !self.slots[i].unwrap().is_pinned()
    }

    /// A look-up of `id` goes no further than slot `i`: the slot is free or
    /// holds `id`.
    pub open spec fn stops_at(self, i: int, id: usize) -> bool {
        self.free_at(i) || self.holds_at(i, id)
    }

    /// Slot `k` is where a look-up of `id` ends: the first slot that is free
    /// or holds `id`.
    pub open spec fn is_landing(self, k: int, id: usize) -> bool {
        &&& self.stops_at(k, id)
        &&& forall|j: int| 0 <= j < k ==> !#[trigger] self.stops_at(j, id)
    }

    /// How many slots the hand passes on its way to slot `i`.
    pub open spec fn dist(self, i: int) -> int {
        let h = if self.hand >= self.slots.len() {
            0
        } else {
            self.hand
        };
        if i >= h {
            i - h
        } else {
            i - h + self.slots.len()
        }
    }

    /// The sweep reaches slot `i` with its counter used up before it does so
    /// for slot `j`: `i` has the smaller counter, or the same counter and
    /// comes first after the hand.
    pub open spec fn due_before(self, i: int, j: int) -> bool {
        self.refs[i] < self.refs[j] || (self.refs[i] == self.refs[j] && self.dist(i) < self.dist(
            j,
        ))
    }

    /// Slot `q` is the one that a sweep evicts: it may be evicted, and it is
    /// due before every other slot that may be.
    pub open spec fn is_victim(self, q: int) -> bool {
        &&& self.unpinned_at(q)
        &&& forall|i: int| #[trigger] self.unpinned_at(i) && i != q ==> self.due_before(q, i)
    }

    /// What an access to `id` does.
    pub open spec fn outcome(self, id: usize) -> ClockOutcome {
        if exists|k: int| self.is_landing(k, id) {
            let k = choose|k: int| self.is_landing(k, id);
            if self.slots[k].is_some() {
                ClockOutcome::Hit { slot: k }
            } else {
                ClockOutcome::Filled { slot: k }
            }
        } else if exists|q: int| self.is_victim(q) {
            ClockOutcome::Evicted { slot: choose|q: int| self.is_victim(q) }
        } else {
            ClockOutcome::Stuck
        }
    }

    /// The ring after a hit on slot `k`: the hand moves there and the
    /// counter goes up by one unless it is at its maximum.
    pub open spec fn touch(self, k: int) -> Self {
        ClockState {
            slots: self.slots,
            refs: self.refs.update(
                k,
                if self.refs[k] < u8::MAX {
                    (self.refs[k] + 1) as u8
                } else {
                    self.refs[k]
                },
            ),
            hand: k,
        }
    }

    /// The ring after `node` went into the free slot `k`.
    pub open spec fn fill(self, k: int, node: T) -> Self {
        ClockState { slots: self.slots.update(k, Some(node)), refs: self.refs, hand: self.hand }
    }

    /// The counter of slot `j` after a sweep that evicted slot `q`: every
    /// counter went down by the victim's counter, and by one more for the
    /// slots that the hand passed on its last round, but not below zero.
    pub open spec fn swept_ref(self, q: int, j: int) -> u8 {
        let passes = self.refs[q] + if self.dist(j) < self.dist(q) {
            1int
        } else {
            0int
        };
        if self.refs[j] >= passes {
            (self.refs[j] - passes) as u8
        } else {
            0u8
        }
    }

    /// The ring after a sweep evicted slot `q` for `node`: the hand stands
    /// behind the victim's slot.
    pub open spec fn evict(self, q: int, node: T) -> Self {
        ClockState {
            slots: self.slots.update(q, Some(node)),
            refs: Seq::new(self.refs.len(), |j: int| self.swept_ref(q, j)),
            hand: q + 1,
        }
    }

    /// The ring after an access to `id`.
    pub open spec fn access(self, id: usize) -> Self {
        match self.outcome(id) {
            ClockOutcome::Hit { slot } => self.touch(slot),
            ClockOutcome::Filled { slot } => self.fill(slot, T::node_for(id)),
            ClockOutcome::Evicted { slot } => self.evict(slot, T::node_for(id)),
            ClockOutcome::Stuck => self,
        }
    }

    /// What an access to `id` hands back: the evicted entry, if there was one.
    pub open spec fn access_result(self, id: usize) -> Result<Option<T>, PoolError> {
        match self.outcome(id) {
            ClockOutcome::Hit { slot } => Ok(None),
            ClockOutcome::Filled { slot } => Ok(None),
            ClockOutcome::Evicted { slot } => Ok(Some(self.slots[slot].unwrap())),
            ClockOutcome::Stuck => Err(PoolError::CapacityExhausted),
        }
    }

    /// A look-up ends in at most one slot.
    pub proof fn lemma_landing_unique(self, k1: int, k2: int, id: usize)
        requires
            self.is_landing(k1, id),
            self.is_landing(k2, id),
        ensures
            k1 == k2,
    {
        if k1 < k2 {
            assert(!self.stops_at(k1, id));
        } else if k2 < k1 {
            assert(!self.stops_at(k2, id));
        }
    }

    /// An access keeps the ring well formed and its size.
    pub proof fn lemma_access_wf(self, id: usize)
        requires
            self.wf(),
        ensures
            self.access(id).wf(),
            self.access(id).slots.len() == self.slots.len(),
    {
        let after = self.access(id);
        match self.outcome(id) {
            ClockOutcome::Hit { slot } => {
                let k = choose|k: int| self.is_landing(k, id);
                assert(self.stops_at(k, id));
            },
            ClockOutcome::Filled { slot } => {
                let k = choose|k: int| self.is_landing(k, id);
                assert(self.stops_at(k, id));
                assert forall|a: int, b: int|
                    0 <= a < b < after.slots.len() && (#[trigger] after.slots[b]).is_some() implies (
                #[trigger] after.slots[a]).is_some() by {
                    if a < k {
                        assert(!self.stops_at(a, id));
                    } else if a > k {
                        assert(self.slots[b].is_some());
                        assert(self.slots[a].is_some());
                    }
                }
            },
            ClockOutcome::Evicted { slot } => {
                let q = choose|q: int| self.is_victim(q);
                assert(self.unpinned_at(q));
                assert forall|a: int, b: int|
                    0 <= a < b < after.slots.len() && (#[trigger] after.slots[b]).is_some() implies (
                #[trigger] after.slots[a]).is_some() by {
                    if a != q {
                        if b != q {
                            assert(self.slots[b].is_some());
                        }
                        assert(self.slots[q].is_some());
                        assert(self.slots[a].is_some());
                    }
                }
            },
            ClockOutcome::Stuck => {},
        }
    }

    /// Among the slots below `m` that may be evicted, the one that is due
    /// before the others.
    pub open spec fn first_due(self, m: int) -> int
        decreases m,
    {
        if m <= 0 {
            -1
        } else {
            let best = self.first_due(m - 1);
            if !self.unpinned_at(m - 1) {
                best
            } else if best < 0 || self.due_before(m - 1, best) {
                m - 1
            } else {
                best
            }
        }
    }

    /// `first_due(m)` is a slot below `m` that may be evicted and is due
    /// before every other such slot, if there is one at all.
    pub proof fn lemma_first_due(self, m: int)
        requires
            self.wf(),
            0 <= m <= self.slots.len(),
        ensures
            -1 <= self.first_due(m) < m,
            self.first_due(m) >= 0 ==> self.unpinned_at(self.first_due(m)),
            forall|i: int|
                0 <= i < m && #[trigger] self.unpinned_at(i) ==> self.first_due(m) >= 0 && (i
                    == self.first_due(m) || self.due_before(self.first_due(m), i)),
        decreases m,
    {
        if m > 0 {
            self.lemma_first_due(m - 1);
            let best = self.first_due(m - 1);
            let now = self.first_due(m);
            assert forall|i: int| 0 <= i < m && #[trigger] self.unpinned_at(i) implies now >= 0
                && (i == now || self.due_before(now, i)) by {
                if i < m - 1 {
                    assert(best >= 0);
                    assert(i == best || self.due_before(best, i));
                }
            }
        }
    }

    /// Where a slot may be evicted, a sweep finds a victim.
    pub proof fn lemma_victim_exists(self, i: int)
        requires
            self.wf(),
            self.unpinned_at(i),
        ensures
            exists|q: int| self.is_victim(q),
    {
        self.lemma_first_due(self.slots.len() as int);
        let q = self.first_due(self.slots.len() as int);
        assert(self.is_victim(q));
    }

    /// With every counter the same and the slot under the hand unpinned,
    /// that slot is the victim: the hand takes the first slot that it meets.
    pub proof fn lemma_victim_under_hand(self)
        requires
            self.wf(),
            self.slots.len() > 0,
            forall|i: int, j: int|
                0 <= i < self.slots.len() && 0 <= j < self.slots.len() ==> self.refs[i]
                    == self.refs[j],
            self.unpinned_at(if self.hand >= self.slots.len() {
                0
            } else {
                self.hand
            }),
        ensures
            self.is_victim(if self.hand >= self.slots.len() {
                0
            } else {
                self.hand
            }),
    {
    }

    /// A sweep has at most one victim.
    pub proof fn lemma_victim_unique(self, q1: int, q2: int)
        requires
            self.is_victim(q1),
            self.is_victim(q2),
        ensures
            q1 == q2,
    {
        if q1 != q2 {
            assert(self.due_before(q1, q2));
            assert(self.due_before(q2, q1));
        }
    }
}

impl ClockState<ReplacerNode> {
    /// The ring after every entry for `id` was made evictable or not.
    pub open spec fn with_evictable(self, id: usize, evictable: bool) -> Self {
        ClockState {
            slots: Seq::new(
                self.slots.len(),
                |i: int|
                    if self.holds_at(i, id) {
                        Some(ReplacerNode { page_id: id, evictable })
                    } else {
                        self.slots[i]
                    },
            ),
            refs: self.refs,
            hand: self.hand,
        }
    }
}

/// The CLOCK replacement policy over entries of type `T`.
pub struct Replacer<T> where T: Evictable<T> {
    size: usize,
    node_store: Vec<Option<T>>,
    ref_bits: Vec<u8>,
    ref_pos: usize,
}

impl<T: Evictable<T>> View for Replacer<T> {
    type V = ClockState<T>;

    closed spec fn view(&self) -> ClockState<T> {
        ClockState { slots: self.node_store@, refs: self.ref_bits@, hand: self.ref_pos as int }
    }
}

impl<T: Evictable<T>> Replacer<T> {
    /// The ring is well formed and `size` counts its slots.
    pub closed spec fn wf(&self) -> bool {
        &&& self@.wf()
        &&& self.size == self.node_store@.len()
    }

    /// The number of slots, as `size` reports it.
    pub closed spec fn capacity(&self) -> usize {
        self.size
    }

    /// In a well-formed ring the capacity is the number of slots.
    pub proof fn lemma_capacity(&self)
        requires
            self.wf(),
        ensures
            self.capacity() == self@.slots.len(),
            self@.wf(),
    {
    }

    /// A ring of `size` free slots with all counters at zero and the hand on
    /// the first slot.
    pub fn new(size: usize) -> (replacer: Self)
        ensures
            replacer.wf(),
            replacer.capacity() == size,
            replacer@.slots == Seq::new(size as nat, |i: int| None::<T>),
            replacer@.refs == Seq::new(size as nat, |i: int| 0u8),
            replacer@.hand == 0,
    {
        let mut node_store: Vec<Option<T>> = Vec::new();
        let mut ref_bits: Vec<u8> = Vec::new();
        let mut i: usize = 0;
        while i < size
            invariant
                i <= size,
                node_store@.len() == i,
                ref_bits@.len() == i,
                forall|j: int| 0 <= j < i ==> node_store@[j].is_none(),
                forall|j: int| 0 <= j < i ==> ref_bits@[j] == 0,
            decreases size - i,
        {
            node_store.push(None);
            ref_bits.push(0);
            i += 1;
        }
        assert(node_store@ =~= Seq::new(size as nat, |i: int| None::<T>));
        assert(ref_bits@ =~= Seq::new(size as nat, |i: int| 0u8));
        Replacer { size, node_store, ref_bits, ref_pos: 0 }
    }

    /// The number of slots.
    pub fn size(&self) -> (n: usize)
        ensures
            n == self.capacity(),
    {
        self.size
    }

    /// What each slot holds, in slot order.
    pub fn node_store(&self) -> (slots: &Vec<Option<T>>)
        ensures
            slots@ == self@.slots,
    {
        &self.node_store
    }

    /// Records an access to `node_id`.
    ///
    /// An id that is tracked gets its counter raised and the hand set on its
    /// slot. A new id goes into the first free slot. With no free slot the
    /// hand sweeps the ring: it lowers each counter that it finds above zero,
    /// passes the pinned entries, and puts the new entry in place of the
    /// first unpinned one whose counter is used up; that entry is returned.
    /// If every entry is pinned nothing changes and the call fails.
    pub fn insert_and_evict(&mut self, node_id: usize) -> (result: Result<Option<T>, PoolError>)
        requires
            old(self).wf(),
        ensures
            final(self).wf(),
            final(self).capacity() == old(self).capacity(),
            final(self)@ == old(self)@.access(node_id),
            result == old(self)@.access_result(node_id),
    {
        let n = self.size;
        let ghost pre = self@;
        let mut i: usize = 0;
        while i < n
            invariant
                i <= n,
                n == self.size,
                self.wf(),
                *self == *old(self),
                pre == self@,
                forall|j: int| 0 <= j < i ==> !#[trigger] pre.stops_at(j, node_id),
            decreases n - i,
        {
            let found = match &self.node_store[i] {
                Some(v) => v.id() == node_id,
                None => true,
            };
            if found {
                proof {
                    assert(pre.is_landing(i as int, node_id));
                    let k = choose|k: int| pre.is_landing(k, node_id);
                    pre.lemma_landing_unique(k, i as int, node_id);
                }
                if self.node_store[i].is_some() {
                    self.ref_pos = i;
                    let r = self.ref_bits[i];
                    if r < u8::MAX {
                        self.ref_bits[i] = r + 1;
                    }
                    assert(self@.refs =~= pre.touch(i as int).refs);
                } else {
                    let node = T::new(node_id);
                    self.node_store[i] = Some(node);
                    assert forall|a: int, b: int|
                        0 <= a < b < n && (#[trigger] self@.slots[b]).is_some() implies (
                    #[trigger] self@.slots[a]).is_some() by {
                        if a < i {
                            assert(!pre.stops_at(a, node_id));
                        } else if a > i {
                            assert(pre.slots[b].is_some());
                            assert(pre.slots[a].is_some());
                        }
                    }
                }
                return Ok(None);
            }
            i += 1;
        }
        assert forall|k: int| !pre.is_landing(k, node_id) by {
            if pre.is_landing(k, node_id) {
                assert(pre.stops_at(k, node_id));
            }
        }
        let mut some_unpinned = false;
        let mut k: usize = 0;
        let ghost mut witness: int = 0;
        while k < n
            invariant
                k <= n,
                n == self.size,
                self.wf(),
                *self == *old(self),
                pre == self@,
                some_unpinned ==> pre.unpinned_at(witness),
                !some_unpinned ==> forall|j: int| 0 <= j < k ==> !#[trigger] pre.unpinned_at(j),
            decreases n - k,
        {
            let free = match &self.node_store[k] {
                Some(v) => !v.pinned(),
                None => false,
            };
            if free {
                some_unpinned = true;
                proof {
                    witness = k as int;
                }
            }
            k += 1;
        }
        if !some_unpinned {
            assert forall|q: int| !pre.is_victim(q) by {
                if pre.is_victim(q) {
                    assert(pre.unpinned_at(q));
                }
            }
            return Err(PoolError::CapacityExhausted);
        }
        let ghost mut round: int = 0;
        let ghost mut step: int = 0;
        let ghost start: int = if pre.hand >= n {
            0
        } else {
            pre.hand
        };
        loop
            invariant
                n == self.size,
                n > 0,
                self.size == old(self).size,
                pre == old(self)@,
                pre.wf(),
                n == pre.slots.len(),
                self.node_store@ == pre.slots,
                self.ref_bits@.len() == n,
                self.ref_pos <= n,
                0 <= start < n,
                start == (if pre.hand >= n {
                    0
                } else {
                    pre.hand
                }),
                0 <= round,
                0 <= step < n,
                (if self.ref_pos == n {
                    0
                } else {
                    self.ref_pos as int
                }) == (if start + step < n {
                    start + step
                } else {
                    start + step - n
                }),
                forall|j: int| 0 <= j < n ==> !#[trigger] pre.stops_at(j, node_id),
                pre.unpinned_at(witness),
                pre.refs[witness] > round || (pre.refs[witness] == round && pre.dist(witness)
                    >= step),
                forall|j: int|
                    #[trigger] pre.unpinned_at(j) ==> pre.refs[j] > round || (pre.refs[j] == round
                        && pre.dist(j) >= step),
                forall|j: int|
                    0 <= j < n ==> #[trigger] self.ref_bits@[j] as int == (if pre.refs[j] as int
                        >= round + (if pre.dist(j) < step {
                        1int
                    } else {
                        0int
                    }) {
                        pre.refs[j] as int - round - (if pre.dist(j) < step {
                            1int
                        } else {
                            0int
                        })
                    } else {
                        0int
                    }),
            decreases pre.refs[witness] - round, n - step,
        {
            proof {
                if self.ref_pos < n {
                    vstd::arithmetic::div_mod::lemma_small_mod(self.ref_pos as nat, n as nat);
                } else {
                    vstd::arithmetic::div_mod::lemma_mod_self_0(n as int);
                }
            }
            let curr_index = self.ref_pos % n;
            assert(pre.dist(curr_index as int) == step);
            assert(forall|j: int| 0 <= j < n && j != curr_index ==> pre.dist(j) != step);
            self.ref_pos = curr_index + 1;
            let r = self.ref_bits[curr_index];
            if r > 0 {
                self.ref_bits[curr_index] = r - 1;
            } else {
                assert(!pre.stops_at(curr_index as int, node_id));
                let evictable = match &self.node_store[curr_index] {
                    Some(v) => !v.pinned(),
                    None => false,
                };
                if evictable {
                    let node = T::new(node_id);
                    self.node_store.push(Some(node));
                    let evicted = self.node_store.swap_remove(curr_index);
                    proof {
                        let q = curr_index as int;
                        assert(pre.unpinned_at(q));
                        assert(pre.refs[q] == round);
                        assert forall|j: int| #[trigger]
                            pre.unpinned_at(j) && j != q implies pre.due_before(q, j) by {}
                        assert(pre.is_victim(q));
                        let c = choose|c: int| pre.is_victim(c);
                        pre.lemma_victim_unique(c, q);
                        assert(self.node_store@ =~= pre.slots.update(q, Some(node)));
                        assert(self.ref_bits@ =~= pre.evict(q, node).refs);
                        assert(evicted == pre.slots[q]);
                    }
                    return Ok(evicted);
                }
            }
            proof {
                if step + 1 < n {
                    step = step + 1;
                } else {
                    step = 0;
                    round = round + 1;
                }
            }
        }
    }
}

impl Replacer<ReplacerNode> {
    /// Pins (`evictable == false`) or unpins the entry for `id` without
    /// moving it, and says whether there was one.
    pub(crate) fn mark(&mut self, id: usize, evictable: bool) -> (found: bool)
        requires
            old(self).wf(),
        ensures
            final(self).wf(),
            final(self).capacity() == old(self).capacity(),
            final(self)@ == old(self)@.with_evictable(id, evictable),
            found == old(self)@.tracks(id),
    {
        let ghost pre = self@;
        let n = self.size;
        let mut found = false;
        let mut i: usize = 0;
        let ghost mut witness: int = 0;
        while i < n
            invariant
                i <= n,
                n == self.size,
                n == pre.slots.len(),
                pre == old(self)@,
                pre.wf(),
                self.size == old(self).size,
                self.ref_bits == old(self).ref_bits,
                self.ref_pos == old(self).ref_pos,
                self.node_store@.len() == n,
                forall|j: int|
                    0 <= j < i ==> #[trigger] self.node_store@[j] == pre.with_evictable(
                        id,
                        evictable,
                    ).slots[j],
                forall|j: int| i <= j < n ==> #[trigger] self.node_store@[j] == pre.slots[j],
                found ==> pre.holds_at(witness, id),
                !found ==> forall|j: int| 0 <= j < i ==> !pre.holds_at(j, id),
            decreases n - i,
        {
            let hit = match &self.node_store[i] {
                Some(v) => v.page_id == id,
                None => false,
            };
            if hit {
                self.node_store[i] = Some(ReplacerNode { page_id: id, evictable });
                found = true;
                proof {
                    witness = i as int;
                }
            }
            i += 1;
        }
        assert(self.node_store@ =~= pre.with_evictable(id, evictable).slots);
        assert forall|a: int, b: int|
            0 <= a < b < n && (#[trigger] self@.slots[b]).is_some() implies (
        #[trigger] self@.slots[a]).is_some() by {
            assert(pre.slots[b].is_some());
            assert(pre.slots[a].is_some());
        }
        found
    }
}

} // verus!
