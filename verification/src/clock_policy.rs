//! The CLOCK ring as a replacement policy of the buffer pool.

use crate::clock_replacer::{ClockOutcome, ClockState, Evictable, Replacer, ReplacerNode};
use crate::error::PoolError;
use crate::policy::{access_result, held_after_access, PolicyModel, ReplacementPolicy};
use vstd::prelude::*;

verus! {

impl ClockState<ReplacerNode> {
    /// The slot that holds `id`.
    pub open spec fn slot_of(self, id: usize) -> int {
        choose|i: int| self.holds_at(i, id)
    }

    /// How many of the slots below `m` are in use.
    pub open spec fn filled(self, m: int) -> int
        decreases m,
    {
        if m <= 0 {
            0
        } else {
            self.filled(m - 1) + if self.slots[m - 1].is_some() {
                1int
            } else {
                0int
            }
        }
    }

    /// The ids in the slots below `m`.
    pub open spec fn ids_below(self, m: int) -> Set<usize>
        decreases m,
    {
        if m <= 0 {
            Set::empty()
        } else {
            match self.slots[m - 1] {
                Some(node) => self.ids_below(m - 1).insert(node.page_id),
                None => self.ids_below(m - 1),
            }
        }
    }

    /// The slots in use are the first `filled` ones.
    pub proof fn lemma_filled(self, m: int)
        requires
            self.wf(),
            0 <= m <= self.slots.len(),
        ensures
            0 <= self.filled(m) <= m,
            forall|i: int| 0 <= i < m ==> ((#[trigger] self.slots[i]).is_some() <==> i < self.filled(m)),
        decreases m,
    {
        if m > 0 {
            self.lemma_filled(m - 1);
            if self.slots[m - 1].is_some() {
                assert forall|i: int| 0 <= i < m - 1 implies (#[trigger] self.slots[i]).is_some() by {
                    assert(self.slots[m - 1].is_some());
                }
                if m - 1 > 0 {
                    assert(self.slots[m - 2].is_some());
                }
            }
        }
    }

    /// Where no id occurs twice, the slots below `m` hold as many ids as
    /// there are slots in use among them.
    pub proof fn lemma_ids_below(self, m: int)
        requires
            self.wf(),
            self.distinct(),
            0 <= m <= self.slots.len(),
        ensures
            self.ids_below(m).finite(),
            self.ids_below(m).len() == self.filled(m),
            forall|id: usize|
                self.ids_below(m).contains(id) <==> exists|i: int|
                    0 <= i < m && #[trigger] self.holds_at(i, id),
        decreases m,
    {
        if m > 0 {
            self.lemma_ids_below(m - 1);
            let rest = self.ids_below(m - 1);
            match self.slots[m - 1] {
                Some(node) => {
                    assert(self.holds_at(m - 1, node.page_id));
                    if rest.contains(node.page_id) {
                        let i = choose|i: int| 0 <= i < m - 1 && #[trigger] self.holds_at(i, node.page_id);
                        assert(self.slots[i].is_some() && self.slots[m - 1].is_some());
                        assert(false);
                    }
                    assert forall|id: usize|
                        self.ids_below(m).contains(id) <==> exists|i: int|
                            0 <= i < m && #[trigger] self.holds_at(i, id) by {
                        if self.ids_below(m).contains(id) {
                            if id == node.page_id {
                                assert(self.holds_at(m - 1, id));
                            } else {
                                let i = choose|i: int| 0 <= i < m - 1 && #[trigger] self.holds_at(i, id);
                                assert(0 <= i < m && self.holds_at(i, id));
                            }
                        }
                        if exists|i: int| 0 <= i < m && #[trigger] self.holds_at(i, id) {
                            let i = choose|i: int| 0 <= i < m && #[trigger] self.holds_at(i, id);
                            if i < m - 1 {
                                assert(rest.contains(id));
                            }
                        }
                    }
                },
                None => {
                    assert forall|id: usize|
                        self.ids_below(m).contains(id) <==> exists|i: int|
                            0 <= i < m && #[trigger] self.holds_at(i, id) by {
                        if self.ids_below(m).contains(id) {
                            let i = choose|i: int| 0 <= i < m - 1 && #[trigger] self.holds_at(i, id);
                            assert(0 <= i < m && self.holds_at(i, id));
                        }
                        if exists|i: int| 0 <= i < m && #[trigger] self.holds_at(i, id) {
                            let i = choose|i: int| 0 <= i < m && #[trigger] self.holds_at(i, id);
                            assert(i < m - 1);
                            assert(rest.contains(id));
                        }
                    }
                },
            }
        }
    }

    /// The ring holds as many ids as it has slots in use, and finds each in
    /// exactly one slot.
    pub proof fn lemma_held(self)
        requires
            self.valid(),
        ensures
            self.held().dom().finite(),
            self.held().dom().len() == self.filled(self.slots.len() as int),
            forall|id: usize| self.held().contains_key(id) <==> self.tracks(id),
            forall|i: int, id: usize| #[trigger]
                self.holds_at(i, id) ==> self.slot_of(id) == i && self.held().contains_key(id)
                    && self.held()[id] == self.slots[i].unwrap().evictable,
    {
        let n = self.slots.len() as int;
        self.lemma_ids_below(n);
        assert forall|id: usize| self.held().dom().contains(id) <==> self.ids_below(n).contains(
            id,
        ) by {
            if self.tracks(id) {
                let i = choose|i: int| self.holds_at(i, id);
                assert(0 <= i < n && self.holds_at(i, id));
            }
            if self.ids_below(n).contains(id) {
                let i = choose|i: int| 0 <= i < n && #[trigger] self.holds_at(i, id);
                assert(self.holds_at(i, id));
            }
        }
        assert(self.held().dom() =~= self.ids_below(n));
        assert forall|i: int, id: usize| #[trigger] self.holds_at(i, id) implies self.slot_of(id)
            == i && self.held().contains_key(id) && self.held()[id]
            == self.slots[i].unwrap().evictable by {
            let j = self.slot_of(id);
            assert(self.holds_at(j, id));
            if i != j {
                assert(self.slots[i].is_some() && self.slots[j].is_some());
            }
        }
    }

    /// What an access does, told by what the ring holds: a hit on the slot
    /// of an id that is held; else the first free slot, if there is room;
    /// else the victim's slot, if there is a victim.
    pub proof fn lemma_outcome(self, id: usize)
        requires
            self.valid(),
        ensures
            self.tracks(id) ==> self.outcome(id) == (ClockOutcome::Hit { slot: self.slot_of(id) }),
            !self.tracks(id) && self.filled(self.slots.len() as int) < self.slots.len()
                ==> self.outcome(id) == (ClockOutcome::Filled {
                slot: self.filled(self.slots.len() as int),
            }) && self.slots[self.filled(self.slots.len() as int)].is_none(),
            !self.tracks(id) && self.filled(self.slots.len() as int) >= self.slots.len()
                ==> self.outcome(id) == (match self.victim() {
                Some(v) => ClockOutcome::Evicted { slot: self.slot_of(v) },
                None => ClockOutcome::Stuck,
            }),
            self.victim().is_some() ==> self.is_victim(self.slot_of(self.victim().unwrap()))
                && self.holds_at(self.slot_of(self.victim().unwrap()), self.victim().unwrap()),
    {
        let n = self.slots.len() as int;
        self.lemma_filled(n);
        self.lemma_held();
        let k = self.filled(n);
        if exists|q: int| self.is_victim(q) {
            let q = choose|q: int| self.is_victim(q);
            assert(self.unpinned_at(q));
            assert(self.holds_at(q, self.slots[q].unwrap().page_id));
        }
        if self.tracks(id) {
            let i = self.slot_of(id);
            assert(self.holds_at(i, id));
            assert forall|j: int| 0 <= j < i implies !#[trigger] self.stops_at(j, id) by {
                assert(self.slots[i].is_some());
                assert(self.slots[j].is_some());
                if self.holds_at(j, id) {
                    assert(self.slot_of(id) == j);
                }
            }
            assert(self.is_landing(i, id));
            let c = choose|c: int| self.is_landing(c, id);
            self.lemma_landing_unique(c, i, id);
        } else if k < n {
            assert(self.slots[k].is_none());
            assert(self.free_at(k));
            assert forall|j: int| 0 <= j < k implies !#[trigger] self.stops_at(j, id) by {
                assert(self.slots[j].is_some());
                if self.holds_at(j, id) {
                    assert(self.tracks(id));
                }
            }
            assert(self.is_landing(k, id));
            let c = choose|c: int| self.is_landing(c, id);
            self.lemma_landing_unique(c, k, id);
        } else {
            assert forall|c: int| !self.is_landing(c, id) by {
                if self.is_landing(c, id) {
                    assert(self.stops_at(c, id));
                    if self.free_at(c) {
                        assert(self.slots[c].is_some());
                    }
                }
            }
        }
    }
}

impl ClockState<ReplacerNode> {
    /// A ring whose slots are all free is a valid policy that holds no id.
    pub proof fn lemma_empty(self)
        requires
            self.wf(),
            forall|i: int| 0 <= i < self.slots.len() ==> (#[trigger] self.slots[i]).is_none(),
        ensures
            self.valid(),
            self.held().dom() == Set::<usize>::empty(),
    {
        assert forall|id: usize| !self.tracks(id) by {
            if self.tracks(id) {
                let i = choose|i: int| self.holds_at(i, id);
                assert(self.holds_at(i, id));
                assert(self.slots[i].is_none());
            }
        }
        assert(self.held().dom() =~= Set::<usize>::empty());
    }
}

impl PolicyModel for ClockState<ReplacerNode> {
    /// The ring is well formed and no two slots hold the same id.
    open spec fn valid(self) -> bool {
        self.wf() && self.distinct()
    }

    open spec fn capacity(self) -> nat {
        self.slots.len()
    }

    open spec fn held(self) -> Map<usize, bool> {
        Map::new(
            |id: usize| self.tracks(id),
            |id: usize| self.slots[self.slot_of(id)].unwrap().evictable,
        )
    }

    /// The id in the slot that a sweep would evict: the unpinned slot with
    /// the lowest reference counter and, among equals, the first after the
    /// hand.
    open spec fn victim(self) -> Option<usize> {
        if exists|q: int| self.is_victim(q) {
            Some(self.slots[choose|q: int| self.is_victim(q)].unwrap().page_id)
        } else {
            None
        }
    }

    open spec fn accessed(self, id: usize) -> Self {
        self.access(id)
    }

    open spec fn flagged(self, id: usize, evictable: bool) -> Self {
        self.with_evictable(id, evictable)
    }

    proof fn lemma_within_capacity(self) {
        self.lemma_held();
        self.lemma_filled(self.slots.len() as int);
    }

    proof fn lemma_victim(self) {
        self.lemma_held();
        if exists|q: int| self.is_victim(q) {
            let q = choose|q: int| self.is_victim(q);
            assert(self.unpinned_at(q));
            assert(self.holds_at(q, self.slots[q].unwrap().page_id));
        } else {
            assert forall|id: usize| #[trigger] self.held().contains_key(id) implies !self.held()[id] by {
                let i = self.slot_of(id);
                assert(self.holds_at(i, id));
                if self.slots[i].unwrap().evictable {
                    assert(self.unpinned_at(i));
                    self.lemma_victim_exists(i);
                }
            }
        }
    }

    proof fn lemma_accessed(self, id: usize) {
        let n = self.slots.len() as int;
        let after = self.access(id);
        self.lemma_access_wf(id);
        self.lemma_outcome(id);
        self.lemma_held();
        self.lemma_filled(n);
        let expected = held_after_access(self.held(), self.capacity(), self.victim(), id);
        match self.outcome(id) {
            ClockOutcome::Hit { slot } => {
                assert(after.slots == self.slots);
                assert(after.distinct());
                assert(after.held() =~= self.held()) by {
                    assert forall|x: usize| after.tracks(x) <==> self.tracks(x) by {
                        if after.tracks(x) {
                            let i = choose|i: int| after.holds_at(i, x);
                            assert(self.holds_at(i, x));
                        }
                        if self.tracks(x) {
                            let i = choose|i: int| self.holds_at(i, x);
                            assert(after.holds_at(i, x));
                        }
                    }
                    assert forall|x: usize| after.tracks(x) implies after.slot_of(x) == self.slot_of(
                        x,
                    ) by {
                        let i = after.slot_of(x);
                        assert(after.holds_at(i, x));
                        assert(self.holds_at(i, x));
                    }
                }
            },
            ClockOutcome::Filled { slot } => {
                self.lemma_placed(id, slot);
            },
            ClockOutcome::Evicted { slot } => {
                self.lemma_placed(id, slot);
            },
            ClockOutcome::Stuck => {},
        }
    }

    proof fn lemma_flagged(self, id: usize, evictable: bool) {
        let n = self.slots.len() as int;
        let after = self.with_evictable(id, evictable);
        self.lemma_held();
        assert forall|i: int, x: usize| after.holds_at(i, x) <==> self.holds_at(i, x) by {}
        assert(after.wf()) by {
            assert forall|a: int, b: int|
                0 <= a < b < n && (#[trigger] after.slots[b]).is_some() implies (
            #[trigger] after.slots[a]).is_some() by {
                assert(self.slots[b].is_some());
                assert(self.slots[a].is_some());
            }
        }
        assert(after.distinct()) by {
            assert forall|a: int, b: int|
                0 <= a < n && 0 <= b < n && a != b && (#[trigger] after.slots[a]).is_some() && (
                #[trigger] after.slots[b]).is_some() implies after.slots[a].unwrap().ident()
                != after.slots[b].unwrap().ident() by {
                assert(self.slots[a].is_some() && self.slots[b].is_some());
                assert(after.holds_at(a, after.slots[a].unwrap().page_id));
                assert(after.holds_at(b, after.slots[b].unwrap().page_id));
            }
        }
        after.lemma_held();
        let expected = if self.held().contains_key(id) {
            self.held().insert(id, evictable)
        } else {
            self.held()
        };
        assert forall|x: usize| after.held().contains_key(x) <==> expected.contains_key(x) by {
            if after.tracks(x) {
                let i = choose|i: int| after.holds_at(i, x);
                assert(self.holds_at(i, x));
            }
            if self.tracks(x) {
                let i = choose|i: int| self.holds_at(i, x);
                assert(after.holds_at(i, x));
            }
        }
        assert forall|x: usize| after.held().contains_key(x) implies after.held()[x]
            == expected[x] by {
            let i = after.slot_of(x);
            assert(after.holds_at(i, x));
            assert(self.holds_at(i, x));
        }
        assert(after.held() =~= expected);
    }
}

impl ClockState<ReplacerNode> {
    /// After an access that put `id`, which was not held, into slot `slot`
    /// (a free one, or the victim's), the ring is valid and holds `id`
    /// evictable in place of what the slot held.
    pub proof fn lemma_placed(self, id: usize, slot: int)
        requires
            self.valid(),
            self.outcome(id) == (ClockOutcome::Filled { slot }) || self.outcome(id) == (
            ClockOutcome::Evicted { slot }),
        ensures
            self.access(id).valid(),
            self.access(id).held() == held_after_access(
                self.held(),
                self.capacity(),
                self.victim(),
                id,
            ),
    {
        let n = self.slots.len() as int;
        let after = self.access(id);
        self.lemma_access_wf(id);
        self.lemma_outcome(id);
        self.lemma_held();
        self.lemma_filled(n);
        let expected = held_after_access(self.held(), self.capacity(), self.victim(), id);
        assert(!self.tracks(id));
        assert(0 <= slot < n);
        let node = ReplacerNode { page_id: id, evictable: true };
        assert(after.slots == self.slots.update(slot, Some(node)));
        assert forall|i: int, x: usize| i != slot implies (after.holds_at(i, x) <==> self.holds_at(
            i,
            x,
        )) by {}
        assert(after.holds_at(slot, id));
        assert(after.distinct()) by {
            assert forall|a: int, b: int|
                0 <= a < n && 0 <= b < n && a != b && (#[trigger] after.slots[a]).is_some() && (
                #[trigger] after.slots[b]).is_some() implies after.slots[a].unwrap().ident()
                != after.slots[b].unwrap().ident() by {
                if a != slot && b != slot {
                    assert(self.slots[a].is_some() && self.slots[b].is_some());
                } else if a == slot {
                    assert(self.holds_at(b, self.slots[b].unwrap().page_id));
                } else {
                    assert(self.holds_at(a, self.slots[a].unwrap().page_id));
                }
            }
        }
        after.lemma_held();
        let gone: Option<usize> = match self.slots[slot] {
            Some(old) => Some(old.page_id),
            None => None,
        };
        if gone.is_some() {
            assert(self.holds_at(slot, gone.unwrap()));
            assert(self.victim() == gone);
        }
        assert forall|x: usize| after.held().contains_key(x) <==> expected.contains_key(x) by {
            if after.tracks(x) {
                let i = choose|i: int| after.holds_at(i, x);
                assert(after.holds_at(i, x));
                if i != slot {
                    assert(self.holds_at(i, x));
                }
            }
            if expected.contains_key(x) && x != id {
                let i = self.slot_of(x);
                assert(self.holds_at(i, x));
                assert(i != slot);
                assert(after.holds_at(i, x));
            }
        }
        assert forall|x: usize| after.held().contains_key(x) implies after.held()[x]
            == expected[x] by {
            let i = after.slot_of(x);
            assert(after.holds_at(i, x));
            if i != slot {
                assert(self.holds_at(i, x));
            }
        }
        assert(after.held() =~= expected);
    }
}

impl ReplacementPolicy for Replacer<ReplacerNode> {
    type Model = ClockState<ReplacerNode>;

    open spec fn model(&self) -> ClockState<ReplacerNode> {
        self@
    }

    open spec fn inv(&self) -> bool {
        self.wf() && self@.distinct()
    }

    proof fn lemma_inv(&self) {
        self.lemma_capacity();
    }

    fn slots(&self) -> (n: usize) {
        proof {
            self.lemma_capacity();
        }
        self.size()
    }

    fn record_access(&mut self, id: usize) -> (result: Result<Option<usize>, PoolError>) {
        proof {
            self.lemma_capacity();
            self@.lemma_accessed(id);
            self@.lemma_outcome(id);
            self@.lemma_held();
            self@.lemma_filled(self@.slots.len() as int);
        }
        match self.insert_and_evict(id) {
            Ok(Some(node)) => Ok(Some(node.page_id)),
            Ok(None) => Ok(None),
            Err(e) => Err(e),
        }
    }

    fn set_evictable(&mut self, id: usize, evictable: bool) -> (found: bool) {
        proof {
            self.lemma_capacity();
            self@.lemma_flagged(id, evictable);
            self@.lemma_held();
        }
        self.mark(id, evictable)
    }
}

} // verus!
