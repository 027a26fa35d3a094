//! What the buffer pool asks of a page-replacement policy, whichever it is.
//!
//! A policy tracks ids up to its capacity, each evictable or not. An access
//! to an id that it does not track makes room, if it has to, by giving up the
//! id that the policy's own rule names as the victim.

use crate::error::PoolError;
use vstd::prelude::*;

verus! {

/// What an access to `id` returns in a policy that holds `held`, has room for
/// `capacity` ids and would give up `victim`: the id that had to leave, if
/// any, or the failure when the policy is full and no id may be evicted.
pub open spec fn access_result(
    held: Map<usize, bool>,
    capacity: nat,
    victim: Option<usize>,
    id: usize,
) -> Result<Option<usize>, PoolError> {
    if held.contains_key(id) || held.dom().len() < capacity {
        Ok(None)
    } else {
        match victim {
            Some(v) => Ok(Some(v)),
            None => Err(PoolError::CapacityExhausted),
        }
    }
}

/// What such a policy holds after an access to `id`: an id that is held
/// stays as it is; a new id comes in evictable, in place of the victim
/// where there is no room; a full policy without a victim stays as it is.
pub open spec fn held_after_access(
    held: Map<usize, bool>,
    capacity: nat,
    victim: Option<usize>,
    id: usize,
) -> Map<usize, bool> {
    if held.contains_key(id) {
        held
    } else if held.dom().len() < capacity {
        held.insert(id, true)
    } else {
        match victim {
            Some(v) => held.remove(v).insert(id, true),
            None => held,
        }
    }
}

/// A policy as a mathematical value.
pub trait PolicyModel: Sized {
    /// The invariant of the policy.
    spec fn valid(self) -> bool;

    /// How many ids the policy can track.
    spec fn capacity(self) -> nat;

    /// The ids that the policy tracks, each with whether it may be evicted.
    spec fn held(self) -> Map<usize, bool>;

    /// The id that leaves when room has to be made: the policy's rule for
    /// choosing among the ids that may be evicted.
    spec fn victim(self) -> Option<usize>;

    /// The policy after an access to `id`.
    spec fn accessed(self, id: usize) -> Self;

    /// The policy after `id` was made evictable or not.
    spec fn flagged(self, id: usize, evictable: bool) -> Self;

    /// The policy tracks no more ids than it has room for.
    proof fn lemma_within_capacity(self)
        requires
            self.valid(),
        ensures
            self.held().dom().finite(),
            self.held().dom().len() <= self.capacity(),
    ;

    /// The victim is held and may be evicted, and there is one as soon
    /// as any id may be evicted.
    proof fn lemma_victim(self)
        requires
            self.valid(),
        ensures
            match self.victim() {
                Some(v) => self.held().contains_key(v) && self.held()[v],
                None => forall|id: usize| #[trigger]
                    self.held().contains_key(id) ==> !self.held()[id],
            },
    ;

    /// An access keeps the invariant and the capacity and holds what
    /// `held_after_access` says; one that fails changes nothing at all.
    proof fn lemma_accessed(self, id: usize)
        requires
            self.valid(),
        ensures
            self.accessed(id).valid(),
            self.accessed(id).capacity() == self.capacity(),
            self.accessed(id).held() == held_after_access(
                self.held(),
                self.capacity(),
                self.victim(),
                id,
            ),
            access_result(self.held(), self.capacity(), self.victim(), id).is_err()
                ==> self.accessed(id) == self,
    ;

    /// Setting the flag of an id keeps the invariant and the capacity, and
    /// changes the flag of that id, if it is held, and nothing else.
    proof fn lemma_flagged(self, id: usize, evictable: bool)
        requires
            self.valid(),
        ensures
            self.flagged(id, evictable).valid(),
            self.flagged(id, evictable).capacity() == self.capacity(),
            self.flagged(id, evictable).held() == (if self.held().contains_key(id) {
                self.held().insert(id, evictable)
            } else {
                self.held()
            }),
    ;
}

/// A page-replacement policy.
pub trait ReplacementPolicy: Sized {
    /// The policy as a mathematical value.
    type Model: PolicyModel;

    spec fn model(&self) -> Self::Model;

    /// The invariant of the policy's representation.
    spec fn inv(&self) -> bool;

    proof fn lemma_inv(&self)
        requires
            self.inv(),
        ensures
            self.model().valid(),
    ;

    /// How many ids the policy can track.
    fn slots(&self) -> (n: usize)
        requires
            self.inv(),
        ensures
            n == self.model().capacity(),
    ;

    /// Records an access to `id`: an id that is held is marked as used,
    /// a new id is held from now on. Where there is no room for a new id
    /// the victim leaves and is returned; where there is no victim either,
    /// the call fails and changes nothing.
    fn record_access(&mut self, id: usize) -> (result: Result<Option<usize>, PoolError>)
        requires
            old(self).inv(),
        ensures
            final(self).inv(),
            final(self).model() == old(self).model().accessed(id),
            result == access_result(
                old(self).model().held(),
                old(self).model().capacity(),
                old(self).model().victim(),
                id,
            ),
    ;

    /// Pins (`evictable == false`) or unpins `id` without removing it, and
    /// says whether the id is held.
    fn set_evictable(&mut self, id: usize, evictable: bool) -> (found: bool)
        requires
            old(self).inv(),
        ensures
            final(self).inv(),
            final(self).model() == old(self).model().flagged(id, evictable),
            found == old(self).model().held().contains_key(id),
    ;
}

} // verus!
