use composter::clock_replacer::{Evictable, Replacer, ReplacerNode};
use composter::error::PoolError;
use composter::policy::ReplacementPolicy;

#[test]
fn test_replacer() {
    let mut p = Replacer::<u8>::new(5);

    assert_eq!(p.size(), 5);
    // Inserting 5 elements in to Replacer
    assert_eq!(p.insert_and_evict(3), Ok(None));
    assert_eq!(p.insert_and_evict(4), Ok(None));
    assert_eq!(p.insert_and_evict(5), Ok(None));
    assert_eq!(p.insert_and_evict(6), Ok(None));
    assert_eq!(p.insert_and_evict(7), Ok(None));
    assert_eq!(
        *p.node_store(),
        vec![Some(3), Some(4), Some(5), Some(6), Some(7)]
    );
}

#[test]
fn clock_uses_up_reference_counters_before_it_evicts() {
    let mut p = Replacer::<u8>::new(5);
    for id in 3..8 {
        assert_eq!(p.insert_and_evict(id), Ok(None));
    }
    // A second access raises each counter and leaves the hand on the slot
    // that was accessed last.
    for id in 3..8 {
        assert_eq!(p.insert_and_evict(id), Ok(None));
    }
    assert_eq!(
        *p.node_store(),
        vec![Some(3), Some(4), Some(5), Some(6), Some(7)]
    );
    // The hand goes once round the ring and takes the slot on which it
    // started.
    assert_eq!(p.insert_and_evict(8), Ok(Some(7)));
    assert_eq!(
        *p.node_store(),
        vec![Some(3), Some(4), Some(5), Some(6), Some(8)]
    );
    // All counters are used up: the next victims follow the hand.
    assert_eq!(p.insert_and_evict(9), Ok(Some(3)));
    assert_eq!(p.insert_and_evict(10), Ok(Some(4)));
    assert_eq!(
        *p.node_store(),
        vec![Some(9), Some(10), Some(5), Some(6), Some(8)]
    );
}

#[test]
fn clock_spares_the_entry_with_the_higher_counter() {
    let mut p = Replacer::<u8>::new(3);
    for id in 1..4 {
        assert_eq!(p.insert_and_evict(id), Ok(None));
    }
    // Two more accesses to 1, one to 2: counters 2, 1, 0, hand on slot 1.
    assert_eq!(p.insert_and_evict(1), Ok(None));
    assert_eq!(p.insert_and_evict(1), Ok(None));
    assert_eq!(p.insert_and_evict(2), Ok(None));
    assert_eq!(p.insert_and_evict(4), Ok(Some(3)));
    // Counters are now 2, 0, 0 and the hand stands on slot 0.
    assert_eq!(p.insert_and_evict(5), Ok(Some(2)));
    assert_eq!(p.insert_and_evict(6), Ok(Some(4)));
    // Slot 0 was passed once: its counter is 1.
    assert_eq!(p.insert_and_evict(7), Ok(Some(5)));
    assert_eq!(*p.node_store(), vec![Some(1), Some(7), Some(6)]);
    assert_eq!(p.insert_and_evict(8), Ok(Some(6)));
    assert_eq!(p.insert_and_evict(9), Ok(Some(1)));
}

#[test]
fn clock_without_slots_is_always_full() {
    let mut p = Replacer::<u8>::new(0);
    assert_eq!(p.size(), 0);
    assert_eq!(p.insert_and_evict(1), Err(PoolError::CapacityExhausted));
    assert_eq!(*p.node_store(), vec![]);
}

#[test]
fn clock_fails_when_every_entry_is_pinned() {
    let mut p = Replacer::<ReplacerNode>::new(2);
    assert_eq!(p.insert_and_evict(10), Ok(None));
    assert_eq!(p.insert_and_evict(20), Ok(None));
    assert!(p.set_evictable(10, false));
    assert!(p.set_evictable(20, false));
    assert!(!p.set_evictable(30, false));
    assert_eq!(p.insert_and_evict(30), Err(PoolError::CapacityExhausted));
    assert_eq!(
        *p.node_store(),
        vec![
            Some(ReplacerNode { page_id: 10, evictable: false }),
            Some(ReplacerNode { page_id: 20, evictable: false })
        ]
    );
    // An access to an entry that is there still counts.
    assert_eq!(p.insert_and_evict(10), Ok(None));
    // Once one entry is unpinned it is the victim, wherever the hand is.
    assert!(p.set_evictable(20, true));
    assert_eq!(
        p.insert_and_evict(30),
        Ok(Some(ReplacerNode { page_id: 20, evictable: true }))
    );
    assert_eq!(
        *p.node_store(),
        vec![
            Some(ReplacerNode { page_id: 10, evictable: false }),
            Some(ReplacerNode { page_id: 30, evictable: true })
        ]
    );
}

#[test]
fn entries_know_their_id() {
    let node = <ReplacerNode as Evictable<ReplacerNode>>::new(12);
    assert_eq!(node, ReplacerNode { page_id: 12, evictable: true });
    assert_eq!(node.id(), 12);
    assert!(!node.pinned());
    let pinned = ReplacerNode { page_id: 12, evictable: false };
    assert!(pinned.pinned());
    let small = <u8 as Evictable<u8>>::new(300);
    assert_eq!(small, 44);
    assert_eq!(Evictable::<u8>::id(&small), 44);
    assert!(!Evictable::<u8>::pinned(&small));
}

#[test]
fn reference_counter_stops_at_its_maximum() {
    let mut p = Replacer::<u8>::new(2);
    assert_eq!(p.insert_and_evict(1), Ok(None));
    assert_eq!(p.insert_and_evict(2), Ok(None));
    for _ in 0..300 {
        assert_eq!(p.insert_and_evict(1), Ok(None));
    }
    // Entry 1 has the higher counter, so entry 2 leaves first, and so does
    // whatever takes its place, 255 times over.
    for id in 3..=255 {
        let evicted = p.insert_and_evict(id).unwrap().unwrap();
        assert_ne!(evicted, 1);
    }
    assert_eq!(p.node_store()[0], Some(1));
}

#[test]
fn clock_as_a_policy_returns_the_id_that_left() {
    let mut p = Replacer::<ReplacerNode>::new(2);
    assert_eq!(p.slots(), 2);
    assert_eq!(p.record_access(10), Ok(None));
    assert_eq!(p.record_access(20), Ok(None));
    assert_eq!(p.record_access(10), Ok(None));
    // The use of entry 10 is spent on the way round to entry 20.
    assert_eq!(p.record_access(30), Ok(Some(20)));
    assert!(p.set_evictable(10, false));
    assert!(p.set_evictable(30, false));
    assert_eq!(p.record_access(40), Err(PoolError::CapacityExhausted));
    assert!(p.set_evictable(10, true));
    assert_eq!(p.record_access(40), Ok(Some(10)));
}
