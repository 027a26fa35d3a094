use composter::error::PoolError;
use composter::lru_policy::LruReplacer;
use composter::lru_replacer::LRUCache;
use composter::policy::ReplacementPolicy;

#[test]
fn lru_evicts_the_entry_used_longest_ago() {
    let mut cache = LRUCache::<u8, u32>::new(3);
    cache.put(b'a', 1);
    cache.put(b'b', 2);
    cache.put(b'c', 3);
    assert_eq!(cache.size(), 3);
    assert_eq!(cache.get(b'a'), Some(1));
    cache.put(b'd', 4);
    assert_eq!(cache.size(), 3);
    // b is gone, not c.
    assert_eq!(cache.get(b'b'), None);
    assert_eq!(cache.get(b'c'), Some(3));
    assert_eq!(cache.get(b'a'), Some(1));
    assert_eq!(cache.get(b'd'), Some(4));
}

#[test]
fn lru_put_of_a_known_key_replaces_and_refreshes() {
    let mut cache = LRUCache::<usize, usize>::new(2);
    cache.put(1, 10);
    cache.put(2, 20);
    cache.put(1, 11);
    assert_eq!(cache.size(), 2);
    cache.put(3, 30);
    assert_eq!(cache.get(2), None);
    assert_eq!(cache.get(1), Some(11));
    assert_eq!(cache.get(3), Some(30));
}

#[test]
fn lru_get_of_an_unknown_key_changes_nothing() {
    let mut cache = LRUCache::<u64, u8>::new(2);
    assert_eq!(cache.size(), 0);
    assert_eq!(cache.get(5), None);
    cache.put(1, 1);
    cache.put(2, 2);
    assert_eq!(cache.get(5), None);
    cache.put(3, 3);
    assert_eq!(cache.get(1), None);
    assert_eq!(cache.get(2), Some(2));
}

#[test]
fn lru_follows_a_long_history() {
    let mut cache = LRUCache::<u32, u32>::new(4);
    let mut order: Vec<u32> = Vec::new();
    let keys = [1, 2, 3, 4, 2, 5, 1, 1, 6, 3, 7, 2, 8, 4, 4, 9, 5];
    for (step, key) in keys.iter().enumerate() {
        if step % 3 == 2 {
            let expected = order.iter().position(|k| k == key);
            let got = cache.get(*key);
            assert_eq!(got.is_some(), expected.is_some());
            if let Some(at) = expected {
                order.remove(at);
                order.push(*key);
            }
        } else {
            cache.put(*key, *key * 10);
            if let Some(at) = order.iter().position(|k| k == key) {
                order.remove(at);
            } else if order.len() >= 4 {
                order.remove(0);
            }
            order.push(*key);
        }
        assert_eq!(cache.size(), order.len());
    }
    for key in 1..10 {
        let expected = if order.contains(&key) { Some(key * 10) } else { None };
        // Looking a key up moves it, so each key is asked for once.
        assert_eq!(cache.get(key), expected);
    }
}

#[test]
fn lru_with_room_for_one() {
    let mut cache = LRUCache::<u8, u8>::new(1);
    cache.put(1, 1);
    cache.put(2, 2);
    assert_eq!(cache.size(), 1);
    assert_eq!(cache.get(1), None);
    assert_eq!(cache.get(2), Some(2));
    // With no room at all the cache still keeps the entry used last.
    let mut none = LRUCache::<u8, u8>::new(0);
    none.put(1, 1);
    assert_eq!(none.size(), 1);
    none.put(2, 2);
    assert_eq!(none.size(), 1);
    assert_eq!(none.get(1), None);
    assert_eq!(none.get(2), Some(2));
}

#[test]
fn lru_remove_keeps_the_order_of_the_rest() {
    let mut cache = LRUCache::<u32, u32>::new(10);
    for k in 1..7 {
        cache.put(k, k * 10);
    }
    assert_eq!(cache.oldest(), Some(1));
    assert!(cache.contains(3));
    assert_eq!(cache.remove(3), Some(30));
    assert!(!cache.contains(3));
    assert_eq!(cache.remove(3), None);
    assert_eq!(cache.size(), 5);
    // First, last and middle entries, in every position of the arena.
    assert_eq!(cache.remove(1), Some(10));
    assert_eq!(cache.oldest(), Some(2));
    assert_eq!(cache.remove(6), Some(60));
    assert_eq!(cache.size(), 3);
    cache.put(7, 70);
    assert_eq!(cache.get(2), Some(20));
    // Order of use is now 4, 5, 7, 2.
    let mut seen = Vec::new();
    while let Some(k) = cache.oldest() {
        seen.push((k, cache.remove(k)));
    }
    assert_eq!(
        seen,
        vec![(4, Some(40)), (5, Some(50)), (7, Some(70)), (2, Some(20))]
    );
    assert_eq!(cache.size(), 0);
    assert_eq!(cache.oldest(), None);
    assert_eq!(cache.remove(4), None);
    cache.put(9, 90);
    assert_eq!(cache.oldest(), Some(9));
}

#[test]
fn lru_contains_does_not_count_as_use() {
    let mut cache = LRUCache::<u8, u8>::new(2);
    cache.put(1, 1);
    cache.put(2, 2);
    assert!(cache.contains(1));
    cache.put(3, 3);
    assert!(!cache.contains(1));
    assert!(cache.contains(2));
    assert!(cache.contains(3));
}

#[test]
fn lru_policy_gives_up_the_id_that_waited_longest() {
    let mut p = LruReplacer::new(3);
    assert_eq!(p.slots(), 3);
    assert_eq!(p.record_access(1), Ok(None));
    assert_eq!(p.record_access(2), Ok(None));
    assert_eq!(p.record_access(3), Ok(None));
    assert_eq!(p.record_access(1), Ok(None));
    assert_eq!(p.record_access(4), Ok(Some(2)));
    assert_eq!(p.record_access(5), Ok(Some(3)));
    assert_eq!(p.record_access(6), Ok(Some(1)));
    assert_eq!(p.record_access(7), Ok(Some(4)));
}

#[test]
fn lru_policy_passes_over_pinned_ids() {
    let mut p = LruReplacer::new(2);
    assert_eq!(p.record_access(1), Ok(None));
    assert_eq!(p.record_access(2), Ok(None));
    assert!(p.set_evictable(1, false));
    assert!(!p.set_evictable(9, false));
    assert!(!p.set_evictable(9, true));
    assert_eq!(p.record_access(3), Ok(Some(2)));
    // An access to a pinned id is a hit and changes nothing.
    assert_eq!(p.record_access(1), Ok(None));
    assert!(p.set_evictable(3, false));
    assert!(p.set_evictable(3, false));
    assert_eq!(p.record_access(4), Err(PoolError::CapacityExhausted));
    // An id that is unpinned waits behind those that wait already.
    assert!(p.set_evictable(3, true));
    assert!(p.set_evictable(1, true));
    assert!(p.set_evictable(1, true));
    assert_eq!(p.record_access(4), Ok(Some(3)));
    assert_eq!(p.record_access(5), Ok(Some(1)));
    // Without room the policy is always full.
    let mut none = LruReplacer::new(0);
    assert_eq!(none.slots(), 0);
    assert_eq!(none.record_access(1), Err(PoolError::CapacityExhausted));
}
