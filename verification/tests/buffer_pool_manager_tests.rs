use composter::buffer_pool_manager::{BufferPoolManager, ReadPage, WritePage};
use composter::clock_replacer::{Replacer, ReplacerNode};
use composter::disk_manager::DiskManager;
use composter::disk_scheduler::DiskScheduler;
use composter::error::PoolError;
use composter::lru_policy::LruReplacer;
use composter::DEFAULT_PAGE_SIZE;

fn small_pool(page_size: usize, num_frames: usize) -> BufferPoolManager<Replacer<ReplacerNode>> {
    let disk_manager = DiskManager::new(page_size, None, true);
    let disk_scheduler = DiskScheduler::new(disk_manager);
    let replacer = Replacer::new(num_frames);
    BufferPoolManager::new(disk_scheduler, replacer, page_size, num_frames)
}

fn small_lru_pool(page_size: usize, num_frames: usize) -> BufferPoolManager<LruReplacer> {
    let disk_manager = DiskManager::new(page_size, None, true);
    let disk_scheduler = DiskScheduler::new(disk_manager);
    let replacer = LruReplacer::new(num_frames);
    BufferPoolManager::new(disk_scheduler, replacer, page_size, num_frames)
}

fn resident<P: composter::policy::ReplacementPolicy>(
    pool: &BufferPoolManager<P>,
) -> Vec<Option<usize>> {
    pool.frames().iter().map(|f| f.current_page_index).collect()
}

#[test]
fn new_buffer_pool_manager() {
    let disk_manager = DiskManager::default();
    let disk_scheduler = DiskScheduler::new(disk_manager);
    let replacer = Replacer::<ReplacerNode>::new(10);
    let buffer_pool_manager =
        BufferPoolManager::new(disk_scheduler, replacer, DEFAULT_PAGE_SIZE, 10);

    assert_eq!(buffer_pool_manager.frames().len(), 10);
}

#[test]
fn add_pages() {
    let disk_manager = DiskManager::default();
    let disk_scheduler = DiskScheduler::new(disk_manager);
    let replacer = Replacer::<ReplacerNode>::new(10);
    let mut buffer_pool_manager =
        BufferPoolManager::new(disk_scheduler, replacer, DEFAULT_PAGE_SIZE, 10);

    assert_eq!(buffer_pool_manager.frames().len(), 10);

    // Create 10 new pages in memory for this test
    // return the page index.
    for i in 1..11 {
        let np = buffer_pool_manager.new_page().unwrap();
        assert_eq!(np, i);
    }
}

#[test]
fn test_read_write_page_frame() {
    let mut pool = small_pool(5, 1);
    let np = pool.new_page().unwrap();
    assert_eq!(np, 1);
    let wp = pool.write_page(np).unwrap();
    assert!(!wp.is_dirty(&pool).unwrap());

    let a = wp.write(&mut pool, &[97, 97]).unwrap();
    assert_eq!(a, 2);
    let is_dirty = wp.is_dirty(&pool).unwrap();
    assert!(is_dirty);

    wp.release(&mut pool).unwrap();

    let rp = pool.read_page(np).unwrap();

    let mut buf = vec![0; 5];
    let buf_read = rp.read(&pool, &mut buf);
    assert!(buf_read.is_ok());
    assert_eq!(buf_read.unwrap(), 5);
    assert_eq!(buf, vec![97, 97, 0, 0, 0]);
}

#[test]
fn test_read_write_page() {
    let disk_manager = DiskManager::default();
    let disk_scheduler = DiskScheduler::new(disk_manager);
    let replacer = Replacer::<ReplacerNode>::new(10);
    let mut buffer_pool_manager =
        BufferPoolManager::new(disk_scheduler, replacer, DEFAULT_PAGE_SIZE, 10);

    let np = buffer_pool_manager.new_page().unwrap();
    assert_eq!(np, 1);
    let np2 = buffer_pool_manager.new_page().unwrap();
    assert_eq!(np2, 2);
    let rp = buffer_pool_manager.read_page(np);
    assert!(rp.is_ok());
    let rp2 = buffer_pool_manager.read_page(10);
    assert!(rp2.is_err());

    // Write to a page and then read from it
    let wp = buffer_pool_manager.write_page(np);
    assert!(wp.is_ok());

    match wp.unwrap().write(&mut buffer_pool_manager, b"foo") {
        Ok(written) => {
            assert_eq!(written, 3);
        }
        Err(err) => {
            panic!("failed to write buffer page: {}", err.to_string());
        }
    }

    let rp = buffer_pool_manager.read_page(np);
    assert!(rp.is_ok());
    let mut buf = vec![0_u8; DEFAULT_PAGE_SIZE];

    match rp.unwrap().read(&buffer_pool_manager, &mut buf) {
        Ok(_written) => {}
        Err(err) => {
            panic!("failed to write buffer page: {}", err.to_string());
        }
    }

    assert_eq!(buf[..3], [102, 111, 111]);

    let wp = buffer_pool_manager.write_page(np);
    assert!(wp.is_ok());

    match wp.unwrap().write(&mut buffer_pool_manager, b"bar") {
        Ok(written) => {
            assert_eq!(written, 3);
        }
        Err(err) => {
            panic!("failed to write buffer page: {}", err.to_string());
        }
    }

    let rp = buffer_pool_manager.read_page(np);
    assert!(rp.is_ok());
    let mut buf = vec![0_u8; DEFAULT_PAGE_SIZE];

    match rp.unwrap().read(&buffer_pool_manager, &mut buf) {
        Ok(_written) => {}
        Err(err) => {
            panic!("failed to write buffer page: {}", err.to_string());
        }
    }

    assert_eq!(buf[..6], [102, 111, 111, 98, 97, 114]);
}

#[test]
fn test_page_contention() {
    // Several pins on one page share its frame, and the page stays where it
    // is for as long as one of them is held.
    let mut pool = small_pool(4, 1);
    let page_a = pool.new_page().unwrap();
    let page_b = pool.new_page().unwrap();
    let r1 = pool.read_page(page_a).unwrap();
    let r2 = pool.read_page(page_a).unwrap();
    let w = pool.write_page(page_a).unwrap();
    assert_eq!(r1.frame, r2.frame);
    assert_eq!(r1.frame, w.frame);
    assert_eq!(pool.frames()[w.frame].pin_count, 3);
    assert_eq!(w.write(&mut pool, &[7]), Ok(1));
    let mut seen = vec![0u8; 4];
    assert_eq!(r1.read(&pool, &mut seen), Ok(4));
    assert_eq!(seen, vec![7, 0, 0, 0]);
    assert_eq!(pool.read_page(page_b).err(), Some(PoolError::CapacityExhausted));
    r1.release(&mut pool).unwrap();
    r2.release(&mut pool).unwrap();
    assert_eq!(pool.read_page(page_b).err(), Some(PoolError::CapacityExhausted));
    w.release(&mut pool).unwrap();
    assert!(pool.read_page(page_b).is_ok());
}

#[test]
fn fresh_pool_has_free_clean_frames() {
    let pool = small_pool(3, 2);
    assert_eq!(pool.frames().len(), 2);
    for frame in pool.frames().iter() {
        assert_eq!(frame.buffer, vec![0, 0, 0]);
        assert_eq!(frame.pin_count, 0);
        assert_eq!(frame.current_page_index, None);
        assert!(!frame.dirty);
        assert_eq!(frame.cursor, 0);
    }
}

#[test]
fn fetch_of_a_page_never_handed_out_fails() {
    let mut pool = small_pool(4, 2);
    assert_eq!(pool.check_page(0), Err(PoolError::IoFailure));
    assert_eq!(pool.check_page(1), Err(PoolError::IoFailure));
    assert_eq!(pool.new_page(), Ok(1));
    assert_eq!(pool.check_page(1), Ok(0));
    assert_eq!(pool.check_page(2), Err(PoolError::IoFailure));
}

#[test]
fn pin_count_follows_fetch_and_unpin() {
    let mut pool = small_pool(4, 2);
    let p = pool.new_page().unwrap();
    let f = pool.check_page(p).unwrap();
    assert_eq!(pool.frames()[f].pin_count, 1);
    assert_eq!(pool.check_page(p), Ok(f));
    assert_eq!(pool.frames()[f].pin_count, 2);
    assert_eq!(pool.unpin(p, f, false), Ok(()));
    assert_eq!(pool.frames()[f].pin_count, 1);
    assert_eq!(pool.unpin(p, f, false), Ok(()));
    assert_eq!(pool.frames()[f].pin_count, 0);
    // A pin that is not held cannot be given back.
    assert_eq!(pool.unpin(p, f, false), Err(PoolError::InvariantViolation));
    assert_eq!(pool.frames()[f].pin_count, 0);
    assert_eq!(pool.unpin(p, 7, false), Err(PoolError::InvariantViolation));
    assert_eq!(pool.unpin(p + 1, f, false), Err(PoolError::InvariantViolation));
}

#[test]
fn forged_guards_are_refused() {
    let mut pool = small_pool(4, 2);
    let p = pool.new_page().unwrap();
    let reader = ReadPage::new(p, 1, 0);
    let writer = WritePage::new(p, 1, 0);
    assert_eq!(reader.page_id, p);
    assert_eq!(reader.pinned, 1);
    assert_eq!(writer.frame, 0);
    let mut buf = vec![9u8; 4];
    assert_eq!(reader.is_dirty(&pool), Err(PoolError::InvariantViolation));
    assert_eq!(reader.read(&pool, &mut buf), Err(PoolError::InvariantViolation));
    assert_eq!(buf, vec![9, 9, 9, 9]);
    assert_eq!(writer.is_dirty(&pool), Err(PoolError::InvariantViolation));
    assert_eq!(writer.write(&mut pool, &[1]), Err(PoolError::InvariantViolation));
    assert_eq!(writer.release(&mut pool), Err(PoolError::InvariantViolation));
    assert_eq!(reader.release(&mut pool), Err(PoolError::InvariantViolation));
}

#[test]
fn write_past_the_page_is_refused_whole() {
    let mut pool = small_pool(4, 1);
    let p = pool.new_page().unwrap();
    let w = pool.write_page(p).unwrap();
    assert_eq!(w.write(&mut pool, &[1, 2, 3]), Ok(3));
    assert_eq!(
        w.write(&mut pool, &[4, 5]),
        Err(PoolError::OutOfBounds {
            len: 2,
            offset: 3,
            page_size: 4
        })
    );
    assert_eq!(pool.frames()[w.frame].buffer, vec![1, 2, 3, 0]);
    assert_eq!(pool.frames()[w.frame].cursor, 3);
    assert_eq!(
        w.write(&mut pool, &[1, 2, 3, 4, 5]),
        Err(PoolError::OutOfBounds {
            len: 5,
            offset: 3,
            page_size: 4
        })
    );
    assert_eq!(pool.frames()[w.frame].buffer, vec![1, 2, 3, 0]);
}

#[test]
fn all_frames_pinned_exhausts_capacity() {
    let mut pool = small_pool(4, 3);
    let mut guards = Vec::new();
    for _ in 0..4 {
        pool.new_page().unwrap();
    }
    for p in 1..4 {
        guards.push(pool.read_page(p).unwrap());
    }
    assert_eq!(pool.check_page(4), Err(PoolError::CapacityExhausted));
    // Nothing moved.
    for (i, guard) in guards.iter().enumerate() {
        assert_eq!(guard.frame, i);
        assert_eq!(pool.frames()[i].current_page_index, Some(i + 1));
        assert_eq!(pool.frames()[i].pin_count, 1);
    }
    // A page that is resident can still be pinned again.
    assert_eq!(pool.check_page(2), Ok(1));
}

#[test]
fn one_eviction_per_page_beyond_capacity() {
    let mut pool = small_pool(4, 3);
    for _ in 0..5 {
        pool.new_page().unwrap();
    }
    // Three pages fill the three frames in order.
    for p in 1..4 {
        let guard = pool.read_page(p).unwrap();
        assert_eq!(guard.frame, p - 1);
        guard.release(&mut pool).unwrap();
    }
    // The fourth takes the frame of the first: all counters are zero and
    // the hand stands on slot 0.
    let guard = pool.read_page(4).unwrap();
    assert_eq!(guard.frame, 0);
    guard.release(&mut pool).unwrap();
    assert_eq!(resident(&pool), vec![Some(4), Some(2), Some(3)]);
    // The fifth takes the next slot after the hand.
    let guard = pool.read_page(5).unwrap();
    assert_eq!(guard.frame, 1);
    guard.release(&mut pool).unwrap();
    assert_eq!(resident(&pool), vec![Some(4), Some(5), Some(3)]);
}

#[test]
fn pinned_page_is_passed_over_by_the_sweep() {
    let mut pool = small_pool(4, 2);
    for _ in 0..3 {
        pool.new_page().unwrap();
    }
    let held = pool.read_page(1).unwrap();
    let other = pool.read_page(2).unwrap();
    other.release(&mut pool).unwrap();
    let third = pool.read_page(3).unwrap();
    assert_eq!(third.frame, 1);
    assert_eq!(pool.frames()[0].current_page_index, Some(1));
    held.release(&mut pool).unwrap();
    third.release(&mut pool).unwrap();
}

#[test]
fn page_round_trips_through_flush_and_eviction() {
    let mut pool = small_pool(4, 1);
    let page_a = pool.new_page().unwrap();
    let page_b = pool.new_page().unwrap();
    let w = pool.write_page(page_a).unwrap();
    assert_eq!(w.write(&mut pool, &[10, 20, 30]), Ok(3));
    w.release(&mut pool).unwrap();
    assert!(pool.frames()[0].dirty);
    assert_eq!(pool.flush(page_a), Ok(()));
    assert!(!pool.frames()[0].dirty);
    // Flushing again, or flushing a page that is not resident, does nothing.
    assert_eq!(pool.flush(page_a), Ok(()));
    assert_eq!(pool.flush(page_b), Ok(()));
    assert_eq!(pool.flush(99), Ok(()));
    let other = pool.read_page(page_b).unwrap();
    assert_eq!(pool.frames()[0].current_page_index, Some(page_b));
    let mut buf = vec![1u8; 4];
    assert_eq!(other.read(&pool, &mut buf), Ok(4));
    assert_eq!(buf, vec![0, 0, 0, 0]);
    other.release(&mut pool).unwrap();
    let back = pool.read_page(page_a).unwrap();
    assert_eq!(back.read(&pool, &mut buf), Ok(4));
    assert_eq!(buf, vec![10, 20, 30, 0]);
    assert_eq!(back.is_dirty(&pool), Ok(false));
}

#[test]
fn dirty_victim_is_written_back_before_reuse() {
    let mut pool = small_pool(4, 1);
    let page_a = pool.new_page().unwrap();
    let page_b = pool.new_page().unwrap();
    let w = pool.write_page(page_a).unwrap();
    assert_eq!(w.write(&mut pool, &[5, 6]), Ok(2));
    w.release(&mut pool).unwrap();
    // No flush: the eviction has to save the bytes.
    let w2 = pool.write_page(page_b).unwrap();
    assert_eq!(w2.write(&mut pool, &[8]), Ok(1));
    w2.release(&mut pool).unwrap();
    let back = pool.read_page(page_a).unwrap();
    let mut buf = vec![0u8; 4];
    assert_eq!(back.read(&pool, &mut buf), Ok(4));
    assert_eq!(buf, vec![5, 6, 0, 0]);
    back.release(&mut pool).unwrap();
    let again = pool.read_page(page_b).unwrap();
    assert_eq!(again.read(&pool, &mut buf), Ok(4));
    assert_eq!(buf, vec![8, 0, 0, 0]);
}

#[test]
fn unpin_can_mark_the_frame_dirty() {
    let mut pool = small_pool(4, 1);
    let p = pool.new_page().unwrap();
    let f = pool.check_page(p).unwrap();
    assert_eq!(pool.is_dirty(p, f), Ok(false));
    assert_eq!(pool.check_page(p), Ok(f));
    assert_eq!(pool.unpin(p, f, true), Ok(()));
    assert_eq!(pool.is_dirty(p, f), Ok(true));
    assert_eq!(pool.unpin(p, f, false), Ok(()));
    assert!(pool.frames()[f].dirty);
    assert!(!pool.holds_pin(p, f));
}

#[test]
fn lru_pool_evicts_the_page_unpinned_longest_ago() {
    let mut pool = small_lru_pool(4, 3);
    for _ in 0..5 {
        pool.new_page().unwrap();
    }
    for p in 1..4 {
        let guard = pool.read_page(p).unwrap();
        assert_eq!(guard.frame, p - 1);
        guard.release(&mut pool).unwrap();
    }
    // Page 1 is used again: page 2 is now the one that has waited longest.
    let again = pool.read_page(1).unwrap();
    again.release(&mut pool).unwrap();
    let guard = pool.read_page(4).unwrap();
    assert_eq!(guard.frame, 1);
    guard.release(&mut pool).unwrap();
    assert_eq!(resident(&pool), vec![Some(1), Some(4), Some(3)]);
    let guard = pool.read_page(5).unwrap();
    assert_eq!(guard.frame, 2);
    guard.release(&mut pool).unwrap();
    assert_eq!(resident(&pool), vec![Some(1), Some(4), Some(5)]);
}

#[test]
fn the_two_policies_choose_by_their_own_rule() {
    // Page 3 is used twice more, then pages 1 and 2 once each.
    let history = [1, 2, 3, 3, 3, 1, 2];
    let mut lru = small_lru_pool(4, 3);
    let mut clock = small_pool(4, 3);
    for _ in 0..4 {
        lru.new_page().unwrap();
        clock.new_page().unwrap();
    }
    for p in history {
        let guard = lru.read_page(p).unwrap();
        guard.release(&mut lru).unwrap();
        let guard = clock.read_page(p).unwrap();
        guard.release(&mut clock).unwrap();
    }
    // Least recently used: page 3 has waited longest.
    let guard = lru.read_page(4).unwrap();
    assert_eq!(guard.frame, 2);
    assert_eq!(resident(&lru), vec![Some(1), Some(2), Some(4)]);
    // CLOCK: pages 1 and 2 have the lowest counter, and the hand stands on
    // the slot of page 2.
    let guard = clock.read_page(4).unwrap();
    assert_eq!(guard.frame, 1);
    assert_eq!(resident(&clock), vec![Some(1), Some(4), Some(3)]);
}

#[test]
fn lru_pool_keeps_pinned_pages_and_fails_when_all_are_pinned() {
    let mut pool = small_lru_pool(4, 2);
    for _ in 0..3 {
        pool.new_page().unwrap();
    }
    let first = pool.read_page(1).unwrap();
    let second = pool.read_page(2).unwrap();
    assert_eq!(pool.check_page(3), Err(PoolError::CapacityExhausted));
    assert_eq!(resident(&pool), vec![Some(1), Some(2)]);
    second.release(&mut pool).unwrap();
    let third = pool.read_page(3).unwrap();
    assert_eq!(third.frame, 1);
    assert_eq!(resident(&pool), vec![Some(1), Some(3)]);
    first.release(&mut pool).unwrap();
    third.release(&mut pool).unwrap();
    // Page 1 was unpinned before page 3.
    let back = pool.read_page(2).unwrap();
    assert_eq!(back.frame, 0);
}

#[test]
fn lru_pool_round_trips_pages_through_eviction() {
    let mut pool = small_lru_pool(4, 1);
    let page_a = pool.new_page().unwrap();
    let page_b = pool.new_page().unwrap();
    let w = pool.write_page(page_a).unwrap();
    assert_eq!(w.write(&mut pool, &[1, 2]), Ok(2));
    w.release(&mut pool).unwrap();
    let w2 = pool.write_page(page_b).unwrap();
    assert_eq!(w2.write(&mut pool, &[3]), Ok(1));
    w2.release(&mut pool).unwrap();
    assert_eq!(pool.flush(page_b), Ok(()));
    let back = pool.read_page(page_a).unwrap();
    let mut buf = vec![0u8; 4];
    assert_eq!(back.read(&pool, &mut buf), Ok(4));
    assert_eq!(buf, vec![1, 2, 0, 0]);
    back.release(&mut pool).unwrap();
    let again = pool.read_page(page_b).unwrap();
    assert_eq!(again.read(&pool, &mut buf), Ok(4));
    assert_eq!(buf, vec![3, 0, 0, 0]);
}
