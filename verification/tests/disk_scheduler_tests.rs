use composter::disk_manager::{DiskManager, DiskManagerRequest};
use composter::disk_scheduler::DiskScheduler;
use composter::error::PoolError;

#[test]
fn requests_complete_once_in_order_of_submission() {
    let dm = DiskManager::new(4096, None, true);
    let mut ds = DiskScheduler::new(dm);
    for i in 1..10 {
        ds.new_page(i).unwrap();
    }
    for i in 1..10 {
        ds.request(false, vec![0; 4096], i, 100 + i).unwrap();
    }
    // Nothing is answered before the worker runs.
    assert!(ds.next_completion().is_none());
    ds.run_worker();
    for i in 1..10 {
        let done = ds.next_completion().unwrap();
        assert_eq!(done.callback, 100 + i);
        assert!(done.is_okay);
        assert_eq!(done.data, vec![0; 4096]);
    }
    assert!(ds.next_completion().is_none());
    ds.run_worker();
    assert!(ds.next_completion().is_none());
}

#[test]
fn a_write_is_seen_by_the_read_behind_it() {
    let mut dm = DiskManager::new(2, None, true);
    dm.increase_pages(2).unwrap();
    let mut ds = DiskScheduler::new(dm);
    ds.request(false, vec![9, 9], 2, 1).unwrap();
    ds.request(true, vec![4, 5], 2, 2).unwrap();
    ds.request(false, vec![9, 9], 2, 3).unwrap();
    ds.request(false, vec![9, 9], 3, 4).unwrap();
    ds.request(true, vec![1], 1, 5).unwrap();
    ds.run_worker();
    let first = ds.next_completion().unwrap();
    assert_eq!((first.callback, first.is_okay, first.data), (1, true, vec![0, 0]));
    let second = ds.next_completion().unwrap();
    assert_eq!((second.callback, second.is_okay, second.data), (2, true, vec![4, 5]));
    let third = ds.next_completion().unwrap();
    assert_eq!((third.callback, third.is_okay, third.data), (3, true, vec![4, 5]));
    // A page that the store does not hold: the buffer comes back as it was.
    let fourth = ds.next_completion().unwrap();
    assert_eq!((fourth.callback, fourth.is_okay, fourth.data), (4, false, vec![9, 9]));
    let fifth = ds.next_completion().unwrap();
    assert_eq!((fifth.callback, fifth.is_okay, fifth.data), (5, false, vec![1]));
    assert_eq!(ds.disk_manager().in_memory_pages, Some(vec![0, 0, 4, 5]));
}

#[test]
fn transfer_waits_behind_what_was_submitted_before() {
    let mut dm = DiskManager::new(2, None, true);
    dm.increase_pages(1).unwrap();
    let mut ds = DiskScheduler::new(dm);
    ds.request(true, vec![7, 7], 1, 1).unwrap();
    let done = ds.transfer(false, vec![0, 0], 1, 2).unwrap();
    assert_eq!((done.callback, done.is_okay, done.data), (2, true, vec![7, 7]));
    // The earlier request's completion is still there to be fetched.
    let earlier = ds.next_completion().unwrap();
    assert_eq!(earlier.callback, 1);
    assert!(ds.next_completion().is_none());
}

#[test]
fn shutdown_serves_what_waits_and_refuses_the_rest() {
    let mut dm = DiskManager::new(2, None, true);
    dm.increase_pages(1).unwrap();
    let mut ds = DiskScheduler::new(dm);
    ds.request(true, vec![1, 2], 1, 11).unwrap();
    ds.shutdown();
    let done = ds.next_completion().unwrap();
    assert_eq!((done.callback, done.is_okay), (11, true));
    assert_eq!(ds.request(false, vec![0, 0], 1, 12), Err(PoolError::IoFailure));
    assert_eq!(ds.new_page(5), Err(PoolError::IoFailure));
    assert!(ds.transfer(false, vec![0, 0], 1, 13).is_err());
    ds.run_worker();
    assert!(ds.next_completion().is_none());
    assert_eq!(ds.disk_manager().in_memory_pages, Some(vec![1, 2]));
}

#[test]
fn the_worker_serves_one_request_against_the_store() {
    let mut dm = DiskManager::new(2, None, true);
    let grow = DiskManagerRequest::DiskResizeRequest { grow: true, pages: 2, callback: 1 };
    let done = DiskScheduler::serve(&mut dm, grow);
    assert_eq!((done.callback, done.is_okay, done.data), (1, true, vec![]));
    assert_eq!(dm.in_memory_pages, Some(vec![0; 4]));
    let write = DiskManagerRequest::DiskRwRequest {
        is_write: true,
        data: vec![3, 4],
        page_id: 2,
        callback: 2,
    };
    let done = DiskScheduler::serve(&mut dm, write);
    assert_eq!((done.callback, done.is_okay, done.data), (2, true, vec![3, 4]));
    let read = DiskManagerRequest::DiskRwRequest {
        is_write: false,
        data: vec![0, 0],
        page_id: 2,
        callback: 3,
    };
    let done = DiskScheduler::serve(&mut dm, read);
    assert_eq!((done.callback, done.is_okay, done.data), (3, true, vec![3, 4]));
    let shrink = DiskManagerRequest::DiskResizeRequest { grow: false, pages: 1, callback: 4 };
    let done = DiskScheduler::serve(&mut dm, shrink);
    assert_eq!((done.callback, done.is_okay), (4, true));
    assert_eq!(dm.in_memory_pages, Some(vec![0, 0]));
}

#[test]
fn new_page_fails_where_the_store_cannot_grow() {
    let dm = DiskManager::new(4096, None, true);
    let mut ds = DiskScheduler::new(dm);
    assert_eq!(ds.new_page(usize::MAX), Err(PoolError::IoFailure));
    assert_eq!(ds.new_page(1), Ok(()));
    assert_eq!(ds.disk_manager().in_memory_pages.as_ref().unwrap().len(), 4096);
}
