use composter::disk_manager::DiskManager;
use composter::error::PoolError;
use composter::DEFAULT_PAGE_SIZE;
use std::path::PathBuf;

#[test]
fn test_disk_manager_in_memory() {
    let mut dm = DiskManager::default();
    assert_eq!(dm.page_size, DEFAULT_PAGE_SIZE);
    assert_eq!(dm.page_dir, None);
    assert!(dm.in_memory);
    assert_eq!(dm.in_memory_pages, Some(vec![]));

    let v_test: Vec<u8> = vec![0; DEFAULT_PAGE_SIZE];

    dm.increase_pages(1).unwrap();
    assert_eq!(dm.in_memory_pages, Some(v_test));

    let mut v_test: Vec<u8> = vec![u8::try_from('a').unwrap(); DEFAULT_PAGE_SIZE];
    dm.write_in_memory(1, &mut v_test).unwrap();
    assert_eq!(dm.in_memory_pages, Some(v_test));

    let mut v_test: Vec<u8> = vec![0; DEFAULT_PAGE_SIZE];
    dm.read_in_memory(1, &mut v_test).unwrap();
    assert_eq!(dm.in_memory_pages, Some(v_test));
}

#[test]
fn default_page_size_is_4096() {
    assert_eq!(DEFAULT_PAGE_SIZE, 4096);
}

#[test]
fn pages_lie_one_after_another() {
    let mut dm = DiskManager::new(3, None, true);
    assert_eq!(dm.page_range(0), None);
    assert_eq!(dm.page_range(1), Some((0, 3)));
    assert_eq!(dm.page_range(2), Some((3, 6)));
    assert_eq!(dm.page_range(5), Some((12, 15)));
    assert_eq!(dm.page_range(usize::MAX), None);
    assert_eq!(dm.increase_pages(3), Ok(()));
    assert_eq!(dm.in_memory_pages, Some(vec![0; 9]));
    assert!(dm.write_page(&vec![1, 2, 3], 2));
    assert_eq!(dm.in_memory_pages, Some(vec![0, 0, 0, 1, 2, 3, 0, 0, 0]));
    assert!(dm.write_page(&vec![7, 8, 9], 3));
    assert_eq!(dm.in_memory_pages, Some(vec![0, 0, 0, 1, 2, 3, 7, 8, 9]));
    let mut out = vec![0u8; 3];
    assert!(dm.read_page(&mut out, 2));
    assert_eq!(out, vec![1, 2, 3]);
    assert!(dm.read_page(&mut out, 1));
    assert_eq!(out, vec![0, 0, 0]);
}

#[test]
fn transfers_outside_the_store_fail_and_change_nothing() {
    let mut dm = DiskManager::new(2, None, true);
    dm.increase_pages(2).unwrap();
    assert!(dm.write_page(&vec![1, 1], 1));
    let before = dm.in_memory_pages.clone();
    // No page 0, no page 3.
    assert!(!dm.write_page(&vec![5, 5], 0));
    assert!(!dm.write_page(&vec![5, 5], 3));
    // Not a page long.
    assert!(!dm.write_page(&vec![5], 1));
    assert!(!dm.write_page(&vec![5, 5, 5], 1));
    assert_eq!(dm.in_memory_pages, before);
    assert_eq!(dm.write_in_memory(3, &vec![5, 5]), Err(PoolError::IoFailure));
    let mut out = vec![9u8, 9];
    assert!(!dm.read_page(&mut out, 0));
    assert!(!dm.read_page(&mut out, 3));
    assert_eq!(out, vec![9, 9]);
    let mut short = vec![9u8];
    assert!(!dm.read_page(&mut short, 1));
    assert_eq!(short, vec![9]);
    assert_eq!(dm.read_in_memory(3, &mut out), Err(PoolError::IoFailure));
    assert_eq!(out, vec![9, 9]);
}

#[test]
fn the_store_grows_and_shrinks_by_pages() {
    let mut dm = DiskManager::new(2, None, true);
    assert_eq!(dm.increase_pages(2), Ok(()));
    assert!(dm.write_page(&vec![3, 4], 2));
    // Growing to what is there already changes nothing.
    assert_eq!(dm.increase_pages(1), Ok(()));
    assert_eq!(dm.in_memory_pages, Some(vec![0, 0, 3, 4]));
    assert_eq!(dm.increase_pages(3), Ok(()));
    assert_eq!(dm.in_memory_pages, Some(vec![0, 0, 3, 4, 0, 0]));
    // Shrinking to more than is there changes nothing.
    assert_eq!(dm.decrease_pages(5), Ok(()));
    assert_eq!(dm.in_memory_pages, Some(vec![0, 0, 3, 4, 0, 0]));
    assert_eq!(dm.decrease_pages(1), Ok(()));
    assert_eq!(dm.in_memory_pages, Some(vec![0, 0]));
    assert_eq!(dm.decrease_pages(0), Ok(()));
    assert_eq!(dm.in_memory_pages, Some(vec![]));
    // A size that cannot be counted.
    assert_eq!(dm.increase_pages(usize::MAX), Err(PoolError::IoFailure));
    assert_eq!(dm.in_memory_pages, Some(vec![]));
}

#[test]
fn a_store_that_is_not_in_memory_serves_nothing() {
    let mut dm = DiskManager::new(2, Some(PathBuf::from("pages.db")), false);
    assert_eq!(dm.page_size, 2);
    assert_eq!(dm.page_dir, Some(PathBuf::from("pages.db")));
    assert!(!dm.in_memory);
    assert_eq!(dm.in_memory_pages, None);
    assert_eq!(dm.increase_pages(1), Err(PoolError::IoFailure));
    assert_eq!(dm.decrease_pages(1), Err(PoolError::IoFailure));
    assert!(!dm.write_page(&vec![1, 2], 1));
    let mut out = vec![0u8; 2];
    assert!(!dm.read_page(&mut out, 1));
    assert_eq!(dm.write_in_memory(1, &vec![1, 2]), Err(PoolError::IoFailure));
    assert_eq!(dm.read_in_memory(1, &mut out), Err(PoolError::IoFailure));
    // The offsets are the same wherever the bytes live.
    assert_eq!(dm.page_range(4), Some((6, 8)));
}
