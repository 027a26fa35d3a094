use composter::error::PoolError;
use composter::frame::Frame;

#[test]
fn test_frame_writer() {
    let mut frame = Frame::new(5);
    assert_eq!(vec![0, 0, 0, 0, 0], frame.buffer);
    let val = frame.write(&[1, 2, 3]).unwrap();
    assert_eq!(val, 3);
    assert_eq!(vec![1, 2, 3, 0, 0], frame.buffer);
    let val = frame.write(&[4]).unwrap();
    assert_eq!(val, 1);
    assert_eq!(vec![1, 2, 3, 4, 0], frame.buffer);
    let val = frame.write(&[5]).unwrap();
    assert_eq!(val, 1);
    assert_eq!(vec![1, 2, 3, 4, 5], frame.buffer);
    match frame.write(&[6]) {
        Ok(_val) => {
            panic!("should not have a value")
        }
        Err(err) => {
            assert_eq!(err.to_string(), "buffer will exceed page size");
        }
    }
}

#[test]
fn oversized_write_leaves_the_frame_as_it_was() {
    let mut frame = Frame::new(5);
    assert_eq!(frame.write(&[1, 2]), Ok(2));
    let err = frame.write(&[9, 9, 9, 9, 9, 9]).unwrap_err();
    assert_eq!(
        err,
        PoolError::OutOfBounds {
            len: 6,
            offset: 2,
            page_size: 5
        }
    );
    assert_eq!(err.to_string(), "buffer is too large");
    assert_eq!(frame.buffer, vec![1, 2, 0, 0, 0]);
    assert_eq!(frame.cursor, 2);
    assert!(frame.dirty);
    assert_eq!(frame.pin_count, 0);
    assert_eq!(frame.current_page_index, None);
}

#[test]
fn failed_write_does_not_mark_a_clean_frame_dirty() {
    let mut frame = Frame::new(2);
    assert!(frame.write(&[1, 2, 3]).is_err());
    assert!(!frame.dirty);
    assert_eq!(frame.buffer, vec![0, 0]);
}

#[test]
fn write_appends_even_after_zero_bytes() {
    let mut frame = Frame::new(4);
    assert_eq!(frame.write(&[1, 0]), Ok(2));
    assert_eq!(frame.write(&[]), Ok(0));
    assert_eq!(frame.write(&[3]), Ok(1));
    assert_eq!(frame.buffer, vec![1, 0, 3, 0]);
    assert_eq!(frame.cursor, 3);
}

#[test]
fn frame_read_copies_the_whole_page() {
    let mut frame = Frame::new(3);
    assert_eq!(frame.page_size, 3);
    frame.write(&[4, 5]).unwrap();
    let mut out = vec![9u8; 3];
    assert_eq!(frame.read(&mut out), 3);
    assert_eq!(out, vec![4, 5, 0]);
}

#[test]
fn each_error_has_its_message() {
    assert_eq!(PoolError::IoFailure.to_string(), "backing store request failed");
    assert_eq!(PoolError::CapacityExhausted.to_string(), "all frames are pinned");
    assert_eq!(
        PoolError::InvariantViolation.to_string(),
        "buffer pool invariant violated"
    );
    let fits_alone = PoolError::OutOfBounds {
        len: 2,
        offset: 4,
        page_size: 5,
    };
    assert_eq!(fits_alone.to_string(), "buffer will exceed page size");
    let too_large = PoolError::OutOfBounds {
        len: 6,
        offset: 0,
        page_size: 5,
    };
    assert_eq!(too_large.to_string(), "buffer is too large");
}
