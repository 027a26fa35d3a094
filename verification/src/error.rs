//! The failures that the buffer pool reports to its callers.

use vstd::prelude::*;

verus! {

/// Why an operation of the buffer pool was refused.
#[derive(Clone, Copy, Debug, PartialEq, Eq, Structural)]
pub enum PoolError {
    /// The backing store could not read, write or resize, or the request
    /// queue in front of it no longer takes requests.
    IoFailure,
    /// No frame is free and every resident page is pinned.
    CapacityExhausted,
    /// A write of `len` bytes at `offset` does not fit in a page of
    /// `page_size` bytes. Nothing was written.
    OutOfBounds { len: usize, offset: usize, page_size: usize },
    /// The bookkeeping was asked for something that can only follow from a
    /// programming defect, such as releasing a pin that is not held.
    InvariantViolation,
}

impl PoolError {
    /// The text of the message for each error.
    pub open spec fn message(self) -> Seq<char> {
        match self {
            PoolError::IoFailure => "backing store request failed"@,
            PoolError::CapacityExhausted => "all frames are pinned"@,
            PoolError::OutOfBounds { len, offset, page_size } => if len > page_size {
                "buffer is too large"@
            } else {
                "buffer will exceed page size"@
            },
            PoolError::InvariantViolation => "buffer pool invariant violated"@,
        }
    }

    /// A human-readable description of the error.
    pub fn to_string(&self) -> (text: String)
        ensures
            text@ == self.message(),
    {
        match *self {
            PoolError::IoFailure => "backing store request failed".to_owned(),
            PoolError::CapacityExhausted => "all frames are pinned".to_owned(),
            PoolError::OutOfBounds { len, offset: _, page_size } => if len > page_size {
                "buffer is too large".to_owned()
            } else {
                "buffer will exceed page size".to_owned()
            },
            PoolError::InvariantViolation => "buffer pool invariant violated".to_owned(),
        }
    }
}

} // verus!
