//! A page cache ("buffer pool") between fixed-size-page storage and the
//! structures built on top of it.
//!
//! * [`frame`] and [`buffer_pool_manager`]: the frames, the pins on them and
//!   the manager that fetches, unpins and flushes pages;
//! * [`policy`], with [`clock_replacer`] / [`clock_policy`] and
//!   [`lru_replacer`] / [`lru_policy`]: what a replacement policy is, and the
//!   two policies that the pool can be made with;
//! * [`disk_manager`] and [`disk_scheduler`]: the backing store and the queue
//!   of requests in front of it;
//! * [`pool_state`] and [`pool_trace`]: the pool as a mathematical value, and
//!   what holds of it over whole sequences of operations.

pub mod buffer_pool_manager;
pub mod clock_policy;
pub mod clock_replacer;
pub mod disk_manager;
pub mod disk_scheduler;
pub mod error;
pub mod frame;
pub mod lru_policy;
pub mod lru_replacer;
pub mod lru_state;
pub mod page;
pub mod policy;
pub mod pool_state;
pub mod pool_trace;

use vstd::prelude::*;

verus! {

/// Size of a page in bytes unless configured otherwise.
pub const DEFAULT_PAGE_SIZE: usize = 4096;

} // verus!
