//! The buffer pool manager: it owns the frames and every index over them,
//! hands out pins on pages, and moves pages between the frames and the
//! backing store.

use crate::disk_scheduler::DiskScheduler;
use crate::error::PoolError;
pub use crate::frame::Frame;
use crate::policy::{PolicyModel, ReplacementPolicy};
use crate::pool_state::PoolState;
use std::collections::HashMap;
use vstd::prelude::*;

verus! {

broadcast use vstd::std_specs::hash::group_hash_axioms;

/// A pin on a page, taken to read it. It names the page and the frame that
/// holds it, and says in `pinned` how many pins it stands for; the bytes
/// stay in the pool. Reading borrows the pool shared, so that any number of
/// readers can look at a frame at once.
pub struct ReadPage {
    pub page_id: usize,
    pub pinned: usize,
    pub frame: usize,
}

/// A pin on a page, taken to write it. Writing borrows the pool
/// exclusively: while one guard writes, nothing else reads or writes.
pub struct WritePage {
    pub page_id: usize,
    pub pinned: usize,
    pub frame: usize,
}

/// The pool. See [`PoolState`] for what it holds and for what each
/// operation does.
pub struct BufferPoolManager<P: ReplacementPolicy> {
    disk_scheduler: DiskScheduler,
    page_table: HashMap<usize, usize>,
    free_list: Vec<usize>,
    current_page_index: usize,
    replacer: P,
    frames: Vec<Frame>,
    page_size: usize,
}

impl<P: ReplacementPolicy> View for BufferPoolManager<P> {
    type V = PoolState<P::Model>;

    closed spec fn view(&self) -> PoolState<P::Model> {
        PoolState {
            frames: self.frames@.map_values(|f: Frame| f@),
            page_table: self.page_table@,
            free_list: self.free_list@,
            pages: self.current_page_index,
            policy: self.replacer.model(),
            disk: self.disk_scheduler@.disk,
            page_size: self.page_size,
        }
    }
}

impl<P: ReplacementPolicy> BufferPoolManager<P> {
    /// The pool's invariant holds, nothing waits in the scheduler, and each
    /// frame is as long as the pool's pages.
    pub closed spec fn wf(&self) -> bool {
        &&& self@.wf()
        &&& self.replacer.inv()
        &&& self.disk_scheduler@.idle()
        &&& forall|i: int|
            0 <= i < self.frames@.len() ==> (#[trigger] self.frames@[i]).page_size == self.page_size
    }

    /// A well-formed pool has a well-formed model.
    pub proof fn lemma_wf(&self)
        requires
            self.wf(),
        ensures
            self@.wf(),
    {
    }

    /// A pool of `num_frames` free frames of `page_size` bytes each.
    ///
    /// The replacer must hold no id yet and have room for one id per frame;
    /// the store behind the scheduler must be in memory, with pages of the
    /// same size, and the scheduler must have nothing in flight.
    pub fn new(disk_scheduler: DiskScheduler, replacer: P, page_size: usize, num_frames: usize) -> (pool:
        Self)
        requires
            replacer.inv(),
            replacer.model().capacity() == num_frames,
            replacer.model().held().dom() == Set::<usize>::empty(),
            disk_scheduler@.idle(),
            disk_scheduler@.disk.in_memory,
            disk_scheduler@.disk.present,
            disk_scheduler@.disk.page_size == page_size,
        ensures
            pool.wf(),
            pool@ == PoolState::fresh(num_frames, page_size, replacer.model(), disk_scheduler@.disk),
    {
        let mut frames: Vec<Frame> = Vec::new();
        let mut free_list: Vec<usize> = Vec::new();
        let mut i: usize = 0;
        while i < num_frames
            invariant
                i <= num_frames,
                frames@.len() == i,
                free_list@.len() == i,
                forall|j: int|
                    0 <= j < i ==> (#[trigger] frames@[j])@ == PoolState::<P::Model>::free_frame(
                        page_size,
                    ) && frames@[j].page_size == page_size,
                forall|j: int| 0 <= j < i ==> #[trigger] free_list@[j] == num_frames - 1 - j,
            decreases num_frames - i,
        {
            frames.push(Frame::new(page_size));
            free_list.push(num_frames - 1 - i);
            i += 1;
        }
        let pool = BufferPoolManager {
            disk_scheduler,
            page_table: HashMap::new(),
            free_list,
            current_page_index: 0,
            replacer,
            frames,
            page_size,
        };
        proof {
            let fresh = PoolState::fresh(
                num_frames,
                page_size,
                replacer.model(),
                disk_scheduler@.disk,
            );
            replacer.lemma_inv();
            assert(pool@.frames =~= fresh.frames);
            assert(pool@.free_list =~= fresh.free_list);
            assert(pool@.page_table =~= fresh.page_table);
            assert(pool@.page_table.dom() =~= Set::<usize>::empty());
            assert forall|k: int| 0 <= k < num_frames implies #[trigger] pool@.frame_wf(k) by {}
            assert forall|j: int| 0 <= j < num_frames implies #[trigger] pool@.free_wf(j) by {}
            assert(0 * page_size == 0) by (nonlinear_arith);
        }
        pool
    }

    /// The frames of the pool.
    pub fn frames(&self) -> (frames: &Vec<Frame>)
        ensures
            frames@.len() == self@.frames.len(),
            forall|i: int| 0 <= i < frames@.len() ==> (#[trigger] frames@[i])@ == self@.frames[i],
    {
        &self.frames
    }

    /// Hands out the next page id and has the store make room for the page.
    ///
    /// Fails, and changes nothing, if the ids are used up or the store
    /// cannot grow.
    pub fn new_page(&mut self) -> (result: Result<usize, PoolError>)
        requires
            old(self).wf(),
        ensures
            final(self).wf(),
            final(self)@ == old(self)@.new_page(),
            result == old(self)@.new_page_result(),
    {
        if self.current_page_index == usize::MAX {
            return Err(PoolError::IoFailure);
        }
        let next = self.current_page_index + 1;
        match self.disk_scheduler.new_page(next) {
            Ok(_) => {
                self.current_page_index = next;
                proof {
                    old(self)@.lemma_new_page_wf();
                    assert(self@.frames =~= old(self)@.new_page().frames);
                }
                Ok(next)
            },
            Err(e) => Err(e),
        }
    }

    /// Fetches page `page_id`: makes sure that it is in a frame, pins it and
    /// returns the frame's number.
    ///
    /// A page that is resident is pinned where it is. One that is not goes
    /// into a free frame or, if none is free, into the frame of the victim
    /// that the replacer picks; the victim's page is written back first if
    /// it is dirty. The call fails with `IoFailure` for a page that was
    /// never handed out, with `CapacityExhausted` if no frame is free and
    /// every resident page is pinned, and with `InvariantViolation` if the
    /// pin could not be counted any more. A call that fails changes nothing.
    pub fn check_page(&mut self, page_id: usize) -> (result: Result<usize, PoolError>)
        requires
            old(self).wf(),
        ensures
            final(self).wf(),
            final(self)@ == old(self)@.fetch(page_id),
            result == old(self)@.fetch_result(page_id),
    {
        let ghost pre = self@;
        if page_id == 0 || page_id > self.current_page_index {
            return Err(PoolError::IoFailure);
        }
        proof {
            pre.lemma_fetch_wf(page_id);
            pre.lemma_room();
            pre.policy.lemma_accessed(page_id);
            pre.policy.lemma_within_capacity();
            pre.disk.lemma_holds_each(pre.pages, page_id);
            self.replacer.lemma_inv();
            assert(pre.policy.held().dom().contains(page_id) <==> pre.resident(page_id));
        }
        let hit = match self.page_table.get(&page_id) {
            Some(f) => Some(*f),
            None => None,
        };
        match hit {
            Some(f) => {
                proof {
                    assert(pre.entry_wf(page_id));
                }
                if self.frames[f].pin_count == u64::MAX {
                    return Err(PoolError::InvariantViolation);
                }
                let _ = self.replacer.record_access(page_id);
                self.replacer.set_evictable(page_id, false);
                self.frames[f].pin_count += 1;
                proof {
                    assert(self@.frames =~= pre.fetch(page_id).frames);
                }
                Ok(f)
            },
            None => {
                let evicted = match self.replacer.record_access(page_id) {
                    Ok(evicted) => evicted,
                    Err(e) => {
                        return Err(e);
                    },
                };
                self.replacer.set_evictable(page_id, false);
                let f = match evicted {
                    None => match self.free_list.pop() {
                        Some(f) => f,
                        None => {
                            return Err(PoolError::InvariantViolation);
                        },
                    },
                    Some(victim) => {
                        let f = match self.page_table.remove(&victim) {
                            Some(f) => f,
                            None => {
                                return Err(PoolError::InvariantViolation);
                            },
                        };
                        proof {
                            assert(pre.entry_wf(victim));
                            assert(pre.frame_wf(f as int));
                            pre.disk.lemma_holds_each(pre.pages, victim);
                        }
                        if self.frames[f].dirty {
                            let data = self.frames[f].buffer.clone();
                            match self.disk_scheduler.transfer(true, data, victim, f) {
                                Ok(done) => {
                                    if !done.is_okay {
                                        return Err(PoolError::IoFailure);
                                    }
                                },
                                Err(e) => {
                                    return Err(e);
                                },
                            }
                            proof {
                                pre.disk.lemma_other_page(
                                    victim,
                                    page_id,
                                    pre.frames[f as int].bytes,
                                );
                            }
                        }
                        f
                    },
                };
                proof {
                    if evicted.is_none() {
                        assert(pre.free_wf(pre.free_list.len() - 1));
                    }
                }
                let buffer = vec![0u8; self.page_size];
                let done = match self.disk_scheduler.transfer(false, buffer, page_id, f) {
                    Ok(done) => done,
                    Err(e) => {
                        return Err(e);
                    },
                };
                if !done.is_okay {
                    return Err(PoolError::IoFailure);
                }
                self.frames[f].buffer = done.data;
                self.frames[f].pin_count = 1;
                self.frames[f].current_page_index = Some(page_id);
                self.frames[f].dirty = false;
                self.frames[f].cursor = 0;
                self.page_table.insert(page_id, f);
                proof {
                    let post = pre.fetch(page_id);
                    assert(self@.frames =~= post.frames);
                    assert(self@.page_table =~= post.page_table);
                    assert(self@.free_list =~= post.free_list);
                }
                Ok(f)
            },
        }
    }

    /// Gives back one pin on page `page_id` in frame `frame`, and marks the
    /// frame dirty if `mark_dirty`.
    ///
    /// Fails with `InvariantViolation`, and changes nothing, if the frame
    /// does not hold the page or has no pin: a pin count never goes below
    /// zero.
    pub fn unpin(&mut self, page_id: usize, frame: usize, mark_dirty: bool) -> (result: Result<
        (),
        PoolError,
    >)
        requires
            old(self).wf(),
        ensures
            final(self).wf(),
            final(self)@ == old(self)@.unpin(page_id, frame, mark_dirty),
            result == old(self)@.unpin_result(page_id, frame),
    {
        let ghost pre = self@;
        proof {
            pre.lemma_unpin_wf(page_id, frame, mark_dirty);
        }
        if frame >= self.frames.len() {
            return Err(PoolError::InvariantViolation);
        }
        let held = match self.frames[frame].current_page_index {
            Some(p) => p == page_id,
            None => false,
        };
        if !held || self.frames[frame].pin_count == 0 {
            return Err(PoolError::InvariantViolation);
        }
        self.frames[frame].pin_count -= 1;
        if mark_dirty {
            self.frames[frame].dirty = true;
        }
        if self.frames[frame].pin_count == 0 {
            self.replacer.set_evictable(page_id, true);
        }
        proof {
            assert(self@.frames =~= pre.unpin(page_id, frame, mark_dirty).frames);
        }
        Ok(())
    }

    /// Writes page `page_id` back to the store if it is resident and dirty,
    /// and marks its frame clean. Otherwise nothing happens.
    pub fn flush(&mut self, page_id: usize) -> (result: Result<(), PoolError>)
        requires
            old(self).wf(),
        ensures
            final(self).wf(),
            final(self)@ == old(self)@.flush(page_id),
            result == Ok::<(), PoolError>(()),
    {
        let ghost pre = self@;
        proof {
            pre.lemma_flush_wf(page_id);
        }
        let hit = match self.page_table.get(&page_id) {
            Some(f) => Some(*f),
            None => None,
        };
        match hit {
            Some(f) => {
                proof {
                    assert(pre.entry_wf(page_id));
                    assert(pre.frame_wf(f as int));
                    pre.disk.lemma_holds_each(pre.pages, page_id);
                }
                if self.frames[f].dirty {
                    let data = self.frames[f].buffer.clone();
                    match self.disk_scheduler.transfer(true, data, page_id, f) {
                        Ok(done) => {
                            if !done.is_okay {
                                return Err(PoolError::IoFailure);
                            }
                        },
                        Err(e) => {
                            return Err(e);
                        },
                    }
                    self.frames[f].dirty = false;
                    proof {
                        assert(self@.frames =~= pre.flush(page_id).frames);
                    }
                }
                Ok(())
            },
            None => Ok(()),
        }
    }

    /// Whether the frame behind a pin on page `page_id` in frame `frame` is
    /// dirty.
    pub fn is_dirty(&self, page_id: usize, frame: usize) -> (result: Result<bool, PoolError>)
        requires
            self.wf(),
        ensures
            result == (if self@.pinned_in(page_id, frame) {
                Ok::<bool, PoolError>(self@.frames[frame as int].dirty)
            } else {
                Err::<bool, PoolError>(PoolError::InvariantViolation)
            }),
    {
        if !self.holds_pin(page_id, frame) {
            return Err(PoolError::InvariantViolation);
        }
        Ok(self.frames[frame].dirty)
    }

    /// Whether frame `frame` holds page `page_id` with at least one pin.
    pub fn holds_pin(&self, page_id: usize, frame: usize) -> (held: bool)
        ensures
            held == self@.pinned_in(page_id, frame),
    {
        if frame >= self.frames.len() {
            return false;
        }
        match self.frames[frame].current_page_index {
            Some(p) => p == page_id && self.frames[frame].pin_count > 0,
            None => false,
        }
    }

    /// Copies the page behind a pin on page `page_id` in frame `frame` into
    /// `buf`, which must be one page long.
    pub fn read(&self, page_id: usize, frame: usize, buf: &mut Vec<u8>) -> (result: Result<
        usize,
        PoolError,
    >)
        requires
            self.wf(),
            old(buf)@.len() == self@.page_size,
        ensures
            result == (if self@.pinned_in(page_id, frame) {
                Ok::<usize, PoolError>(self@.page_size)
            } else {
                Err::<usize, PoolError>(PoolError::InvariantViolation)
            }),
            final(buf)@ == (if self@.pinned_in(page_id, frame) {
                self@.frames[frame as int].bytes
            } else {
                old(buf)@
            }),
    {
        if !self.holds_pin(page_id, frame) {
            return Err(PoolError::InvariantViolation);
        }
        proof {
            assert(self@.frame_wf(frame as int));
        }
        let n = self.frames[frame].read(buf);
        Ok(n)
    }

    /// Appends `data` to the page behind a pin on page `page_id` in frame
    /// `frame` and marks the frame dirty.
    ///
    /// Fails with `InvariantViolation` if the frame does not hold the page
    /// with a pin, and with `OutOfBounds` if the data would pass the end of
    /// the page. A call that fails changes nothing.
    pub fn write(&mut self, page_id: usize, frame: usize, data: &[u8]) -> (result: Result<
        usize,
        PoolError,
    >)
        requires
            old(self).wf(),
        ensures
            final(self).wf(),
            final(self)@ == old(self)@.write(page_id, frame, data@),
            result == old(self)@.write_result(page_id, frame, data@),
    {
        let ghost pre = self@;
        proof {
            pre.lemma_write_wf(page_id, frame, data@);
        }
        if !self.holds_pin(page_id, frame) {
            return Err(PoolError::InvariantViolation);
        }
        proof {
            assert(pre.frame_wf(frame as int));
        }
        let result = self.frames[frame].write(data);
        proof {
            assert(self@.frames =~= pre.write(page_id, frame, data@).frames);
        }
        result
    }
}

impl<P: ReplacementPolicy> BufferPoolManager<P> {
    /// Fetches page `page_id` for reading. See `check_page`.
    pub fn read_page(&mut self, page_id: usize) -> (result: Result<ReadPage, PoolError>)
        requires
            old(self).wf(),
        ensures
            final(self).wf(),
            final(self)@ == old(self)@.fetch(page_id),
            match old(self)@.fetch_result(page_id) {
                Ok(frame) => result == Ok::<ReadPage, PoolError>(
                    ReadPage { page_id, pinned: 1, frame },
                ),
                Err(e) => result == Err::<ReadPage, PoolError>(e),
            },
    {
        match self.check_page(page_id) {
            Ok(frame) => Ok(ReadPage { page_id, pinned: 1, frame }),
            Err(e) => Err(e),
        }
    }

    /// Fetches page `page_id` for writing. See `check_page`.
    pub fn write_page(&mut self, page_id: usize) -> (result: Result<WritePage, PoolError>)
        requires
            old(self).wf(),
        ensures
            final(self).wf(),
            final(self)@ == old(self)@.fetch(page_id),
            match old(self)@.fetch_result(page_id) {
                Ok(frame) => result == Ok::<WritePage, PoolError>(
                    WritePage { page_id, pinned: 1, frame },
                ),
                Err(e) => result == Err::<WritePage, PoolError>(e),
            },
    {
        match self.check_page(page_id) {
            Ok(frame) => Ok(WritePage { page_id, pinned: 1, frame }),
            Err(e) => Err(e),
        }
    }
}

impl ReadPage {
    /// A pin on page `page_id` in frame `frame`.
    pub fn new(page_id: usize, pinned: usize, frame: usize) -> (guard: Self)
        ensures
            guard == (ReadPage { page_id, pinned, frame }),
    {
        ReadPage { page_id, pinned, frame }
    }

    /// Whether the pinned frame is dirty.
    pub fn is_dirty<P: ReplacementPolicy>(&self, pool: &BufferPoolManager<P>) -> (result: Result<bool, PoolError>)
        requires
            pool.wf(),
        ensures
            result == (if pool@.pinned_in(self.page_id, self.frame) {
                Ok::<bool, PoolError>(pool@.frames[self.frame as int].dirty)
            } else {
                Err::<bool, PoolError>(PoolError::InvariantViolation)
            }),
    {
        pool.is_dirty(self.page_id, self.frame)
    }

    /// Copies the whole page into `buf`, which must be one page long, and
    /// returns the number of bytes copied.
    pub fn read<P: ReplacementPolicy>(&self, pool: &BufferPoolManager<P>, buf: &mut Vec<u8>) -> (result: Result<
        usize,
        PoolError,
    >)
        requires
            pool.wf(),
            old(buf)@.len() == pool@.page_size,
        ensures
            result == (if pool@.pinned_in(self.page_id, self.frame) {
                Ok::<usize, PoolError>(pool@.page_size)
            } else {
                Err::<usize, PoolError>(PoolError::InvariantViolation)
            }),
            final(buf)@ == (if pool@.pinned_in(self.page_id, self.frame) {
                pool@.frames[self.frame as int].bytes
            } else {
                old(buf)@
            }),
    {
        pool.read(self.page_id, self.frame, buf)
    }

    /// Gives the pin back.
    pub fn release<P: ReplacementPolicy>(self, pool: &mut BufferPoolManager<P>) -> (result: Result<(), PoolError>)
        requires
            old(pool).wf(),
        ensures
            final(pool).wf(),
            final(pool)@ == old(pool)@.unpin(self.page_id, self.frame, false),
            result == old(pool)@.unpin_result(self.page_id, self.frame),
    {
        pool.unpin(self.page_id, self.frame, false)
    }
}

impl WritePage {
    /// A pin on page `page_id` in frame `frame`.
    pub fn new(page_id: usize, pinned: usize, frame: usize) -> (guard: Self)
        ensures
            guard == (WritePage { page_id, pinned, frame }),
    {
        WritePage { page_id, pinned, frame }
    }

    /// Whether the pinned frame is dirty.
    pub fn is_dirty<P: ReplacementPolicy>(&self, pool: &BufferPoolManager<P>) -> (result: Result<bool, PoolError>)
        requires
            pool.wf(),
        ensures
            result == (if pool@.pinned_in(self.page_id, self.frame) {
                Ok::<bool, PoolError>(pool@.frames[self.frame as int].dirty)
            } else {
                Err::<bool, PoolError>(PoolError::InvariantViolation)
            }),
    {
        pool.is_dirty(self.page_id, self.frame)
    }

    /// Appends `data` to the page and marks the frame dirty; returns the
    /// number of bytes written. A write that does not fit in the page is
    /// refused as a whole.
    pub fn write<P: ReplacementPolicy>(&self, pool: &mut BufferPoolManager<P>, data: &[u8]) -> (result: Result<
        usize,
        PoolError,
    >)
        requires
            old(pool).wf(),
        ensures
            final(pool).wf(),
            final(pool)@ == old(pool)@.write(self.page_id, self.frame, data@),
            result == old(pool)@.write_result(self.page_id, self.frame, data@),
    {
        pool.write(self.page_id, self.frame, data)
    }

    /// Gives the pin back.
    pub fn release<P: ReplacementPolicy>(self, pool: &mut BufferPoolManager<P>) -> (result: Result<(), PoolError>)
        requires
            old(pool).wf(),
        ensures
            final(pool).wf(),
            final(pool)@ == old(pool)@.unpin(self.page_id, self.frame, false),
            result == old(pool)@.unpin_result(self.page_id, self.frame),
    {
        pool.unpin(self.page_id, self.frame, false)
    }
}

} // verus!
