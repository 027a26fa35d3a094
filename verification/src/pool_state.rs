//! The buffer pool as a mathematical value, and what each of its operations
//! does to that value. The manager's contracts are stated over this model.

use crate::disk_manager::DiskState;
use crate::error::PoolError;
use crate::frame::FrameState;
use crate::policy::PolicyModel;
use vstd::prelude::*;

verus! {

/// The pool: its frames, the table from resident pages to frames, the
/// frames that hold no page, the number of pages handed out so far, the
/// replacement policy and the backing store.
pub struct PoolState<S> {
    pub frames: Seq<FrameState>,
    pub page_table: Map<usize, usize>,
    pub free_list: Seq<usize>,
    pub pages: usize,
    pub policy: S,
    pub disk: DiskState,
    pub page_size: usize,
}

impl<S: PolicyModel> PoolState<S> {
    /// Page `page_id` was handed out by `new_page`.
    pub open spec fn allocated(self, page_id: usize) -> bool {
        1 <= page_id <= self.pages
    }

    /// Page `page_id` lives in a frame.
    pub open spec fn resident(self, page_id: usize) -> bool {
        self.page_table.contains_key(page_id)
    }

    /// What is right of frame `i`.
    pub open spec fn frame_wf(self, i: int) -> bool {
        let frame = self.frames[i];
        &&& frame.bytes.len() == self.page_size
        &&& frame.cursor <= self.page_size
        &&& match frame.page {
            Some(p) => {
                &&& self.page_table.contains_key(p)
                &&& self.page_table[p] == i
                &&& self.allocated(p)
                &&& self.policy.held().contains_key(p)
                &&& self.policy.held()[p] == (frame.pins == 0)
                &&& !frame.dirty ==> frame.bytes == self.disk.page_bytes(p)
            },
            None => frame.pins == 0 && !frame.dirty,
        }
    }

    /// What is right of the table's entry for page `p`.
    pub open spec fn entry_wf(self, p: usize) -> bool {
        &&& 0 <= self.page_table[p] < self.frames.len()
        &&& self.frames[self.page_table[p] as int].page == Some(p)
    }

    /// What is right of place `j` of the free list.
    pub open spec fn free_wf(self, j: int) -> bool {
        &&& 0 <= self.free_list[j] < self.frames.len()
        &&& self.frames[self.free_list[j] as int].page.is_none()
        &&& forall|k: int| 0 <= k < self.free_list.len() && k != j ==> self.free_list[k] != self.free_list[j]
    }

    /// The invariant of the pool.
    ///
    /// A frame that holds a page holds one that was handed out, the table
    /// maps the page to the frame, and the policy holds the page, evictable
    /// exactly when the frame has no pin; if the frame is clean its bytes
    /// are those of the page in the store. A frame without a page has no
    /// pin and is clean. The free list names frames without a page, none
    /// twice. The policy holds exactly the resident pages and has one place
    /// per frame, and every frame is either on the free list or in the
    /// table. The store is in memory, has the pool's page size and holds
    /// every page that was handed out.
    pub open spec fn wf(self) -> bool {
        &&& self.policy.valid()
        &&& self.policy.capacity() == self.frames.len()
        &&& self.frames.len() <= usize::MAX
        &&& forall|j: int| 0 <= j < self.free_list.len() ==> #[trigger] self.free_wf(j)
        &&& forall|i: int| 0 <= i < self.frames.len() ==> #[trigger] self.frame_wf(i)
        &&& forall|p: usize| #[trigger] self.page_table.contains_key(p) ==> self.entry_wf(p)
        &&& self.policy.held().dom() == self.page_table.dom()
        &&& self.page_table.dom().finite()
        &&& self.page_table.dom().len() + self.free_list.len() == self.frames.len()
        &&& self.disk.in_memory
        &&& self.disk.present
        &&& self.disk.page_size == self.page_size
        &&& self.pages * self.page_size <= self.disk.bytes.len()
    }

    /// A frame that holds no page: zero bytes, no pin, clean.
    pub open spec fn free_frame(page_size: usize) -> FrameState {
        FrameState {
            bytes: Seq::new(page_size as nat, |i: int| 0u8),
            pins: 0,
            page: None,
            dirty: false,
            cursor: 0,
        }
    }

    /// A pool of `num_frames` free frames over `disk`, with `policy` as its
    /// replacement policy and no page handed out yet. The frame with the
    /// lowest number is the first to be taken from the free list.
    pub open spec fn fresh(num_frames: usize, page_size: usize, policy: S, disk: DiskState) -> Self {
        PoolState {
            frames: Seq::new(num_frames as nat, |i: int| Self::free_frame(page_size)),
            page_table: Map::empty(),
            free_list: Seq::new(num_frames as nat, |j: int| (num_frames - 1 - j) as usize),
            pages: 0,
            policy,
            disk,
            page_size,
        }
    }

    /// The bytes of page `page_id` as a reader of the pool sees them: those
    /// of its frame while it is resident, those in the store otherwise.
    pub open spec fn content(self, page_id: usize) -> Seq<u8> {
        if self.resident(page_id) {
            self.frames[self.page_table[page_id] as int].bytes
        } else {
            self.disk.page_bytes(page_id)
        }
    }

    /// A frame into which page `page_id` was just read from `disk`, with the
    /// one pin of whoever asked for it.
    pub open spec fn loaded(page_id: usize, disk: DiskState) -> FrameState {
        FrameState {
            bytes: disk.page_bytes(page_id),
            pins: 1,
            page: Some(page_id),
            dirty: false,
            cursor: 0,
        }
    }

    /// The policy after an access to `page_id` that ends with the page
    /// pinned.
    pub open spec fn policy_after_fetch(self, page_id: usize) -> S {
        self.policy.accessed(page_id).flagged(page_id, false)
    }

    /// The store after the page of frame `frame` was written back, if the
    /// frame is dirty.
    pub open spec fn disk_after_writeback(self, frame: int) -> DiskState {
        if self.frames[frame].dirty {
            self.disk.with_page(self.frames[frame].page.unwrap(), self.frames[frame].bytes)
        } else {
            self.disk
        }
    }

    /// The page that a fetch of `page_id` puts out of its frame, if any: the
    /// policy's victim, when the page is not resident and no frame is free.
    pub open spec fn fetch_victim(self, page_id: usize) -> Option<usize> {
        if self.allocated(page_id) && !self.resident(page_id) && self.free_list.len() == 0 {
            self.policy.victim()
        } else {
            None
        }
    }

    /// What a fetch of `page_id` returns: the frame that now holds the page,
    /// or why there is none.
    pub open spec fn fetch_result(self, page_id: usize) -> Result<usize, PoolError> {
        if !self.allocated(page_id) {
            Err(PoolError::IoFailure)
        } else if self.resident(page_id) {
            if self.frames[self.page_table[page_id] as int].pins == u64::MAX {
                Err(PoolError::InvariantViolation)
            } else {
                Ok(self.page_table[page_id])
            }
        } else if self.free_list.len() > 0 {
            Ok(self.free_list.last())
        } else {
            match self.policy.victim() {
                Some(victim) => Ok(self.page_table[victim]),
                None => Err(PoolError::CapacityExhausted),
            }
        }
    }

    /// The pool after a fetch of `page_id`.
    ///
    /// A page that is resident gets one more pin. A page that is not goes
    /// into the frame on top of the free list or, when no frame is free,
    /// into the frame of the policy's victim, whose page is first written
    /// back if it is dirty. Either way the policy records the access and
    /// holds the page pinned. A fetch that fails changes nothing.
    pub open spec fn fetch(self, page_id: usize) -> Self {
        match self.fetch_result(page_id) {
            Err(_) => self,
            Ok(frame) => {
                let f = frame as int;
                if self.resident(page_id) {
                    PoolState {
                        frames: self.frames.update(
                            f,
                            FrameState { pins: (self.frames[f].pins + 1) as u64, ..self.frames[f] },
                        ),
                        policy: self.policy_after_fetch(page_id),
                        ..self
                    }
                } else if self.free_list.len() > 0 {
                    PoolState {
                        frames: self.frames.update(f, Self::loaded(page_id, self.disk)),
                        page_table: self.page_table.insert(page_id, frame),
                        free_list: self.free_list.drop_last(),
                        policy: self.policy_after_fetch(page_id),
                        ..self
                    }
                } else {
                    let disk = self.disk_after_writeback(f);
                    PoolState {
                        frames: self.frames.update(f, Self::loaded(page_id, disk)),
                        page_table: self.page_table.remove(self.policy.victim().unwrap()).insert(
                            page_id,
                            frame,
                        ),
                        policy: self.policy_after_fetch(page_id),
                        disk,
                        ..self
                    }
                }
            },
        }
    }

    /// A pin on page `page_id` in frame `frame` can be held: the frame
    /// holds that page and has a pin.
    pub open spec fn pinned_in(self, page_id: usize, frame: usize) -> bool {
        &&& frame < self.frames.len()
        &&& self.frames[frame as int].page == Some(page_id)
        &&& self.frames[frame as int].pins > 0
    }

    /// The pool after one pin on page `page_id` in frame `frame` was given
    /// back, the frame being marked dirty on request. With the last pin the
    /// page becomes evictable.
    pub open spec fn unpin(self, page_id: usize, frame: usize, mark_dirty: bool) -> Self {
        if !self.pinned_in(page_id, frame) {
            self
        } else {
            let before = self.frames[frame as int];
            let after = FrameState {
                pins: (before.pins - 1) as u64,
                dirty: before.dirty || mark_dirty,
                ..before
            };
            PoolState {
                frames: self.frames.update(frame as int, after),
                policy: if after.pins == 0 {
                    self.policy.flagged(page_id, true)
                } else {
                    self.policy
                },
                ..self
            }
        }
    }

    /// What giving back a pin returns.
    pub open spec fn unpin_result(self, page_id: usize, frame: usize) -> Result<(), PoolError> {
        if self.pinned_in(page_id, frame) {
            Ok(())
        } else {
            Err(PoolError::InvariantViolation)
        }
    }

    /// Page `page_id` is resident and its frame is dirty.
    pub open spec fn needs_flush(self, page_id: usize) -> bool {
        self.resident(page_id) && self.frames[self.page_table[page_id] as int].dirty
    }

    /// The pool after a flush of `page_id`: a dirty resident page is written
    /// to the store and its frame is clean; otherwise nothing changes.
    pub open spec fn flush(self, page_id: usize) -> Self {
        if !self.needs_flush(page_id) {
            self
        } else {
            let f = self.page_table[page_id] as int;
            PoolState {
                frames: self.frames.update(f, FrameState { dirty: false, ..self.frames[f] }),
                disk: self.disk.with_page(page_id, self.frames[f].bytes),
                ..self
            }
        }
    }

    /// One more page can be handed out and the store can be made to hold it.
    pub open spec fn can_allocate(self) -> bool {
        self.pages < usize::MAX && self.disk.can_grow((self.pages + 1) as usize)
    }

    /// The pool after `new_page`.
    pub open spec fn new_page(self) -> Self {
        if !self.can_allocate() {
            self
        } else {
            PoolState {
                pages: (self.pages + 1) as usize,
                disk: self.disk.grow((self.pages + 1) as usize),
                ..self
            }
        }
    }

    /// What `new_page` returns.
    pub open spec fn new_page_result(self) -> Result<usize, PoolError> {
        if self.can_allocate() {
            Ok((self.pages + 1) as usize)
        } else {
            Err(PoolError::IoFailure)
        }
    }

    /// A write of `data` through a pin on page `page_id` in frame `frame`
    /// goes through.
    pub open spec fn can_write(self, page_id: usize, frame: usize, data: Seq<u8>) -> bool {
        self.pinned_in(page_id, frame) && self.frames[frame as int].fits(data.len(), self.page_size)
    }

    /// The pool after a write of `data` through a pin on page `page_id` in
    /// frame `frame`.
    pub open spec fn write(self, page_id: usize, frame: usize, data: Seq<u8>) -> Self {
        if !self.can_write(page_id, frame, data) {
            self
        } else {
            PoolState {
                frames: self.frames.update(frame as int, self.frames[frame as int].written(data)),
                ..self
            }
        }
    }

    /// What a write returns.
    pub open spec fn write_result(self, page_id: usize, frame: usize, data: Seq<u8>) -> Result<
        usize,
        PoolError,
    > {
        if !self.pinned_in(page_id, frame) {
            Err(PoolError::InvariantViolation)
        } else if !self.frames[frame as int].fits(data.len(), self.page_size) {
            Err(
                PoolError::OutOfBounds {
                    len: data.len() as usize,
                    offset: self.frames[frame as int].cursor,
                    page_size: self.page_size,
                },
            )
        } else {
            Ok(data.len() as usize)
        }
    }
}

impl<S: PolicyModel> PoolState<S> {
    /// A frame is free exactly when the policy has room, and the policy's
    /// victim, if it has one, is a resident page without a pin.
    pub proof fn lemma_room(self)
        requires
            self.wf(),
        ensures
            self.free_list.len() > 0 <==> self.policy.held().dom().len() < self.policy.capacity(),
            match self.policy.victim() {
                Some(victim) => {
                    &&& self.resident(victim)
                    &&& self.entry_wf(victim)
                    &&& self.frames[self.page_table[victim] as int].pins == 0
                },
                None => forall|i: int|
                    0 <= i < self.frames.len() && (#[trigger] self.frames[i]).page.is_some()
                        ==> self.frames[i].pins > 0,
            },
    {
        self.policy.lemma_victim();
        match self.policy.victim() {
            Some(victim) => {
                assert(self.policy.held().dom().contains(victim));
                assert(self.page_table.contains_key(victim));
                assert(self.entry_wf(victim));
                assert(self.frame_wf(self.page_table[victim] as int));
            },
            None => {
                assert forall|i: int|
                    0 <= i < self.frames.len() && (#[trigger] self.frames[i]).page.is_some() implies self.frames[i].pins
                    > 0 by {
                    assert(self.frame_wf(i));
                }
            },
        }
    }

    /// What the policy holds after a fetch that succeeded: the page that
    /// was fetched, pinned, in place of the victim if one had to leave.
    pub proof fn lemma_policy_after_fetch(self, page_id: usize)
        requires
            self.wf(),
            self.fetch_result(page_id).is_ok(),
        ensures
            self.policy_after_fetch(page_id).valid(),
            self.policy_after_fetch(page_id).capacity() == self.policy.capacity(),
            self.policy_after_fetch(page_id).held() == (if self.fetch_victim(page_id).is_some() {
                self.policy.held().remove(self.fetch_victim(page_id).unwrap()).insert(
                    page_id,
                    false,
                )
            } else {
                self.policy.held().insert(page_id, false)
            }),
    {
        self.lemma_room();
        self.policy.lemma_accessed(page_id);
        let mid = self.policy.accessed(page_id);
        mid.lemma_flagged(page_id, false);
        let after = self.policy_after_fetch(page_id);
        let expected = if self.fetch_victim(page_id).is_some() {
            self.policy.held().remove(self.fetch_victim(page_id).unwrap()).insert(page_id, false)
        } else {
            self.policy.held().insert(page_id, false)
        };
        assert(self.policy.held().dom().contains(page_id) <==> self.resident(page_id));
        assert(after.held() =~= expected);
    }

    /// A fetch keeps the invariant.
    pub proof fn lemma_fetch_wf(self, page_id: usize)
        requires
            self.wf(),
        ensures
            self.fetch(page_id).wf(),
            self.fetch(page_id).frames.len() == self.frames.len(),
            self.fetch(page_id).page_size == self.page_size,
            self.fetch(page_id).pages == self.pages,
    {
        let after = self.fetch(page_id);
        let n = self.frames.len() as int;
        if self.fetch_result(page_id).is_err() {
            return ;
        }
        let f = self.fetch_result(page_id).unwrap() as int;
        self.lemma_room();
        self.lemma_policy_after_fetch(page_id);
        self.disk.lemma_holds_each(self.pages, page_id);
        if self.resident(page_id) {
            assert(self.entry_wf(page_id));
            assert(self.frame_wf(f));
            assert forall|i: int| 0 <= i < n implies #[trigger] after.frame_wf(i) by {
                assert(self.frame_wf(i));
            }
            assert forall|p: usize| #[trigger] after.page_table.contains_key(p) implies after.entry_wf(
                p,
            ) by {
                assert(self.entry_wf(p));
            }
            assert forall|j: int| 0 <= j < after.free_list.len() implies #[trigger] after.free_wf(
                j,
            ) by {
                assert(self.free_wf(j));
            }
            assert(after.policy.held().dom() =~= after.page_table.dom());
        } else if self.free_list.len() > 0 {
            let top = self.free_list.len() - 1;
            assert(self.free_wf(top));
            assert(self.frame_wf(f));
            assert forall|i: int| 0 <= i < n implies #[trigger] after.frame_wf(i) by {
                assert(self.frame_wf(i));
            }
            assert forall|p: usize| #[trigger] after.page_table.contains_key(p) implies after.entry_wf(
                p,
            ) by {
                if p != page_id {
                    assert(self.page_table.contains_key(p));
                    assert(self.entry_wf(p));
                }
            }
            assert forall|j: int| 0 <= j < after.free_list.len() implies #[trigger] after.free_wf(
                j,
            ) by {
                assert(self.free_wf(j));
                assert(self.free_list[j] != self.free_list[top]);
                assert forall|k: int|
                    0 <= k < after.free_list.len() && k != j implies after.free_list[k]
                    != after.free_list[j] by {
                    assert(self.free_list[k] != self.free_list[j]);
                }
            }
            assert(after.policy.held().dom() =~= after.page_table.dom());
            assert(after.page_table.dom() =~= self.page_table.dom().insert(page_id));
        } else {
            let victim = self.policy.victim().unwrap();
            assert(self.entry_wf(victim));
            assert(self.frame_wf(f));
            self.disk.lemma_holds_each(self.pages, victim);
            if self.frames[f].dirty {
                self.disk.lemma_other_page(victim, page_id, self.frames[f].bytes);
            }
            assert forall|i: int| 0 <= i < n implies #[trigger] after.frame_wf(i) by {
                assert(self.frame_wf(i));
                if i != f && self.frames[i].page.is_some() {
                    let p = self.frames[i].page.unwrap();
                    self.disk.lemma_holds_each(self.pages, p);
                    if self.frames[f].dirty {
                        self.disk.lemma_other_page(victim, p, self.frames[f].bytes);
                    }
                }
            }
            assert forall|p: usize| #[trigger] after.page_table.contains_key(p) implies after.entry_wf(
                p,
            ) by {
                if p != page_id {
                    assert(self.page_table.contains_key(p));
                    assert(self.entry_wf(p));
                }
            }
            assert(after.policy.held().dom() =~= after.page_table.dom());
            assert(after.page_table.dom() =~= self.page_table.dom().remove(victim).insert(page_id));
        }
    }

    /// Giving back a pin keeps the invariant.
    pub proof fn lemma_unpin_wf(self, page_id: usize, frame: usize, mark_dirty: bool)
        requires
            self.wf(),
        ensures
            self.unpin(page_id, frame, mark_dirty).wf(),
            self.unpin(page_id, frame, mark_dirty).frames.len() == self.frames.len(),
            self.unpin(page_id, frame, mark_dirty).page_size == self.page_size,
            self.unpin(page_id, frame, mark_dirty).pages == self.pages,
    {
        let after = self.unpin(page_id, frame, mark_dirty);
        let n = self.frames.len() as int;
        if self.pinned_in(page_id, frame) {
            let f = frame as int;
            assert(self.frame_wf(f));
            self.policy.lemma_flagged(page_id, true);
            assert(after.policy.held().dom() =~= self.policy.held().dom());
            assert forall|i: int| 0 <= i < n implies #[trigger] after.frame_wf(i) by {
                assert(self.frame_wf(i));
            }
            assert forall|p: usize| #[trigger] after.page_table.contains_key(p) implies after.entry_wf(
                p,
            ) by {
                assert(self.entry_wf(p));
            }
            assert forall|j: int| 0 <= j < after.free_list.len() implies #[trigger] after.free_wf(
                j,
            ) by {
                assert(self.free_wf(j));
            }
        }
    }

    /// A flush keeps the invariant.
    pub proof fn lemma_flush_wf(self, page_id: usize)
        requires
            self.wf(),
        ensures
            self.flush(page_id).wf(),
            self.flush(page_id).frames.len() == self.frames.len(),
            self.flush(page_id).page_size == self.page_size,
            self.flush(page_id).pages == self.pages,
    {
        let after = self.flush(page_id);
        let n = self.frames.len() as int;
        if self.needs_flush(page_id) {
            let f = self.page_table[page_id] as int;
            assert(self.entry_wf(page_id));
            assert(self.frame_wf(f));
            self.disk.lemma_holds_each(self.pages, page_id);
            self.disk.lemma_written_page(page_id, self.frames[f].bytes);
            assert forall|i: int| 0 <= i < n implies #[trigger] after.frame_wf(i) by {
                assert(self.frame_wf(i));
                if i != f && self.frames[i].page.is_some() {
                    let p = self.frames[i].page.unwrap();
                    self.disk.lemma_holds_each(self.pages, p);
                    self.disk.lemma_other_page(page_id, p, self.frames[f].bytes);
                }
            }
            assert forall|p: usize| #[trigger] after.page_table.contains_key(p) implies after.entry_wf(
                p,
            ) by {
                assert(self.entry_wf(p));
            }
            assert forall|j: int| 0 <= j < after.free_list.len() implies #[trigger] after.free_wf(
                j,
            ) by {
                assert(self.free_wf(j));
            }
        }
    }

    /// Handing out a page keeps the invariant.
    pub proof fn lemma_new_page_wf(self)
        requires
            self.wf(),
        ensures
            self.new_page().wf(),
            self.new_page().frames.len() == self.frames.len(),
            self.new_page().page_size == self.page_size,
            self.new_page().pages >= self.pages,
    {
        let after = self.new_page();
        let n = self.frames.len() as int;
        if self.can_allocate() {
            assert forall|i: int| 0 <= i < n implies #[trigger] after.frame_wf(i) by {
                assert(self.frame_wf(i));
                if self.frames[i].page.is_some() {
                    let p = self.frames[i].page.unwrap();
                    self.disk.lemma_holds_each(self.pages, p);
                    self.disk.lemma_grow_keeps((self.pages + 1) as usize, p);
                }
            }
            assert forall|p: usize| #[trigger] after.page_table.contains_key(p) implies after.entry_wf(
                p,
            ) by {
                assert(self.entry_wf(p));
            }
            assert forall|j: int| 0 <= j < after.free_list.len() implies #[trigger] after.free_wf(
                j,
            ) by {
                assert(self.free_wf(j));
            }
        }
    }

    /// A write keeps the invariant.
    pub proof fn lemma_write_wf(self, page_id: usize, frame: usize, data: Seq<u8>)
        requires
            self.wf(),
        ensures
            self.write(page_id, frame, data).wf(),
            self.write(page_id, frame, data).frames.len() == self.frames.len(),
            self.write(page_id, frame, data).page_size == self.page_size,
            self.write(page_id, frame, data).pages == self.pages,
    {
        let after = self.write(page_id, frame, data);
        let n = self.frames.len() as int;
        if self.can_write(page_id, frame, data) {
            assert forall|i: int| 0 <= i < n implies #[trigger] after.frame_wf(i) by {
                assert(self.frame_wf(i));
            }
            assert forall|p: usize| #[trigger] after.page_table.contains_key(p) implies after.entry_wf(
                p,
            ) by {
                assert(self.entry_wf(p));
            }
            assert forall|j: int| 0 <= j < after.free_list.len() implies #[trigger] after.free_wf(
                j,
            ) by {
                assert(self.free_wf(j));
            }
        }
    }
}

} // verus!
