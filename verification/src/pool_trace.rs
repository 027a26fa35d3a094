//! What holds of the pool over whole sequences of operations: pins are
//! counted exactly, the content of a page survives everything but a write
//! to it, and a full pool gives up exactly the page that the policy names.

use crate::error::PoolError;
use crate::policy::PolicyModel;
use crate::pool_state::PoolState;
use vstd::prelude::*;

verus! {

/// One operation on the pool.
pub enum PoolOp {
    /// `check_page`, and so `read_page` and `write_page`.
    Fetch { page_id: usize },
    /// `unpin`, and so the release of a pin.
    Unpin { page_id: usize, frame: usize, mark_dirty: bool },
    /// `flush`.
    Flush { page_id: usize },
    /// `new_page`.
    NewPage,
    /// `write`.
    Write { page_id: usize, frame: usize, data: Seq<u8> },
}

impl PoolOp {
    /// The operation is a write to page `page_id`.
    pub open spec fn writes(self, page_id: usize) -> bool {
        match self {
            PoolOp::Write { page_id: p, .. } => p == page_id,
            _ => false,
        }
    }

    /// By how much the operation, done on `pool`, changes the number of
    /// pins handed out on frame `frame` and not given back: a fetch that
    /// returns the frame hands one out, an unpin of the frame that succeeds
    /// gives one back.
    pub open spec fn pins_handed_out<S: PolicyModel>(self, pool: PoolState<S>, frame: int) -> int {
        match self {
            PoolOp::Fetch { page_id } => if pool.fetch_result(page_id) == Ok::<usize, PoolError>(
                frame as usize,
            ) {
                1
            } else {
                0
            },
            PoolOp::Unpin { page_id, frame: f, mark_dirty } => if f == frame && pool.unpin_result(
                page_id,
                f,
            ).is_ok() {
                -1
            } else {
                0
            },
            _ => 0,
        }
    }
}

impl<S: PolicyModel> PoolState<S> {
    /// The pool after one operation.
    pub open spec fn step(self, op: PoolOp) -> Self {
        match op {
            PoolOp::Fetch { page_id } => self.fetch(page_id),
            PoolOp::Unpin { page_id, frame, mark_dirty } => self.unpin(page_id, frame, mark_dirty),
            PoolOp::Flush { page_id } => self.flush(page_id),
            PoolOp::NewPage => self.new_page(),
            PoolOp::Write { page_id, frame, data } => self.write(page_id, frame, data),
        }
    }

    /// The pool after the operations of `ops`, done in order.
    pub open spec fn run(self, ops: Seq<PoolOp>) -> Self
        decreases ops.len(),
    {
        if ops.len() == 0 {
            self
        } else {
            self.step(ops[0]).run(ops.drop_first())
        }
    }

    /// How many pins on frame `frame` the operations of `ops`, done in order
    /// on this pool, hand out and do not take back.
    pub open spec fn outstanding(self, ops: Seq<PoolOp>, frame: int) -> int
        decreases ops.len(),
    {
        if ops.len() == 0 {
            0
        } else {
            ops[0].pins_handed_out(self, frame) + self.step(ops[0]).outstanding(
                ops.drop_first(),
                frame,
            )
        }
    }

    /// Every operation keeps the invariant, the number of frames and the
    /// pages that were handed out.
    pub proof fn lemma_step_wf(self, op: PoolOp)
        requires
            self.wf(),
        ensures
            self.step(op).wf(),
            self.step(op).frames.len() == self.frames.len(),
            self.step(op).page_size == self.page_size,
            self.step(op).pages >= self.pages,
    {
        match op {
            PoolOp::Fetch { page_id } => self.lemma_fetch_wf(page_id),
            PoolOp::Unpin { page_id, frame, mark_dirty } => self.lemma_unpin_wf(
                page_id,
                frame,
                mark_dirty,
            ),
            PoolOp::Flush { page_id } => self.lemma_flush_wf(page_id),
            PoolOp::NewPage => self.lemma_new_page_wf(),
            PoolOp::Write { page_id, frame, data } => self.lemma_write_wf(page_id, frame, data),
        }
    }

    /// Every sequence of operations keeps the invariant.
    pub proof fn lemma_run_wf(self, ops: Seq<PoolOp>)
        requires
            self.wf(),
        ensures
            self.run(ops).wf(),
            self.run(ops).frames.len() == self.frames.len(),
            self.run(ops).page_size == self.page_size,
            self.run(ops).pages >= self.pages,
        decreases ops.len(),
    {
        if ops.len() > 0 {
            self.lemma_step_wf(ops[0]);
            self.step(ops[0]).lemma_run_wf(ops.drop_first());
        }
    }

    /// One operation changes the pin count of a frame by exactly the pins
    /// that it hands out or takes back.
    pub proof fn lemma_step_pins(self, op: PoolOp, frame: int)
        requires
            self.wf(),
            0 <= frame < self.frames.len(),
        ensures
            self.step(op).frames[frame].pins == self.frames[frame].pins + op.pins_handed_out(
                self,
                frame,
            ),
    {
        assert(self.frame_wf(frame));
        match op {
            PoolOp::Fetch { page_id } => {
                if self.fetch_result(page_id).is_ok() {
                    self.lemma_room();
                    let f = self.fetch_result(page_id).unwrap() as int;
                    if self.resident(page_id) {
                        assert(self.entry_wf(page_id));
                    } else if self.free_list.len() > 0 {
                        assert(self.free_wf(self.free_list.len() - 1));
                        assert(self.frame_wf(f));
                    } else {
                        assert(self.frame_wf(f));
                    }
                }
            },
            _ => {},
        }
    }

    /// The pin count of a frame is never negative and always equals the
    /// count of pins handed out on the frame and not given back: after any
    /// sequence of operations it is the count from before plus the pins that
    /// the fetches of the sequence handed out on that frame minus those that
    /// its unpins gave back.
    pub proof fn lemma_pins_count_guards(self, ops: Seq<PoolOp>, frame: int)
        requires
            self.wf(),
            0 <= frame < self.frames.len(),
        ensures
            self.run(ops).frames[frame].pins == self.frames[frame].pins + self.outstanding(
                ops,
                frame,
            ),
            self.frames[frame].pins + self.outstanding(ops, frame) >= 0,
        decreases ops.len(),
    {
        if ops.len() > 0 {
            self.lemma_step_wf(ops[0]);
            self.lemma_step_pins(ops[0], frame);
            self.step(ops[0]).lemma_pins_count_guards(ops.drop_first(), frame);
        }
    }

    /// No operation but a write to the page changes what a page holds: its
    /// content is the same whether it stays in its frame, is written back,
    /// is put out of its frame, or is read in again.
    pub proof fn lemma_step_content(self, op: PoolOp, page_id: usize)
        requires
            self.wf(),
            self.allocated(page_id),
            !op.writes(page_id),
        ensures
            self.step(op).content(page_id) == self.content(page_id),
    {
        let after = self.step(op);
        self.disk.lemma_holds_each(self.pages, page_id);
        if self.resident(page_id) {
            assert(self.entry_wf(page_id));
            assert(self.frame_wf(self.page_table[page_id] as int));
        }
        match op {
            PoolOp::Fetch { page_id: fetched } => {
                if self.fetch_result(fetched).is_ok() {
                    self.lemma_room();
                    let f = self.fetch_result(fetched).unwrap() as int;
                    self.disk.lemma_holds_each(self.pages, fetched);
                    if self.resident(fetched) {
                        assert(self.entry_wf(fetched));
                    } else if self.free_list.len() > 0 {
                        assert(self.free_wf(self.free_list.len() - 1));
                    } else {
                        let victim = self.policy.victim().unwrap();
                        assert(self.entry_wf(victim));
                        assert(self.frame_wf(f));
                        self.disk.lemma_holds_each(self.pages, victim);
                        if self.frames[f].dirty {
                            self.disk.lemma_written_page(victim, self.frames[f].bytes);
                            if page_id != victim {
                                self.disk.lemma_other_page(victim, page_id, self.frames[f].bytes);
                            }
                        }
                    }
                }
            },
            PoolOp::Unpin { page_id: p, frame, mark_dirty } => {
                if self.pinned_in(p, frame) {
                    assert(self.frame_wf(frame as int));
                }
            },
            PoolOp::Flush { page_id: flushed } => {
                if self.needs_flush(flushed) {
                    let f = self.page_table[flushed] as int;
                    assert(self.entry_wf(flushed));
                    assert(self.frame_wf(f));
                    self.disk.lemma_holds_each(self.pages, flushed);
                    if flushed != page_id {
                        self.disk.lemma_other_page(flushed, page_id, self.frames[f].bytes);
                    }
                }
            },
            PoolOp::NewPage => {
                self.disk.lemma_grow_keeps((self.pages + 1) as usize, page_id);
            },
            PoolOp::Write { page_id: p, frame, data } => {
                if self.can_write(p, frame, data) {
                    assert(self.frame_wf(frame as int));
                }
            },
        }
    }

    /// What a page holds is the same after any sequence of operations none
    /// of which is a write to that page.
    pub proof fn lemma_run_content(self, ops: Seq<PoolOp>, page_id: usize)
        requires
            self.wf(),
            self.allocated(page_id),
            forall|i: int| 0 <= i < ops.len() ==> !(#[trigger] ops[i]).writes(page_id),
        ensures
            self.run(ops).content(page_id) == self.content(page_id),
        decreases ops.len(),
    {
        if ops.len() > 0 {
            self.lemma_step_wf(ops[0]);
            self.lemma_step_content(ops[0], page_id);
            assert forall|i: int| 0 <= i < ops.drop_first().len() implies !(
            #[trigger] ops.drop_first()[i]).writes(page_id) by {
                assert(ops.drop_first()[i] == ops[i + 1]);
            }
            self.step(ops[0]).lemma_run_content(ops.drop_first(), page_id);
        }
    }

    /// A fetch that succeeds returns a frame that holds the page, with the
    /// content that the page had before the fetch.
    pub proof fn lemma_fetch_reads_content(self, page_id: usize)
        requires
            self.wf(),
            self.fetch_result(page_id).is_ok(),
        ensures
            self.fetch(page_id).pinned_in(page_id, self.fetch_result(page_id).unwrap()),
            self.fetch(page_id).frames[self.fetch_result(page_id).unwrap() as int].bytes
                == self.content(page_id),
    {
        self.lemma_step_content(PoolOp::Fetch { page_id }, page_id);
        self.lemma_fetch_wf(page_id);
        self.lemma_room();
        if self.resident(page_id) {
            assert(self.entry_wf(page_id));
        } else if self.free_list.len() > 0 {
            assert(self.free_wf(self.free_list.len() - 1));
        } else {
            assert(self.entry_wf(self.policy.victim().unwrap()));
        }
    }

    /// A flush leaves in the store what the page holds.
    pub proof fn lemma_flush_stores_content(self, page_id: usize)
        requires
            self.wf(),
            self.allocated(page_id),
        ensures
            self.flush(page_id).disk.page_bytes(page_id) == self.content(page_id),
    {
        self.disk.lemma_holds_each(self.pages, page_id);
        if self.resident(page_id) {
            let f = self.page_table[page_id] as int;
            assert(self.entry_wf(page_id));
            assert(self.frame_wf(f));
            if self.frames[f].dirty {
                self.disk.lemma_written_page(page_id, self.frames[f].bytes);
            }
        }
    }

    /// A page round-trips through the store: once it is flushed, then
    /// whatever is done to the pool short of writing to the page (it may
    /// well be put out of its frame), a fetch of the page that succeeds
    /// returns a frame with exactly the bytes that the page held.
    pub proof fn lemma_round_trip(self, ops: Seq<PoolOp>, page_id: usize)
        requires
            self.wf(),
            self.allocated(page_id),
            forall|i: int| 0 <= i < ops.len() ==> !(#[trigger] ops[i]).writes(page_id),
        ensures
            self.flush(page_id).disk.page_bytes(page_id) == self.content(page_id),
            ({
                let later = self.flush(page_id).run(ops);
                later.fetch_result(page_id).is_ok() ==> later.fetch(page_id).frames[later.fetch_result(
                    page_id,
                ).unwrap() as int].bytes == self.content(page_id)
            }),
    {
        self.lemma_flush_stores_content(page_id);
        self.lemma_flush_wf(page_id);
        self.lemma_step_content(PoolOp::Flush { page_id }, page_id);
        let flushed = self.flush(page_id);
        assert(flushed.pages == self.pages);
        flushed.lemma_run_wf(ops);
        flushed.lemma_run_content(ops, page_id);
        let later = flushed.run(ops);
        if later.fetch_result(page_id).is_ok() {
            later.lemma_fetch_reads_content(page_id);
        }
    }

    /// A fetch puts a page out of its frame only when no frame is free and
    /// the page that is asked for is not resident, and then exactly one: the
    /// victim that the policy's rule names, a resident page without a pin.
    /// Every other resident page stays where it is, and the page that was
    /// asked for takes the victim's frame.
    pub proof fn lemma_one_eviction(self, page_id: usize)
        requires
            self.wf(),
        ensures
            match self.fetch_victim(page_id) {
                Some(victim) => {
                    &&& self.free_list.len() == 0
                    &&& !self.resident(page_id)
                    &&& self.policy.victim() == Some(victim)
                    &&& self.resident(victim)
                    &&& self.frames[self.page_table[victim] as int].pins == 0
                    &&& self.fetch_result(page_id) == Ok::<usize, PoolError>(self.page_table[victim])
                    &&& self.fetch(page_id).page_table == self.page_table.remove(victim).insert(
                        page_id,
                        self.page_table[victim],
                    )
                },
                None => forall|p: usize|
                    self.resident(p) ==> #[trigger] self.fetch(page_id).resident(p)
                        && self.fetch(page_id).page_table[p] == self.page_table[p],
            },
    {
        self.lemma_room();
    }

    /// While a frame has no pin, a fetch of a page that was handed out and
    /// is not resident succeeds: a full pool makes room.
    pub proof fn lemma_fetch_succeeds(self, page_id: usize, idle: int)
        requires
            self.wf(),
            self.allocated(page_id),
            !self.resident(page_id),
            0 <= idle < self.frames.len(),
            self.frames[idle].pins == 0,
        ensures
            self.fetch_result(page_id).is_ok(),
    {
        self.lemma_room();
        if self.free_list.len() == 0 {
            self.lemma_full(idle);
        }
    }

    /// With no frame on the free list, every frame holds a page.
    pub proof fn lemma_full(self, frame: int)
        requires
            self.wf(),
            self.free_list.len() == 0,
            0 <= frame < self.frames.len(),
        ensures
            self.frames[frame].page.is_some(),
    {
        // The table has as many pages as there are frames, each in a frame
        // of its own: a frame without a page would leave too few.
        let held = Set::new(
            |p: usize| self.page_table.contains_key(p) && self.page_table[p] != frame,
        );
        if self.frames[frame].page.is_none() {
            assert forall|p: usize| self.page_table.contains_key(p) implies self.page_table[p]
                != frame by {
                assert(self.entry_wf(p));
            }
            assert(held =~= self.page_table.dom());
            self.lemma_pages_fit(self.page_table.dom(), self.frames.len() as int, frame);
        }
    }

    /// Pages that live in different frames below `n`, none of them in
    /// `spare`, are fewer than `n`.
    pub proof fn lemma_pages_fit(self, pages: Set<usize>, n: int, spare: int)
        requires
            self.wf(),
            pages.finite(),
            0 <= n <= self.frames.len(),
            forall|p: usize|
                pages.contains(p) ==> self.page_table.contains_key(p) && self.page_table[p] < n,
            0 <= spare < n ==> forall|p: usize| pages.contains(p) ==> self.page_table[p] != spare,
            0 <= spare < n,
        ensures
            pages.len() < n,
        decreases n,
    {
        if n == 1 {
            if pages.len() > 0 {
                let p = pages.choose();
                assert(pages.contains(p));
                assert(self.page_table[p] == 0);
            }
        } else {
            // Drop the page of the last frame, or of the frame that stands
            // in for the spare one if the spare is the last.
            let last = n - 1;
            if spare == last {
                // All pages live below `last`; one of those frames may hold
                // one, so count without it.
                self.lemma_pages_below(pages, last);
            } else {
                let at_last = Set::new(|p: usize| pages.contains(p) && self.page_table[p] == last);
                let rest = pages.difference(at_last);
                assert forall|p: usize, q: usize| at_last.contains(p) && at_last.contains(q) implies p
                    == q by {
                    assert(self.entry_wf(p));
                    assert(self.entry_wf(q));
                }
                vstd::set_lib::lemma_len_subset(at_last, pages);
                if at_last.len() > 0 {
                    let p = at_last.choose();
                    assert(at_last.contains(p));
                    assert(at_last =~= Set::<usize>::empty().insert(p));
                    assert(rest =~= pages.remove(p));
                } else {
                    assert(at_last =~= Set::<usize>::empty());
                    assert(rest =~= pages);
                }
                self.lemma_pages_fit(rest, last, spare);
            }
        }
    }

    /// Pages that live in different frames below `n` are at most `n`.
    pub proof fn lemma_pages_below(self, pages: Set<usize>, n: int)
        requires
            self.wf(),
            pages.finite(),
            0 <= n <= self.frames.len(),
            forall|p: usize|
                pages.contains(p) ==> self.page_table.contains_key(p) && self.page_table[p] < n,
        ensures
            pages.len() <= n,
        decreases n,
    {
        if n == 0 {
            if pages.len() > 0 {
                let p = pages.choose();
                assert(pages.contains(p));
            }
        } else {
            let last = n - 1;
            let at_last = Set::new(|p: usize| pages.contains(p) && self.page_table[p] == last);
            let rest = pages.difference(at_last);
            assert forall|p: usize, q: usize| at_last.contains(p) && at_last.contains(q) implies p
                == q by {
                assert(self.entry_wf(p));
                assert(self.entry_wf(q));
            }
            vstd::set_lib::lemma_len_subset(at_last, pages);
            if at_last.len() > 0 {
                let p = at_last.choose();
                assert(at_last.contains(p));
                assert(at_last =~= Set::<usize>::empty().insert(p));
                assert(rest =~= pages.remove(p));
            } else {
                assert(at_last =~= Set::<usize>::empty());
                assert(rest =~= pages);
            }
            self.lemma_pages_below(rest, last);
        }
    }

    /// With every frame pinned, a fetch of a page that is not resident
    /// fails with `CapacityExhausted` and changes nothing.
    pub proof fn lemma_all_pinned(self, page_id: usize)
        requires
            self.wf(),
            self.allocated(page_id),
            !self.resident(page_id),
            forall|i: int| 0 <= i < self.frames.len() ==> (#[trigger] self.frames[i]).pins > 0,
        ensures
            self.fetch_result(page_id) == Err::<usize, PoolError>(PoolError::CapacityExhausted),
            self.fetch(page_id) == self,
    {
        self.lemma_room();
        if self.free_list.len() > 0 {
            let top = self.free_list.len() - 1;
            assert(self.free_wf(top));
            assert(self.frame_wf(self.free_list[top] as int));
        }
        if self.policy.victim().is_some() {
            let victim = self.policy.victim().unwrap();
            assert(self.frames[self.page_table[victim] as int].pins > 0);
        }
    }
}

} // verus!
