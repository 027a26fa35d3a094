//! The queue in front of the backing store: requests wait in the order in
//! which they were submitted, a worker serves them one by one, and each
//! request is answered by exactly one completion.

use crate::disk_manager::{DiskManager, DiskManagerRequest, DiskState, RequestView};
use crate::error::PoolError;
use std::collections::VecDeque;
use vstd::prelude::*;

verus! {

/// The answer to one request. `callback` is the number that the request was
/// submitted with; `data` is the request's buffer, filled by a read that
/// succeeded and otherwise as it was.
pub struct Completion {
    pub callback: usize,
    pub is_okay: bool,
    pub data: Vec<u8>,
}

/// A completion as a mathematical value.
pub struct CompletionView {
    pub callback: usize,
    pub is_okay: bool,
    pub data: Seq<u8>,
}

impl View for Completion {
    type V = CompletionView;

    open spec fn view(&self) -> CompletionView {
        CompletionView { callback: self.callback, is_okay: self.is_okay, data: self.data@ }
    }
}

impl RequestView {
    /// The number that the request was submitted with.
    pub open spec fn callback(self) -> usize {
        match self {
            RequestView::Rw { callback, .. } => callback,
            RequestView::Resize { callback, .. } => callback,
        }
    }

    /// The store after the request was served.
    pub open spec fn apply(self, disk: DiskState) -> DiskState {
        match self {
            RequestView::Rw { is_write, data, page_id, callback } => if is_write {
                disk.write_page(page_id, data)
            } else {
                disk
            },
            RequestView::Resize { grow, pages, callback } => if grow {
                disk.grow(pages)
            } else {
                disk.shrink(pages)
            },
        }
    }

    /// The completion that serving the request gives.
    pub open spec fn completion(self, disk: DiskState) -> CompletionView {
        match self {
            RequestView::Rw { is_write, data, page_id, callback } => if is_write {
                CompletionView { callback, is_okay: disk.can_write(page_id, data), data }
            } else {
                CompletionView {
                    callback,
                    is_okay: disk.can_read(page_id, data.len()),
                    data: disk.read_page(page_id, data),
                }
            },
            RequestView::Resize { grow, pages, callback } => CompletionView {
                callback,
                is_okay: if grow {
                    disk.can_grow(pages)
                } else {
                    disk.can_shrink()
                },
                data: Seq::empty(),
            },
        }
    }
}

/// The store after the requests of `queue` were served in order.
pub open spec fn drained_disk(disk: DiskState, queue: Seq<RequestView>) -> DiskState
    decreases queue.len(),
{
    if queue.len() == 0 {
        disk
    } else {
        drained_disk(queue[0].apply(disk), queue.drop_first())
    }
}

/// The completions that serving the requests of `queue` in order gives.
pub open spec fn drained_completions(disk: DiskState, queue: Seq<RequestView>) -> Seq<
    CompletionView,
>
    decreases queue.len(),
{
    if queue.len() == 0 {
        Seq::empty()
    } else {
        seq![queue[0].completion(disk)] + drained_completions(
            queue[0].apply(disk),
            queue.drop_first(),
        )
    }
}

/// Serving a queue with one more request at its end serves the queue and
/// then that request.
pub proof fn lemma_drained_push(disk: DiskState, queue: Seq<RequestView>, last: RequestView)
    ensures
        drained_disk(disk, queue.push(last)) == last.apply(drained_disk(disk, queue)),
        drained_completions(disk, queue.push(last)) == drained_completions(disk, queue).push(
            last.completion(drained_disk(disk, queue)),
        ),
    decreases queue.len(),
{
    let longer = queue.push(last);
    if queue.len() == 0 {
        assert(longer[0] == last);
        assert(longer.drop_first() =~= Seq::<RequestView>::empty());
        assert(drained_disk(last.apply(disk), longer.drop_first()) == last.apply(disk));
        assert(drained_completions(last.apply(disk), longer.drop_first()) =~= Seq::<
            CompletionView,
        >::empty());
        assert(drained_completions(disk, longer) =~= seq![last.completion(disk)]);
        assert(drained_completions(disk, queue).push(last.completion(disk)) =~= seq![
            last.completion(disk),
        ]);
    } else {
        assert(longer[0] == queue[0]);
        assert(longer.drop_first() =~= queue.drop_first().push(last));
        lemma_drained_push(queue[0].apply(disk), queue.drop_first(), last);
        assert(drained_completions(disk, longer) =~= drained_completions(disk, queue).push(
            last.completion(drained_disk(disk, queue)),
        ));
    }
}

/// Every request of a queue is answered once, in the order of the queue:
/// the completions are as many as the requests, and each carries the number
/// of the request in its place.
pub proof fn lemma_one_completion_each(disk: DiskState, queue: Seq<RequestView>)
    ensures
        drained_completions(disk, queue).len() == queue.len(),
        forall|i: int|
            0 <= i < queue.len() ==> (#[trigger] drained_completions(disk, queue)[i]).callback
                == queue[i].callback(),
    decreases queue.len(),
{
    if queue.len() > 0 {
        lemma_one_completion_each(queue[0].apply(disk), queue.drop_first());
        let rest = drained_completions(queue[0].apply(disk), queue.drop_first());
        assert forall|i: int| 0 <= i < queue.len() implies (#[trigger] drained_completions(
            disk,
            queue,
        )[i]).callback == queue[i].callback() by {
            if i > 0 {
                assert(drained_completions(disk, queue)[i] == rest[i - 1]);
                assert(queue.drop_first()[i - 1] == queue[i]);
            }
        }
    }
}

/// The scheduler as a mathematical value.
pub struct SchedulerState {
    pub disk: DiskState,
    /// The requests that wait, the oldest first.
    pub queue: Seq<RequestView>,
    /// The completions that nobody has fetched yet, the oldest first.
    pub completed: Seq<CompletionView>,
    /// Whether requests are still taken.
    pub accepting: bool,
}

impl SchedulerState {
    /// Nothing waits, nothing is left to fetch, and requests are taken.
    pub open spec fn idle(self) -> bool {
        self.accepting && self.queue.len() == 0 && self.completed.len() == 0
    }

    /// The scheduler after `request` was submitted: it waits at the end of
    /// the queue, unless the scheduler was shut down.
    pub open spec fn submitted(self, request: RequestView) -> SchedulerState {
        if self.accepting {
            SchedulerState { queue: self.queue.push(request), ..self }
        } else {
            self
        }
    }

    /// The scheduler after the requests of `requests` were submitted in
    /// order.
    pub open spec fn submitted_all(self, requests: Seq<RequestView>) -> SchedulerState
        decreases requests.len(),
    {
        if requests.len() == 0 {
            self
        } else {
            self.submitted(requests[0]).submitted_all(requests.drop_first())
        }
    }

    /// The scheduler after it was shut down: what waited was served, and no
    /// request is taken any more.
    pub open spec fn closed(self) -> SchedulerState {
        SchedulerState { accepting: false, ..self.drained() }
    }

    /// Requests that are submitted while the scheduler takes requests wait
    /// behind those that waited already, in the order of submission.
    pub proof fn lemma_submitted_all(self, requests: Seq<RequestView>)
        requires
            self.accepting,
        ensures
            self.submitted_all(requests) == (SchedulerState {
                queue: self.queue + requests,
                ..self
            }),
        decreases requests.len(),
    {
        if requests.len() == 0 {
            assert(self.queue + requests =~= self.queue);
        } else {
            self.submitted(requests[0]).lemma_submitted_all(requests.drop_first());
            assert(self.queue.push(requests[0]) + requests.drop_first() =~= self.queue + requests);
        }
    }

    /// Of the requests that were submitted to a scheduler that had nothing
    /// in flight, each gets exactly one completion once the worker has run:
    /// there are as many completions as requests, they come in the order of
    /// submission, and each carries the number of its request.
    pub proof fn lemma_each_request_completes_once(self, requests: Seq<RequestView>)
        requires
            self.idle(),
        ensures
            self.submitted_all(requests).drained().queue.len() == 0,
            self.submitted_all(requests).drained().completed.len() == requests.len(),
            forall|i: int|
                0 <= i < requests.len() ==> (#[trigger] self.submitted_all(
                    requests,
                ).drained().completed[i]).callback == requests[i].callback(),
    {
        self.lemma_submitted_all(requests);
        assert(self.queue + requests =~= requests);
        assert(self.completed + drained_completions(self.disk, requests) =~= drained_completions(
            self.disk,
            requests,
        ));
        lemma_one_completion_each(self.disk, requests);
    }

    /// Once the scheduler is shut down it stays as it is: a submission is
    /// refused and changes nothing, and the worker finds nothing to serve,
    /// so no completion is delivered any more.
    pub proof fn lemma_closed_is_final(self, request: RequestView)
        ensures
            self.closed().queue.len() == 0,
            !self.closed().accepting,
            self.closed().submitted(request) == self.closed(),
            self.closed().drained() == self.closed(),
    {
        let closed = self.closed();
        assert(closed.completed + drained_completions(closed.disk, closed.queue)
            =~= closed.completed);
    }

    /// The scheduler after `request` was submitted, served after everything
    /// that waited, and its completion fetched by the submitter.
    pub open spec fn transferred(self, request: RequestView) -> SchedulerState {
        SchedulerState { disk: request.apply(self.drained().disk), ..self.drained() }
    }

    /// The scheduler after its worker served everything that waited.
    pub open spec fn drained(self) -> SchedulerState {
        SchedulerState {
            disk: drained_disk(self.disk, self.queue),
            queue: Seq::empty(),
            completed: self.completed + drained_completions(self.disk, self.queue),
            accepting: self.accepting,
        }
    }
}

/// Schedules the reads and writes of pages between memory and the store.
pub struct DiskScheduler {
    disk_manager: DiskManager,
    queue: VecDeque<DiskManagerRequest>,
    completed: VecDeque<Completion>,
    accepting: bool,
}

impl View for DiskScheduler {
    type V = SchedulerState;

    closed spec fn view(&self) -> SchedulerState {
        SchedulerState {
            disk: self.disk_manager@,
            queue: self.queue@.map_values(|r: DiskManagerRequest| r@),
            completed: self.completed@.map_values(|c: Completion| c@),
            accepting: self.accepting,
        }
    }
}

impl DiskScheduler {
    /// A scheduler in front of `disk_manager` that takes requests and has
    /// none yet.
    pub fn new(disk_manager: DiskManager) -> (scheduler: Self)
        ensures
            scheduler@ == (SchedulerState {
                disk: disk_manager@,
                queue: Seq::empty(),
                completed: Seq::empty(),
                accepting: true,
            }),
    {
        let scheduler = DiskScheduler {
            disk_manager,
            queue: VecDeque::new(),
            completed: VecDeque::new(),
            accepting: true,
        };
        assert(scheduler@.queue =~= Seq::empty());
        assert(scheduler@.completed =~= Seq::empty());
        scheduler
    }

    /// The store behind the scheduler.
    pub fn disk_manager(&self) -> (dm: &DiskManager)
        ensures
            dm@ == self@.disk,
    {
        &self.disk_manager
    }

    /// Serves one request against the store: the worker's whole decision.
    pub fn serve(disk_manager: &mut DiskManager, request: DiskManagerRequest) -> (done: Completion)
        ensures
            final(disk_manager)@ == request@.apply(old(disk_manager)@),
            done@ == request@.completion(old(disk_manager)@),
    {
        match request {
            DiskManagerRequest::DiskRwRequest { is_write, data, page_id, callback } => {
                let mut data = data;
                let is_okay = if is_write {
                    disk_manager.write_page(&data, page_id)
                } else {
                    disk_manager.read_page(&mut data, page_id)
                };
                Completion { callback, is_okay, data }
            },
            DiskManagerRequest::DiskResizeRequest { grow, pages, callback } => {
                let outcome = if grow {
                    disk_manager.increase_pages(pages)
                } else {
                    disk_manager.decrease_pages(pages)
                };
                Completion { callback, is_okay: outcome.is_ok(), data: Vec::new() }
            },
        }
    }

    /// What the worker does until the queue is empty: it takes the oldest
    /// request, serves it, and files its completion.
    pub fn run_worker(&mut self)
        ensures
            final(self)@ == old(self)@.drained(),
    {
        let ghost start = self@;
        loop
            invariant
                self@.accepting == start.accepting,
                drained_disk(self@.disk, self@.queue) == drained_disk(start.disk, start.queue),
                self@.completed + drained_completions(self@.disk, self@.queue) == start.completed
                    + drained_completions(start.disk, start.queue),
            ensures
                self@.accepting == start.accepting,
                self@.queue.len() == 0,
                self@.disk == drained_disk(start.disk, start.queue),
                self@.completed == start.completed + drained_completions(start.disk, start.queue),
            decreases self.queue@.len(),
        {
            let ghost before = self@;
            match self.queue.pop_front() {
                Some(request) => {
                    let done = DiskScheduler::serve(&mut self.disk_manager, request);
                    self.completed.push_back(done);
                    proof {
                        assert(before.queue[0] == request@);
                        assert(self@.queue =~= before.queue.drop_first());
                        assert(self@.completed =~= before.completed.push(done@));
                        assert(self@.completed + drained_completions(self@.disk, self@.queue)
                            =~= before.completed + drained_completions(before.disk, before.queue));
                    }
                },
                None => {
                    proof {
                        assert(self@.queue.len() == 0);
                        assert(self@.completed + Seq::<CompletionView>::empty() =~= self@.completed);
                    }
                    break ;
                },
            }
        }
        assert(self@.queue =~= Seq::empty());
    }

    /// Has the store hold at least `size` pages. The request goes through
    /// the queue like any other, so that it is served after everything that
    /// waited before it.
    pub fn new_page(&mut self, size: usize) -> (result: Result<(), PoolError>)
        ensures
            result == (if old(self)@.accepting && old(self)@.drained().disk.can_grow(size) {
                Ok::<(), PoolError>(())
            } else {
                Err::<(), PoolError>(PoolError::IoFailure)
            }),
            final(self)@ == (if old(self)@.accepting {
                old(self)@.transferred(RequestView::Resize { grow: true, pages: size, callback: 0 })
            } else {
                old(self)@
            }),
    {
        let request = DiskManagerRequest::DiskResizeRequest { grow: true, pages: size, callback: 0 };
        match self.submit_and_wait(request) {
            Ok(done) => if done.is_okay {
                Ok(())
            } else {
                Err(PoolError::IoFailure)
            },
            Err(e) => Err(e),
        }
    }

    /// Submits a transfer of page `page_id`. It goes to the end of the queue,
    /// unless the scheduler was shut down: then nothing changes and the call
    /// fails.
    pub fn request(&mut self, is_write: bool, data: Vec<u8>, page_id: usize, callback: usize) -> (result:
        Result<(), PoolError>)
        ensures
            result == (if old(self)@.accepting {
                Ok::<(), PoolError>(())
            } else {
                Err::<(), PoolError>(PoolError::IoFailure)
            }),
            final(self)@ == old(self)@.submitted(
                RequestView::Rw { is_write, data: data@, page_id, callback },
            ),
    {
        self.submit(DiskManagerRequest::DiskRwRequest { is_write, data, page_id, callback })
    }

    /// Puts `request` at the end of the queue, unless the scheduler was shut
    /// down.
    fn submit(&mut self, request: DiskManagerRequest) -> (result: Result<(), PoolError>)
        ensures
            result == (if old(self)@.accepting {
                Ok::<(), PoolError>(())
            } else {
                Err::<(), PoolError>(PoolError::IoFailure)
            }),
            final(self)@ == old(self)@.submitted(request@),
    {
        if !self.accepting {
            return Err(PoolError::IoFailure);
        }
        self.queue.push_back(request);
        assert(self@.queue =~= old(self)@.queue.push(request@));
        Ok(())
    }

    /// Submits `request`, lets the worker run and fetches the request's
    /// completion, which is the last one that the worker filed.
    fn submit_and_wait(&mut self, request: DiskManagerRequest) -> (result: Result<
        Completion,
        PoolError,
    >)
        ensures
            !old(self)@.accepting ==> result.is_err() && result->Err_0 == PoolError::IoFailure
                && final(self)@ == old(self)@,
            old(self)@.accepting ==> {
                &&& result.is_ok()
                &&& result->Ok_0@ == request@.completion(old(self)@.drained().disk)
                &&& final(self)@ == old(self)@.transferred(request@)
            },
    {
        let ghost asked = request@;
        let ghost before = self@;
        match self.submit(request) {
            Err(e) => {
                return Err(e);
            },
            Ok(_) => {},
        }
        self.run_worker();
        let ghost mid = self@;
        let ghost served = drained_completions(before.disk, before.queue);
        let ghost answer = asked.completion(drained_disk(before.disk, before.queue));
        proof {
            lemma_drained_push(before.disk, before.queue, asked);
            assert(mid.completed =~= (before.completed + served).push(answer));
            assert(self.completed@.len() == mid.completed.len());
        }
        let ghost filed = self.completed@;
        match self.completed.pop_back() {
            Some(done) => {
                proof {
                    assert(done@ == mid.completed[mid.completed.len() - 1]);
                    assert forall|i: int| 0 <= i < self@.completed.len() implies self@.completed[i]
                        == (before.completed + served)[i] by {
                        assert(self.completed@[i] == filed[i]);
                        assert(mid.completed[i] == filed[i]@);
                    }
                    assert(self@.completed =~= before.completed + served);
                }
                Ok(done)
            },
            None => Err(PoolError::IoFailure),
        }
    }

    /// Submits a transfer of page `page_id` and waits for its completion,
    /// which comes after those of all requests that waited before it.
    pub fn transfer(&mut self, is_write: bool, data: Vec<u8>, page_id: usize, callback: usize) -> (result:
        Result<Completion, PoolError>)
        ensures
            !old(self)@.accepting ==> result.is_err() && result->Err_0 == PoolError::IoFailure
                && final(self)@ == old(self)@,
            old(self)@.accepting ==> {
                let request = RequestView::Rw { is_write, data: data@, page_id, callback };
                &&& result.is_ok()
                &&& result->Ok_0@ == request.completion(old(self)@.drained().disk)
                &&& final(self)@ == old(self)@.transferred(request)
            },
    {
        self.submit_and_wait(
            DiskManagerRequest::DiskRwRequest { is_write, data, page_id, callback },
        )
    }

    /// Hands out the oldest completion that nobody has fetched yet.
    pub fn next_completion(&mut self) -> (done: Option<Completion>)
        ensures
            old(self)@.completed.len() == 0 ==> done.is_none() && final(self)@ == old(self)@,
            old(self)@.completed.len() > 0 ==> done.is_some() && done.unwrap()@ == old(
                self
            )@.completed[0] && final(self)@ == (SchedulerState {
                completed: old(self)@.completed.drop_first(),
                ..old(self)@
            }),
    {
        let done = self.completed.pop_front();
        proof {
            if done.is_some() {
                assert(self@.completed =~= old(self)@.completed.drop_first());
            }
        }
        done
    }

    /// Stops taking requests. What waits is still served.
    pub fn shutdown(&mut self)
        ensures
            final(self)@ == old(self)@.closed(),
    {
        self.accepting = false;
        self.run_worker();
    }
}

} // verus!
