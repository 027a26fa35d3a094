//! The backing store of the pool: pages laid out one after another in a
//! flat array of bytes, page `n` starting at `(n - 1) * page_size`.

use crate::error::PoolError;
use crate::DEFAULT_PAGE_SIZE;
use std::path::PathBuf;
use vstd::prelude::*;

verus! {

/// `std::path::PathBuf`, which the store carries along without looking
/// inside: nothing is claimed of it.
#[verifier::external_type_specification]
#[verifier::external_body]
pub struct ExPathBuf(PathBuf);

/// A request to the backing store, as it waits in the scheduler's queue.
/// `callback` names the submitter's completion slot: the completion of the
/// request carries the same number.
pub enum DiskManagerRequest {
    /// Transfer one page: from `data` to the store if `is_write`, else from
    /// the store to `data`.
    DiskRwRequest { is_write: bool, data: Vec<u8>, page_id: usize, callback: usize },
    /// Make the store hold at least (`grow`) or at most (`!grow`) `pages`
    /// pages.
    DiskResizeRequest { grow: bool, pages: usize, callback: usize },
}

/// A request as a mathematical value.
pub enum RequestView {
    Rw { is_write: bool, data: Seq<u8>, page_id: usize, callback: usize },
    Resize { grow: bool, pages: usize, callback: usize },
}

impl View for DiskManagerRequest {
    type V = RequestView;

    open spec fn view(&self) -> RequestView {
        match *self {
            DiskManagerRequest::DiskRwRequest { is_write, data, page_id, callback } => {
                RequestView::Rw { is_write, data: data@, page_id, callback }
            },
            DiskManagerRequest::DiskResizeRequest { grow, pages, callback } => {
                RequestView::Resize { grow, pages, callback }
            },
        }
    }
}

/// The store. With `in_memory` the bytes live in `in_memory_pages`; without,
/// the value only describes a store that lives in the file `page_dir`, and
/// the transfers, which belong to whoever holds that file, fail here.
pub struct DiskManager {
    pub page_dir: Option<PathBuf>,
    pub in_memory_pages: Option<Vec<u8>>,
    pub in_memory: bool,
    pub page_size: usize,
}

/// The store as a mathematical value.
pub struct DiskState {
    /// The flat array of bytes; empty where the store is not in memory.
    pub bytes: Seq<u8>,
    pub page_size: usize,
    /// The store was made to live in memory.
    pub in_memory: bool,
    /// The store has an array of bytes.
    pub present: bool,
}

impl DiskState {
    /// Where page `page_id` starts in the flat array.
    pub open spec fn offset_of(self, page_id: usize) -> int {
        (page_id - 1) * self.page_size
    }

    /// The array holds all of page `page_id`.
    pub open spec fn in_range(self, page_id: usize) -> bool {
        &&& self.present
        &&& page_id >= 1
        &&& self.offset_of(page_id) + self.page_size <= self.bytes.len()
    }

    /// The store is in memory and holds all of page `page_id`.
    pub open spec fn holds_page(self, page_id: usize) -> bool {
        self.in_memory && self.in_range(page_id)
    }

    /// The bytes of page `page_id`.
    pub open spec fn page_bytes(self, page_id: usize) -> Seq<u8> {
        self.bytes.subrange(self.offset_of(page_id), self.offset_of(page_id) + self.page_size)
    }

    /// The store after `data` was written over page `page_id`.
    pub open spec fn with_page(self, page_id: usize, data: Seq<u8>) -> DiskState {
        let start = self.offset_of(page_id);
        DiskState {
            bytes: Seq::new(
                self.bytes.len(),
                |i: int|
                    if start <= i < start + data.len() {
                        data[i - start]
                    } else {
                        self.bytes[i]
                    },
            ),
            ..self
        }
    }

    /// The store after its array was made `len` bytes long: cut off there,
    /// or filled up with zeros.
    pub open spec fn resized(self, len: int) -> DiskState {
        DiskState {
            bytes: Seq::new(
                len as nat,
                |i: int|
                    if i < self.bytes.len() {
                        self.bytes[i]
                    } else {
                        0u8
                    },
            ),
            ..self
        }
    }

    /// A write of `data` to page `page_id` succeeds.
    pub open spec fn can_write(self, page_id: usize, data: Seq<u8>) -> bool {
        self.holds_page(page_id) && data.len() == self.page_size
    }

    /// The store after a request to write `data` to page `page_id`.
    pub open spec fn write_page(self, page_id: usize, data: Seq<u8>) -> DiskState {
        if self.can_write(page_id, data) {
            self.with_page(page_id, data)
        } else {
            self
        }
    }

    /// A read of page `page_id` into a buffer of `len` bytes succeeds.
    pub open spec fn can_read(self, page_id: usize, len: nat) -> bool {
        self.holds_page(page_id) && len == self.page_size
    }

    /// What a buffer that held `data` holds after a request to read page
    /// `page_id` into it.
    pub open spec fn read_page(self, page_id: usize, data: Seq<u8>) -> Seq<u8> {
        if self.can_read(page_id, data.len()) {
            self.page_bytes(page_id)
        } else {
            data
        }
    }

    /// The store can be asked to hold at least `pages` pages.
    pub open spec fn can_grow(self, pages: usize) -> bool {
        self.in_memory && self.present && pages * self.page_size <= usize::MAX
    }

    /// The store after a request to hold at least `pages` pages.
    pub open spec fn grow(self, pages: usize) -> DiskState {
        if self.can_grow(pages) && pages * self.page_size > self.bytes.len() {
            self.resized(pages * self.page_size)
        } else {
            self
        }
    }

    /// The store can be asked to hold at most some number of pages.
    pub open spec fn can_shrink(self) -> bool {
        self.in_memory && self.present
    }

    /// The store after a request to hold at most `pages` pages.
    pub open spec fn shrink(self, pages: usize) -> DiskState {
        if self.can_shrink() && pages * self.page_size < self.bytes.len() {
            self.resized(pages * self.page_size)
        } else {
            self
        }
    }
}

impl DiskState {
    /// Two different pages do not overlap in the flat array.
    pub proof fn lemma_pages_apart(self, p: usize, q: usize)
        requires
            1 <= p < q,
        ensures
            0 <= self.offset_of(p),
            self.offset_of(p) + self.page_size <= self.offset_of(q),
    {
        let ps = self.page_size as int;
        assert(0 <= (p - 1) * ps) by (nonlinear_arith)
            requires
                p >= 1,
                ps >= 0,
        ;
        assert((p - 1) * ps + ps <= (q - 1) * ps) by (nonlinear_arith)
            requires
                p <= q - 1,
                ps >= 0,
        ;
    }

    /// A page that was written reads back as it was written.
    pub proof fn lemma_written_page(self, p: usize, data: Seq<u8>)
        requires
            self.in_range(p),
            data.len() == self.page_size,
        ensures
            self.with_page(p, data).page_bytes(p) == data,
            self.with_page(p, data).in_range(p),
    {
        let ps = self.page_size as int;
        assert(0 <= (p - 1) * ps) by (nonlinear_arith)
            requires
                p >= 1,
                ps >= 0,
        ;
        assert(self.with_page(p, data).page_bytes(p) =~= data);
    }

    /// A write to one page leaves every other page as it was.
    pub proof fn lemma_other_page(self, p: usize, q: usize, data: Seq<u8>)
        requires
            p >= 1,
            p != q,
            self.in_range(q),
            data.len() == self.page_size,
        ensures
            self.with_page(p, data).page_bytes(q) == self.page_bytes(q),
            self.with_page(p, data).in_range(q),
    {
        if p < q {
            self.lemma_pages_apart(p, q);
        } else {
            self.lemma_pages_apart(q, p);
        }
        assert(self.with_page(p, data).page_bytes(q) =~= self.page_bytes(q));
    }

    /// Growing the store leaves the pages that it held as they were, and
    /// shrinks nothing.
    pub proof fn lemma_grow_keeps(self, pages: usize, q: usize)
        requires
            self.in_range(q),
        ensures
            self.grow(pages).page_bytes(q) == self.page_bytes(q),
            self.grow(pages).in_range(q),
    {
        let ps = self.page_size as int;
        assert(0 <= (q - 1) * ps) by (nonlinear_arith)
            requires
                q >= 1,
                ps >= 0,
        ;
        assert(self.grow(pages).page_bytes(q) =~= self.page_bytes(q));
    }

    /// A store that holds `pages` pages holds each of them.
    pub proof fn lemma_holds_each(self, pages: usize, q: usize)
        requires
            self.present,
            pages * self.page_size <= self.bytes.len(),
            1 <= q <= pages,
        ensures
            self.in_range(q),
    {
        let ps = self.page_size as int;
        assert((q - 1) * ps + ps <= pages * ps) by (nonlinear_arith)
            requires
                q <= pages,
                ps >= 0,
        ;
    }
}

impl View for DiskManager {
    type V = DiskState;

    open spec fn view(&self) -> DiskState {
        DiskState {
            bytes: match self.in_memory_pages {
                Some(pages) => pages@,
                None => Seq::empty(),
            },
            page_size: self.page_size,
            in_memory: self.in_memory,
            present: self.in_memory_pages.is_some(),
        }
    }
}

impl Default for DiskManager {
    /// An in-memory store with pages of the default size.
    fn default() -> (dm: Self)
        ensures
            dm.page_dir.is_none(),
            dm@ == (DiskState {
                bytes: Seq::empty(),
                page_size: DEFAULT_PAGE_SIZE,
                in_memory: true,
                present: true,
            }),
    {
        DiskManager::new(DEFAULT_PAGE_SIZE, None, true)
    }
}

impl DiskManager {
    /// A store of pages of `page_size` bytes that holds no page yet.
    pub fn new(page_size: usize, page_dir: Option<PathBuf>, in_memory: bool) -> (dm: DiskManager)
        requires
            in_memory || page_dir.is_some(),
        ensures
            dm.page_dir == page_dir,
            dm@ == (DiskState { bytes: Seq::empty(), page_size, in_memory, present: in_memory }),
    {
        let in_memory_pages = if in_memory {
            Some(Vec::new())
        } else {
            None
        };
        DiskManager { page_dir, in_memory_pages, in_memory, page_size }
    }

    /// Where page `p_id` starts and ends in the flat array, if both can be
    /// counted.
    pub fn page_range(&self, p_id: usize) -> (range: Option<(usize, usize)>)
        ensures
            range.is_some() <==> p_id >= 1 && self@.offset_of(p_id) + self.page_size <= usize::MAX,
            range.is_some() ==> range.unwrap().0 == self@.offset_of(p_id) && range.unwrap().1
                == self@.offset_of(p_id) + self.page_size,
    {
        if p_id == 0 {
            return None;
        }
        assert((p_id - 1) * self.page_size + self.page_size == p_id * self.page_size)
            by (nonlinear_arith);
        assert(0 <= (p_id - 1) * self.page_size) by (nonlinear_arith)
            requires
                p_id >= 1,
        ;
        match p_id.checked_mul(self.page_size) {
            Some(end) => Some((end - self.page_size, end)),
            None => None,
        }
    }

    /// Writes `data` over page `page_id` and says whether that was done.
    pub fn write_page(&mut self, data: &Vec<u8>, page_id: usize) -> (is_okay: bool)
        ensures
            is_okay == old(self)@.can_write(page_id, data@),
            final(self)@ == old(self)@.write_page(page_id, data@),
            final(self).page_dir == old(self).page_dir,
    {
        if self.in_memory {
            match self.write_in_memory(page_id, data) {
                Ok(_) => true,
                Err(_) => false,
            }
        } else {
            false
        }
    }

    /// Reads page `page_id` into `data` and says whether that was done.
    pub fn read_page(&self, data: &mut Vec<u8>, page_id: usize) -> (is_okay: bool)
        ensures
            is_okay == self@.can_read(page_id, old(data)@.len()),
            final(data)@ == self@.read_page(page_id, old(data)@),
    {
        if self.in_memory {
            match self.read_in_memory(page_id, data) {
                Ok(_) => true,
                Err(_) => false,
            }
        } else {
            false
        }
    }

    /// Makes the store hold at least `p_id` pages; the pages that it gains
    /// are zero.
    pub fn increase_pages(&mut self, p_id: usize) -> (result: Result<(), PoolError>)
        ensures
            result == (if old(self)@.can_grow(p_id) {
                Ok::<(), PoolError>(())
            } else {
                Err::<(), PoolError>(PoolError::IoFailure)
            }),
            final(self)@ == old(self)@.grow(p_id),
            final(self).page_dir == old(self).page_dir,
    {
        if !self.in_memory {
            return Err(PoolError::IoFailure);
        }
        let target = match p_id.checked_mul(self.page_size) {
            Some(t) => t,
            None => {
                return Err(PoolError::IoFailure);
            },
        };
        match self.in_memory_pages.take() {
            Some(mut pages) => {
                let ghost before = pages@;
                if target > pages.len() {
                    pages.resize(target, 0u8);
                    assert(pages@ =~= old(self)@.resized(target as int).bytes) by {
                        assert(pages@.subrange(0, before.len() as int) == before);
                        assert forall|i: int| 0 <= i < before.len() implies pages@[i]
                            == before[i] by {
                            assert(pages@.subrange(0, before.len() as int)[i] == pages@[i]);
                        }
                    }
                }
                self.in_memory_pages = Some(pages);
                Ok(())
            },
            None => Err(PoolError::IoFailure),
        }
    }

    /// Makes the store hold at most `p_id` pages.
    pub fn decrease_pages(&mut self, p_id: usize) -> (result: Result<(), PoolError>)
        ensures
            result == (if old(self)@.can_shrink() {
                Ok::<(), PoolError>(())
            } else {
                Err::<(), PoolError>(PoolError::IoFailure)
            }),
            final(self)@ == old(self)@.shrink(p_id),
            final(self).page_dir == old(self).page_dir,
    {
        if !self.in_memory {
            return Err(PoolError::IoFailure);
        }
        match self.in_memory_pages.take() {
            Some(mut pages) => {
                let len = pages.len();
                match p_id.checked_mul(self.page_size) {
                    Some(target) => {
                        if target < len {
                            pages.truncate(target);
                            assert(pages@ =~= old(self)@.resized(target as int).bytes);
                        }
                    },
                    None => {},
                }
                self.in_memory_pages = Some(pages);
                Ok(())
            },
            None => Err(PoolError::IoFailure),
        }
    }

    /// Writes `p_data`, which must be one page long, over page `p_id` of the
    /// bytes in memory.
    pub fn write_in_memory(&mut self, p_id: usize, p_data: &Vec<u8>) -> (result: Result<
        (),
        PoolError,
    >)
        ensures
            result == (if old(self)@.in_range(p_id) && p_data@.len() == old(self).page_size {
                Ok::<(), PoolError>(())
            } else {
                Err::<(), PoolError>(PoolError::IoFailure)
            }),
            final(self)@ == (if result.is_ok() {
                old(self)@.with_page(p_id, p_data@)
            } else {
                old(self)@
            }),
            final(self).page_dir == old(self).page_dir,
    {
        let range = self.page_range(p_id);
        let page_size = self.page_size;
        match self.in_memory_pages.take() {
            Some(mut pages) => {
                let ghost before = pages@;
                let len = pages.len();
                let fits = match range {
                    Some((_, end)) => end <= len && p_data.len() == page_size,
                    None => false,
                };
                if !fits {
                    self.in_memory_pages = Some(pages);
                    return Err(PoolError::IoFailure);
                }
                let start = range.unwrap().0;
                let mut i: usize = 0;
                while i < page_size
                    invariant
                        i <= page_size,
                        start + page_size <= len,
                        pages@.len() == len,
                        before.len() == len,
                        p_data@.len() == page_size,
                        forall|j: int| 0 <= j < start ==> pages@[j] == before[j],
                        forall|j: int| start <= j < start + i ==> pages@[j] == p_data@[j - start],
                        forall|j: int| start + i <= j < pages@.len() ==> pages@[j] == before[j],
                    decreases page_size - i,
                {
                    pages[start + i] = p_data[i];
                    i += 1;
                }
                assert(pages@ =~= old(self)@.with_page(p_id, p_data@).bytes);
                self.in_memory_pages = Some(pages);
                Ok(())
            },
            None => Err(PoolError::IoFailure),
        }
    }

    /// Reads page `p_id` of the bytes in memory into `p_data`, which must be
    /// one page long.
    pub fn read_in_memory(&self, p_id: usize, p_data: &mut Vec<u8>) -> (result: Result<
        (),
        PoolError,
    >)
        ensures
            result == (if self@.in_range(p_id) && old(p_data)@.len() == self.page_size {
                Ok::<(), PoolError>(())
            } else {
                Err::<(), PoolError>(PoolError::IoFailure)
            }),
            final(p_data)@ == (if result.is_ok() {
                self@.page_bytes(p_id)
            } else {
                old(p_data)@
            }),
    {
        let range = self.page_range(p_id);
        match &self.in_memory_pages {
            Some(pages) => {
                let len = pages.len();
                let fits = match range {
                    Some((_, end)) => end <= len && p_data.len() == self.page_size,
                    None => false,
                };
                if !fits {
                    return Err(PoolError::IoFailure);
                }
                let start = range.unwrap().0;
                let mut i: usize = 0;
                while i < self.page_size
                    invariant
                        i <= self.page_size,
                        start + self.page_size <= len,
                        pages@.len() == len,
                        p_data@.len() == self.page_size,
                        forall|j: int| 0 <= j < i ==> p_data@[j] == pages@[start + j],
                    decreases self.page_size - i,
                {
                    p_data[i] = pages[start + i];
                    i += 1;
                }
                assert(p_data@ =~= self@.page_bytes(p_id));
                Ok(())
            },
            None => Err(PoolError::IoFailure),
        }
    }
}

} // verus!
