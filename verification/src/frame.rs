//! A frame: one page-sized buffer of the pool with its bookkeeping.

use crate::error::PoolError;
use vstd::prelude::*;

verus! {

/// An in-memory slot that holds the bytes of at most one page.
///
/// `cursor` counts the bytes written since the page was brought in; a write
/// appends there. It replaces any guess at where the data ends that would
/// look at the bytes themselves.
pub struct Frame {
    pub buffer: Vec<u8>,
    pub pin_count: u64,
    pub current_page_index: Option<usize>,
    pub page_size: usize,
    pub dirty: bool,
    pub cursor: usize,
}

/// A frame as a mathematical value.
pub struct FrameState {
    pub bytes: Seq<u8>,
    /// How many pins are held on the frame.
    pub pins: u64,
    /// The page that the frame holds, if any.
    pub page: Option<usize>,
    pub dirty: bool,
    pub cursor: usize,
}

impl View for Frame {
    type V = FrameState;

    open spec fn view(&self) -> FrameState {
        FrameState {
            bytes: self.buffer@,
            pins: self.pin_count,
            page: self.current_page_index,
            dirty: self.dirty,
            cursor: self.cursor,
        }
    }
}

impl FrameState {
    /// A write of `len` more bytes stays within a page of `page_size` bytes.
    pub open spec fn fits(self, len: nat, page_size: usize) -> bool {
        self.cursor + len <= page_size
    }

    /// The frame after `data` was appended at the cursor.
    pub open spec fn written(self, data: Seq<u8>) -> FrameState {
        FrameState {
            bytes: Frame::overlay(self.bytes, self.cursor as int, data),
            cursor: (self.cursor + data.len()) as usize,
            dirty: true,
            ..self
        }
    }
}

impl Frame {
    /// The buffer is exactly one page long and the cursor lies within it.
    pub open spec fn wf(&self) -> bool {
        &&& self.buffer@.len() == self.page_size
        &&& self.cursor <= self.page_size
    }

    /// The bytes of `before` with `data` laid over them from `offset` on.
    pub open spec fn overlay(before: Seq<u8>, offset: int, data: Seq<u8>) -> Seq<u8> {
        Seq::new(
            before.len(),
            |i: int|
                if offset <= i < offset + data.len() {
                    data[i - offset]
                } else {
                    before[i]
                },
        )
    }

    /// A free, clean, unpinned frame of `page_size` zero bytes.
    pub fn new(page_size: usize) -> (frame: Frame)
        ensures
            frame.wf(),
            frame.page_size == page_size,
            frame.buffer@ == Seq::new(page_size as nat, |i: int| 0u8),
            frame.pin_count == 0,
            frame.current_page_index.is_none(),
            !frame.dirty,
            frame.cursor == 0,
    {
        let buffer = vec![0u8; page_size];
        assert(buffer@ =~= Seq::new(page_size as nat, |i: int| 0u8));
        Frame { buffer, pin_count: 0, current_page_index: None, page_size, dirty: false, cursor: 0 }
    }

    /// Appends `buf` at the cursor and marks the frame dirty.
    ///
    /// A write that would pass the end of the page is refused as a whole:
    /// the frame is then exactly as it was.
    pub fn write(&mut self, buf: &[u8]) -> (result: Result<usize, PoolError>)
        requires
            old(self).wf(),
        ensures
            final(self).wf(),
            final(self).page_size == old(self).page_size,
            old(self)@.fits(buf@.len(), old(self).page_size) ==> {
                &&& result == Ok::<usize, PoolError>(buf@.len() as usize)
                &&& final(self)@ == old(self)@.written(buf@)
            },
            !old(self)@.fits(buf@.len(), old(self).page_size) ==> {
                &&& result == Err::<usize, PoolError>(
                    PoolError::OutOfBounds {
                        len: buf@.len() as usize,
                        offset: old(self).cursor,
                        page_size: old(self).page_size,
                    },
                )
                &&& *final(self) == *old(self)
            },
    {
        let len = buf.len();
        if len > self.page_size - self.cursor {
            return Err(
                PoolError::OutOfBounds { len, offset: self.cursor, page_size: self.page_size },
            );
        }
        let start = self.cursor;
        let mut i: usize = 0;
        while i < len
            invariant
                i <= len,
                len == buf@.len(),
                start + len <= self.page_size,
                self.buffer@.len() == self.page_size,
                self.cursor == start,
                self.page_size == old(self).page_size,
                self.pin_count == old(self).pin_count,
                self.current_page_index == old(self).current_page_index,
                start == old(self).cursor,
                self.buffer@ == Frame::overlay(old(self).buffer@, start as int, buf@.take(i as int)),
            decreases len - i,
        {
            self.buffer[start + i] = buf[i];
            i += 1;
            assert(self.buffer@ =~= Frame::overlay(
                old(self).buffer@,
                start as int,
                buf@.take(i as int),
            ));
        }
        assert(buf@.take(len as int) =~= buf@);
        self.cursor = start + len;
        self.dirty = true;
        Ok(len)
    }

    /// Copies the whole page into `buf`, which must be one page long, and
    /// returns the number of bytes copied.
    pub fn read(&self, buf: &mut Vec<u8>) -> (n: usize)
        requires
            self.wf(),
            old(buf)@.len() == self.page_size,
        ensures
            final(buf)@ == self.buffer@,
            n == self.page_size,
    {
        let mut i: usize = 0;
        while i < self.page_size
            invariant
                i <= self.page_size,
                self.buffer@.len() == self.page_size,
                buf@.len() == self.page_size,
                forall|j: int| 0 <= j < i ==> buf@[j] == self.buffer@[j],
            decreases self.page_size - i,
        {
            buf[i] = self.buffer[i];
            i += 1;
        }
        assert(buf@ =~= self.buffer@);
        self.page_size
    }
}

} // verus!
