//! Page-sized memory frames.
//!
//! A [`SharedFrame`] is a heap-allocated buffer of exactly [`PAGE_SIZE`]
//! bytes, the in-memory image of one disk page.  A [`Frame`] couples such a
//! buffer with the index under which the pool registered it, so the
//! replacement policy can speak of frames by small ids while ownership of the
//! bytes moves between the free list, a page's swip, and the disk manager.

use vstd::prelude::*;

verus! {

/// The size of a page of data on disk and in memory, 4 KiB.
pub const PAGE_SIZE: usize = 4096;

/// A page-sized buffer: the in-memory image of one disk page.
pub struct SharedFrame {
    buf: Vec<u8>,
}

impl View for SharedFrame {
    type V = Seq<u8>;

    closed spec fn view(&self) -> Seq<u8> {
        self.buf@
    }
}

impl SharedFrame {
    /// A frame holds exactly one page worth of bytes.
    pub open spec fn wf(&self) -> bool {
        self@.len() == PAGE_SIZE
    }

    /// Allocates a zero-filled frame.
    pub fn new() -> (r: SharedFrame)
        ensures
            r.wf(),
            forall|i: int| 0 <= i < PAGE_SIZE ==> r@[i] == 0u8,
    {
        SharedFrame { buf: vec![0u8; PAGE_SIZE] }
    }

    /// Reads one byte of the page image.
    pub fn read_byte(&self, i: usize) -> (r: u8)
        requires
            self.wf(),
            i < PAGE_SIZE,
        ensures
            r == self@[i as int],
    {
        self.buf[i]
    }

    /// Overwrites one byte of the page image.
    pub fn write_byte(&mut self, i: usize, b: u8)
        requires
            old(self).wf(),
            i < PAGE_SIZE,
        ensures
            final(self).wf(),
            final(self)@ == old(self)@.update(i as int, b),
    {
        self.buf.set(i, b);
    }

    /// Copies the whole page image out.
    pub fn to_vec(&self) -> (r: Vec<u8>)
        ensures
            r@ == self@,
    {
        let mut out: Vec<u8> = Vec::new();
        let mut k: usize = 0;
        while k < self.buf.len()
            invariant
                k <= self.buf@.len(),
                out@ == self.buf@.take(k as int),
            decreases self.buf@.len() - k,
        {
            out.push(self.buf[k]);
            proof {
                assert(out@ =~= self.buf@.take(k + 1));
            }
            k = k + 1;
        }
        proof {
            assert(self.buf@.take(self.buf@.len() as int) =~= self.buf@);
        }
        out
    }

    /// Borrows the whole page image.
    pub fn bytes(&self) -> (r: &Vec<u8>)
        ensures
            r@ == self@,
    {
        &self.buf
    }

    /// Copies `src` into the page image starting at `offset`.
    pub fn write_bytes(&mut self, offset: usize, src: &Vec<u8>)
        requires
            old(self).wf(),
            offset + src@.len() <= PAGE_SIZE,
        ensures
            final(self).wf(),
            final(self)@.len() == PAGE_SIZE,
            forall|i: int|
                offset <= i < offset + src@.len() ==> final(self)@[i] == src@[i - offset],
            forall|i: int|
                0 <= i < PAGE_SIZE && !(offset <= i < offset + src@.len()) ==> final(self)@[i]
                    == old(self)@[i],
    {
        let mut k: usize = 0;
        while k < src.len()
            invariant
                old(self).wf(),
                offset + src@.len() <= PAGE_SIZE,
                k <= src@.len(),
                self@.len() == PAGE_SIZE,
                forall|i: int| offset <= i < offset + k ==> self@[i] == src@[i - offset],
                forall|i: int|
                    0 <= i < PAGE_SIZE && !(offset <= i < offset + k) ==> self@[i] == old(
                        self,
                    )@[i],
            decreases src@.len() - k,
        {
            self.buf.set(offset + k, src[k]);
            k = k + 1;
        }
    }
}

impl Default for SharedFrame {
    /// A default frame is zero-filled, as a freshly extended disk page is.
    fn default() -> (r: SharedFrame)
        ensures
            r.wf(),
            forall|i: int| 0 <= i < PAGE_SIZE ==> r@[i] == 0u8,
    {
        SharedFrame::new()
    }
}

/// A registered frame: a page-sized buffer together with the index the pool
/// gave it.  The id stands for the buffer in the replacement policy and in
/// the pool's bookkeeping; the pair moves as one value, so a frame id is
/// never duplicated.
pub struct Frame {
    /// The index of this buffer in the pool's registry, fixed at startup.
    pub id: usize,
    /// The page image the frame owns.
    pub data: SharedFrame,
}

impl Frame {
    /// A frame is well formed when its page image is.
    pub open spec fn wf(&self) -> bool {
        self.data.wf()
    }
}

} // verus!
