//! The disk manager: positional page I/O against the backing file image.
//!
//! The manager holds the byte image of the single backing file.  Page `p`
//! occupies bytes `[p * PAGE_SIZE, (p+1) * PAGE_SIZE)`; a read past the end
//! of the image yields zeros, as a freshly extended page does, and a write
//! past the end extends the image.  The surrounding program loads the image
//! from the real file at startup and persists it back; every transfer
//! between frames and the image is verified here.

use vstd::prelude::*;

use crate::frame::PAGE_SIZE;
use crate::frame::SharedFrame;
use crate::page::PageId;

verus! {

/// The page's disk offsets stay within an addressable range.
pub open spec fn pid_in_range(pid: PageId) -> bool {
    pid.id_spec() * PAGE_SIZE + PAGE_SIZE <= usize::MAX
}

/// The bytes of page `pid` in a file image: the stored bytes where the
/// image reaches, zeros past its end.
pub open spec fn page_bytes_spec(file: Seq<u8>, pid: int) -> Seq<u8> {
    Seq::new(
        PAGE_SIZE as nat,
        |i: int|
            if pid * PAGE_SIZE + i < file.len() {
                file[pid * PAGE_SIZE + i]
            } else {
                0u8
            },
    )
}

/// The file image after `data` is written as page `pid`: zero-extended
/// until the page fits, with the page's range replaced by `data`.
pub open spec fn write_page_spec(file: Seq<u8>, pid: int, data: Seq<u8>) -> Seq<u8> {
    let end = (pid + 1) * PAGE_SIZE;
    let len = if file.len() >= end {
        file.len() as int
    } else {
        end
    };
    Seq::new(
        len as nat,
        |i: int|
            if pid * PAGE_SIZE <= i < end {
                data[i - pid * PAGE_SIZE]
            } else if i < file.len() {
                file[i]
            } else {
                0u8
            },
    )
}

/// The count of reads or writes issued so far, after one more.
pub open spec fn bump(c: u64) -> u64 {
    if c < u64::MAX {
        (c + 1) as u64
    } else {
        c
    }
}

/// Round trip: the page read back from an image into which its bytes were
/// just written is exactly those bytes, whatever the image held before.
pub proof fn lemma_page_round_trip(file: Seq<u8>, pid: int, data: Seq<u8>)
    requires
        data.len() == PAGE_SIZE,
        pid >= 0,
    ensures
        page_bytes_spec(write_page_spec(file, pid, data), pid) == data,
{
    assert(page_bytes_spec(write_page_spec(file, pid, data), pid) =~= data);
}

/// Idempotence: writing the same page bytes twice leaves the image exactly
/// as after the first write.
pub proof fn lemma_write_page_idempotent(file: Seq<u8>, pid: int, data: Seq<u8>)
    requires
        data.len() == PAGE_SIZE,
        pid >= 0,
    ensures
        write_page_spec(write_page_spec(file, pid, data), pid, data) == write_page_spec(
            file,
            pid,
            data,
        ),
{
    assert(write_page_spec(write_page_spec(file, pid, data), pid, data) =~= write_page_spec(
        file,
        pid,
        data,
    ));
}

/// Writing one page never changes what any other page reads back.
pub proof fn lemma_write_page_preserves_others(file: Seq<u8>, pid: int, data: Seq<u8>, other: int)
    requires
        data.len() == PAGE_SIZE,
        pid >= 0,
        other >= 0,
        other != pid,
    ensures
        page_bytes_spec(write_page_spec(file, pid, data), other) == page_bytes_spec(file, other),
{
    let written = write_page_spec(file, pid, data);
    assert forall|i: int| 0 <= i < PAGE_SIZE implies page_bytes_spec(written, other)[i]
        == page_bytes_spec(file, other)[i] by {
        if other < pid {
            assert(other * PAGE_SIZE + i < pid * PAGE_SIZE) by (nonlinear_arith)
                requires
                    other < pid,
                    0 <= i < PAGE_SIZE,
                    other >= 0,
            ;
        } else {
            assert(other * PAGE_SIZE + i >= (pid + 1) * PAGE_SIZE) by (nonlinear_arith)
                requires
                    other > pid,
                    0 <= i < PAGE_SIZE,
                    pid >= 0,
            ;
        }
    }
    assert(page_bytes_spec(written, other) =~= page_bytes_spec(file, other));
}

/// Translates `(PageId, SharedFrame)` pairs into positional transfers on
/// the backing file's byte image, and counts the transfers it has issued.
pub struct DiskManager {
    file_path: String,
    data: Vec<u8>,
    reads: u64,
    writes: u64,
}

impl DiskManager {
    /// The byte image of the backing file.
    pub closed spec fn file_view(&self) -> Seq<u8> {
        self.data@
    }

    /// The path the image belongs to.
    pub closed spec fn file_name_spec(&self) -> Seq<char> {
        self.file_path@
    }

    /// How many page reads have been issued.
    pub closed spec fn read_count_spec(&self) -> u64 {
        self.reads
    }

    /// How many page writes have been issued.
    pub closed spec fn write_count_spec(&self) -> u64 {
        self.writes
    }

    /// A manager over an empty image, as for a newly created backing file.
    pub fn new(file_path: String) -> (r: DiskManager)
        ensures
            r.file_view() == Seq::<u8>::empty(),
            r.file_name_spec() == file_path@,
            r.read_count_spec() == 0,
            r.write_count_spec() == 0,
    {
        DiskManager { file_path, data: Vec::new(), reads: 0, writes: 0 }
    }

    /// A manager over an existing image, as loaded from the backing file.
    pub fn with_contents(file_path: String, contents: Vec<u8>) -> (r: DiskManager)
        ensures
            r.file_view() == contents@,
            r.file_name_spec() == file_path@,
            r.read_count_spec() == 0,
            r.write_count_spec() == 0,
    {
        DiskManager { file_path, data: contents, reads: 0, writes: 0 }
    }

    /// The path of the backing file.
    pub fn file_name(&self) -> (r: &String)
        ensures
            r@ == self.file_name_spec(),
    {
        &self.file_path
    }

    /// The whole image, for persisting it back to the backing file.
    pub fn contents(&self) -> (r: &Vec<u8>)
        ensures
            r@ == self.file_view(),
    {
        &self.data
    }

    /// How many page reads have been issued.
    pub fn read_count(&self) -> (r: u64)
        ensures
            r == self.read_count_spec(),
    {
        self.reads
    }

    /// How many page writes have been issued.
    pub fn write_count(&self) -> (r: u64)
        ensures
            r == self.write_count_spec(),
    {
        self.writes
    }

    /// Reads page `pid` into `frame`, overwriting the frame's bytes.  The
    /// frame's ownership passes through the call: in it goes empty-handed,
    /// out it comes holding the page image, zeros where the file ends.
    pub fn read(&mut self, pid: PageId, frame: SharedFrame) -> (r: SharedFrame)
        requires
            frame.wf(),
            pid_in_range(pid),
        ensures
            r.wf(),
            r@ == page_bytes_spec(old(self).file_view(), pid.id_spec() as int),
            final(self).file_view() == old(self).file_view(),
            final(self).file_name_spec() == old(self).file_name_spec(),
            final(self).read_count_spec() == bump(old(self).read_count_spec()),
            final(self).write_count_spec() == old(self).write_count_spec(),
    {
        let offset = pid.index() * PAGE_SIZE;
        let mut f = frame;
        let mut k: usize = 0;
        while k < PAGE_SIZE
            invariant
                f.wf(),
                k <= PAGE_SIZE,
                offset == pid.id_spec() * PAGE_SIZE,
                offset + PAGE_SIZE <= usize::MAX,
                forall|i: int|
                    0 <= i < k ==> f@[i] == page_bytes_spec(self.file_view(), pid.id_spec() as int)[i],
                *self == *old(self),
            decreases PAGE_SIZE - k,
        {
            let b: u8 = if offset + k < self.data.len() {
                self.data[offset + k]
            } else {
                0u8
            };
            f.write_byte(k, b);
            k = k + 1;
        }
        if self.reads < u64::MAX {
            self.reads = self.reads + 1;
        }
        proof {
            assert(f@ =~= page_bytes_spec(old(self).file_view(), pid.id_spec() as int));
        }
        f
    }

    /// Writes `frame`'s bytes out as page `pid`, extending the image with
    /// zeros first where the page lies past its end.  The frame comes back
    /// unchanged.
    pub fn write(&mut self, pid: PageId, frame: SharedFrame) -> (r: SharedFrame)
        requires
            frame.wf(),
            pid_in_range(pid),
        ensures
            r == frame,
            final(self).file_view() == write_page_spec(
                old(self).file_view(),
                pid.id_spec() as int,
                frame@,
            ),
            final(self).file_name_spec() == old(self).file_name_spec(),
            final(self).read_count_spec() == old(self).read_count_spec(),
            final(self).write_count_spec() == bump(old(self).write_count_spec()),
    {
        let offset = pid.index() * PAGE_SIZE;
        let end = offset + PAGE_SIZE;
        while self.data.len() < end
            invariant
                old(self).file_view().len() < end ==> self.data@.len() <= end,
                old(self).file_view().len() >= end ==> self.data@.len() == old(
                    self,
                ).file_view().len(),
                self.data@.len() >= old(self).file_view().len(),
                forall|i: int| 0 <= i < old(self).file_view().len() ==> self.data@[i] == old(
                    self,
                ).file_view()[i],
                forall|i: int|
                    old(self).file_view().len() <= i < self.data@.len() ==> self.data@[i] == 0u8,
                self.file_path == old(self).file_path,
                self.reads == old(self).reads,
                self.writes == old(self).writes,
            decreases end - self.data@.len(),
        {
            self.data.push(0u8);
        }
        let mut k: usize = 0;
        while k < PAGE_SIZE
            invariant
                frame.wf(),
                k <= PAGE_SIZE,
                offset == pid.id_spec() * PAGE_SIZE,
                end == offset + PAGE_SIZE,
                end <= usize::MAX,
                self.data@.len() >= end,
                self.data@.len() == (if old(self).file_view().len() >= end {
                    old(self).file_view().len() as int
                } else {
                    end as int
                }),
                forall|i: int|
                    offset <= i < offset + k ==> self.data@[i] == frame@[i - offset],
                forall|i: int|
                    0 <= i < old(self).file_view().len() && !(offset <= i < offset + k)
                        ==> self.data@[i] == old(self).file_view()[i],
                forall|i: int|
                    old(self).file_view().len() <= i < self.data@.len() && !(offset <= i < offset
                        + k) ==> self.data@[i] == 0u8,
                self.file_path == old(self).file_path,
                self.reads == old(self).reads,
                self.writes == old(self).writes,
            decreases PAGE_SIZE - k,
        {
            self.data.set(offset + k, frame.read_byte(k));
            k = k + 1;
        }
        if self.writes < u64::MAX {
            self.writes = self.writes + 1;
        }
        proof {
            assert(self.data@ =~= write_page_spec(
                old(self).file_view(),
                pid.id_spec() as int,
                frame@,
            ));
        }
        frame
    }
}

} // verus!
