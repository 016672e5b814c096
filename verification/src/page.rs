//! Pages: identity, the temperature state machine, the swip, and the
//! per-page operations.
//!
//! A page is the unit the pool hands out: its identity is a [`PageId`], its
//! replacement state a [`Temperature`], and its in-memory slot a [`Swip`]
//! guarded by a hybrid lock.  A page is resident exactly when its swip
//! holds a frame; the temperature says `Cold` exactly otherwise.  Loading
//! and evicting move a frame in or out of the swip under the write lock and
//! drive the positional disk transfer.

use vstd::prelude::*;

use crate::disk_manager::DiskManager;
use crate::disk_manager::bump;
use crate::disk_manager::page_bytes_spec;
use crate::disk_manager::pid_in_range;
use crate::disk_manager::write_page_spec;
use crate::errors::PoolError;
use crate::frame::Frame;
use crate::frame::PAGE_SIZE;
use crate::hybrid_lock::HybridLock;
use crate::hybrid_lock::version_next;

verus! {

/// An identifier for a logical 4 KiB page of data.  The identifier is also
/// the disk address: page `p` occupies bytes `[p * PAGE_SIZE, (p + 1) *
/// PAGE_SIZE)` of the backing file.
#[derive(Clone, Copy, PartialEq, Eq, Structural, PartialOrd, Ord, Hash, Debug)]
pub struct PageId {
    id: usize,
}

impl PageId {
    /// The numeric identifier.
    pub closed spec fn id_spec(&self) -> usize {
        self.id
    }

    /// Names the page with the given number.
    pub fn new(id: usize) -> (r: PageId)
        ensures
            r.id_spec() == id,
    {
        PageId { id }
    }

    /// The numeric identifier.
    pub fn index(&self) -> (r: usize)
        ensures
            r == self.id_spec(),
    {
        self.id
    }
}

/// A page id is nothing but its number: equal numbers name one page.
pub proof fn lemma_page_id_determines(a: PageId, b: PageId)
    requires
        a.id_spec() == b.id_spec(),
    ensures
        a == b,
{
}

impl From<PageId> for u64 {
    /// Every page id converts into a 64-bit identifier.
    fn from(val: PageId) -> (r: u64) {
        val.id as u64
    }
}

impl vstd::std_specs::convert::FromSpecImpl<PageId> for u64 {
    open spec fn obeys_from_spec() -> bool {
        true
    }

    open spec fn from_spec(v: PageId) -> u64 {
        v.id_spec() as u64
    }
}

/// The replacement state of a page: `Hot` and `Cool` pages are in memory,
/// a `Cold` page is not.  `Cool` becomes `Hot` on the next access; the only
/// way to heat a page is through `try_hot`, which never promotes a `Cold`
/// page, so a page cannot become hot while its swip is empty.
#[derive(Clone, Copy, PartialEq, Eq, Structural, Debug)]
pub enum Temperature {
    Hot,
    Cool,
    Cold,
}

impl Temperature {
    /// Promotes `Cool` to `Hot`.  A `Hot` page needs nothing, and a `Cold`
    /// page must not be heated, so both are left alone.
    pub fn try_hot(&mut self)
        ensures
            *final(self) == (if *old(self) == Temperature::Cool {
                Temperature::Hot
            } else {
                *old(self)
            }),
    {
        if *self == Temperature::Cool {
            *self = Temperature::Hot;
        }
    }

    /// Reads the state.
    pub fn load(&self) -> (r: Temperature)
        ensures
            r == *self,
    {
        *self
    }

    /// Sets the state to `Cool` or `Cold`.  `Hot` is reached only through
    /// `try_hot`; a caller storing `Cool` must hold the written frame in
    /// the swip it couples this state to.
    pub(crate) fn store(&mut self, val: Temperature)
        requires
            val != Temperature::Hot,
        ensures
            *final(self) == val,
    {
        *self = val;
    }
}

/// Either the owned memory frame of a resident page, or nothing.
pub struct Swip {
    data: Option<Frame>,
}

impl Swip {
    /// Whether the slot holds a frame.
    pub closed spec fn holds_frame(&self) -> bool {
        self.data is Some
    }
}

impl Default for Swip {
    /// An empty slot.
    fn default() -> (r: Swip)
        ensures
            !r.holds_frame(),
    {
        Swip { data: None }
    }
}

/// A page: identity, temperature, and the hybrid-lock-guarded swip.
pub struct Page {
    pid: PageId,
    state: Temperature,
    swip: Swip,
    lock: HybridLock,
}

/// A token witnessing shared access to a resident page's frame.  It pins
/// the page: the pool refuses to evict a page with outstanding guards, and
/// only the pool's release operation takes the token back.
pub struct ReadPageGuard {
    pid: PageId,
    fid: usize,
}

impl ReadPageGuard {
    /// The guarded page.
    pub closed spec fn pid_spec(&self) -> PageId {
        self.pid
    }

    /// The frame backing the guarded page.
    pub closed spec fn fid_spec(&self) -> usize {
        self.fid
    }

    /// The guarded page.
    pub fn page_id(&self) -> (r: PageId)
        ensures
            r == self.pid_spec(),
    {
        self.pid
    }

    /// The frame backing the guarded page.
    pub fn frame_id(&self) -> (r: usize)
        ensures
            r == self.fid_spec(),
    {
        self.fid
    }
}

/// A token witnessing exclusive access to a resident page's frame.
pub struct WritePageGuard {
    pid: PageId,
    fid: usize,
}

impl WritePageGuard {
    /// The guarded page.
    pub closed spec fn pid_spec(&self) -> PageId {
        self.pid
    }

    /// The frame backing the guarded page.
    pub closed spec fn fid_spec(&self) -> usize {
        self.fid
    }

    /// The guarded page.
    pub fn page_id(&self) -> (r: PageId)
        ensures
            r == self.pid_spec(),
    {
        self.pid
    }

    /// The frame backing the guarded page.
    pub fn frame_id(&self) -> (r: usize)
        ensures
            r == self.fid_spec(),
    {
        self.fid
    }
}

impl Page {
    /// The page's identity.
    pub closed spec fn pid_spec(&self) -> PageId {
        self.pid
    }

    /// The page's temperature.
    pub closed spec fn state_spec(&self) -> Temperature {
        self.state
    }

    /// Whether the swip holds a frame.
    pub closed spec fn resident(&self) -> bool {
        self.swip.data is Some
    }

    /// The id of the frame in the swip; meaningful only when resident.
    pub closed spec fn frame_id_spec(&self) -> usize {
        self.swip.data->0.id
    }

    /// The bytes of the frame in the swip; meaningful only when resident.
    pub closed spec fn frame_bytes(&self) -> Seq<u8> {
        self.swip.data->0.data@
    }

    /// The page's lock bookkeeping.
    pub closed spec fn lock_spec(&self) -> HybridLock {
        self.lock
    }

    /// No guard of either kind is outstanding on this page.
    pub open spec fn quiescent(&self) -> bool {
        self.lock_spec().quiescent()
    }

    /// The page invariant: a resident frame is page-sized; the temperature
    /// says `Cold` exactly when the swip is empty; and a page that is not
    /// in memory has no guards.
    pub open spec fn wf(&self) -> bool {
        &&& (self.resident() ==> self.frame_bytes().len() == PAGE_SIZE)
        &&& ((self.state_spec() != Temperature::Cold) <==> self.resident())
        &&& (!self.resident() ==> self.quiescent())
        &&& (self.lock_spec().locked_spec() ==> self.lock_spec().readers_spec() == 0)
    }

    /// The page's identity.
    pub fn page_id(&self) -> (r: PageId)
        ensures
            r == self.pid_spec(),
    {
        self.pid
    }

    /// Whether the page is in memory.
    pub fn is_resident(&self) -> (r: bool)
        ensures
            r == self.resident(),
    {
        self.swip.data.is_some()
    }

    /// The page's temperature.
    pub fn state(&self) -> (r: Temperature)
        ensures
            r == self.state_spec(),
    {
        self.state.load()
    }

    /// The id of the frame backing the page.
    pub fn frame_id(&self) -> (r: usize)
        requires
            self.resident(),
        ensures
            r == self.frame_id_spec(),
    {
        match &self.swip.data {
            Some(f) => f.id,
            None => vstd::pervasive::unreached(),
        }
    }

    /// Whether the write guard is held on the page.
    pub fn is_write_locked(&self) -> (r: bool)
        ensures
            r == self.lock_spec().locked_spec(),
    {
        self.lock.is_locked_exclusive()
    }

    /// How many read guards are out on the page.
    pub fn reader_count(&self) -> (r: usize)
        ensures
            r == self.lock_spec().readers_spec(),
    {
        self.lock.readers()
    }

    /// A fresh page: cold, empty, unlocked.
    pub fn new(pid: PageId) -> (r: Page)
        ensures
            r.wf(),
            r.pid_spec() == pid,
            !r.resident(),
            r.state_spec() == Temperature::Cold,
            r.quiescent(),
            r.lock_spec().version_spec() == 0,
    {
        Page { pid, state: Temperature::Cold, swip: Swip::default(), lock: HybridLock::new() }
    }

    /// Loads the page's data from disk into `frame` and installs the frame
    /// in the swip, cooling the page.  Runs under the write guard the
    /// caller holds.
    fn load(&mut self, frame: Frame, disk: &mut DiskManager)
        requires
            pid_in_range(old(self).pid_spec()),
            !old(self).resident(),
            old(self).state_spec() == Temperature::Cold,
            old(self).lock_spec().locked_spec(),
            old(self).lock_spec().readers_spec() == 0,
            frame.wf(),
        ensures
            final(self).wf(),
            final(self).pid_spec() == old(self).pid_spec(),
            final(self).resident(),
            final(self).frame_id_spec() == frame.id,
            final(self).frame_bytes() == page_bytes_spec(
                old(disk).file_view(),
                old(self).pid_spec().id_spec() as int,
            ),
            final(self).state_spec() == Temperature::Cool,
            final(self).lock_spec() == old(self).lock_spec(),
            final(disk).file_view() == old(disk).file_view(),
            final(disk).file_name_spec() == old(disk).file_name_spec(),
            final(disk).read_count_spec() == bump(old(disk).read_count_spec()),
            final(disk).write_count_spec() == old(disk).write_count_spec(),
    {
        let Frame { id, data } = frame;
        let data = disk.read(self.pid, data);
        self.swip.data = Some(Frame { id, data });
        self.state.store(Temperature::Cool);
    }

    /// Takes a read guard on the page, loading it first when it is not in
    /// memory.  The caller hands in a free frame exactly when the page is
    /// not resident; a load runs under the write guard and downgrades.  A
    /// resident page is promoted towards `Hot`; a loaded one starts `Cool`
    /// and the next access promotes it.
    pub fn read(&mut self, free_frame: Option<Frame>, disk: &mut DiskManager) -> (r: ReadPageGuard)
        requires
            old(self).wf(),
            pid_in_range(old(self).pid_spec()),
            !old(self).lock_spec().locked_spec(),
            old(self).lock_spec().readers_spec() < usize::MAX,
            old(self).resident() <==> free_frame is None,
            free_frame matches Some(f) ==> f.wf(),
        ensures
            final(self).wf(),
            final(self).pid_spec() == old(self).pid_spec(),
            final(self).resident(),
            r.pid_spec() == old(self).pid_spec(),
            r.fid_spec() == final(self).frame_id_spec(),
            !final(self).lock_spec().locked_spec(),
            final(self).lock_spec().readers_spec() == old(self).lock_spec().readers_spec() + 1,
            old(self).resident() ==> {
                &&& final(self).frame_id_spec() == old(self).frame_id_spec()
                &&& final(self).frame_bytes() == old(self).frame_bytes()
                &&& final(self).state_spec() == Temperature::Hot
                &&& final(self).lock_spec().version_spec() == old(self).lock_spec().version_spec()
                &&& *final(disk) == *old(disk)
            },
            !old(self).resident() ==> {
                &&& final(self).frame_id_spec() == free_frame->0.id
                &&& final(self).frame_bytes() == page_bytes_spec(
                    old(disk).file_view(),
                    old(self).pid_spec().id_spec() as int,
                )
                &&& final(self).state_spec() == Temperature::Cool
                &&& final(self).lock_spec().version_spec() == version_next(
                    old(self).lock_spec().version_spec(),
                )
                &&& final(disk).file_view() == old(disk).file_view()
                &&& final(disk).file_name_spec() == old(disk).file_name_spec()
                &&& final(disk).read_count_spec() == bump(old(disk).read_count_spec())
                &&& final(disk).write_count_spec() == old(disk).write_count_spec()
            },
    {
        self.state.try_hot();
        match free_frame {
            None => {
                self.lock.read_acquire();
                let fid = match &self.swip.data {
                    Some(f) => f.id,
                    None => vstd::pervasive::unreached(),
                };
                ReadPageGuard { pid: self.pid, fid }
            },
            Some(frame) => {
                // the page is not in memory: load it under the write guard,
                // then downgrade to a read guard
                self.lock.write_acquire();
                self.load(frame, disk);
                self.lock.write_release();
                self.lock.read_acquire();
                let fid = match &self.swip.data {
                    Some(f) => f.id,
                    None => vstd::pervasive::unreached(),
                };
                ReadPageGuard { pid: self.pid, fid }
            },
        }
    }

    /// Takes the write guard on the page, loading it first when it is not
    /// in memory.  The guard stays held: the pool's release bumps the
    /// version and lets readers back in.
    pub fn write(&mut self, free_frame: Option<Frame>, disk: &mut DiskManager) -> (r:
        WritePageGuard)
        requires
            old(self).wf(),
            pid_in_range(old(self).pid_spec()),
            old(self).quiescent(),
            old(self).resident() <==> free_frame is None,
            free_frame matches Some(f) ==> f.wf(),
        ensures
            final(self).wf(),
            final(self).pid_spec() == old(self).pid_spec(),
            final(self).resident(),
            r.pid_spec() == old(self).pid_spec(),
            r.fid_spec() == final(self).frame_id_spec(),
            final(self).lock_spec().locked_spec(),
            final(self).lock_spec().readers_spec() == 0,
            final(self).lock_spec().version_spec() == old(self).lock_spec().version_spec(),
            old(self).resident() ==> {
                &&& final(self).frame_id_spec() == old(self).frame_id_spec()
                &&& final(self).frame_bytes() == old(self).frame_bytes()
                &&& final(self).state_spec() == Temperature::Hot
                &&& *final(disk) == *old(disk)
            },
            !old(self).resident() ==> {
                &&& final(self).frame_id_spec() == free_frame->0.id
                &&& final(self).frame_bytes() == page_bytes_spec(
                    old(disk).file_view(),
                    old(self).pid_spec().id_spec() as int,
                )
                &&& final(self).state_spec() == Temperature::Cool
                &&& final(disk).file_view() == old(disk).file_view()
                &&& final(disk).file_name_spec() == old(disk).file_name_spec()
                &&& final(disk).read_count_spec() == bump(old(disk).read_count_spec())
                &&& final(disk).write_count_spec() == old(disk).write_count_spec()
            },
    {
        self.state.try_hot();
        self.lock.write_acquire();
        match free_frame {
            None => {
                let fid = match &self.swip.data {
                    Some(f) => f.id,
                    None => vstd::pervasive::unreached(),
                };
                WritePageGuard { pid: self.pid, fid }
            },
            Some(frame) => {
                self.load(frame, disk);
                let fid = match &self.swip.data {
                    Some(f) => f.id,
                    None => vstd::pervasive::unreached(),
                };
                WritePageGuard { pid: self.pid, fid }
            },
        }
    }

    /// Evicts the page: cools it to `Cold`, takes the frame out of the
    /// swip, writes its bytes back to disk under the write guard, and hands
    /// the frame to the caller.  Errs when the page holds no frame.
    pub fn evict(&mut self, disk: &mut DiskManager) -> (r: Result<Frame, PoolError>)
        requires
            old(self).wf(),
            pid_in_range(old(self).pid_spec()),
            old(self).quiescent(),
        ensures
            final(self).wf(),
            final(self).pid_spec() == old(self).pid_spec(),
            r is Ok <==> old(self).resident(),
            r is Err ==> r == Result::<Frame, PoolError>::Err(PoolError::NotResident)
                && *final(self) == *old(self) && *final(disk) == *old(disk),
            r is Ok ==> {
                &&& r->Ok_0.wf()
                &&& r->Ok_0.id == old(self).frame_id_spec()
                &&& r->Ok_0.data@ == old(self).frame_bytes()
                &&& !final(self).resident()
                &&& final(self).state_spec() == Temperature::Cold
                &&& final(self).quiescent()
                &&& final(self).lock_spec().version_spec() == version_next(
                    old(self).lock_spec().version_spec(),
                )
                &&& final(disk).file_view() == write_page_spec(
                    old(disk).file_view(),
                    old(self).pid_spec().id_spec() as int,
                    old(self).frame_bytes(),
                )
                &&& final(disk).file_name_spec() == old(disk).file_name_spec()
                &&& final(disk).read_count_spec() == old(disk).read_count_spec()
                &&& final(disk).write_count_spec() == bump(old(disk).write_count_spec())
            },
    {
        // signal other tasks that a re-load will be needed
        self.state.store(Temperature::Cold);
        if self.swip.data.is_none() {
            return Err(PoolError::NotResident);
        }
        self.lock.write_acquire();
        let frame = match self.swip.data.take() {
            Some(f) => f,
            None => vstd::pervasive::unreached(),
        };
        let Frame { id, data } = frame;
        // write the frame's bytes back out to disk
        let data = disk.write(self.pid, data);
        self.lock.write_release();
        Ok(Frame { id, data })
    }

    /// Writes the page's bytes to disk without evicting it, under a briefly
    /// held write guard.  Errs when the page is not resident.
    pub fn flush(&mut self, disk: &mut DiskManager) -> (r: Result<(), PoolError>)
        requires
            old(self).wf(),
            pid_in_range(old(self).pid_spec()),
            old(self).resident() ==> old(self).quiescent(),
        ensures
            final(self).wf(),
            final(self).pid_spec() == old(self).pid_spec(),
            r is Ok <==> old(self).resident(),
            r is Err ==> r == Result::<(), PoolError>::Err(PoolError::NotResident) && *final(self)
                == *old(self) && *final(disk) == *old(disk),
            r is Ok ==> {
                &&& final(self).resident()
                &&& final(self).frame_id_spec() == old(self).frame_id_spec()
                &&& final(self).frame_bytes() == old(self).frame_bytes()
                &&& final(self).state_spec() == old(self).state_spec()
                &&& final(self).quiescent()
                &&& final(self).lock_spec().version_spec() == version_next(
                    old(self).lock_spec().version_spec(),
                )
                &&& final(disk).file_view() == write_page_spec(
                    old(disk).file_view(),
                    old(self).pid_spec().id_spec() as int,
                    old(self).frame_bytes(),
                )
                &&& final(disk).file_name_spec() == old(disk).file_name_spec()
                &&& final(disk).read_count_spec() == old(disk).read_count_spec()
                &&& final(disk).write_count_spec() == bump(old(disk).write_count_spec())
            },
    {
        if self.swip.data.is_none() {
            return Err(PoolError::NotResident);
        }
        self.lock.write_acquire();
        let frame = match self.swip.data.take() {
            Some(f) => f,
            None => vstd::pervasive::unreached(),
        };
        let Frame { id, data } = frame;
        let data = disk.write(self.pid, data);
        self.swip.data = Some(Frame { id, data });
        self.lock.write_release();
        Ok(())
    }

    /// Reads the page's bytes without taking any lock, validating that no
    /// writer was active: the exclusive flag was clear before and after and
    /// the version did not move.  Yields nothing when a writer holds the
    /// page or the page is not in memory; the caller then falls back to a
    /// read guard.
    pub fn try_optimistic(&self) -> (r: Option<Vec<u8>>)
        requires
            self.wf(),
        ensures
            r is Some <==> (!self.lock_spec().locked_spec() && self.resident()),
            r is Some ==> r->0@ == self.frame_bytes(),
    {
        if self.lock.is_locked_exclusive() {
            return None;
        }
        let pre_version = self.lock.current_version();
        let bytes = match &self.swip.data {
            Some(f) => f.data.to_vec(),
            None => {
                return None;
            },
        };
        if self.lock.validate(pre_version) {
            Some(bytes)
        } else {
            None
        }
    }

    /// Returns a read guard: one reader leaves.
    pub fn release_read(&mut self)
        requires
            old(self).wf(),
            old(self).lock_spec().readers_spec() > 0,
        ensures
            final(self).wf(),
            final(self).pid_spec() == old(self).pid_spec(),
            final(self).state_spec() == old(self).state_spec(),
            final(self).resident() == old(self).resident(),
            final(self).frame_id_spec() == old(self).frame_id_spec(),
            final(self).frame_bytes() == old(self).frame_bytes(),
            final(self).lock_spec().readers_spec() == old(self).lock_spec().readers_spec() - 1,
            final(self).lock_spec().locked_spec() == old(self).lock_spec().locked_spec(),
            final(self).lock_spec().version_spec() == old(self).lock_spec().version_spec(),
    {
        self.lock.read_release();
    }

    /// Returns the write guard: the version moves, then readers may enter.
    pub fn release_write(&mut self)
        requires
            old(self).wf(),
            old(self).lock_spec().locked_spec(),
        ensures
            final(self).wf(),
            final(self).pid_spec() == old(self).pid_spec(),
            final(self).state_spec() == old(self).state_spec(),
            final(self).resident() == old(self).resident(),
            final(self).frame_id_spec() == old(self).frame_id_spec(),
            final(self).frame_bytes() == old(self).frame_bytes(),
            final(self).lock_spec().readers_spec() == old(self).lock_spec().readers_spec(),
            !final(self).lock_spec().locked_spec(),
            final(self).lock_spec().version_spec() == version_next(
                old(self).lock_spec().version_spec(),
            ),
    {
        self.lock.write_release();
    }

    /// Borrows the resident frame's bytes for reading.
    pub fn frame(&self) -> (r: &Frame)
        requires
            self.resident(),
        ensures
            r.id == self.frame_id_spec(),
            r.data@ == self.frame_bytes(),
    {
        match &self.swip.data {
            Some(f) => f,
            None => vstd::pervasive::unreached(),
        }
    }

    /// Copies `src` into the resident frame at `offset`, under the write
    /// guard.
    pub fn write_frame_bytes(&mut self, offset: usize, src: &Vec<u8>)
        requires
            old(self).wf(),
            old(self).resident(),
            old(self).lock_spec().locked_spec(),
            offset + src@.len() <= PAGE_SIZE,
        ensures
            final(self).wf(),
            final(self).pid_spec() == old(self).pid_spec(),
            final(self).resident(),
            final(self).state_spec() == old(self).state_spec(),
            final(self).lock_spec() == old(self).lock_spec(),
            final(self).frame_id_spec() == old(self).frame_id_spec(),
            final(self).frame_bytes().len() == PAGE_SIZE,
            forall|i: int|
                offset <= i < offset + src@.len() ==> final(self).frame_bytes()[i] == src@[i
                    - offset],
            forall|i: int|
                0 <= i < PAGE_SIZE && !(offset <= i < offset + src@.len()) ==> final(self).frame_bytes()[i] == old(self).frame_bytes()[i],
    {
        match &mut self.swip.data {
            Some(f) => {
                f.data.write_bytes(offset, src);
            },
            None => {
                vstd::pervasive::unreached()
            },
        }
    }

}

} // verus!
