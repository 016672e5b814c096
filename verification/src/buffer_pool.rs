//! The buffer pool manager: the façade over directory, frames, replacer,
//! pages and disk.
//!
//! The pool owns a fixed set of [`Frame`]s, a directory of [`Page`]s, the
//! replacement policy and the disk manager.  `fetch_read` and `fetch_write`
//! guarantee that the requested page is present in a frame and hand out
//! guard tokens with the proper exclusion; eviction transparently writes
//! cold pages back to the disk image to make room.  The pool's invariant
//! carries the system's laws: every frame is owned by exactly one place,
//! the free and resident frames together account for the whole pool, a
//! page is hot or cool exactly when it is in memory, and the replacement
//! policy agrees with the directory about which frames exist and which are
//! pinned.

use vstd::prelude::*;

use crate::disk_manager::DiskManager;
use crate::disk_manager::bump;
use crate::disk_manager::lemma_page_round_trip;
use crate::disk_manager::lemma_write_page_idempotent;
use crate::disk_manager::lemma_write_page_preserves_others;
use crate::disk_manager::page_bytes_spec;
use crate::disk_manager::pid_in_range;
use crate::disk_manager::write_page_spec;
use crate::errors::PoolError;
use crate::frame::Frame;
use crate::hybrid_lock::version_next;
use crate::frame::PAGE_SIZE;
use crate::frame::SharedFrame;
use crate::page::Page;
use crate::page::PageId;
use crate::page::ReadPageGuard;
use crate::page::Temperature;
use crate::page::WritePageGuard;
use crate::replacer::AccessType;
use crate::replacer::MySQLReplacer;
use crate::replacer::last_replaceable;
use crate::replacer::lemma_last_replaceable_props;
use crate::replacer::lemma_record_effects;
use crate::replacer::lemma_remove_entry_effects;
use crate::replacer::lemma_found_index;
use crate::replacer::lemma_union_update_old;
use crate::replacer::lemma_union_update_young;
use crate::replacer::record_spec;
use crate::replacer::entry_flag;
use crate::replacer::has_id;
use crate::replacer::index_of_id;

verus! {

/// Whether some page of the directory is named `pid`.
pub open spec fn has_pid(pages: Seq<Page>, pid: PageId) -> bool {
    exists|i: int| 0 <= i < pages.len() && pages[i].pid_spec() == pid
}

/// The index of the page named `pid`; meaningful when `has_pid` holds and
/// names are distinct.
pub open spec fn index_of_pid(pages: Seq<Page>, pid: PageId) -> int {
    choose|i: int| 0 <= i < pages.len() && pages[i].pid_spec() == pid
}

/// How many pages of the directory hold a frame.
pub open spec fn count_resident(pages: Seq<Page>) -> int
    decreases pages.len(),
{
    if pages.len() == 0 {
        0
    } else {
        count_resident(pages.drop_last()) + if pages.last().resident() {
            1int
        } else {
            0int
        }
    }
}

/// The buffer pool: an in-memory cache of `num_frames` fixed-size disk
/// pages.
pub struct BufferPool {
    disk_manager: DiskManager,
    num_frames: usize,
    free_frames: Vec<Frame>,
    pages: Vec<Page>,
    replacer: MySQLReplacer,
}

impl BufferPool {
    /// The disk manager's state.
    pub closed spec fn disk_spec(&self) -> DiskManager {
        self.disk_manager
    }

    /// How many frames the pool owns.
    pub closed spec fn num_frames_spec(&self) -> usize {
        self.num_frames
    }

    /// The free list.
    pub closed spec fn free_spec(&self) -> Seq<Frame> {
        self.free_frames@
    }

    /// The page directory, in creation order.
    pub closed spec fn pages_spec(&self) -> Seq<Page> {
        self.pages@
    }

    /// The replacement policy's state.
    pub closed spec fn replacer_spec(&self) -> MySQLReplacer {
        self.replacer
    }

    /// Whether the directory knows `pid`.
    pub open spec fn has_page(&self, pid: PageId) -> bool {
        has_pid(self.pages_spec(), pid)
    }

    /// The page named `pid`.
    pub open spec fn page_at(&self, pid: PageId) -> Page {
        self.pages_spec()[index_of_pid(self.pages_spec(), pid)]
    }

    /// Whether page `pid` is in memory.
    pub open spec fn resident_spec(&self, pid: PageId) -> bool {
        self.has_page(pid) && self.page_at(pid).resident()
    }

    /// Whether frame `fid` backs some resident page.
    pub open spec fn fid_resident(&self, fid: usize) -> bool {
        exists|i: int|
            0 <= i < self.pages_spec().len() && (#[trigger] self.pages_spec()[i]).resident()
                && self.pages_spec()[i].frame_id_spec() == fid
    }

    /// The logical content of page `pid`: the resident frame's bytes when
    /// the page is in memory, else what the disk image reads back.  Every
    /// pool operation but a store through a write guard preserves this view
    /// of every page; that is the pool's round-trip law.
    pub open spec fn page_view(&self, pid: PageId) -> Seq<u8> {
        if self.resident_spec(pid) {
            self.page_at(pid).frame_bytes()
        } else {
            page_bytes_spec(self.disk_spec().file_view(), pid.id_spec() as int)
        }
    }

    /// A read guard token is valid: its page is resident in its frame with
    /// readers accounted.
    pub open spec fn valid_read_guard(&self, g: ReadPageGuard) -> bool {
        &&& self.has_page(g.pid_spec())
        &&& self.page_at(g.pid_spec()).resident()
        &&& self.page_at(g.pid_spec()).frame_id_spec() == g.fid_spec()
        &&& self.page_at(g.pid_spec()).lock_spec().readers_spec() > 0
    }

    /// A write guard token is valid: its page is resident in its frame and
    /// exclusively locked.
    pub open spec fn valid_write_guard(&self, g: WritePageGuard) -> bool {
        &&& self.has_page(g.pid_spec())
        &&& self.page_at(g.pid_spec()).resident()
        &&& self.page_at(g.pid_spec()).frame_id_spec() == g.fid_spec()
        &&& self.page_at(g.pid_spec()).lock_spec().locked_spec()
    }

    /// No writer holds page `pid`, and a further reader fits; what a
    /// blocked reader would wait for.
    pub open spec fn no_writer(&self, pid: PageId) -> bool {
        self.has_page(pid) ==> (!self.page_at(pid).lock_spec().locked_spec() && self.page_at(
            pid,
        ).lock_spec().readers_spec() < usize::MAX)
    }

    /// No guard of either kind is out on page `pid`; what a blocked writer
    /// would wait for.
    pub open spec fn no_guards(&self, pid: PageId) -> bool {
        self.has_page(pid) ==> self.page_at(pid).quiescent()
    }

    /// A frame can be had: the free list is not empty, or some recorded
    /// frame is not pinned.
    pub open spec fn victim_available(&self) -> bool {
        ||| self.free_spec().len() > 0
        ||| last_replaceable(self.replacer_spec().old_view()) >= 0
        ||| last_replaceable(self.replacer_spec().young_view()) >= 0
    }

    /// The directory half of the pool invariant: pages are well formed,
    /// named distinctly, and addressable on disk.
    pub open spec fn directory_wf(&self) -> bool {
        &&& forall|i: int|
            0 <= i < self.pages_spec().len() ==> (#[trigger] self.pages_spec()[i]).wf()
        &&& forall|i: int|
            0 <= i < self.pages_spec().len() ==> pid_in_range(
                (#[trigger] self.pages_spec()[i]).pid_spec(),
            )
        &&& forall|i: int, j: int|
            0 <= i < j < self.pages_spec().len() ==> (#[trigger] self.pages_spec()[i]).pid_spec()
                != (#[trigger] self.pages_spec()[j]).pid_spec()
    }

    /// The frame half of the pool invariant: every frame id is in range and
    /// owned by exactly one place, the free list or one page's swip.
    pub open spec fn frames_wf(&self) -> bool {
        &&& forall|i: int|
            0 <= i < self.free_spec().len() ==> (#[trigger] self.free_spec()[i]).wf()
                && self.free_spec()[i].id < self.num_frames_spec()
        &&& forall|i: int, j: int|
            0 <= i < j < self.free_spec().len() ==> (#[trigger] self.free_spec()[i]).id != (
            #[trigger] self.free_spec()[j]).id
        &&& forall|i: int|
            0 <= i < self.pages_spec().len() && (#[trigger] self.pages_spec()[i]).resident()
                ==> self.pages_spec()[i].frame_id_spec() < self.num_frames_spec()
        &&& forall|i: int, j: int|
            0 <= i < j < self.pages_spec().len() && (#[trigger] self.pages_spec()[i]).resident()
                && (#[trigger] self.pages_spec()[j]).resident() ==> self.pages_spec()[
            i].frame_id_spec() != self.pages_spec()[j].frame_id_spec()
        &&& forall|i: int, j: int|
            0 <= i < self.pages_spec().len() && (#[trigger] self.pages_spec()[i]).resident() && 0
                <= j < self.free_spec().len() ==> self.pages_spec()[i].frame_id_spec() != (
            #[trigger] self.free_spec()[j]).id
    }

    /// The replacement policy agrees with the directory: it records exactly
    /// the resident frames, and marks a frame replaceable exactly when its
    /// page has no outstanding guards.
    pub open spec fn replacer_agrees(&self) -> bool {
        &&& forall|f: usize| #[trigger]
            self.replacer_spec().contains_spec(f) == self.fid_resident(f)
        &&& forall|i: int|
            0 <= i < self.pages_spec().len() && (#[trigger] self.pages_spec()[i]).resident()
                ==> self.replacer_spec().replaceable_spec(self.pages_spec()[i].frame_id_spec())
                == self.pages_spec()[i].quiescent()
    }

    /// The pool invariant.
    pub open spec fn wf(&self) -> bool {
        &&& self.directory_wf()
        &&& self.frames_wf()
        &&& self.replacer_agrees()
        &&& self.replacer_spec().wf()
        &&& self.replacer_spec().capacity() == self.num_frames_spec()
        &&& self.free_spec().len() + count_resident(self.pages_spec()) == self.num_frames_spec()
    }

    /// The pool invariant while one frame is checked out: as `wf`, with the
    /// checked-out frame owned by neither the free list nor any page nor
    /// the replacer, and accounted in the frame count.
    pub open spec fn checked_out(&self, f: Frame) -> bool {
        &&& self.directory_wf()
        &&& self.frames_wf()
        &&& self.replacer_agrees()
        &&& self.replacer_spec().wf()
        &&& self.replacer_spec().capacity() == self.num_frames_spec()
        &&& f.wf()
        &&& f.id < self.num_frames_spec()
        &&& !self.fid_resident(f.id)
        &&& forall|j: int| 0 <= j < self.free_spec().len() ==> (#[trigger] self.free_spec()[j]).id != f.id
        &&& self.free_spec().len() + count_resident(self.pages_spec()) + 1
            == self.num_frames_spec()
    }

    /// Builds a pool of `frames` fresh zero-filled frames over the given
    /// disk manager, with an empty directory and an empty replacer.
    pub fn new(disk_manager: DiskManager, frames: usize) -> (r: BufferPool)
        ensures
            r.wf(),
            r.num_frames_spec() == frames,
            r.disk_spec() == disk_manager,
            r.pages_spec().len() == 0,
            r.free_spec().len() == frames,
            forall|pid: PageId| !r.resident_spec(pid),
            forall|pid: PageId| #[trigger]
                r.page_view(pid) == page_bytes_spec(
                    disk_manager.file_view(),
                    pid.id_spec() as int,
                ),
    {
        let mut free_frames: Vec<Frame> = Vec::new();
        let mut i: usize = 0;
        while i < frames
            invariant
                i <= frames,
                free_frames@.len() == i,
                forall|k: int|
                    0 <= k < i ==> (#[trigger] free_frames@[k]).wf() && free_frames@[k].id == k,
            decreases frames - i,
        {
            free_frames.push(Frame { id: i, data: SharedFrame::new() });
            i = i + 1;
        }
        let replacer = MySQLReplacer::new(frames);
        let pool = BufferPool {
            disk_manager,
            num_frames: frames,
            free_frames,
            pages: Vec::new(),
            replacer,
        };
        proof {
            assert(count_resident(pool.pages_spec()) == 0);
        }
        pool
    }

    /// The disk manager, for its counters and the image behind the pool.
    pub fn disk_manager(&self) -> (r: &DiskManager)
        ensures
            *r == self.disk_spec(),
    {
        &self.disk_manager
    }

    /// How many frames sit on the free list.
    pub fn free_count(&self) -> (r: usize)
        ensures
            r == self.free_spec().len(),
    {
        self.free_frames.len()
    }

    /// Whether page `pid` is in memory.
    pub fn is_resident(&self, pid: PageId) -> (r: bool)
        requires
            self.wf(),
        ensures
            r == self.resident_spec(pid),
    {
        match self.find_page_index(pid) {
            Some(i) => self.pages[i].is_resident(),
            None => false,
        }
    }

    /// The id of the frame backing page `pid`, when it is resident.
    pub fn frame_of(&self, pid: PageId) -> (r: Option<usize>)
        requires
            self.wf(),
        ensures
            r is Some <==> self.resident_spec(pid),
            r is Some ==> r->0 == self.page_at(pid).frame_id_spec(),
    {
        match self.find_page_index(pid) {
            Some(i) => {
                if self.pages[i].is_resident() {
                    Some(self.pages[i].frame_id())
                } else {
                    None
                }
            },
            None => None,
        }
    }

    /// Whether no guard of either kind is outstanding anywhere, so that a
    /// whole-pool flush may run.
    pub fn is_idle(&self) -> (r: bool)
        requires
            self.wf(),
        ensures
            r == self.all_quiescent(),
    {
        let mut i: usize = 0;
        while i < self.pages.len()
            invariant
                self.wf(),
                i <= self.pages_spec().len(),
                forall|k: int| 0 <= k < i ==> (#[trigger] self.pages_spec()[k]).quiescent(),
            decreases self.pages_spec().len() - i,
        {
            if self.pages[i].reader_count() > 0 || self.pages[i].is_write_locked() {
                return false;
            }
            i = i + 1;
        }
        true
    }

    /// The temperature of page `pid`, if the directory knows it.
    pub fn temperature(&self, pid: PageId) -> (r: Option<Temperature>)
        requires
            self.wf(),
        ensures
            r is Some <==> self.has_page(pid),
            r is Some ==> r->0 == self.page_at(pid).state_spec(),
    {
        match self.find_page_index(pid) {
            Some(i) => Some(self.pages[i].state()),
            None => None,
        }
    }

    /// Everything a caller can observe is the same in both pool states.
    pub open spec fn unchanged_from(&self, other: &BufferPool) -> bool {
        &&& self.disk_spec() == other.disk_spec()
        &&& self.num_frames_spec() == other.num_frames_spec()
        &&& self.free_spec() == other.free_spec()
        &&& self.pages_spec() == other.pages_spec()
        &&& self.replacer_spec().capacity() == other.replacer_spec().capacity()
        &&& self.replacer_spec().max_young() == other.replacer_spec().max_young()
        &&& self.replacer_spec().young_view() == other.replacer_spec().young_view()
        &&& self.replacer_spec().old_view() == other.replacer_spec().old_view()
    }

    /// The index of the resident page that owns frame `victim`.
    fn find_owner_index(&self, victim: usize) -> (r: usize)
        requires
            self.fid_resident(victim),
        ensures
            r < self.pages_spec().len(),
            self.pages_spec()[r as int].resident(),
            self.pages_spec()[r as int].frame_id_spec() == victim,
    {
        let mut j: usize = 0;
        while j < self.pages.len()
            invariant
                j <= self.pages_spec().len(),
                self.fid_resident(victim),
                forall|k: int|
                    0 <= k < j ==> !((#[trigger] self.pages_spec()[k]).resident()
                        && self.pages_spec()[k].frame_id_spec() == victim),
            decreases self.pages_spec().len() - j,
        {
            if self.pages[j].is_resident() {
                if self.pages[j].frame_id() == victim {
                    return j;
                }
            }
            j = j + 1;
        }
        proof {
            let w = choose|i: int|
                0 <= i < self.pages_spec().len() && (#[trigger] self.pages_spec()[i]).resident()
                    && self.pages_spec()[i].frame_id_spec() == victim;
            assert(!(self.pages_spec()[w].resident() && self.pages_spec()[w].frame_id_spec()
                == victim));
            assert(false);
        }
        vstd::pervasive::unreached()
    }

    /// Hands the caller a frame it owns alone: one from the free list if
    /// any is there, else the frame of an evicted victim.  The victim is
    /// the least recently used unpinned frame; its page is written back to
    /// disk and cooled to `Cold`, so the logical content of every page is
    /// preserved.  Fails exactly when the free list is empty and every
    /// recorded frame is pinned.
    pub fn get_free_frame(&mut self) -> (r: Result<Frame, PoolError>)
        requires
            old(self).wf(),
        ensures
            r is Err <==> !old(self).victim_available(),
            r is Err ==> r == Result::<Frame, PoolError>::Err(PoolError::NoFramesAvailable)
                && final(self).unchanged_from(old(self)) && final(self).wf(),
            r is Ok ==> ({
                let f = r->Ok_0;
                &&& final(self).checked_out(f)
                &&& final(self).num_frames_spec() == old(self).num_frames_spec()
                &&& final(self).pages_spec().len() == old(self).pages_spec().len()
                &&& forall|k: int|
                    0 <= k < old(self).pages_spec().len() ==> (#[trigger] final(self).pages_spec()[k]).pid_spec() == old(self).pages_spec()[k].pid_spec()
                &&& forall|k: int|
                    0 <= k < old(self).pages_spec().len() && !(#[trigger] old(self).pages_spec()[k]).quiescent() ==> final(self).pages_spec()[k] == old(self).pages_spec()[k]
                &&& forall|k: int|
                    0 <= k < old(self).pages_spec().len() ==> (#[trigger] final(self).pages_spec()[k]).lock_spec().readers_spec() == old(self).pages_spec()[k].lock_spec().readers_spec() && final(self).pages_spec()[k].lock_spec().locked_spec() == old(self).pages_spec()[k].lock_spec().locked_spec()
                &&& forall|k: int|
                    0 <= k < old(self).pages_spec().len() && (#[trigger] final(self).pages_spec()[k]).resident() ==> final(self).pages_spec()[k] == old(self).pages_spec()[k]
                &&& forall|k: int|
                    0 <= k < old(self).pages_spec().len() && !(#[trigger] old(self).pages_spec()[k]).resident() ==> final(self).pages_spec()[k] == old(self).pages_spec()[k]
                &&& forall|q: PageId|
                    pid_in_range(q) ==> #[trigger] final(self).page_view(q) == old(self).page_view(q)
                &&& final(self).disk_spec().read_count_spec() == old(self).disk_spec().read_count_spec()
                &&& final(self).disk_spec().file_name_spec() == old(self).disk_spec().file_name_spec()
                &&& final(self).replacer_spec().max_young() == old(self).replacer_spec().max_young()
                &&& (old(self).free_spec().len() > 0 ==> f == old(self).free_spec().last() && final(self).disk_spec() == old(self).disk_spec() && final(self).pages_spec() == old(self).pages_spec() && final(self).free_spec() == old(self).free_spec().drop_last() && final(self).replacer_spec() == old(self).replacer_spec())
                &&& (old(self).free_spec().len() == 0 ==> final(self).free_spec() == old(self).free_spec())
                &&& (old(self).free_spec().len() == 0 ==> ({
                    let ov = old(self).replacer_spec().old_view();
                    let yv = old(self).replacer_spec().young_view();
                    let lo = last_replaceable(ov);
                    let ly = last_replaceable(yv);
                    let victim = if lo >= 0 {
                        ov[lo].0
                    } else {
                        yv[ly].0
                    };
                    &&& f.id == victim
                    &&& (lo >= 0 ==> final(self).replacer_spec().old_view() == ov.remove(lo)
                        && final(self).replacer_spec().young_view() == yv)
                    &&& (lo < 0 ==> final(self).replacer_spec().young_view() == yv.remove(ly)
                        && final(self).replacer_spec().old_view() == ov)
                    &&& forall|k: int|
                        0 <= k < old(self).pages_spec().len() && (#[trigger] old(self).pages_spec()[k]).resident()
                            && old(self).pages_spec()[k].frame_id_spec() != victim
                            ==> final(self).pages_spec()[k] == old(self).pages_spec()[k]
                }))
            }),
    {
        if let Some(f) = self.free_frames.pop() {
            return Ok(f);
        }
        // the free list is empty: choose a victim and evict its page
        let victim = match self.replacer.replace() {
            Some(v) => v,
            None => {
                proof {
                    lemma_last_replaceable_props(old(self).replacer_spec().old_view());
                    lemma_last_replaceable_props(old(self).replacer_spec().young_view());
                    assert(self.pages_spec() == old(self).pages_spec());
                    assert forall|f: usize| #[trigger] self.replacer.contains_spec(f)
                        == self.fid_resident(f) by {
                        assert(self.pages_spec().len() == old(self).pages_spec().len());
                        assert(old(self).replacer_spec().contains_spec(f) == old(self).fid_resident(f));
                        if self.fid_resident(f) {
                            let w = choose|i: int|
                                0 <= i < self.pages_spec().len() && (#[trigger] self.pages_spec()[
                                i]).resident() && self.pages_spec()[i].frame_id_spec() == f;
                            assert(old(self).pages_spec()[w].resident() && old(self).pages_spec()[w].frame_id_spec() == f);
                            assert(old(self).fid_resident(f));
                        }
                        if old(self).fid_resident(f) {
                            let w = choose|i: int|
                                0 <= i < old(self).pages_spec().len() && (#[trigger] old(self).pages_spec()[i]).resident() && old(self).pages_spec()[i].frame_id_spec() == f;
                            assert(self.pages_spec()[w].resident() && self.pages_spec()[
                            w].frame_id_spec() == f);
                            assert(self.fid_resident(f));
                        }
                    }
                }
                return Err(PoolError::NoFramesAvailable);
            },
        };
        let ghost rep0 = old(self).replacer_spec();
        let ghost ov = rep0.old_view();
        let ghost yv = rep0.young_view();
        let ghost lo = last_replaceable(ov);
        let ghost ly = last_replaceable(yv);
        proof {
            lemma_last_replaceable_props(ov);
            lemma_last_replaceable_props(yv);
            if lo >= 0 {
                lemma_found_index(ov, victim, lo);
            } else {
                lemma_found_index(yv, victim, ly);
                if has_id(ov, victim) {
                    let w = index_of_id(ov, victim);
                    assert(0 <= w < ov.len() && ov[w].0 == victim);
                    assert(yv[ly].0 != ov[w].0);
                }
            }
            assert(rep0.contains_spec(victim));
            assert(rep0.replaceable_spec(victim));
            assert(old(self).fid_resident(victim));
            assert(self.pages_spec() == old(self).pages_spec());
            let w = choose|i: int|
                0 <= i < old(self).pages_spec().len() && (#[trigger] old(self).pages_spec()[i]).resident() && old(self).pages_spec()[i].frame_id_spec()
                    == victim;
            assert(self.pages_spec()[w].resident() && self.pages_spec()[w].frame_id_spec()
                == victim);
            assert(self.fid_resident(victim));
        }
        let j = self.find_owner_index(victim);
        proof {
            lemma_pid_found(old(self).pages_spec(), old(self).pages_spec()[j as int].pid_spec(), j as int);
            assert(old(self).pages_spec()[j as int].quiescent());
        }
        let page = vstd::std_specs::vec::vec_index_mut(&mut self.pages, j);
        let frame = match page.evict(&mut self.disk_manager) {
            Ok(f) => f,
            Err(_) => vstd::pervasive::unreached(),
        };
        proof {
            let ps0 = old(self).pages_spec();
            let ps1 = self.pages@;
            let jj = j as int;
            let vp0 = ps0[jj];
            let vpid = vp0.pid_spec();
            assert(ps1 =~= ps0.update(jj, ps1[jj]));
            lemma_count_resident_update(ps0, jj, ps1[jj]);
            if lo >= 0 {
                lemma_remove_entry_effects(ov, lo);
            } else {
                lemma_remove_entry_effects(yv, ly);
            }
            // the replacer and the directory still agree
            assert forall|f: usize| #[trigger] self.replacer.contains_spec(f)
                == self.fid_resident(f) by {
                if f == victim {
                    assert(!self.replacer.contains_spec(f));
                    if self.fid_resident(f) {
                        let w = choose|i: int|
                            0 <= i < self.pages_spec().len() && (#[trigger] self.pages_spec()[
                            i]).resident() && self.pages_spec()[i].frame_id_spec() == f;
                        assert(w != jj);
                        assert(ps0[w] == ps1[w]);
                        assert(ps0[w].frame_id_spec() != ps0[jj].frame_id_spec());
                        assert(false);
                    }
                } else {
                    if self.replacer.contains_spec(f) {
                        assert(rep0.contains_spec(f));
                        assert(old(self).fid_resident(f));
                        let w = choose|i: int|
                            0 <= i < old(self).pages_spec().len() && (#[trigger] old(self).pages_spec()[i]).resident() && old(self).pages_spec()[i].frame_id_spec() == f;
                        assert(w != jj);
                        assert(ps1[w] == ps0[w]);
                        assert(self.pages_spec()[w].resident() && self.pages_spec()[
                        w].frame_id_spec() == f);
                        assert(self.fid_resident(f));
                    }
                    if self.fid_resident(f) {
                        let w = choose|i: int|
                            0 <= i < self.pages_spec().len() && (#[trigger] self.pages_spec()[
                            i]).resident() && self.pages_spec()[i].frame_id_spec() == f;
                        assert(w != jj);
                        assert(ps0[w] == ps1[w]);
                        assert(old(self).pages_spec()[w].resident() && old(self).pages_spec()[w].frame_id_spec() == f);
                        assert(old(self).fid_resident(f));
                        assert(rep0.contains_spec(f));
                        assert(self.replacer.contains_spec(f));
                    }
                }
            }
            assert forall|i: int|
                0 <= i < ps1.len() && (#[trigger] ps1[i]).resident() implies
                self.replacer.replaceable_spec(ps1[i].frame_id_spec()) == ps1[i].quiescent() by {
                assert(i != jj);
                assert(ps1[i] == ps0[i]);
                let f = ps0[i].frame_id_spec();
                assert(f != victim);
                assert(rep0.contains_spec(f));
                assert(entry_flag(self.replacer.young_view(), self.replacer.old_view(), f)
                    == entry_flag(yv, ov, f));
            }
            // every page reads back what it read before
            assert forall|q: PageId| pid_in_range(q) implies #[trigger] self.page_view(q) == old(self).page_view(q) by {
                lemma_view_after_write(*old(self), *self, q, jj);
            }
            assert(self.checked_out(frame)) by {
                assert forall|i: int|
                    0 <= i < ps1.len() && (#[trigger] ps1[i]).resident() implies ps1[
                i].frame_id_spec() != frame.id by {
                    assert(i != jj);
                    assert(ps1[i] == ps0[i]);
                }
                assert(!self.fid_resident(frame.id));
            }
        }
        Ok(frame)
    }

    /// Brings page `pid` into memory if needed and hands out a read guard
    /// over its frame, recording the access with the replacement policy and
    /// pinning the frame for the guard's lifetime.  A resident page takes
    /// the fast path and warms to `Hot`; a cold page is loaded from disk —
    /// evicting a victim when the free list is dry — and starts `Cool`.
    /// Fails exactly when the page is not in memory and every frame is
    /// pinned; the logical content of every page is preserved either way.
    #[verifier::rlimit(100)]
    pub fn fetch_read(&mut self, pid: PageId, kind: AccessType) -> (r: Result<
        ReadPageGuard,
        PoolError,
    >)
        requires
            old(self).wf(),
            pid_in_range(pid),
            old(self).no_writer(pid),
        ensures
            final(self).wf(),
            final(self).num_frames_spec() == old(self).num_frames_spec(),
            r is Err <==> (!old(self).resident_spec(pid) && !old(self).victim_available()),
            r is Err ==> r == Result::<ReadPageGuard, PoolError>::Err(PoolError::NoFramesAvailable)
                && final(self).unchanged_from(old(self)),
            r is Ok ==> ({
                let g = r->Ok_0;
                &&& g.pid_spec() == pid
                &&& final(self).resident_spec(pid)
                &&& final(self).valid_read_guard(g)
                &&& final(self).page_at(pid).frame_bytes() == old(self).page_view(pid)
                &&& final(self).page_at(pid).lock_spec().readers_spec() == (if old(self).resident_spec(pid) {
                    old(self).page_at(pid).lock_spec().readers_spec() + 1
                } else {
                    1int
                })
                &&& !final(self).page_at(pid).lock_spec().locked_spec()
                &&& final(self).page_at(pid).state_spec() == (if old(self).resident_spec(pid) {
                    Temperature::Hot
                } else {
                    Temperature::Cool
                })
                &&& forall|q: PageId|
                    pid_in_range(q) ==> #[trigger] final(self).page_view(q) == old(self).page_view(q)
                &&& old(self).pages_spec().len() <= final(self).pages_spec().len()
                &&& forall|k: int|
                    0 <= k < old(self).pages_spec().len() ==> (#[trigger] final(self).pages_spec()[k]).pid_spec() == old(self).pages_spec()[k].pid_spec()
                &&& forall|k: int|
                    0 <= k < old(self).pages_spec().len() && !(#[trigger] old(self).pages_spec()[k]).quiescent() && old(self).pages_spec()[k].pid_spec() != pid
                        ==> final(self).pages_spec()[k] == old(self).pages_spec()[k]
                &&& (old(self).resident_spec(pid) ==> final(self).disk_spec() == old(self).disk_spec() && final(self).free_spec() == old(self).free_spec())
                &&& (!old(self).resident_spec(pid) ==> final(self).disk_spec().read_count_spec()
                    == bump(old(self).disk_spec().read_count_spec()))
                &&& (!old(self).resident_spec(pid) ==> final(self).free_spec() == (
                if old(self).free_spec().len() > 0 {
                    old(self).free_spec().drop_last()
                } else {
                    old(self).free_spec()
                }))
                &&& (!old(self).resident_spec(pid) && old(self).free_spec().len() > 0 ==> final(self).disk_spec().write_count_spec() == old(self).disk_spec().write_count_spec())
                &&& final(self).disk_spec().file_name_spec() == old(self).disk_spec().file_name_spec()
                &&& (old(self).resident_spec(pid) ==> ({
                    let fid0 = old(self).page_at(pid).frame_id_spec();
                    let rec = record_spec(
                        old(self).replacer_spec().young_view(),
                        old(self).replacer_spec().old_view(),
                        old(self).replacer_spec().capacity(),
                        old(self).replacer_spec().max_young(),
                        fid0,
                        kind,
                    );
                    &&& (has_id(rec.1, fid0) ==> final(self).replacer_spec().old_view()
                        == rec.1.update(index_of_id(rec.1, fid0), (fid0, false))
                        && final(self).replacer_spec().young_view() == rec.0)
                    &&& (!has_id(rec.1, fid0) ==> final(self).replacer_spec().young_view()
                        == rec.0.update(index_of_id(rec.0, fid0), (fid0, false))
                        && final(self).replacer_spec().old_view() == rec.1)
                }))
                &&& (!old(self).resident_spec(pid) ==> ({
                    let ov = old(self).replacer_spec().old_view();
                    let yv = old(self).replacer_spec().young_view();
                    let lo = last_replaceable(ov);
                    let ly = last_replaceable(yv);
                    let from_free = old(self).free_spec().len() > 0;
                    let fid0 = if from_free {
                        old(self).free_spec().last().id
                    } else if lo >= 0 {
                        ov[lo].0
                    } else {
                        yv[ly].0
                    };
                    let yv1 = if !from_free && lo < 0 {
                        yv.remove(ly)
                    } else {
                        yv
                    };
                    let ov1 = if !from_free && lo >= 0 {
                        ov.remove(lo)
                    } else {
                        ov
                    };
                    let rec = record_spec(
                        yv1,
                        ov1,
                        old(self).replacer_spec().capacity(),
                        old(self).replacer_spec().max_young(),
                        fid0,
                        kind,
                    );
                    &&& g.fid_spec() == fid0
                    &&& (has_id(rec.1, fid0) ==> final(self).replacer_spec().old_view()
                        == rec.1.update(index_of_id(rec.1, fid0), (fid0, false))
                        && final(self).replacer_spec().young_view() == rec.0)
                    &&& (!has_id(rec.1, fid0) ==> final(self).replacer_spec().young_view()
                        == rec.0.update(index_of_id(rec.0, fid0), (fid0, false))
                        && final(self).replacer_spec().old_view() == rec.1)
                }))
            }),
    {
        let idx_opt = self.find_page_index(pid);
        let is_res = match idx_opt {
            Some(i) => self.pages[i].is_resident(),
            None => false,
        };
        if is_res {
            // fast path: the page is in memory; take a shared guard
            let i = match idx_opt {
                Some(i) => i,
                None => vstd::pervasive::unreached(),
            };
            let ghost s0 = *self;
            let ghost ii = i as int;
            let page = vstd::std_specs::vec::vec_index_mut(&mut self.pages, i);
            let guard = page.read(None, &mut self.disk_manager);
            let fid = guard.frame_id();
            let ghost s1 = *self;
            let ghost rep0 = s1.replacer_spec();
            proof {
                assert(s1.pages_spec() =~= s0.pages_spec().update(ii, s1.pages_spec()[ii]));
                lemma_count_resident_update(s0.pages_spec(), ii, s1.pages_spec()[ii]);
                assert(fid < s0.num_frames_spec());
                lemma_pid_found(s0.pages_spec(), pid, ii);
                assert(fid == s0.page_at(pid).frame_id_spec());
                assert(rep0 == s0.replacer_spec());
            }
            match self.replacer.record(fid, kind) {
                Ok(_) => {},
                Err(_) => vstd::pervasive::unreached(),
            }
            let ghost rep1 = self.replacer;
            proof {
                lemma_record_effects(
                    rep0.young_view(),
                    rep0.old_view(),
                    rep0.capacity(),
                    rep0.max_young(),
                    fid,
                    kind,
                );
            }
            match self.replacer.set_replaceable(fid, false) {
                Ok(_) => {},
                Err(_) => vstd::pervasive::unreached(),
            }
            proof {
                assert forall|f: usize|
                    f != fid implies #[trigger] rep0.contains_spec(f) == self.fid_resident(f) by {
                    assert(rep0.contains_spec(f) == s0.fid_resident(f));
                    if s0.fid_resident(f) {
                        let w = choose|k: int|
                            0 <= k < s0.pages_spec().len() && (#[trigger] s0.pages_spec()[
                            k]).resident() && s0.pages_spec()[k].frame_id_spec() == f;
                        assert(w != ii);
                        assert(self.pages_spec()[w].resident() && self.pages_spec()[
                        w].frame_id_spec() == f);
                        assert(self.fid_resident(f));
                    }
                    if self.fid_resident(f) {
                        let w = choose|k: int|
                            0 <= k < self.pages_spec().len() && (#[trigger] self.pages_spec()[
                            k]).resident() && self.pages_spec()[k].frame_id_spec() == f;
                        assert(w != ii);
                        assert(s0.pages_spec()[w].resident() && s0.pages_spec()[w].frame_id_spec()
                            == f);
                        assert(s0.fid_resident(f));
                    }
                }
                lemma_agree_after_record_pin(rep0, rep1, self.replacer, *self, ii, fid, kind);
                assert forall|q: PageId|
                    pid_in_range(q) implies #[trigger] self.page_view(q) == old(self).page_view(
                    q,
                ) by {
                    lemma_view_after_touch(s0, *self, q, ii);
                }
                lemma_pid_found(self.pages_spec(), pid, ii);
                assert(self.page_view(pid) == self.pages_spec()[ii].frame_bytes());
                assert(self.page_view(pid) == old(self).page_view(pid));
                assert(self.wf());
            }
            Ok(guard)
        } else {
            // slow path: secure a frame, create the page if it is new, and
            // load its bytes from disk under the write guard
            let ghost s0 = *self;
            let frame = match self.get_free_frame() {
                Ok(f) => f,
                Err(e) => {
                    return Err(e);
                },
            };
            let ghost s1 = *self;
            let ghost fid0 = frame.id;
            let i: usize = match idx_opt {
                Some(i) => i,
                None => {
                    let n = self.pages.len();
                    self.pages.push(Page::new(pid));
                    proof {
                        lemma_count_resident_push(s1.pages_spec(), self.pages_spec()[n as int]);
                        lemma_pid_found_push(s1.pages_spec(), self.pages_spec()[n as int], pid);
                    }
                    n
                },
            };
            let ghost s2 = *self;
            let ghost ii = i as int;
            proof {
                assert(s2.pages_spec()[ii].pid_spec() == pid);
                assert(!s2.pages_spec()[ii].resident());
                assert forall|a: int, b: int|
                    0 <= a < b < s2.pages_spec().len() implies (#[trigger] s2.pages_spec()[
                a]).pid_spec() != (#[trigger] s2.pages_spec()[b]).pid_spec() by {
                    if b < s1.pages_spec().len() {
                        assert(s1.pages_spec()[a].pid_spec() != s1.pages_spec()[b].pid_spec());
                    } else {
                        assert(s2.pages_spec()[a] == s1.pages_spec()[a]);
                        if s1.pages_spec()[a].pid_spec() == pid {
                            assert(s0.pages_spec()[a].pid_spec() == pid);
                            assert(has_pid(s0.pages_spec(), pid));
                            assert(idx_opt is Some);
                        }
                    }
                }
                assert(s2.free_spec().len() + count_resident(s2.pages_spec()) + 1
                    == s2.num_frames_spec());
            }
            let page = vstd::std_specs::vec::vec_index_mut(&mut self.pages, i);
            let guard = page.read(Some(frame), &mut self.disk_manager);
            let fid = guard.frame_id();
            let ghost s3 = *self;
            let ghost rep0 = s3.replacer_spec();
            proof {
                assert(fid == fid0);
                assert(s3.pages_spec() =~= s2.pages_spec().update(ii, s3.pages_spec()[ii]));
                lemma_count_resident_update(s2.pages_spec(), ii, s3.pages_spec()[ii]);
                assert(fid < s2.num_frames_spec());
            }
            match self.replacer.record(fid, kind) {
                Ok(_) => {},
                Err(_) => vstd::pervasive::unreached(),
            }
            let ghost rep1 = self.replacer;
            proof {
                lemma_record_effects(
                    rep0.young_view(),
                    rep0.old_view(),
                    rep0.capacity(),
                    rep0.max_young(),
                    fid,
                    kind,
                );
            }
            match self.replacer.set_replaceable(fid, false) {
                Ok(_) => {},
                Err(_) => vstd::pervasive::unreached(),
            }
            proof {
                assert forall|f: usize|
                    f != fid implies #[trigger] rep0.contains_spec(f) == self.fid_resident(f) by {
                    assert(rep0.contains_spec(f) == s1.fid_resident(f));
                    if s1.fid_resident(f) {
                        let w = choose|k: int|
                            0 <= k < s1.pages_spec().len() && (#[trigger] s1.pages_spec()[
                            k]).resident() && s1.pages_spec()[k].frame_id_spec() == f;
                        assert(w != ii);
                        assert(self.pages_spec()[w].resident() && self.pages_spec()[
                        w].frame_id_spec() == f);
                        assert(self.fid_resident(f));
                    }
                    if self.fid_resident(f) {
                        let w = choose|k: int|
                            0 <= k < self.pages_spec().len() && (#[trigger] self.pages_spec()[
                            k]).resident() && self.pages_spec()[k].frame_id_spec() == f;
                        assert(w != ii);
                        assert(w < s1.pages_spec().len() || self.pages_spec()[w] == s2.pages_spec()[w]);
                        if w < s1.pages_spec().len() {
                            assert(s1.pages_spec()[w].resident() && s1.pages_spec()[
                            w].frame_id_spec() == f);
                            assert(s1.fid_resident(f));
                        } else {
                            assert(self.pages_spec()[w] == s2.pages_spec()[w]);
                            assert(!s2.pages_spec()[w].resident());
                            assert(false);
                        }
                    }
                }
                assert forall|a: int, b: int|
                    0 <= a < b < self.pages_spec().len() && (#[trigger] self.pages_spec()[
                a]).resident() && (#[trigger] self.pages_spec()[b]).resident() implies
                self.pages_spec()[a].frame_id_spec() != self.pages_spec()[b].frame_id_spec() by {
                    if a != ii && b != ii {
                        assert(self.pages_spec()[a] == s1.pages_spec()[a]
                            || !s1.pages_spec()[a].resident());
                        if b < s1.pages_spec().len() {
                            assert(s1.pages_spec()[a].frame_id_spec() != s1.pages_spec()[
                            b].frame_id_spec());
                        } else {
                            assert(!s2.pages_spec()[b].resident());
                            assert(false);
                        }
                    } else {
                        let other = if a == ii {
                            b
                        } else {
                            a
                        };
                        if other < s1.pages_spec().len() {
                            assert(self.pages_spec()[other] == s1.pages_spec()[other]);
                            assert(s1.fid_resident(self.pages_spec()[other].frame_id_spec()));
                        } else {
                            assert(!s2.pages_spec()[other].resident());
                            assert(false);
                        }
                    }
                }
                lemma_agree_after_record_pin(rep0, rep1, self.replacer, *self, ii, fid, kind);
                assert forall|q: PageId|
                    pid_in_range(q) implies #[trigger] self.page_view(q) == old(self).page_view(
                    q,
                ) by {
                    if idx_opt is None {
                        lemma_view_after_push(s1, s2, q, s2.pages_spec().last());
                    }
                    lemma_view_after_load(s2, s3, q, ii);
                }
                lemma_pid_found(self.pages_spec(), pid, ii);
                assert(self.page_view(pid) == self.pages_spec()[ii].frame_bytes());
                assert(self.page_view(pid) == old(self).page_view(pid));
                assert(self.wf());
            }
            Ok(guard)
        }
    }

    /// As `fetch_read`, but hands out the exclusive write guard: the page
    /// is brought into memory if needed, the access recorded, the frame
    /// pinned, and no other guard exists until the write guard is dropped.
    #[verifier::rlimit(100)]
    pub fn fetch_write(&mut self, pid: PageId, kind: AccessType) -> (r: Result<
        WritePageGuard,
        PoolError,
    >)
        requires
            old(self).wf(),
            pid_in_range(pid),
            old(self).no_guards(pid),
        ensures
            final(self).wf(),
            final(self).num_frames_spec() == old(self).num_frames_spec(),
            r is Err <==> (!old(self).resident_spec(pid) && !old(self).victim_available()),
            r is Err ==> r == Result::<WritePageGuard, PoolError>::Err(PoolError::NoFramesAvailable)
                && final(self).unchanged_from(old(self)),
            r is Ok ==> ({
                let g = r->Ok_0;
                &&& g.pid_spec() == pid
                &&& final(self).resident_spec(pid)
                &&& final(self).valid_write_guard(g)
                &&& final(self).page_at(pid).frame_bytes() == old(self).page_view(pid)
                &&& final(self).page_at(pid).lock_spec().readers_spec() == 0
                &&& final(self).page_at(pid).lock_spec().locked_spec()
                &&& final(self).page_at(pid).state_spec() == (if old(self).resident_spec(pid) {
                    Temperature::Hot
                } else {
                    Temperature::Cool
                })
                &&& forall|q: PageId|
                    pid_in_range(q) ==> #[trigger] final(self).page_view(q) == old(self).page_view(q)
                &&& old(self).pages_spec().len() <= final(self).pages_spec().len()
                &&& forall|k: int|
                    0 <= k < old(self).pages_spec().len() ==> (#[trigger] final(self).pages_spec()[k]).pid_spec() == old(self).pages_spec()[k].pid_spec()
                &&& forall|k: int|
                    0 <= k < old(self).pages_spec().len() && !(#[trigger] old(self).pages_spec()[k]).quiescent() && old(self).pages_spec()[k].pid_spec() != pid
                        ==> final(self).pages_spec()[k] == old(self).pages_spec()[k]
                &&& (old(self).resident_spec(pid) ==> final(self).disk_spec() == old(self).disk_spec() && final(self).free_spec() == old(self).free_spec())
                &&& (!old(self).resident_spec(pid) ==> final(self).disk_spec().read_count_spec()
                    == bump(old(self).disk_spec().read_count_spec()))
                &&& (!old(self).resident_spec(pid) ==> final(self).free_spec() == (
                if old(self).free_spec().len() > 0 {
                    old(self).free_spec().drop_last()
                } else {
                    old(self).free_spec()
                }))
                &&& (!old(self).resident_spec(pid) && old(self).free_spec().len() > 0 ==> final(self).disk_spec().write_count_spec() == old(self).disk_spec().write_count_spec())
                &&& final(self).disk_spec().file_name_spec() == old(self).disk_spec().file_name_spec()
                &&& (old(self).resident_spec(pid) ==> ({
                    let fid0 = old(self).page_at(pid).frame_id_spec();
                    let rec = record_spec(
                        old(self).replacer_spec().young_view(),
                        old(self).replacer_spec().old_view(),
                        old(self).replacer_spec().capacity(),
                        old(self).replacer_spec().max_young(),
                        fid0,
                        kind,
                    );
                    &&& (has_id(rec.1, fid0) ==> final(self).replacer_spec().old_view()
                        == rec.1.update(index_of_id(rec.1, fid0), (fid0, false))
                        && final(self).replacer_spec().young_view() == rec.0)
                    &&& (!has_id(rec.1, fid0) ==> final(self).replacer_spec().young_view()
                        == rec.0.update(index_of_id(rec.0, fid0), (fid0, false))
                        && final(self).replacer_spec().old_view() == rec.1)
                }))
                &&& (!old(self).resident_spec(pid) ==> ({
                    let ov = old(self).replacer_spec().old_view();
                    let yv = old(self).replacer_spec().young_view();
                    let lo = last_replaceable(ov);
                    let ly = last_replaceable(yv);
                    let from_free = old(self).free_spec().len() > 0;
                    let fid0 = if from_free {
                        old(self).free_spec().last().id
                    } else if lo >= 0 {
                        ov[lo].0
                    } else {
                        yv[ly].0
                    };
                    let yv1 = if !from_free && lo < 0 {
                        yv.remove(ly)
                    } else {
                        yv
                    };
                    let ov1 = if !from_free && lo >= 0 {
                        ov.remove(lo)
                    } else {
                        ov
                    };
                    let rec = record_spec(
                        yv1,
                        ov1,
                        old(self).replacer_spec().capacity(),
                        old(self).replacer_spec().max_young(),
                        fid0,
                        kind,
                    );
                    &&& g.fid_spec() == fid0
                    &&& (has_id(rec.1, fid0) ==> final(self).replacer_spec().old_view()
                        == rec.1.update(index_of_id(rec.1, fid0), (fid0, false))
                        && final(self).replacer_spec().young_view() == rec.0)
                    &&& (!has_id(rec.1, fid0) ==> final(self).replacer_spec().young_view()
                        == rec.0.update(index_of_id(rec.0, fid0), (fid0, false))
                        && final(self).replacer_spec().old_view() == rec.1)
                }))
            }),
    {
        let idx_opt = self.find_page_index(pid);
        let is_res = match idx_opt {
            Some(i) => self.pages[i].is_resident(),
            None => false,
        };
        if is_res {
            // fast path: the page is in memory; take a shared guard
            let i = match idx_opt {
                Some(i) => i,
                None => vstd::pervasive::unreached(),
            };
            let ghost s0 = *self;
            let ghost ii = i as int;
            let page = vstd::std_specs::vec::vec_index_mut(&mut self.pages, i);
            let guard = page.write(None, &mut self.disk_manager);
            let fid = guard.frame_id();
            let ghost s1 = *self;
            let ghost rep0 = s1.replacer_spec();
            proof {
                assert(s1.pages_spec() =~= s0.pages_spec().update(ii, s1.pages_spec()[ii]));
                lemma_count_resident_update(s0.pages_spec(), ii, s1.pages_spec()[ii]);
                assert(fid < s0.num_frames_spec());
                lemma_pid_found(s0.pages_spec(), pid, ii);
                assert(fid == s0.page_at(pid).frame_id_spec());
                assert(rep0 == s0.replacer_spec());
            }
            match self.replacer.record(fid, kind) {
                Ok(_) => {},
                Err(_) => vstd::pervasive::unreached(),
            }
            let ghost rep1 = self.replacer;
            proof {
                lemma_record_effects(
                    rep0.young_view(),
                    rep0.old_view(),
                    rep0.capacity(),
                    rep0.max_young(),
                    fid,
                    kind,
                );
            }
            match self.replacer.set_replaceable(fid, false) {
                Ok(_) => {},
                Err(_) => vstd::pervasive::unreached(),
            }
            proof {
                assert forall|f: usize|
                    f != fid implies #[trigger] rep0.contains_spec(f) == self.fid_resident(f) by {
                    assert(rep0.contains_spec(f) == s0.fid_resident(f));
                    if s0.fid_resident(f) {
                        let w = choose|k: int|
                            0 <= k < s0.pages_spec().len() && (#[trigger] s0.pages_spec()[
                            k]).resident() && s0.pages_spec()[k].frame_id_spec() == f;
                        assert(w != ii);
                        assert(self.pages_spec()[w].resident() && self.pages_spec()[
                        w].frame_id_spec() == f);
                        assert(self.fid_resident(f));
                    }
                    if self.fid_resident(f) {
                        let w = choose|k: int|
                            0 <= k < self.pages_spec().len() && (#[trigger] self.pages_spec()[
                            k]).resident() && self.pages_spec()[k].frame_id_spec() == f;
                        assert(w != ii);
                        assert(s0.pages_spec()[w].resident() && s0.pages_spec()[w].frame_id_spec()
                            == f);
                        assert(s0.fid_resident(f));
                    }
                }
                lemma_agree_after_record_pin(rep0, rep1, self.replacer, *self, ii, fid, kind);
                assert forall|q: PageId|
                    pid_in_range(q) implies #[trigger] self.page_view(q) == old(self).page_view(
                    q,
                ) by {
                    lemma_view_after_touch(s0, *self, q, ii);
                }
                lemma_pid_found(self.pages_spec(), pid, ii);
                assert(self.page_view(pid) == self.pages_spec()[ii].frame_bytes());
                assert(self.page_view(pid) == old(self).page_view(pid));
                assert(self.wf());
            }
            Ok(guard)
        } else {
            // slow path: secure a frame, create the page if it is new, and
            // load its bytes from disk under the write guard
            let ghost s0 = *self;
            let frame = match self.get_free_frame() {
                Ok(f) => f,
                Err(e) => {
                    return Err(e);
                },
            };
            let ghost s1 = *self;
            let ghost fid0 = frame.id;
            let i: usize = match idx_opt {
                Some(i) => i,
                None => {
                    let n = self.pages.len();
                    self.pages.push(Page::new(pid));
                    proof {
                        lemma_count_resident_push(s1.pages_spec(), self.pages_spec()[n as int]);
                        lemma_pid_found_push(s1.pages_spec(), self.pages_spec()[n as int], pid);
                    }
                    n
                },
            };
            let ghost s2 = *self;
            let ghost ii = i as int;
            proof {
                assert(s2.pages_spec()[ii].pid_spec() == pid);
                assert(!s2.pages_spec()[ii].resident());
                assert forall|a: int, b: int|
                    0 <= a < b < s2.pages_spec().len() implies (#[trigger] s2.pages_spec()[
                a]).pid_spec() != (#[trigger] s2.pages_spec()[b]).pid_spec() by {
                    if b < s1.pages_spec().len() {
                        assert(s1.pages_spec()[a].pid_spec() != s1.pages_spec()[b].pid_spec());
                    } else {
                        assert(s2.pages_spec()[a] == s1.pages_spec()[a]);
                        if s1.pages_spec()[a].pid_spec() == pid {
                            assert(s0.pages_spec()[a].pid_spec() == pid);
                            assert(has_pid(s0.pages_spec(), pid));
                            assert(idx_opt is Some);
                        }
                    }
                }
                assert(s2.free_spec().len() + count_resident(s2.pages_spec()) + 1
                    == s2.num_frames_spec());
            }
            let page = vstd::std_specs::vec::vec_index_mut(&mut self.pages, i);
            let guard = page.write(Some(frame), &mut self.disk_manager);
            let fid = guard.frame_id();
            let ghost s3 = *self;
            let ghost rep0 = s3.replacer_spec();
            proof {
                assert(fid == fid0);
                assert(s3.pages_spec() =~= s2.pages_spec().update(ii, s3.pages_spec()[ii]));
                lemma_count_resident_update(s2.pages_spec(), ii, s3.pages_spec()[ii]);
                assert(fid < s2.num_frames_spec());
            }
            match self.replacer.record(fid, kind) {
                Ok(_) => {},
                Err(_) => vstd::pervasive::unreached(),
            }
            let ghost rep1 = self.replacer;
            proof {
                lemma_record_effects(
                    rep0.young_view(),
                    rep0.old_view(),
                    rep0.capacity(),
                    rep0.max_young(),
                    fid,
                    kind,
                );
            }
            match self.replacer.set_replaceable(fid, false) {
                Ok(_) => {},
                Err(_) => vstd::pervasive::unreached(),
            }
            proof {
                assert forall|f: usize|
                    f != fid implies #[trigger] rep0.contains_spec(f) == self.fid_resident(f) by {
                    assert(rep0.contains_spec(f) == s1.fid_resident(f));
                    if s1.fid_resident(f) {
                        let w = choose|k: int|
                            0 <= k < s1.pages_spec().len() && (#[trigger] s1.pages_spec()[
                            k]).resident() && s1.pages_spec()[k].frame_id_spec() == f;
                        assert(w != ii);
                        assert(self.pages_spec()[w].resident() && self.pages_spec()[
                        w].frame_id_spec() == f);
                        assert(self.fid_resident(f));
                    }
                    if self.fid_resident(f) {
                        let w = choose|k: int|
                            0 <= k < self.pages_spec().len() && (#[trigger] self.pages_spec()[
                            k]).resident() && self.pages_spec()[k].frame_id_spec() == f;
                        assert(w != ii);
                        assert(w < s1.pages_spec().len() || self.pages_spec()[w] == s2.pages_spec()[w]);
                        if w < s1.pages_spec().len() {
                            assert(s1.pages_spec()[w].resident() && s1.pages_spec()[
                            w].frame_id_spec() == f);
                            assert(s1.fid_resident(f));
                        } else {
                            assert(self.pages_spec()[w] == s2.pages_spec()[w]);
                            assert(!s2.pages_spec()[w].resident());
                            assert(false);
                        }
                    }
                }
                assert forall|a: int, b: int|
                    0 <= a < b < self.pages_spec().len() && (#[trigger] self.pages_spec()[
                a]).resident() && (#[trigger] self.pages_spec()[b]).resident() implies
                self.pages_spec()[a].frame_id_spec() != self.pages_spec()[b].frame_id_spec() by {
                    if a != ii && b != ii {
                        assert(self.pages_spec()[a] == s1.pages_spec()[a]
                            || !s1.pages_spec()[a].resident());
                        if b < s1.pages_spec().len() {
                            assert(s1.pages_spec()[a].frame_id_spec() != s1.pages_spec()[
                            b].frame_id_spec());
                        } else {
                            assert(!s2.pages_spec()[b].resident());
                            assert(false);
                        }
                    } else {
                        let other = if a == ii {
                            b
                        } else {
                            a
                        };
                        if other < s1.pages_spec().len() {
                            assert(self.pages_spec()[other] == s1.pages_spec()[other]);
                            assert(s1.fid_resident(self.pages_spec()[other].frame_id_spec()));
                        } else {
                            assert(!s2.pages_spec()[other].resident());
                            assert(false);
                        }
                    }
                }
                lemma_agree_after_record_pin(rep0, rep1, self.replacer, *self, ii, fid, kind);
                assert forall|q: PageId|
                    pid_in_range(q) implies #[trigger] self.page_view(q) == old(self).page_view(
                    q,
                ) by {
                    if idx_opt is None {
                        lemma_view_after_push(s1, s2, q, s2.pages_spec().last());
                    }
                    lemma_view_after_load(s2, s3, q, ii);
                }
                lemma_pid_found(self.pages_spec(), pid, ii);
                assert(self.page_view(pid) == self.pages_spec()[ii].frame_bytes());
                assert(self.page_view(pid) == old(self).page_view(pid));
                assert(self.wf());
            }
            Ok(guard)
        }
    }

    /// The replacement policy's state, for inspection.
    pub fn replacer(&self) -> (r: &MySQLReplacer)
        ensures
            *r == self.replacer_spec(),
    {
        &self.replacer
    }

    /// Borrows the bytes a read guard protects.
    pub fn guard_bytes(&self, g: &ReadPageGuard) -> (r: &Vec<u8>)
        requires
            self.wf(),
            self.valid_read_guard(*g),
        ensures
            r@ == self.page_view(g.pid_spec()),
    {
        let i = match self.find_page_index(g.page_id()) {
            Some(i) => i,
            None => vstd::pervasive::unreached(),
        };
        self.pages[i].frame().data.bytes()
    }

    /// Borrows the bytes a write guard protects.
    pub fn write_guard_bytes(&self, g: &WritePageGuard) -> (r: &Vec<u8>)
        requires
            self.wf(),
            self.valid_write_guard(*g),
        ensures
            r@ == self.page_view(g.pid_spec()),
    {
        let i = match self.find_page_index(g.page_id()) {
            Some(i) => i,
            None => vstd::pervasive::unreached(),
        };
        self.pages[i].frame().data.bytes()
    }

    /// Stores `data` at `offset` of the page a write guard protects.  This
    /// is the one operation that changes a page's logical content.
    pub fn write_in_guard(&mut self, g: &WritePageGuard, offset: usize, data: &Vec<u8>)
        requires
            old(self).wf(),
            old(self).valid_write_guard(*g),
            offset + data@.len() <= PAGE_SIZE,
        ensures
            final(self).wf(),
            final(self).num_frames_spec() == old(self).num_frames_spec(),
            final(self).valid_write_guard(*g),
            final(self).disk_spec() == old(self).disk_spec(),
            final(self).free_spec() == old(self).free_spec(),
            final(self).replacer_spec() == old(self).replacer_spec(),
            final(self).pages_spec().len() == old(self).pages_spec().len(),
            forall|k: int|
                0 <= k < old(self).pages_spec().len() && (#[trigger] old(self).pages_spec()[k]).pid_spec() != g.pid_spec() ==> final(self).pages_spec()[k]
                    == old(self).pages_spec()[k],
            forall|q: PageId|
                q != g.pid_spec() ==> #[trigger] final(self).page_view(q) == old(self).page_view(q),
            final(self).page_at(g.pid_spec()).lock_spec() == old(self).page_at(
                g.pid_spec(),
            ).lock_spec(),
            final(self).page_at(g.pid_spec()).state_spec() == old(self).page_at(
                g.pid_spec(),
            ).state_spec(),
            final(self).page_view(g.pid_spec()).len() == PAGE_SIZE,
            forall|i: int|
                offset <= i < offset + data@.len() ==> final(self).page_view(g.pid_spec())[i]
                    == data@[i - offset],
            forall|i: int|
                0 <= i < PAGE_SIZE && !(offset <= i < offset + data@.len()) ==> final(self).page_view(g.pid_spec())[i] == old(self).page_view(g.pid_spec())[i],
    {
        let pid = g.page_id();
        let i = match self.find_page_index(pid) {
            Some(i) => i,
            None => vstd::pervasive::unreached(),
        };
        let ghost s0 = *self;
        let ghost ii = i as int;
        let page = vstd::std_specs::vec::vec_index_mut(&mut self.pages, i);
        page.write_frame_bytes(offset, data);
        proof {
            assert(self.pages_spec() =~= s0.pages_spec().update(ii, self.pages_spec()[ii]));
            lemma_count_resident_update(s0.pages_spec(), ii, self.pages_spec()[ii]);
            lemma_agree_after_page_touch(s0, *self, ii);
            assert forall|q: PageId|
                q != g.pid_spec() implies #[trigger] self.page_view(q) == old(self).page_view(
                q,
            ) by {
                lemma_view_other(s0, *self, q, ii);
            }
            lemma_pid_found(self.pages_spec(), pid, ii);
            assert(self.page_view(pid) == self.pages_spec()[ii].frame_bytes());
            assert(old(self).page_view(pid) == s0.pages_spec()[ii].frame_bytes());
            assert(self.wf());
        }
    }

    /// Gives a read guard back: one reader leaves, and the frame is
    /// unpinned once no guard remains.
    pub fn drop_read(&mut self, g: ReadPageGuard)
        requires
            old(self).wf(),
            old(self).valid_read_guard(g),
        ensures
            final(self).wf(),
            final(self).num_frames_spec() == old(self).num_frames_spec(),
            final(self).disk_spec() == old(self).disk_spec(),
            final(self).free_spec() == old(self).free_spec(),
            final(self).pages_spec().len() == old(self).pages_spec().len(),
            forall|k: int|
                0 <= k < old(self).pages_spec().len() && (#[trigger] old(self).pages_spec()[k]).pid_spec() != g.pid_spec() ==> final(self).pages_spec()[k]
                    == old(self).pages_spec()[k],
            forall|q: PageId| #[trigger]
                final(self).page_view(q) == old(self).page_view(q),
            final(self).resident_spec(g.pid_spec()),
            final(self).page_at(g.pid_spec()).frame_bytes() == old(self).page_at(
                g.pid_spec(),
            ).frame_bytes(),
            final(self).page_at(g.pid_spec()).state_spec() == old(self).page_at(
                g.pid_spec(),
            ).state_spec(),
            final(self).page_at(g.pid_spec()).lock_spec().readers_spec() == old(self).page_at(
                g.pid_spec(),
            ).lock_spec().readers_spec() - 1,
            final(self).page_at(g.pid_spec()).lock_spec().version_spec() == old(self).page_at(
                g.pid_spec(),
            ).lock_spec().version_spec(),
            !final(self).page_at(g.pid_spec()).lock_spec().locked_spec(),
    {
        let pid = g.page_id();
        let fid = g.frame_id();
        let i = match self.find_page_index(pid) {
            Some(i) => i,
            None => vstd::pervasive::unreached(),
        };
        let ghost s0 = *self;
        let ghost ii = i as int;
        let page = vstd::std_specs::vec::vec_index_mut(&mut self.pages, i);
        page.release_read();
        let remaining = self.pages[i].reader_count();
        let ghost s1 = *self;
        let ghost rep0 = s1.replacer_spec();
        proof {
            assert(self.pages_spec() =~= s0.pages_spec().update(ii, self.pages_spec()[ii]));
            lemma_count_resident_update(s0.pages_spec(), ii, self.pages_spec()[ii]);
        }
        if remaining == 0 {
            // the last guard left: the frame may be chosen again
            proof {
                assert(s0.fid_resident(fid)) by {
                    assert(s0.pages_spec()[ii].resident() && s0.pages_spec()[ii].frame_id_spec()
                        == fid);
                }
                assert(rep0 == s0.replacer_spec());
                assert(rep0.contains_spec(fid));
            }
            match self.replacer.set_replaceable(fid, true) {
                Ok(_) => {},
                Err(_) => vstd::pervasive::unreached(),
            }
            proof {
                assert forall|f: usize|
                    f != fid implies #[trigger] rep0.contains_spec(f) == self.fid_resident(f) by {
                    assert(rep0.contains_spec(f) == s0.fid_resident(f));
                    if s0.fid_resident(f) {
                        let w = choose|k: int|
                            0 <= k < s0.pages_spec().len() && (#[trigger] s0.pages_spec()[
                            k]).resident() && s0.pages_spec()[k].frame_id_spec() == f;
                        assert(self.pages_spec()[w].resident() && self.pages_spec()[
                        w].frame_id_spec() == f);
                        assert(self.fid_resident(f));
                    }
                    if self.fid_resident(f) {
                        let w = choose|k: int|
                            0 <= k < self.pages_spec().len() && (#[trigger] self.pages_spec()[
                            k]).resident() && self.pages_spec()[k].frame_id_spec() == f;
                        assert(s0.pages_spec()[w].resident() && s0.pages_spec()[w].frame_id_spec()
                            == f);
                        assert(s0.fid_resident(f));
                    }
                }
                lemma_agree_after_unpin(rep0, self.replacer, *self, ii, fid);
            }
        } else {
            proof {
                lemma_agree_after_page_touch(s0, s1, ii);
            }
        }
        proof {
            assert forall|q: PageId| #[trigger] self.page_view(q) == old(self).page_view(q) by {
                lemma_view_after_touch(s0, *self, q, ii);
            }
            lemma_pid_found(self.pages_spec(), pid, ii);
            assert(self.wf());
        }
    }

    /// Gives the write guard back: the page's version moves, the lock
    /// opens, and the frame is unpinned.
    pub fn drop_write(&mut self, g: WritePageGuard)
        requires
            old(self).wf(),
            old(self).valid_write_guard(g),
        ensures
            final(self).wf(),
            final(self).num_frames_spec() == old(self).num_frames_spec(),
            final(self).disk_spec() == old(self).disk_spec(),
            final(self).free_spec() == old(self).free_spec(),
            final(self).pages_spec().len() == old(self).pages_spec().len(),
            forall|k: int|
                0 <= k < old(self).pages_spec().len() && (#[trigger] old(self).pages_spec()[k]).pid_spec() != g.pid_spec() ==> final(self).pages_spec()[k]
                    == old(self).pages_spec()[k],
            forall|q: PageId| #[trigger]
                final(self).page_view(q) == old(self).page_view(q),
            final(self).resident_spec(g.pid_spec()),
            final(self).page_at(g.pid_spec()).frame_bytes() == old(self).page_at(
                g.pid_spec(),
            ).frame_bytes(),
            final(self).page_at(g.pid_spec()).state_spec() == old(self).page_at(
                g.pid_spec(),
            ).state_spec(),
            final(self).page_at(g.pid_spec()).quiescent(),
            final(self).page_at(g.pid_spec()).lock_spec().version_spec() == version_next(
                old(self).page_at(g.pid_spec()).lock_spec().version_spec(),
            ),
    {
        let pid = g.page_id();
        let fid = g.frame_id();
        let i = match self.find_page_index(pid) {
            Some(i) => i,
            None => vstd::pervasive::unreached(),
        };
        let ghost s0 = *self;
        let ghost ii = i as int;
        let page = vstd::std_specs::vec::vec_index_mut(&mut self.pages, i);
        page.release_write();
        let ghost s1 = *self;
        let ghost rep0 = s1.replacer_spec();
        proof {
            assert(self.pages_spec() =~= s0.pages_spec().update(ii, self.pages_spec()[ii]));
            lemma_count_resident_update(s0.pages_spec(), ii, self.pages_spec()[ii]);
            assert(s0.fid_resident(fid)) by {
                assert(s0.pages_spec()[ii].resident() && s0.pages_spec()[ii].frame_id_spec()
                    == fid);
            }
            assert(rep0 == s0.replacer_spec());
            assert(rep0.contains_spec(fid));
        }
        match self.replacer.set_replaceable(fid, true) {
            Ok(_) => {},
            Err(_) => vstd::pervasive::unreached(),
        }
        proof {
                assert forall|f: usize|
                    f != fid implies #[trigger] rep0.contains_spec(f) == self.fid_resident(f) by {
                    assert(rep0.contains_spec(f) == s0.fid_resident(f));
                    if s0.fid_resident(f) {
                        let w = choose|k: int|
                            0 <= k < s0.pages_spec().len() && (#[trigger] s0.pages_spec()[
                            k]).resident() && s0.pages_spec()[k].frame_id_spec() == f;
                        assert(self.pages_spec()[w].resident() && self.pages_spec()[
                        w].frame_id_spec() == f);
                        assert(self.fid_resident(f));
                    }
                    if self.fid_resident(f) {
                        let w = choose|k: int|
                            0 <= k < self.pages_spec().len() && (#[trigger] self.pages_spec()[
                            k]).resident() && self.pages_spec()[k].frame_id_spec() == f;
                        assert(s0.pages_spec()[w].resident() && s0.pages_spec()[w].frame_id_spec()
                            == f);
                        assert(s0.fid_resident(f));
                    }
                }
            lemma_agree_after_unpin(rep0, self.replacer, *self, ii, fid);
            assert forall|q: PageId| #[trigger] self.page_view(q) == old(self).page_view(q) by {
                lemma_view_after_touch(s0, *self, q, ii);
            }
            lemma_pid_found(self.pages_spec(), pid, ii);
            assert(self.wf());
        }
    }

    /// Reads the current bytes of page `pid` without taking any lock,
    /// validating afterwards that no writer was active.  Yields nothing
    /// when a writer holds the page or the page is not in memory; the
    /// caller then falls back to `fetch_read`.
    pub fn optimistic_read(&self, pid: PageId) -> (r: Option<Vec<u8>>)
        requires
            self.wf(),
        ensures
            r is Some <==> (self.resident_spec(pid) && !self.page_at(
                pid,
            ).lock_spec().locked_spec()),
            r is Some ==> r->0@ == self.page_view(pid),
    {
        match self.find_page_index(pid) {
            Some(i) => self.pages[i].try_optimistic(),
            None => None,
        }
    }

    /// Writes page `pid`'s frame out to disk without evicting it, as a
    /// checkpoint does.  Errs with `NotResident` when the page is not in
    /// memory; never evicts.
    pub fn flush(&mut self, pid: PageId) -> (r: Result<(), PoolError>)
        requires
            old(self).wf(),
            pid_in_range(pid),
            old(self).no_guards(pid),
        ensures
            final(self).wf(),
            final(self).num_frames_spec() == old(self).num_frames_spec(),
            r is Ok <==> old(self).resident_spec(pid),
            r is Err ==> r == Result::<(), PoolError>::Err(PoolError::NotResident) && *final(self)
                == *old(self),
            forall|q: PageId| pid_in_range(q) ==> #[trigger] final(self).page_view(q) == old(self).page_view(q),
            r is Ok ==> ({
                &&& final(self).disk_spec().file_view() == write_page_spec(
                    old(self).disk_spec().file_view(),
                    pid.id_spec() as int,
                    old(self).page_at(pid).frame_bytes(),
                )
                &&& final(self).free_spec() == old(self).free_spec()
                &&& final(self).replacer_spec() == old(self).replacer_spec()
                &&& final(self).pages_spec().len() == old(self).pages_spec().len()
                &&& forall|k: int|
                    0 <= k < old(self).pages_spec().len() && (#[trigger] old(self).pages_spec()[k]).pid_spec() != pid ==> final(self).pages_spec()[k] == old(self).pages_spec()[k]
                &&& final(self).resident_spec(pid)
                &&& final(self).page_at(pid).frame_bytes() == old(self).page_at(
                    pid,
                ).frame_bytes()
                &&& final(self).page_at(pid).quiescent()
                &&& forall|k: int|
                    0 <= k < old(self).pages_spec().len() ==> ((#[trigger] final(self).pages_spec()[k]).pid_spec() == old(self).pages_spec()[k].pid_spec()
                        && final(self).pages_spec()[k].resident() == old(self).pages_spec()[k].resident() && final(self).pages_spec()[k].state_spec()
                        == old(self).pages_spec()[k].state_spec() && (old(self).pages_spec()[k].resident() ==> final(self).pages_spec()[k].frame_id_spec()
                        == old(self).pages_spec()[k].frame_id_spec() && final(self).pages_spec()[k].frame_bytes() == old(self).pages_spec()[k].frame_bytes()))
            }),
    {
        let i = match self.find_page_index(pid) {
            Some(i) => i,
            None => {
                return Err(PoolError::NotResident);
            },
        };
        if !self.pages[i].is_resident() {
            return Err(PoolError::NotResident);
        }
        let ghost s0 = *self;
        let ghost ii = i as int;
        let page = vstd::std_specs::vec::vec_index_mut(&mut self.pages, i);
        match page.flush(&mut self.disk_manager) {
            Ok(_) => {},
            Err(_) => vstd::pervasive::unreached(),
        }
        proof {
            assert(self.pages_spec() =~= s0.pages_spec().update(ii, self.pages_spec()[ii]));
            lemma_count_resident_update(s0.pages_spec(), ii, self.pages_spec()[ii]);
            lemma_agree_after_page_touch(s0, *self, ii);
            assert forall|q: PageId|
                pid_in_range(q) implies #[trigger] self.page_view(q) == old(self).page_view(
                q,
            ) by {
                if q == pid {
                    lemma_pid_found(s0.pages_spec(), pid, ii);
                    lemma_pid_found(self.pages_spec(), pid, ii);
                } else {
                    assert(q.id_spec() != pid.id_spec()) by {
                        if q.id_spec() == pid.id_spec() {
                            crate::page::lemma_page_id_determines(q, pid);
                        }
                    }
                    lemma_write_page_preserves_others(
                        s0.disk_spec().file_view(),
                        pid.id_spec() as int,
                        s0.pages_spec()[ii].frame_bytes(),
                        q.id_spec() as int,
                    );
                    lemma_view_other(s0, *self, q, ii);
                }
            }
            lemma_pid_found(self.pages_spec(), pid, ii);
            assert(self.wf());
        }
        Ok(())
    }

    /// Whether no page has an outstanding guard.
    pub open spec fn all_quiescent(&self) -> bool {
        forall|i: int|
            0 <= i < self.pages_spec().len() ==> (#[trigger] self.pages_spec()[i]).quiescent()
    }

    /// Flushes every resident page to disk, in directory order, evicting
    /// none.  Afterwards the disk image holds every resident page's bytes.
    /// The in-memory image cannot fail an I/O, so the call always
    /// succeeds.
    pub fn flush_all(&mut self) -> (r: Result<(), PoolError>)
        requires
            old(self).wf(),
            old(self).all_quiescent(),
        ensures
            final(self).wf(),
            r is Ok,
            final(self).num_frames_spec() == old(self).num_frames_spec(),
            final(self).free_spec() == old(self).free_spec(),
            final(self).replacer_spec() == old(self).replacer_spec(),
            final(self).pages_spec().len() == old(self).pages_spec().len(),
            final(self).all_quiescent(),
            forall|k: int|
                0 <= k < old(self).pages_spec().len() ==> ((#[trigger] final(self).pages_spec()[k]).pid_spec() == old(self).pages_spec()[k].pid_spec() && final(self).pages_spec()[k].resident() == old(self).pages_spec()[k].resident() && final(self).pages_spec()[k].state_spec() == old(self).pages_spec()[k].state_spec() && (old(self).pages_spec()[k].resident() ==> final(self).pages_spec()[k].frame_id_spec()
                    == old(self).pages_spec()[k].frame_id_spec() && final(self).pages_spec()[k].frame_bytes() == old(self).pages_spec()[k].frame_bytes())),
            forall|q: PageId|
                pid_in_range(q) ==> #[trigger] final(self).page_view(q) == old(self).page_view(q),
            forall|k: int|
                0 <= k < final(self).pages_spec().len() && (#[trigger] final(self).pages_spec()[k]).resident() ==> page_bytes_spec(
                    final(self).disk_spec().file_view(),
                    final(self).pages_spec()[k].pid_spec().id_spec() as int,
                ) == final(self).pages_spec()[k].frame_bytes(),
    {
        let mut i: usize = 0;
        while i < self.pages.len()
            invariant
                old(self).wf(),
                old(self).all_quiescent(),
                self.wf(),
                self.all_quiescent(),
                i <= self.pages_spec().len(),
                self.num_frames_spec() == old(self).num_frames_spec(),
                self.free_spec() == old(self).free_spec(),
                self.replacer_spec() == old(self).replacer_spec(),
                self.pages_spec().len() == old(self).pages_spec().len(),
                forall|k: int|
                    0 <= k < old(self).pages_spec().len() ==> ((#[trigger] self.pages_spec()[
                    k]).pid_spec() == old(self).pages_spec()[k].pid_spec() && self.pages_spec()[
                    k].resident() == old(self).pages_spec()[k].resident() && self.pages_spec()[
                    k].state_spec() == old(self).pages_spec()[k].state_spec() && (old(self).pages_spec()[k].resident() ==> self.pages_spec()[k].frame_id_spec() == old(self).pages_spec()[k].frame_id_spec() && self.pages_spec()[k].frame_bytes() == old(self).pages_spec()[k].frame_bytes())),
                forall|q: PageId|
                    pid_in_range(q) ==> #[trigger] self.page_view(q) == old(self).page_view(q),
                forall|k: int|
                    0 <= k < i && (#[trigger] self.pages_spec()[k]).resident()
                        ==> page_bytes_spec(
                        self.disk_spec().file_view(),
                        self.pages_spec()[k].pid_spec().id_spec() as int,
                    ) == self.pages_spec()[k].frame_bytes(),
            decreases self.pages_spec().len() - i,
        {
            let resident = self.pages[i].is_resident();
            if resident {
                let pid = self.pages[i].page_id();
                let ghost s0 = *self;
                let ghost ii = i as int;
                proof {
                    lemma_pid_found(self.pages_spec(), pid, ii);
                }
                match self.flush(pid) {
                    Ok(_) => {},
                    Err(_) => vstd::pervasive::unreached(),
                }
                proof {
                    lemma_pid_found(s0.pages_spec(), pid, ii);
                    // the pages other than `pid`'s keep their slots
                    assert forall|k: int|
                        0 <= k < s0.pages_spec().len() && k != ii implies self.pages_spec()[k]
                        == s0.pages_spec()[k] by {
                        assert(s0.pages_spec()[k].pid_spec() != pid);
                    }
                    // earlier flushed pages keep their disk bytes
                    assert forall|k: int|
                        0 <= k < ii && (#[trigger] self.pages_spec()[k]).resident() implies
                        page_bytes_spec(
                        self.disk_spec().file_view(),
                        self.pages_spec()[k].pid_spec().id_spec() as int,
                    ) == self.pages_spec()[k].frame_bytes() by {
                        assert(s0.pages_spec()[k].pid_spec() != pid);
                        assert(s0.pages_spec()[k].pid_spec().id_spec() != pid.id_spec()) by {
                            if s0.pages_spec()[k].pid_spec().id_spec() == pid.id_spec() {
                                crate::page::lemma_page_id_determines(
                                    s0.pages_spec()[k].pid_spec(),
                                    pid,
                                );
                            }
                        }
                        lemma_write_page_preserves_others(
                            s0.disk_spec().file_view(),
                            pid.id_spec() as int,
                            s0.page_at(pid).frame_bytes(),
                            s0.pages_spec()[k].pid_spec().id_spec() as int,
                        );
                    }
                    // the page just flushed now reads back from disk
                    lemma_pid_found(self.pages_spec(), pid, ii);
                    lemma_page_round_trip(
                        s0.disk_spec().file_view(),
                        pid.id_spec() as int,
                        s0.page_at(pid).frame_bytes(),
                    );
                }
            }
            i = i + 1;
        }
        Ok(())
    }

    /// Looks `pid` up in the directory.
    fn find_page_index(&self, pid: PageId) -> (r: Option<usize>)
        requires
            self.wf(),
        ensures
            match r {
                Some(i) => i < self.pages_spec().len() && self.pages_spec()[i as int].pid_spec()
                    == pid && self.has_page(pid) && index_of_pid(self.pages_spec(), pid) == i,
                None => !self.has_page(pid),
            },
    {
        let mut i: usize = 0;
        while i < self.pages.len()
            invariant
                self.wf(),
                i <= self.pages_spec().len(),
                forall|k: int| 0 <= k < i ==> (#[trigger] self.pages_spec()[k]).pid_spec() != pid,
            decreases self.pages_spec().len() - i,
        {
            if self.pages[i].page_id() == pid {
                proof {
                    lemma_pid_found(self.pages_spec(), pid, i as int);
                }
                return Some(i);
            }
            i = i + 1;
        }
        None
    }
}

/// In a directory with distinct names, an index holding `pid` is the
/// unique one.
proof fn lemma_pid_found(pages: Seq<Page>, pid: PageId, i: int)
    requires
        0 <= i < pages.len(),
        pages[i].pid_spec() == pid,
        forall|p: int, q: int|
            0 <= p < q < pages.len() ==> (#[trigger] pages[p]).pid_spec() != (
            #[trigger] pages[q]).pid_spec(),
    ensures
        has_pid(pages, pid),
        index_of_pid(pages, pid) == i,
{
    assert(has_pid(pages, pid));
    let j = index_of_pid(pages, pid);
    if i < j {
        assert(pages[i].pid_spec() != pages[j].pid_spec());
    } else if j < i {
        assert(pages[j].pid_spec() != pages[i].pid_spec());
    }
}

/// Replacing the page at `i` moves the resident count by the residency
/// difference.
proof fn lemma_count_resident_update(pages: Seq<Page>, i: int, p: Page)
    requires
        0 <= i < pages.len(),
    ensures
        count_resident(pages.update(i, p)) == count_resident(pages) - (if pages[i].resident() {
            1int
        } else {
            0int
        }) + (if p.resident() {
            1int
        } else {
            0int
        }),
    decreases pages.len(),
{
    let t = pages.update(i, p);
    if i == pages.len() - 1 {
        assert(t.drop_last() =~= pages.drop_last());
        assert(t.last() == p);
    } else {
        assert(t.drop_last() =~= pages.drop_last().update(i, p));
        assert(t.last() == pages.last());
        lemma_count_resident_update(pages.drop_last(), i, p);
    }
}

/// Appending a page moves the resident count by its residency.
proof fn lemma_count_resident_push(pages: Seq<Page>, p: Page)
    ensures
        count_resident(pages.push(p)) == count_resident(pages) + (if p.resident() {
            1int
        } else {
            0int
        }),
{
    assert(pages.push(p).drop_last() =~= pages);
    assert(pages.push(p).last() == p);
}

/// After one page's frame moves to disk, every page reads back the same
/// logical content: the victim by the round trip through the image, every
/// other page because its bytes on disk and in memory are untouched.
proof fn lemma_view_after_write(pre: BufferPool, post: BufferPool, q: PageId, jj: int)
    requires
        pre.directory_wf(),
        0 <= jj < pre.pages_spec().len(),
        pre.pages_spec()[jj].wf(),
        pre.pages_spec()[jj].resident(),
        post.pages_spec().len() == pre.pages_spec().len(),
        forall|k: int|
            0 <= k < pre.pages_spec().len() && k != jj ==> post.pages_spec()[k]
                == pre.pages_spec()[k],
        !post.pages_spec()[jj].resident(),
        post.pages_spec()[jj].pid_spec() == pre.pages_spec()[jj].pid_spec(),
        post.disk_spec().file_view() == write_page_spec(
            pre.disk_spec().file_view(),
            pre.pages_spec()[jj].pid_spec().id_spec() as int,
            pre.pages_spec()[jj].frame_bytes(),
        ),
        pid_in_range(q),
    ensures
        post.page_view(q) == pre.page_view(q),
{
    let ps0 = pre.pages_spec();
    let ps1 = post.pages_spec();
    let vpid = ps0[jj].pid_spec();
    let vbytes = ps0[jj].frame_bytes();
    let file0 = pre.disk_spec().file_view();
    assert forall|p: int, q2: int|
        0 <= p < q2 < ps1.len() implies (#[trigger] ps1[p]).pid_spec() != (
    #[trigger] ps1[q2]).pid_spec() by {
        assert(ps0[p].pid_spec() != ps0[q2].pid_spec());
    }
    if q == vpid {
        lemma_pid_found(ps0, q, jj);
        lemma_pid_found(ps1, q, jj);
        lemma_page_round_trip(file0, vpid.id_spec() as int, vbytes);
    } else {
        assert(q.id_spec() != vpid.id_spec()) by {
            if q.id_spec() == vpid.id_spec() {
                crate::page::lemma_page_id_determines(q, vpid);
            }
        }
        lemma_write_page_preserves_others(
            file0,
            vpid.id_spec() as int,
            vbytes,
            q.id_spec() as int,
        );
        if has_pid(ps0, q) {
            let w = index_of_pid(ps0, q);
            assert(0 <= w < ps0.len() && ps0[w].pid_spec() == q);
            assert(w != jj);
            lemma_pid_found(ps0, q, w);
            assert(ps1[w] == ps0[w]);
            lemma_pid_found(ps1, q, w);
        } else {
            if has_pid(ps1, q) {
                let w = index_of_pid(ps1, q);
                assert(0 <= w < ps1.len() && ps1[w].pid_spec() == q);
                assert(w != jj);
                assert(ps0[w].pid_spec() == q);
                assert(has_pid(ps0, q));
            }
        }
    }
}

/// Touching one page without moving its residency, bytes or name leaves
/// every page's logical content alone.
proof fn lemma_view_after_touch(pre: BufferPool, post: BufferPool, q: PageId, jj: int)
    requires
        pre.directory_wf(),
        0 <= jj < pre.pages_spec().len(),
        post.pages_spec().len() == pre.pages_spec().len(),
        forall|k: int|
            0 <= k < pre.pages_spec().len() && k != jj ==> post.pages_spec()[k]
                == pre.pages_spec()[k],
        post.pages_spec()[jj].pid_spec() == pre.pages_spec()[jj].pid_spec(),
        post.pages_spec()[jj].resident() == pre.pages_spec()[jj].resident(),
        pre.pages_spec()[jj].resident() ==> post.pages_spec()[jj].frame_bytes()
            == pre.pages_spec()[jj].frame_bytes(),
        post.disk_spec().file_view() == pre.disk_spec().file_view(),
    ensures
        post.page_view(q) == pre.page_view(q),
{
    let ps0 = pre.pages_spec();
    let ps1 = post.pages_spec();
    let vpid = ps0[jj].pid_spec();
    assert forall|p: int, q2: int|
        0 <= p < q2 < ps1.len() implies (#[trigger] ps1[p]).pid_spec() != (
    #[trigger] ps1[q2]).pid_spec() by {
        assert(ps0[p].pid_spec() != ps0[q2].pid_spec());
    }
    if q == vpid {
        lemma_pid_found(ps0, q, jj);
        lemma_pid_found(ps1, q, jj);
    } else {
        if has_pid(ps0, q) {
            let w = index_of_pid(ps0, q);
            assert(0 <= w < ps0.len() && ps0[w].pid_spec() == q);
            assert(w != jj);
            lemma_pid_found(ps0, q, w);
            assert(ps1[w] == ps0[w]);
            lemma_pid_found(ps1, q, w);
        } else {
            if has_pid(ps1, q) {
                let w = index_of_pid(ps1, q);
                assert(0 <= w < ps1.len() && ps1[w].pid_spec() == q);
                assert(w != jj);
                assert(ps0[w].pid_spec() == q);
                assert(has_pid(ps0, q));
            }
        }
    }
}

/// Loading a page's own disk bytes into its frame leaves every page's
/// logical content alone.
proof fn lemma_view_after_load(pre: BufferPool, post: BufferPool, q: PageId, jj: int)
    requires
        pre.directory_wf(),
        0 <= jj < pre.pages_spec().len(),
        post.pages_spec().len() == pre.pages_spec().len(),
        forall|k: int|
            0 <= k < pre.pages_spec().len() && k != jj ==> post.pages_spec()[k]
                == pre.pages_spec()[k],
        post.pages_spec()[jj].pid_spec() == pre.pages_spec()[jj].pid_spec(),
        !pre.pages_spec()[jj].resident(),
        post.pages_spec()[jj].resident(),
        post.pages_spec()[jj].frame_bytes() == page_bytes_spec(
            pre.disk_spec().file_view(),
            pre.pages_spec()[jj].pid_spec().id_spec() as int,
        ),
        post.disk_spec().file_view() == pre.disk_spec().file_view(),
    ensures
        post.page_view(q) == pre.page_view(q),
{
    let ps0 = pre.pages_spec();
    let ps1 = post.pages_spec();
    let vpid = ps0[jj].pid_spec();
    assert forall|p: int, q2: int|
        0 <= p < q2 < ps1.len() implies (#[trigger] ps1[p]).pid_spec() != (
    #[trigger] ps1[q2]).pid_spec() by {
        assert(ps0[p].pid_spec() != ps0[q2].pid_spec());
    }
    if q == vpid {
        lemma_pid_found(ps0, q, jj);
        lemma_pid_found(ps1, q, jj);
    } else {
        if has_pid(ps0, q) {
            let w = index_of_pid(ps0, q);
            assert(0 <= w < ps0.len() && ps0[w].pid_spec() == q);
            assert(w != jj);
            lemma_pid_found(ps0, q, w);
            assert(ps1[w] == ps0[w]);
            lemma_pid_found(ps1, q, w);
        } else {
            if has_pid(ps1, q) {
                let w = index_of_pid(ps1, q);
                assert(0 <= w < ps1.len() && ps1[w].pid_spec() == q);
                assert(w != jj);
                assert(ps0[w].pid_spec() == q);
                assert(has_pid(ps0, q));
            }
        }
    }
}

/// Creating a fresh cold page leaves every page's logical content alone.
proof fn lemma_view_after_push(pre: BufferPool, post: BufferPool, q: PageId, p: Page)
    requires
        pre.directory_wf(),
        post.pages_spec() == pre.pages_spec().push(p),
        !p.resident(),
        !has_pid(pre.pages_spec(), p.pid_spec()),
        post.disk_spec().file_view() == pre.disk_spec().file_view(),
    ensures
        post.page_view(q) == pre.page_view(q),
{
    let ps0 = pre.pages_spec();
    let ps1 = post.pages_spec();
    let n = ps0.len() as int;
    assert(ps1.len() == n + 1 && ps1[n] == p);
    assert forall|k: int| 0 <= k < n implies ps1[k] == ps0[k] by {}
    if q == p.pid_spec() {
        assert(!has_pid(ps0, q));
        lemma_pid_found_push(ps0, p, q);
    } else {
        if has_pid(ps0, q) {
            let w = index_of_pid(ps0, q);
            assert(0 <= w < ps0.len() && ps0[w].pid_spec() == q);
            lemma_pid_found(ps0, q, w);
            assert(ps1[w] == ps0[w]);
            assert forall|a: int, b: int|
                0 <= a < b < ps1.len() implies (#[trigger] ps1[a]).pid_spec() != (
            #[trigger] ps1[b]).pid_spec() by {
                if b < n {
                    assert(ps0[a].pid_spec() != ps0[b].pid_spec());
                } else {
                    assert(ps1[b] == p);
                    assert(ps1[a] == ps0[a]);
                    if ps0[a].pid_spec() == p.pid_spec() {
                        assert(has_pid(ps0, p.pid_spec()));
                    }
                }
            }
            lemma_pid_found(ps1, q, w);
        } else {
            if has_pid(ps1, q) {
                let w = index_of_pid(ps1, q);
                assert(0 <= w < ps1.len() && ps1[w].pid_spec() == q);
                if w < n {
                    assert(ps0[w].pid_spec() == q);
                    assert(has_pid(ps0, q));
                } else {
                    assert(ps1[w] == p);
                }
            }
        }
    }
}

/// After pushing a fresh page, the directory resolves its name to the new
/// slot, and both sides read it as not resident.
proof fn lemma_pid_found_push(ps0: Seq<Page>, p: Page, q: PageId)
    requires
        q == p.pid_spec(),
        !has_pid(ps0, q),
    ensures
        has_pid(ps0.push(p), q),
        index_of_pid(ps0.push(p), q) == ps0.len(),
        ps0.push(p)[index_of_pid(ps0.push(p), q)] == p,
{
    let ps1 = ps0.push(p);
    let n = ps0.len() as int;
    assert(ps1[n] == p);
    assert(has_pid(ps1, q));
    let w = index_of_pid(ps1, q);
    assert(0 <= w < ps1.len() && ps1[w].pid_spec() == q);
    if w < n {
        assert(ps0[w].pid_spec() == q);
        assert(has_pid(ps0, q));
    }
}

/// After the pool records an access to `fid` and pins it, the replacer
/// agrees with the directory again: it holds exactly the resident frames,
/// `fid` is marked pinned to match its page's outstanding guard, and every
/// other frame keeps its flag.
proof fn lemma_agree_after_record_pin(
    r0: MySQLReplacer,
    r1: MySQLReplacer,
    r2: MySQLReplacer,
    post: BufferPool,
    jj: int,
    fid: usize,
    kind: AccessType,
)
    requires
        r0.wf(),
        fid < r0.capacity(),
        r1.capacity() == r0.capacity(),
        r1.max_young() == r0.max_young(),
        r1.young_view() == record_spec(
            r0.young_view(),
            r0.old_view(),
            r0.capacity(),
            r0.max_young(),
            fid,
            kind,
        ).0,
        r1.old_view() == record_spec(
            r0.young_view(),
            r0.old_view(),
            r0.capacity(),
            r0.max_young(),
            fid,
            kind,
        ).1,
        r1.wf(),
        has_id(r1.old_view(), fid) ==> r2.old_view() == r1.old_view().update(
            index_of_id(r1.old_view(), fid),
            (fid, false),
        ) && r2.young_view() == r1.young_view(),
        !has_id(r1.old_view(), fid) && has_id(r1.young_view(), fid) ==> r2.young_view()
            == r1.young_view().update(index_of_id(r1.young_view(), fid), (fid, false))
            && r2.old_view() == r1.old_view(),
        post.replacer_spec() == r2,
        0 <= jj < post.pages_spec().len(),
        post.pages_spec()[jj].resident(),
        post.pages_spec()[jj].frame_id_spec() == fid,
        !post.pages_spec()[jj].quiescent(),
        forall|a: int, b: int|
            0 <= a < b < post.pages_spec().len() && (#[trigger] post.pages_spec()[a]).resident()
                && (#[trigger] post.pages_spec()[b]).resident() ==> post.pages_spec()[
            a].frame_id_spec() != post.pages_spec()[b].frame_id_spec(),
        forall|f: usize| f != fid ==> #[trigger] r0.contains_spec(f) == post.fid_resident(f),
        forall|k: int|
            0 <= k < post.pages_spec().len() && (#[trigger] post.pages_spec()[k]).resident()
                && post.pages_spec()[k].frame_id_spec() != fid ==> r0.replaceable_spec(
                post.pages_spec()[k].frame_id_spec(),
            ) == post.pages_spec()[k].quiescent(),
    ensures
        forall|f: usize| #[trigger] r2.contains_spec(f) == post.fid_resident(f),
        forall|k: int|
            0 <= k < post.pages_spec().len() && (#[trigger] post.pages_spec()[k]).resident()
                ==> r2.replaceable_spec(post.pages_spec()[k].frame_id_spec()) == post.pages_spec()[
            k].quiescent(),
{
    let y0 = r0.young_view();
    let o0 = r0.old_view();
    lemma_record_effects(y0, o0, r0.capacity(), r0.max_young(), fid, kind);
    let y1 = r1.young_view();
    let o1 = r1.old_view();
    assert(has_id(y1, fid) || has_id(o1, fid));
    if has_id(o1, fid) {
        let i = index_of_id(o1, fid);
        assert(0 <= i < o1.len() && o1[i].0 == fid);
        lemma_union_update_old(y1, o1, i, false);
        assert(r2.old_view() == o1.update(i, (o1[i].0, false)));
    } else {
        let i = index_of_id(y1, fid);
        assert(0 <= i < y1.len() && y1[i].0 == fid);
        lemma_union_update_young(y1, o1, i, false);
        assert(r2.young_view() == y1.update(i, (y1[i].0, false)));
    }
    // presence: the recorded id joined, every other id is as before
    assert(r2.contains_spec(fid));
    assert(post.fid_resident(fid)) by {
        assert(post.pages_spec()[jj].resident() && post.pages_spec()[jj].frame_id_spec() == fid);
    }
    assert forall|f: usize| #[trigger] r2.contains_spec(f) == post.fid_resident(f) by {
        if f != fid {
            assert(r2.contains_spec(f) == r1.contains_spec(f));
            assert(r1.contains_spec(f) == r0.contains_spec(f));
            assert(r0.contains_spec(f) == post.fid_resident(f));
        }
    }
    // flags: the recorded id is pinned, every other id keeps its flag
    assert forall|k: int|
        0 <= k < post.pages_spec().len() && (#[trigger] post.pages_spec()[k]).resident() implies
        r2.replaceable_spec(post.pages_spec()[k].frame_id_spec()) == post.pages_spec()[
    k].quiescent() by {
        let g = post.pages_spec()[k].frame_id_spec();
        if g == fid {
            if k != jj {
                assert(post.pages_spec()[jj].frame_id_spec() != post.pages_spec()[
                k].frame_id_spec());
            }
            assert(k == jj);
            assert(entry_flag(r2.young_view(), r2.old_view(), fid) == false);
        } else {
            assert(r0.contains_spec(g) == post.fid_resident(g));
            assert(post.fid_resident(g)) by {
                assert(post.pages_spec()[k].resident() && post.pages_spec()[k].frame_id_spec()
                    == g);
            }
            assert(entry_flag(y1, o1, g) == entry_flag(y0, o0, g));
            assert(entry_flag(r2.young_view(), r2.old_view(), g) == entry_flag(y1, o1, g));
        }
    }
}

/// A page touched without moving its name, residency, frame or pin status
/// leaves the pool invariant intact.
proof fn lemma_agree_after_page_touch(pre: BufferPool, post: BufferPool, jj: int)
    requires
        pre.wf(),
        post.num_frames_spec() == pre.num_frames_spec(),
        post.free_spec() == pre.free_spec(),
        post.replacer_spec() == pre.replacer_spec(),
        0 <= jj < pre.pages_spec().len(),
        post.pages_spec().len() == pre.pages_spec().len(),
        forall|k: int|
            0 <= k < pre.pages_spec().len() && k != jj ==> post.pages_spec()[k]
                == pre.pages_spec()[k],
        post.pages_spec()[jj].wf(),
        post.pages_spec()[jj].pid_spec() == pre.pages_spec()[jj].pid_spec(),
        post.pages_spec()[jj].resident() == pre.pages_spec()[jj].resident(),
        pre.pages_spec()[jj].resident() ==> post.pages_spec()[jj].frame_id_spec()
            == pre.pages_spec()[jj].frame_id_spec(),
        post.pages_spec()[jj].quiescent() == pre.pages_spec()[jj].quiescent(),
    ensures
        post.wf(),
{
    let ps0 = pre.pages_spec();
    let ps1 = post.pages_spec();
    assert(ps1 =~= ps0.update(jj, ps1[jj]));
    lemma_count_resident_update(ps0, jj, ps1[jj]);
    assert forall|f: usize| #[trigger] post.replacer_spec().contains_spec(f)
        == post.fid_resident(f) by {
        assert(pre.replacer_spec().contains_spec(f) == pre.fid_resident(f));
        if pre.fid_resident(f) {
            let w = choose|k: int|
                0 <= k < ps0.len() && (#[trigger] ps0[k]).resident() && ps0[k].frame_id_spec()
                    == f;
            assert(ps1[w].resident() && ps1[w].frame_id_spec() == f);
            assert(post.fid_resident(f));
        }
        if post.fid_resident(f) {
            let w = choose|k: int|
                0 <= k < ps1.len() && (#[trigger] ps1[k]).resident() && ps1[k].frame_id_spec()
                    == f;
            assert(ps0[w].resident() && ps0[w].frame_id_spec() == f);
            assert(pre.fid_resident(f));
        }
    }
    assert forall|k: int|
        0 <= k < ps1.len() && (#[trigger] ps1[k]).resident() implies
        post.replacer_spec().replaceable_spec(ps1[k].frame_id_spec()) == ps1[k].quiescent() by {
        assert(ps0[k].resident());
        assert(pre.replacer_spec().replaceable_spec(ps0[k].frame_id_spec())
            == ps0[k].quiescent());
    }
}

/// Unpinning the frame of a page whose guards have all left restores the
/// agreement between the policy and the directory.
proof fn lemma_agree_after_unpin(
    r0: MySQLReplacer,
    r1: MySQLReplacer,
    post: BufferPool,
    jj: int,
    fid: usize,
)
    requires
        r0.wf(),
        r0.contains_spec(fid),
        has_id(r0.old_view(), fid) ==> r1.old_view() == r0.old_view().update(
            index_of_id(r0.old_view(), fid),
            (fid, true),
        ) && r1.young_view() == r0.young_view(),
        !has_id(r0.old_view(), fid) && has_id(r0.young_view(), fid) ==> r1.young_view()
            == r0.young_view().update(index_of_id(r0.young_view(), fid), (fid, true))
            && r1.old_view() == r0.old_view(),
        post.replacer_spec() == r1,
        0 <= jj < post.pages_spec().len(),
        post.pages_spec()[jj].resident(),
        post.pages_spec()[jj].frame_id_spec() == fid,
        post.pages_spec()[jj].quiescent(),
        forall|a: int, b: int|
            0 <= a < b < post.pages_spec().len() && (#[trigger] post.pages_spec()[a]).resident()
                && (#[trigger] post.pages_spec()[b]).resident() ==> post.pages_spec()[
            a].frame_id_spec() != post.pages_spec()[b].frame_id_spec(),
        forall|f: usize| f != fid ==> #[trigger] r0.contains_spec(f) == post.fid_resident(f),
        forall|k: int|
            0 <= k < post.pages_spec().len() && (#[trigger] post.pages_spec()[k]).resident()
                && post.pages_spec()[k].frame_id_spec() != fid ==> r0.replaceable_spec(
                post.pages_spec()[k].frame_id_spec(),
            ) == post.pages_spec()[k].quiescent(),
    ensures
        forall|f: usize| #[trigger] r1.contains_spec(f) == post.fid_resident(f),
        forall|k: int|
            0 <= k < post.pages_spec().len() && (#[trigger] post.pages_spec()[k]).resident()
                ==> r1.replaceable_spec(post.pages_spec()[k].frame_id_spec()) == post.pages_spec()[
            k].quiescent(),
{
    let y0 = r0.young_view();
    let o0 = r0.old_view();
    if has_id(o0, fid) {
        let i = index_of_id(o0, fid);
        assert(0 <= i < o0.len() && o0[i].0 == fid);
        lemma_union_update_old(y0, o0, i, true);
        assert(r1.old_view() == o0.update(i, (o0[i].0, true)));
    } else {
        let i = index_of_id(y0, fid);
        assert(0 <= i < y0.len() && y0[i].0 == fid);
        lemma_union_update_young(y0, o0, i, true);
        assert(r1.young_view() == y0.update(i, (y0[i].0, true)));
    }
    assert(post.fid_resident(fid)) by {
        assert(post.pages_spec()[jj].resident() && post.pages_spec()[jj].frame_id_spec() == fid);
    }
    assert forall|f: usize| #[trigger] r1.contains_spec(f) == post.fid_resident(f) by {
        assert(r1.contains_spec(f) == r0.contains_spec(f));
        if f != fid {
            assert(r0.contains_spec(f) == post.fid_resident(f));
        }
    }
    assert forall|k: int|
        0 <= k < post.pages_spec().len() && (#[trigger] post.pages_spec()[k]).resident() implies
        r1.replaceable_spec(post.pages_spec()[k].frame_id_spec()) == post.pages_spec()[
    k].quiescent() by {
        let g = post.pages_spec()[k].frame_id_spec();
        if g == fid {
            if k != jj {
                assert(post.pages_spec()[jj].frame_id_spec() != post.pages_spec()[
                k].frame_id_spec());
            }
            assert(k == jj);
            assert(entry_flag(r1.young_view(), r1.old_view(), fid) == true);
        } else {
            assert(r0.replaceable_spec(g) == post.pages_spec()[k].quiescent());
            assert(post.fid_resident(g)) by {
                assert(post.pages_spec()[k].resident() && post.pages_spec()[k].frame_id_spec()
                    == g);
            }
            assert(r0.contains_spec(g));
            assert(entry_flag(r1.young_view(), r1.old_view(), g) == entry_flag(y0, o0, g));
        }
    }
}

/// The logical content of a page other than the touched one is preserved,
/// as long as its own disk bytes are.
proof fn lemma_view_other(pre: BufferPool, post: BufferPool, q: PageId, jj: int)
    requires
        pre.directory_wf(),
        0 <= jj < pre.pages_spec().len(),
        post.pages_spec().len() == pre.pages_spec().len(),
        forall|k: int|
            0 <= k < pre.pages_spec().len() && k != jj ==> post.pages_spec()[k]
                == pre.pages_spec()[k],
        post.pages_spec()[jj].pid_spec() == pre.pages_spec()[jj].pid_spec(),
        q != pre.pages_spec()[jj].pid_spec(),
        page_bytes_spec(post.disk_spec().file_view(), q.id_spec() as int) == page_bytes_spec(
            pre.disk_spec().file_view(),
            q.id_spec() as int,
        ),
    ensures
        post.page_view(q) == pre.page_view(q),
{
    let ps0 = pre.pages_spec();
    let ps1 = post.pages_spec();
    assert forall|p: int, q2: int|
        0 <= p < q2 < ps1.len() implies (#[trigger] ps1[p]).pid_spec() != (
    #[trigger] ps1[q2]).pid_spec() by {
        assert(ps0[p].pid_spec() != ps0[q2].pid_spec());
    }
    if has_pid(ps0, q) {
        let w = index_of_pid(ps0, q);
        assert(0 <= w < ps0.len() && ps0[w].pid_spec() == q);
        assert(w != jj);
        lemma_pid_found(ps0, q, w);
        assert(ps1[w] == ps0[w]);
        lemma_pid_found(ps1, q, w);
    } else {
        if has_pid(ps1, q) {
            let w = index_of_pid(ps1, q);
            assert(0 <= w < ps1.len() && ps1[w].pid_spec() == q);
            assert(w != jj);
            assert(ps0[w].pid_spec() == q);
            assert(has_pid(ps0, q));
        }
    }
}

/// Law: no duplication.  A well-formed pool holds at most one directory
/// entry, and hence at most one frame, for any page id.
pub proof fn lemma_no_duplication(pool: &BufferPool, i: int, j: int)
    requires
        pool.wf(),
        0 <= i < pool.pages_spec().len(),
        0 <= j < pool.pages_spec().len(),
        pool.pages_spec()[i].pid_spec() == pool.pages_spec()[j].pid_spec(),
    ensures
        i == j,
{
    if i < j {
        assert(pool.pages_spec()[i].pid_spec() != pool.pages_spec()[j].pid_spec());
    } else if j < i {
        assert(pool.pages_spec()[j].pid_spec() != pool.pages_spec()[i].pid_spec());
    }
}

/// Law: exclusive frame ownership.  No frame id both sits on the free
/// list and backs a resident page, and no two resident pages share one.
pub proof fn lemma_frame_exclusive(pool: &BufferPool, i: int, j: int)
    requires
        pool.wf(),
        0 <= i < pool.pages_spec().len(),
        pool.pages_spec()[i].resident(),
        0 <= j < pool.free_spec().len(),
    ensures
        pool.pages_spec()[i].frame_id_spec() != pool.free_spec()[j].id,
{
}

/// Law: frame conservation.  The free list and the resident pages
/// together account for every frame of the pool.
pub proof fn lemma_frame_conservation(pool: &BufferPool)
    requires
        pool.wf(),
    ensures
        pool.free_spec().len() + count_resident(pool.pages_spec()) == pool.num_frames_spec(),
{
}

/// Law: temperature tracks residency.  A page is `Hot` or `Cool` exactly
/// when its swip holds a frame, and `Cold` exactly otherwise.
pub proof fn lemma_temperature_residency(pool: &BufferPool, i: int)
    requires
        pool.wf(),
        0 <= i < pool.pages_spec().len(),
    ensures
        (pool.pages_spec()[i].state_spec() == Temperature::Hot || pool.pages_spec()[i].state_spec()
            == Temperature::Cool) <==> pool.pages_spec()[i].resident(),
{
    assert(pool.pages_spec()[i].wf());
}

/// Law: round trip.  Bytes stored as a page and read back from the disk
/// image are those bytes, whatever the image held before.  Together with
/// the view-preservation clauses of every pool operation, this is the
/// pool's write-then-read guarantee: a page's logical content survives
/// eviction and reload.
pub proof fn lemma_round_trip(file: Seq<u8>, pid: PageId, data: Seq<u8>)
    requires
        data.len() == PAGE_SIZE,
    ensures
        page_bytes_spec(write_page_spec(file, pid.id_spec() as int, data), pid.id_spec() as int)
            == data,
{
    lemma_page_round_trip(file, pid.id_spec() as int, data);
}

/// Law: flush idempotence.  Two consecutive flushes of the same unchanged
/// page leave the disk image byte-identical to the first flush.
pub proof fn lemma_flush_idempotent(file: Seq<u8>, pid: PageId, data: Seq<u8>)
    requires
        data.len() == PAGE_SIZE,
    ensures
        write_page_spec(
            write_page_spec(file, pid.id_spec() as int, data),
            pid.id_spec() as int,
            data,
        ) == write_page_spec(file, pid.id_spec() as int, data),
{
    lemma_write_page_idempotent(file, pid.id_spec() as int, data);
}

/// The frame ids of the resident pages, in directory order.
spec fn resident_fids(pages: Seq<Page>) -> Seq<usize>
    decreases pages.len(),
{
    if pages.len() == 0 {
        Seq::empty()
    } else {
        resident_fids(pages.drop_last()) + (if pages.last().resident() {
            seq![pages.last().frame_id_spec()]
        } else {
            Seq::<usize>::empty()
        })
    }
}

/// There are as many resident frame ids as resident pages.
proof fn lemma_resident_fids_len(pages: Seq<Page>)
    ensures
        resident_fids(pages).len() == count_resident(pages),
    decreases pages.len(),
{
    if pages.len() > 0 {
        lemma_resident_fids_len(pages.drop_last());
    }
}

/// A frame id is among the resident ids exactly when some resident page
/// holds it.
proof fn lemma_resident_fids_membership(pages: Seq<Page>, f: usize)
    ensures
        resident_fids(pages).contains(f) <==> exists|i: int|
            0 <= i < pages.len() && (#[trigger] pages[i]).resident() && pages[i].frame_id_spec()
                == f,
    decreases pages.len(),
{
    if pages.len() > 0 {
        let pre = pages.drop_last();
        let n = pages.len() - 1;
        lemma_resident_fids_membership(pre, f);
        let s = resident_fids(pages);
        let sp = resident_fids(pre);
        if s.contains(f) {
            let k = choose|k: int| 0 <= k < s.len() && s[k] == f;
            if k < sp.len() {
                assert(sp[k] == f);
                assert(sp.contains(f));
                let i = choose|i: int|
                    0 <= i < pre.len() && (#[trigger] pre[i]).resident() && pre[i].frame_id_spec()
                        == f;
                assert(pages[i].resident() && pages[i].frame_id_spec() == f);
            } else {
                assert(pages.last().resident() && pages.last().frame_id_spec() == f);
                assert(pages[n].resident() && pages[n].frame_id_spec() == f);
            }
        }
        if exists|i: int|
            0 <= i < pages.len() && (#[trigger] pages[i]).resident() && pages[i].frame_id_spec()
                == f {
            let i = choose|i: int|
                0 <= i < pages.len() && (#[trigger] pages[i]).resident() && pages[
                i].frame_id_spec() == f;
            if i < n {
                assert(pre[i].resident() && pre[i].frame_id_spec() == f);
                assert(sp.contains(f));
                let k = choose|k: int| 0 <= k < sp.len() && sp[k] == f;
                assert(s[k] == f);
                assert(s.contains(f));
            } else {
                assert(pages.last().resident() && pages.last().frame_id_spec() == f);
                assert(s[s.len() - 1] == f);
                assert(s.contains(f));
            }
        }
    }
}

/// With pairwise-distinct resident frame ids, the resident-id sequence has
/// no duplicates, and inherits any bound on the ids.
proof fn lemma_resident_fids_distinct(pages: Seq<Page>, n: usize)
    requires
        forall|a: int, b: int|
            0 <= a < b < pages.len() && (#[trigger] pages[a]).resident() && (
            #[trigger] pages[b]).resident() ==> pages[a].frame_id_spec()
                != pages[b].frame_id_spec(),
        forall|a: int|
            0 <= a < pages.len() && (#[trigger] pages[a]).resident() ==> pages[a].frame_id_spec()
                < n,
    ensures
        resident_fids(pages).no_duplicates(),
        forall|k: int|
            0 <= k < resident_fids(pages).len() ==> #[trigger] resident_fids(pages)[k] < n,
    decreases pages.len(),
{
    if pages.len() > 0 {
        let pre = pages.drop_last();
        let m = pages.len() - 1;
        assert forall|a: int, b: int|
            0 <= a < b < pre.len() && (#[trigger] pre[a]).resident() && (
            #[trigger] pre[b]).resident() implies pre[a].frame_id_spec()
            != pre[b].frame_id_spec() by {
            assert(pages[a].frame_id_spec() != pages[b].frame_id_spec());
        }
        assert forall|a: int|
            0 <= a < pre.len() && (#[trigger] pre[a]).resident() implies pre[a].frame_id_spec()
            < n by {
            assert(pages[a].resident() && pages[a].frame_id_spec() < n);
        }
        lemma_resident_fids_distinct(pre, n);
        let s = resident_fids(pages);
        let sp = resident_fids(pre);
        if pages.last().resident() {
            assert(!sp.contains(pages.last().frame_id_spec())) by {
                lemma_resident_fids_membership(pre, pages.last().frame_id_spec());
                if exists|i: int|
                    0 <= i < pre.len() && (#[trigger] pre[i]).resident() && pre[
                    i].frame_id_spec() == pages.last().frame_id_spec() {
                    let i = choose|i: int|
                        0 <= i < pre.len() && (#[trigger] pre[i]).resident() && pre[
                        i].frame_id_spec() == pages.last().frame_id_spec();
                    assert(pages[i].frame_id_spec() != pages[m].frame_id_spec());
                }
            }
            assert forall|a: int, b: int|
                (0 <= a < s.len() && 0 <= b < s.len() && a != b) implies s[a] != s[b] by {
                if a < sp.len() && b < sp.len() {
                    assert(sp[a] == s[a] && sp[b] == s[b]);
                } else if a < sp.len() {
                    assert(s[b] == pages.last().frame_id_spec() && s[a] == sp[a]);
                    assert(sp.contains(sp[a]));
                } else {
                    assert(s[a] == pages.last().frame_id_spec() && s[b] == sp[b]);
                    assert(sp.contains(sp[b]));
                }
            }
        }
    }
}

/// Law: every frame is owned by exactly one place.  A frame id of the
/// pool either backs a resident page or sits on the free list — one of the
/// two, never both, never neither.
pub proof fn lemma_frame_membership(pool: &BufferPool, fid: usize)
    requires
        pool.wf(),
        fid < pool.num_frames_spec(),
    ensures
        pool.fid_resident(fid) <==> !(exists|j: int|
            0 <= j < pool.free_spec().len() && (#[trigger] pool.free_spec()[j]).id == fid),
{
    let frees = pool.free_spec().map_values(|fr: Frame| fr.id);
    let res = resident_fids(pool.pages_spec());
    let ids = frees + res;
    let n = pool.num_frames_spec();
    lemma_resident_fids_len(pool.pages_spec());
    lemma_resident_fids_distinct(pool.pages_spec(), n);
    if pool.fid_resident(fid) {
        if exists|j: int|
            0 <= j < pool.free_spec().len() && (#[trigger] pool.free_spec()[j]).id == fid {
            let j = choose|j: int|
                0 <= j < pool.free_spec().len() && (#[trigger] pool.free_spec()[j]).id == fid;
            let i = choose|i: int|
                0 <= i < pool.pages_spec().len() && (#[trigger] pool.pages_spec()[i]).resident()
                    && pool.pages_spec()[i].frame_id_spec() == fid;
            assert(pool.pages_spec()[i].frame_id_spec() != pool.free_spec()[j].id);
        }
    } else {
        if !(exists|j: int|
            0 <= j < pool.free_spec().len() && (#[trigger] pool.free_spec()[j]).id == fid) {
            // neither side holds `fid`: then fewer than `n` distinct ids
            // below `n` account for all `n` frames — impossible
            lemma_resident_fids_membership(pool.pages_spec(), fid);
            assert(!res.contains(fid));
            assert forall|a: int, b: int|
                (0 <= a < ids.len() && 0 <= b < ids.len() && a != b) implies ids[a] != ids[b] by {
                if a < frees.len() {
                    assert(frees[a] == pool.free_spec()[a].id);
                } else {
                    assert(ids[a] == res[a - frees.len()]);
                }
                if b < frees.len() {
                    assert(frees[b] == pool.free_spec()[b].id);
                } else {
                    assert(ids[b] == res[b - frees.len()]);
                }
                if a < frees.len() && b < frees.len() {
                } else if a < frees.len() {
                    lemma_resident_fids_membership(pool.pages_spec(), res[b - frees.len()]);
                    assert(res.contains(res[b - frees.len()]));
                    let i = choose|i: int|
                        0 <= i < pool.pages_spec().len() && (#[trigger] pool.pages_spec()[
                        i]).resident() && pool.pages_spec()[i].frame_id_spec() == res[b
                            - frees.len()];
                    assert(pool.pages_spec()[i].frame_id_spec() != pool.free_spec()[a].id);
                } else if b < frees.len() {
                    lemma_resident_fids_membership(pool.pages_spec(), res[a - frees.len()]);
                    assert(res.contains(res[a - frees.len()]));
                    let i = choose|i: int|
                        0 <= i < pool.pages_spec().len() && (#[trigger] pool.pages_spec()[
                        i]).resident() && pool.pages_spec()[i].frame_id_spec() == res[a
                            - frees.len()];
                    assert(pool.pages_spec()[i].frame_id_spec() != pool.free_spec()[b].id);
                }
            }
            assert forall|a: int| 0 <= a < ids.len() implies ids[a] < n && ids[a] != fid by {
                if a < frees.len() {
                    assert(frees[a] == pool.free_spec()[a].id);
                    if pool.free_spec()[a].id == fid {
                        assert(exists|j: int|
                            0 <= j < pool.free_spec().len() && (#[trigger] pool.free_spec()[
                            j]).id == fid);
                    }
                } else {
                    assert(ids[a] == res[a - frees.len()]);
                    assert(res.contains(res[a - frees.len()]));
                }
            }
            assert(ids.len() == n);
            crate::replacer::lemma_distinct_ids_bound(ids, n, fid);
        }
    }
}

} // verus!
