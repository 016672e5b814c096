//! The replacement policy: a segmented LRU over frame ids.
//!
//! The policy partitions the recorded frame ids into a *young* list, which
//! holds the guarded working set, and an *old* list, which holds candidates
//! and scan traffic.  The head of each list (index 0) is the most recently
//! touched end; the tail is the eviction end.  Each entry carries a
//! `replaceable` flag; a pinned frame (`replaceable == false`) is never
//! chosen as a victim.  Only `Lookup` accesses promote an entry from the old
//! list into the young list, which protects the working set from one-shot
//! scans.

use vstd::prelude::*;
use vstd::set_lib::lemma_len_subset;
use vstd::set_lib::lemma_int_range;
use vstd::set_lib::set_int_range;

use crate::errors::PoolError;

verus! {

/// How a page access came about.  Only `Lookup` promotes a frame into the
/// young list.
#[derive(Clone, Copy, PartialEq, Eq, Structural, Debug)]
pub enum AccessType {
    Lookup,
    Scan,
    Index,
    Unknown,
}

/// One entry of a list: a frame id with its pinned flag.
#[derive(Clone, Copy)]
struct MySQLReplacerNode {
    id: usize,
    replaceable: bool,
}

/// The first index of `s` whose id is `fid`; meaningful only when such an
/// index exists and ids are distinct.
pub open spec fn index_of_id(s: Seq<(usize, bool)>, fid: usize) -> int {
    choose|i: int| 0 <= i < s.len() && s[i].0 == fid
}

/// Whether some entry of `s` has id `fid`.
pub open spec fn has_id(s: Seq<(usize, bool)>, fid: usize) -> bool {
    exists|i: int| 0 <= i < s.len() && s[i].0 == fid
}

/// The ids of `s` are pairwise distinct and all below `cap`.
pub open spec fn entries_wf(s: Seq<(usize, bool)>, cap: usize) -> bool {
    &&& forall|i: int, j: int| 0 <= i < j < s.len() ==> s[i].0 != s[j].0
    &&& forall|i: int| 0 <= i < s.len() ==> s[i].0 < cap
}

/// The index of the entry nearest the tail whose `replaceable` flag is set,
/// or -1 when every entry is pinned.  Eviction scans from the tail.
pub open spec fn last_replaceable(s: Seq<(usize, bool)>) -> int
    decreases s.len(),
{
    if s.len() == 0 {
        -1
    } else if s.last().1 {
        s.len() - 1
    } else {
        last_replaceable(s.drop_last())
    }
}

/// How many entries of `s` are replaceable.
pub open spec fn count_replaceable(s: Seq<(usize, bool)>) -> int
    decreases s.len(),
{
    if s.len() == 0 {
        0
    } else {
        count_replaceable(s.drop_last()) + if s.last().1 {
            1int
        } else {
            0int
        }
    }
}

/// A segmented LRU over at most `total_size` frame ids, split into a young
/// list of capacity `total_size / 2` and an old list holding the rest.
pub struct MySQLReplacer {
    total_size: usize,
    max_young_size: usize,
    young_frames: Vec<MySQLReplacerNode>,
    old_frames: Vec<MySQLReplacerNode>,
}

impl MySQLReplacer {
    /// The young list as (id, replaceable) pairs, head first.
    pub closed spec fn young_view(&self) -> Seq<(usize, bool)> {
        self.young_frames@.map_values(|n: MySQLReplacerNode| (n.id, n.replaceable))
    }

    /// The old list as (id, replaceable) pairs, head first.
    pub closed spec fn old_view(&self) -> Seq<(usize, bool)> {
        self.old_frames@.map_values(|n: MySQLReplacerNode| (n.id, n.replaceable))
    }

    /// The number of frames the pool was built with.
    pub closed spec fn capacity(&self) -> usize {
        self.total_size
    }

    /// The capacity of the young list.
    pub closed spec fn max_young(&self) -> usize {
        self.max_young_size
    }

    /// Whether `fid` is recorded, in either list.
    pub open spec fn contains_spec(&self, fid: usize) -> bool {
        has_id(self.young_view(), fid) || has_id(self.old_view(), fid)
    }

    /// The `replaceable` flag of `fid`'s entry; meaningful only when
    /// `contains_spec(fid)` holds.
    pub open spec fn replaceable_spec(&self, fid: usize) -> bool {
        entry_flag(self.young_view(), self.old_view(), fid)
    }

    /// The structural invariant: the lists respect their capacities, ids are
    /// pairwise distinct within and across the lists, and every id indexes a
    /// pool frame.
    pub open spec fn wf(&self) -> bool {
        &&& self.max_young() <= self.capacity()
        &&& (self.capacity() > 0 ==> self.max_young() < self.capacity())
        &&& self.young_view().len() <= self.max_young()
        &&& self.old_view().len() + self.max_young() <= self.capacity()
        &&& entries_wf(self.young_view(), self.capacity())
        &&& entries_wf(self.old_view(), self.capacity())
        &&& lists_disjoint(self.young_view(), self.old_view())
    }

    /// Builds an empty replacer for a pool of `size` frames, half of them
    /// reserved for the young list.
    pub fn new(size: usize) -> (r: MySQLReplacer)
        ensures
            r.wf(),
            r.capacity() == size,
            r.max_young() == size / 2,
            r.young_view() == Seq::<(usize, bool)>::empty(),
            r.old_view() == Seq::<(usize, bool)>::empty(),
    {
        let total_size = size;
        let max_young_size = size / 2;
        MySQLReplacer {
            total_size,
            max_young_size,
            young_frames: Vec::with_capacity(max_young_size),
            old_frames: Vec::with_capacity(total_size - max_young_size),
        }
    }

    /// Whether `fid` may be chosen as a victim.  Errs when the replacer does
    /// not hold `fid` at all: the caller's bookkeeping disagrees with ours.
    pub fn is_replaceable(&self, fid: usize) -> (r: Result<bool, PoolError>)
        requires
            self.wf(),
        ensures
            r is Ok <==> self.contains_spec(fid),
            r is Err ==> r == Result::<bool, PoolError>::Err(PoolError::InvariantViolation),
            r is Ok ==> r == Result::<bool, PoolError>::Ok(self.replaceable_spec(fid)),
    {
        if let Some(i) = position_of(&self.old_frames, fid) {
            proof {
                lemma_found_index(self.old_view(), fid, i as int);
            }
            Ok(self.old_frames[i].replaceable)
        } else if let Some(i) = position_of(&self.young_frames, fid) {
            proof {
                lemma_found_index(self.young_view(), fid, i as int);
            }
            Ok(self.young_frames[i].replaceable)
        } else {
            Err(PoolError::InvariantViolation)
        }
    }

    /// Chooses a victim: the tail-most replaceable entry of the old list,
    /// else the tail-most replaceable entry of the young list, and removes
    /// it.  Returns `None` when every entry is pinned.
    pub fn replace(&mut self) -> (r: Option<usize>)
        requires
            old(self).wf(),
        ensures
            final(self).wf(),
            final(self).capacity() == old(self).capacity(),
            final(self).max_young() == old(self).max_young(),
            ({
                let lo = last_replaceable(old(self).old_view());
                let ly = last_replaceable(old(self).young_view());
                if lo >= 0 {
                    &&& r == Some(old(self).old_view()[lo].0)
                    &&& final(self).old_view() == old(self).old_view().remove(lo)
                    &&& final(self).young_view() == old(self).young_view()
                } else if ly >= 0 {
                    &&& r == Some(old(self).young_view()[ly].0)
                    &&& final(self).young_view() == old(self).young_view().remove(ly)
                    &&& final(self).old_view() == old(self).old_view()
                } else {
                    &&& r is None
                    &&& final(self).young_view() == old(self).young_view()
                    &&& final(self).old_view() == old(self).old_view()
                }
            }),
    {
        let mut i: usize = self.old_frames.len();
        while i > 0
            invariant
                old(self).wf(),
                i <= self.old_frames@.len(),
                *self == *old(self),
                forall|j: int|
                    i <= j < self.old_view().len() ==> !self.old_view()[j].1,
            decreases i,
        {
            i = i - 1;
            if self.old_frames[i].replaceable {
                let node = self.old_frames[i];
                self.old_frames.remove(i);
                proof {
                    assert(self.old_view() =~= old(self).old_view().remove(i as int));
                    lemma_last_replaceable(old(self).old_view(), i as int);
                    lemma_entries_after_remove(old(self).old_view(), i as int);
                }
                return Some(node.id);
            }
        }
        proof {
            lemma_none_replaceable(self.old_view());
        }
        let mut k: usize = self.young_frames.len();
        while k > 0
            invariant
                old(self).wf(),
                k <= self.young_frames@.len(),
                *self == *old(self),
                forall|j: int|
                    k <= j < self.young_view().len() ==> !self.young_view()[j].1,
                forall|j: int|
                    0 <= j < self.old_view().len() ==> !self.old_view()[j].1,
            decreases k,
        {
            k = k - 1;
            if self.young_frames[k].replaceable {
                let node = self.young_frames[k];
                self.young_frames.remove(k);
                proof {
                    assert(self.young_view() =~= old(self).young_view().remove(k as int));
                    lemma_last_replaceable(old(self).young_view(), k as int);
                    lemma_none_replaceable(old(self).old_view());
                    lemma_entries_after_remove(old(self).young_view(), k as int);
                }
                return Some(node.id);
            }
        }
        proof {
            lemma_none_replaceable(self.old_view());
            lemma_none_replaceable(self.young_view());
        }
        None
    }

    /// Flips the pinned flag of `fid` wherever it resides.  Errs when the
    /// replacer does not hold `fid`.
    pub fn set_replaceable(&mut self, fid: usize, is_replaceable: bool) -> (r: Result<
        (),
        PoolError,
    >)
        requires
            old(self).wf(),
        ensures
            final(self).wf(),
            final(self).capacity() == old(self).capacity(),
            final(self).max_young() == old(self).max_young(),
            r is Ok <==> old(self).contains_spec(fid),
            r is Err ==> r == Result::<(), PoolError>::Err(PoolError::InvariantViolation)
                && *final(self) == *old(self),
            has_id(old(self).old_view(), fid) ==> final(self).old_view()
                == old(self).old_view().update(index_of_id(old(self).old_view(), fid), (fid, is_replaceable))
                && final(self).young_view() == old(self).young_view(),
            !has_id(old(self).old_view(), fid) && has_id(old(self).young_view(), fid)
                ==> final(self).young_view()
                    == old(self).young_view().update(index_of_id(old(self).young_view(), fid), (fid, is_replaceable))
                && final(self).old_view() == old(self).old_view(),
    {
        if let Some(i) = position_of(&self.old_frames, fid) {
            proof {
                lemma_found_index(self.old_view(), fid, i as int);
            }
            let mut node = self.old_frames[i];
            node.replaceable = is_replaceable;
            self.old_frames.set(i, node);
            proof {
                assert(self.old_view() =~= old(self).old_view().update(
                    i as int,
                    (fid, is_replaceable),
                ));
            }
            Ok(())
        } else if let Some(i) = position_of(&self.young_frames, fid) {
            proof {
                lemma_found_index(self.young_view(), fid, i as int);
            }
            let mut node = self.young_frames[i];
            node.replaceable = is_replaceable;
            self.young_frames.set(i, node);
            proof {
                assert(self.young_view() =~= old(self).young_view().update(
                    i as int,
                    (fid, is_replaceable),
                ));
            }
            Ok(())
        } else {
            Err(PoolError::InvariantViolation)
        }
    }

    /// Removes `fid` unconditionally, as on page delete.  Errs when the
    /// replacer does not hold `fid`.
    pub fn remove(&mut self, fid: usize) -> (r: Result<(), PoolError>)
        requires
            old(self).wf(),
        ensures
            final(self).wf(),
            final(self).capacity() == old(self).capacity(),
            final(self).max_young() == old(self).max_young(),
            r is Ok <==> old(self).contains_spec(fid),
            r is Err ==> r == Result::<(), PoolError>::Err(PoolError::InvariantViolation)
                && *final(self) == *old(self),
            has_id(old(self).old_view(), fid) ==> final(self).old_view()
                == old(self).old_view().remove(index_of_id(old(self).old_view(), fid))
                && final(self).young_view() == old(self).young_view(),
            !has_id(old(self).old_view(), fid) && has_id(old(self).young_view(), fid)
                ==> final(self).young_view()
                    == old(self).young_view().remove(index_of_id(old(self).young_view(), fid))
                && final(self).old_view() == old(self).old_view(),
    {
        if let Some(i) = position_of(&self.old_frames, fid) {
            proof {
                lemma_found_index(self.old_view(), fid, i as int);
            }
            self.old_frames.remove(i);
            proof {
                assert(self.old_view() =~= old(self).old_view().remove(i as int));
                lemma_entries_after_remove(old(self).old_view(), i as int);
            }
            Ok(())
        } else if let Some(i) = position_of(&self.young_frames, fid) {
            proof {
                lemma_found_index(self.young_view(), fid, i as int);
            }
            self.young_frames.remove(i);
            proof {
                assert(self.young_view() =~= old(self).young_view().remove(i as int));
                lemma_entries_after_remove(old(self).young_view(), i as int);
            }
            Ok(())
        } else {
            Err(PoolError::InvariantViolation)
        }
    }

    /// Counts the entries, in both lists, that are not pinned.
    pub fn available(&self) -> (r: usize)
        requires
            self.wf(),
        ensures
            r == count_replaceable(self.young_view()) + count_replaceable(self.old_view()),
    {
        proof {
            lemma_count_le_len(self.old_view());
            lemma_count_le_len(self.young_view());
        }
        let mut count: usize = 0;
        let mut i: usize = 0;
        while i < self.old_frames.len()
            invariant
                self.wf(),
                i <= self.old_view().len(),
                count == count_replaceable(self.old_view().take(i as int)),
                count <= i,
            decreases self.old_view().len() - i,
        {
            proof {
                lemma_count_take_step(self.old_view(), i as int);
            }
            if self.old_frames[i].replaceable {
                count = count + 1;
            }
            i = i + 1;
        }
        proof {
            assert(self.old_view().take(self.old_view().len() as int) =~= self.old_view());
        }
        let mut k: usize = 0;
        while k < self.young_frames.len()
            invariant
                self.wf(),
                k <= self.young_view().len(),
                count == count_replaceable(self.old_view()) + count_replaceable(
                    self.young_view().take(k as int),
                ),
                count <= self.old_view().len() + k,
            decreases self.young_view().len() - k,
        {
            proof {
                lemma_count_take_step(self.young_view(), k as int);
                lemma_count_le_len(self.young_view().take(k as int));
            }
            if self.young_frames[k].replaceable {
                count = count + 1;
            }
            k = k + 1;
        }
        proof {
            assert(self.young_view().take(self.young_view().len() as int) =~= self.young_view());
        }
        count
    }

    /// Notes an access to frame `fid`.  A known id moves to the head of the
    /// young list on a `Lookup`, or of its own list otherwise, with its pin
    /// flag cleared; a new id enters at the head of the old list, promoting
    /// the old head into the young list when the old list is full; an
    /// overfull young list then demotes its tail into the old list.  Errs
    /// when `fid` is not a frame of this pool.
    pub fn record(&mut self, fid: usize, metadata: AccessType) -> (r: Result<(), PoolError>)
        requires
            old(self).wf(),
        ensures
            final(self).wf(),
            final(self).capacity() == old(self).capacity(),
            final(self).max_young() == old(self).max_young(),
            r is Ok <==> fid < old(self).capacity(),
            r is Err ==> r == Result::<(), PoolError>::Err(PoolError::InvariantViolation)
                && *final(self) == *old(self),
            fid < old(self).capacity() ==> ({
                let rec = record_spec(
                    old(self).young_view(),
                    old(self).old_view(),
                    old(self).capacity(),
                    old(self).max_young(),
                    fid,
                    metadata,
                );
                final(self).young_view() == rec.0 && final(self).old_view() == rec.1
            }),
    {
        if fid >= self.total_size {
            return Err(PoolError::InvariantViolation);
        }
        let ghost yl0 = self.young_view();
        let ghost ol0 = self.old_view();
        let ghost oldcap: int = self.total_size - self.max_young_size;
        let ghost placed = record_place(yl0, ol0, oldcap, fid, metadata);
        if let Some(i) = position_of(&self.old_frames, fid) {
            proof {
                lemma_found_index(self.old_view(), fid, i as int);
            }
            self.old_frames.remove(i);
            proof {
                assert(self.old_view() =~= ol0.remove(index_of_id(ol0, fid)));
            }
            match metadata {
                AccessType::Lookup => {
                    self.young_frames.insert(0, MySQLReplacerNode::from(fid));
                    proof {
                        assert(self.young_view() =~= seq![(fid, true)] + yl0);
                    }
                },
                _ => {
                    self.old_frames.insert(
                        0,
                        MySQLReplacerNode::from(fid),
                    );
                    proof {
                        assert(self.old_view() =~= seq![(fid, true)] + ol0.remove(
                            index_of_id(ol0, fid),
                        ));
                    }
                },
            }
        } else if let Some(i) = position_of(&self.young_frames, fid) {
            proof {
                assert forall|j: int| 0 <= j < ol0.len() implies ol0[j].0 != fid by {
                    assert(ol0[j] == (self.old_frames@[j].id, self.old_frames@[j].replaceable));
                }
                lemma_found_index(self.young_view(), fid, i as int);
            }
            self.young_frames.remove(i);
            self.young_frames.insert(0, MySQLReplacerNode::from(fid));
            proof {
                assert(self.young_view() =~= seq![(fid, true)] + yl0.remove(
                    index_of_id(yl0, fid),
                ));
            }
        } else {
            proof {
                assert forall|j: int| 0 <= j < ol0.len() implies ol0[j].0 != fid by {
                    assert(ol0[j] == (self.old_frames@[j].id, self.old_frames@[j].replaceable));
                }
                assert forall|j: int| 0 <= j < yl0.len() implies yl0[j].0 != fid by {
                    assert(yl0[j] == (self.young_frames@[j].id,
                    self.young_frames@[j].replaceable));
                }
            }
            if self.old_frames.len() >= self.total_size - self.max_young_size {
                let head = self.old_frames[0];
                self.young_frames.insert(0, head);
                self.old_frames.remove(0);
                self.old_frames.insert(0, MySQLReplacerNode::from(fid));
                proof {
                    assert(self.young_view() =~= seq![ol0[0]] + yl0);
                    assert(self.old_view() =~= seq![(fid, true)] + ol0.drop_first());
                }
            } else {
                self.old_frames.insert(0, MySQLReplacerNode::from(fid));
                proof {
                    assert(self.old_view() =~= seq![(fid, true)] + ol0);
                }
            }
        }
        proof {
            assert(self.young_view() == placed.0);
            assert(self.old_view() == placed.1);
        }
        if self.young_frames.len() > self.max_young_size {
            let oldest_young = self.young_frames.pop().unwrap();
            self.old_frames.insert(0, oldest_young);
            proof {
                assert(self.young_view() =~= placed.0.drop_last());
                assert((oldest_young.id, oldest_young.replaceable) == placed.0.last());
                assert(self.old_view() =~= seq![placed.0.last()] + placed.1);
            }
        }
        proof {
            lemma_record_wf(yl0, ol0, self.total_size, self.max_young_size, fid, metadata);
        }
        Ok(())
    }

    /// Whether the young list holds `fid`.
    pub fn contains_young(&self, fid: usize) -> (r: bool)
        ensures
            r == has_id(self.young_view(), fid),
    {
        let p = position_of(&self.young_frames, fid);
        match p {
            Some(i) => {
                assert(self.young_view()[i as int].0 == fid);
                true
            },
            None => {
                assert(!has_id(self.young_view(), fid)) by {
                    assert(forall|j: int|
                        0 <= j < self.young_view().len() ==> self.young_view()[j].0
                            != fid);
                }
                false
            },
        }
    }

    /// Whether the old list holds `fid`.
    pub fn contains_old(&self, fid: usize) -> (r: bool)
        ensures
            r == has_id(self.old_view(), fid),
    {
        let p = position_of(&self.old_frames, fid);
        match p {
            Some(i) => {
                assert(self.old_view()[i as int].0 == fid);
                true
            },
            None => {
                assert(!has_id(self.old_view(), fid)) by {
                    assert(forall|j: int|
                        0 <= j < self.old_view().len() ==> self.old_view()[j].0 != fid);
                }
                false
            },
        }
    }
}

/// The first position of `fid` in `v`, if any.
fn position_of(v: &Vec<MySQLReplacerNode>, fid: usize) -> (r: Option<usize>)
    ensures
        match r {
            Some(i) => i < v@.len() && v@[i as int].id == fid,
            None => forall|j: int| 0 <= j < v@.len() ==> v@[j].id != fid,
        },
{
    let mut i: usize = 0;
    while i < v.len()
        invariant
            i <= v@.len(),
            forall|j: int| 0 <= j < i ==> v@[j].id != fid,
        decreases v@.len() - i,
    {
        if v[i].id == fid {
            return Some(i);
        }
        i = i + 1;
    }
    None
}

/// Steps 1 to 3 of `record`: relocate a known id, or insert a new one.  A
/// known id moves to the head of its target list with its pin flag cleared;
/// a new id enters at the head of the old list, after the old list's head is
/// promoted to the head of the young list when the old list is full.
pub open spec fn record_place(
    yl: Seq<(usize, bool)>,
    ol: Seq<(usize, bool)>,
    old_cap: int,
    fid: usize,
    kind: AccessType,
) -> (Seq<(usize, bool)>, Seq<(usize, bool)>) {
    if has_id(ol, fid) {
        let ol2 = ol.remove(index_of_id(ol, fid));
        if kind == AccessType::Lookup {
            (seq![(fid, true)] + yl, ol2)
        } else {
            (yl, seq![(fid, true)] + ol2)
        }
    } else if has_id(yl, fid) {
        (seq![(fid, true)] + yl.remove(index_of_id(yl, fid)), ol)
    } else if ol.len() >= old_cap {
        (seq![ol[0]] + yl, seq![(fid, true)] + ol.drop_first())
    } else {
        (yl, seq![(fid, true)] + ol)
    }
}

/// Step 4 of `record`: when the young list runs over its capacity, its tail
/// entry moves back to the head of the old list.
pub open spec fn record_demote(
    yl: Seq<(usize, bool)>,
    ol: Seq<(usize, bool)>,
    maxy: int,
) -> (Seq<(usize, bool)>, Seq<(usize, bool)>) {
    if yl.len() > maxy {
        (yl.drop_last(), seq![yl.last()] + ol)
    } else {
        (yl, ol)
    }
}

/// What `record` leaves in the two lists.
pub open spec fn record_spec(
    yl: Seq<(usize, bool)>,
    ol: Seq<(usize, bool)>,
    cap: usize,
    maxy: usize,
    fid: usize,
    kind: AccessType,
) -> (Seq<(usize, bool)>, Seq<(usize, bool)>) {
    let placed = record_place(yl, ol, cap - maxy, fid, kind);
    record_demote(placed.0, placed.1, maxy as int)
}

/// No entry of `s` has id `fid`.
pub open spec fn id_absent(s: Seq<(usize, bool)>, fid: usize) -> bool {
    forall|i: int| 0 <= i < s.len() ==> s[i].0 != fid
}

/// No id occurs in both lists.
pub open spec fn lists_disjoint(a: Seq<(usize, bool)>, b: Seq<(usize, bool)>) -> bool {
    forall|i: int, j: int| 0 <= i < a.len() && 0 <= j < b.len() ==> a[i].0 != b[j].0
}

/// Putting a fresh, in-range entry at the head keeps a list well formed.
proof fn lemma_cons_wf(x: (usize, bool), s: Seq<(usize, bool)>, cap: usize)
    requires
        entries_wf(s, cap),
        x.0 < cap,
        id_absent(s, x.0),
    ensures
        entries_wf(seq![x] + s, cap),
{
    let t = seq![x] + s;
    assert forall|i: int, j: int| 0 <= i < j < t.len() implies t[i].0 != t[j].0 by {
        if i == 0 {
            assert(t[j] == s[j - 1]);
        } else {
            assert(t[i] == s[i - 1] && t[j] == s[j - 1]);
        }
    }
    assert forall|i: int| 0 <= i < t.len() implies t[i].0 < cap by {
        if i > 0 {
            assert(t[i] == s[i - 1]);
        }
    }
}

/// A head entry absent from the other list keeps the lists disjoint.
proof fn lemma_disjoint_cons_left(x: (usize, bool), a: Seq<(usize, bool)>, b: Seq<(usize, bool)>)
    requires
        lists_disjoint(a, b),
        id_absent(b, x.0),
    ensures
        lists_disjoint(seq![x] + a, b),
{
    let t = seq![x] + a;
    assert forall|i: int, j: int|
        0 <= i < t.len() && 0 <= j < b.len() implies t[i].0 != b[j].0 by {
        if i > 0 {
            assert(t[i] == a[i - 1]);
        }
    }
}

/// Symmetric to `lemma_disjoint_cons_left`.
proof fn lemma_disjoint_cons_right(x: (usize, bool), a: Seq<(usize, bool)>, b: Seq<(usize, bool)>)
    requires
        lists_disjoint(a, b),
        id_absent(a, x.0),
    ensures
        lists_disjoint(a, seq![x] + b),
{
    let t = seq![x] + b;
    assert forall|i: int, j: int|
        0 <= i < a.len() && 0 <= j < t.len() implies a[i].0 != t[j].0 by {
        if j > 0 {
            assert(t[j] == b[j - 1]);
        }
    }
}

/// What removal keeps: well-formedness, absences, disjointness, and it
/// leaves the removed entry's id behind when ids were distinct.
proof fn lemma_remove_wf(s: Seq<(usize, bool)>, cap: usize, i: int)
    requires
        entries_wf(s, cap),
        0 <= i < s.len(),
    ensures
        entries_wf(s.remove(i), cap),
        id_absent(s.remove(i), s[i].0),
        forall|g: usize| id_absent(s, g) ==> id_absent(s.remove(i), g),
{
    lemma_entries_after_remove(s, i);
}

/// Removal on either side keeps the lists disjoint.
proof fn lemma_disjoint_remove(a: Seq<(usize, bool)>, b: Seq<(usize, bool)>, i: int)
    requires
        lists_disjoint(a, b),
        0 <= i < b.len(),
    ensures
        lists_disjoint(a, b.remove(i)),
{
    lemma_entries_after_remove(b, i);
}

/// Pigeonhole: distinct ids below `n`, all different from a further id that
/// is also below `n`, number fewer than `n`.
pub proof fn lemma_distinct_ids_bound(s: Seq<usize>, n: usize, fid: usize)
    requires
        s.no_duplicates(),
        forall|i: int| 0 <= i < s.len() ==> s[i] < n,
        forall|i: int| 0 <= i < s.len() ==> s[i] != fid,
        fid < n,
    ensures
        s.len() < n,
{
    broadcast use vstd::set::group_set_axioms;

    let si = s.map_values(|x: usize| x as int);
    assert forall|i: int, j: int|
        (0 <= i < si.len() && 0 <= j < si.len() && i != j) implies si[i] != si[j] by {
        assert(s[i] != s[j]);
    }
    si.unique_seq_to_set();
    lemma_int_range(0, n as int);
    let rng = set_int_range(0, n as int).remove(fid as int);
    assert forall|x: int| si.to_set().contains(x) implies rng.contains(x) by {
        let k = choose|k: int| 0 <= k < si.len() && si[k] == x;
        assert(s[k] < n && s[k] != fid);
    }
    assert(si.to_set().subset_of(rng));
    lemma_len_subset(si.to_set(), rng);
    assert(set_int_range(0, n as int).contains(fid as int));
    assert(rng.len() == n - 1);
}

/// A replaceable entry with none behind it is the tail-most replaceable one.
proof fn lemma_last_replaceable(s: Seq<(usize, bool)>, i: int)
    requires
        0 <= i < s.len(),
        s[i].1,
        forall|j: int| i < j < s.len() ==> !s[j].1,
    ensures
        last_replaceable(s) == i,
    decreases s.len(),
{
    if i == s.len() - 1 {
    } else {
        assert(!s.last().1);
        lemma_last_replaceable(s.drop_last(), i);
    }
}

/// With every entry pinned, there is no tail-most replaceable entry.
proof fn lemma_none_replaceable(s: Seq<(usize, bool)>)
    requires
        forall|j: int| 0 <= j < s.len() ==> !s[j].1,
    ensures
        last_replaceable(s) == -1,
    decreases s.len(),
{
    if s.len() > 0 {
        lemma_none_replaceable(s.drop_last());
    }
}

/// Removing the entry at `i` shifts the entries behind it down by one.
proof fn lemma_entries_after_remove(s: Seq<(usize, bool)>, i: int)
    requires
        0 <= i < s.len(),
    ensures
        s.remove(i).len() == s.len() - 1,
        forall|j: int|
            0 <= j < s.remove(i).len() ==> (#[trigger] s.remove(i)[j]) == (if j < i {
                s[j]
            } else {
                s[j + 1]
            }),
{
    assert forall|j: int| 0 <= j < s.remove(i).len() implies (#[trigger] s.remove(i)[j]) == (
    if j < i {
        s[j]
    } else {
        s[j + 1]
    }) by {
        if j < i {
            assert(s.remove(i)[j] == s[j]);
        } else {
            assert(s.remove(i)[j] == s[j + 1]);
        }
    }
}

/// The replaceable count never exceeds the length.
proof fn lemma_count_le_len(s: Seq<(usize, bool)>)
    ensures
        0 <= count_replaceable(s) <= s.len(),
    decreases s.len(),
{
    if s.len() > 0 {
        lemma_count_le_len(s.drop_last());
    }
}

/// Extending a prefix by one entry raises the count by that entry's flag.
proof fn lemma_count_take_step(s: Seq<(usize, bool)>, i: int)
    requires
        0 <= i < s.len(),
    ensures
        count_replaceable(s.take(i + 1)) == count_replaceable(s.take(i)) + if s[i].1 {
            1int
        } else {
            0int
        },
{
    assert(s.take(i + 1).drop_last() =~= s.take(i));
    assert(s.take(i + 1).last() == s[i]);
}

/// In a list with distinct ids, a position holding `fid` is the unique one.
pub proof fn lemma_found_index(s: Seq<(usize, bool)>, fid: usize, i: int)
    requires
        0 <= i < s.len(),
        s[i].0 == fid,
        forall|p: int, q: int| 0 <= p < q < s.len() ==> s[p].0 != s[q].0,
    ensures
        has_id(s, fid),
        index_of_id(s, fid) == i,
{
    assert(has_id(s, fid));
    let j = index_of_id(s, fid);
    if i < j {
        assert(s[i].0 != s[j].0);
    } else if j < i {
        assert(s[j].0 != s[i].0);
    }
}

impl From<usize> for MySQLReplacerNode {
    /// A fresh entry starts replaceable.
    fn from(value: usize) -> (r: MySQLReplacerNode) {
        MySQLReplacerNode { id: value, replaceable: true }
    }
}

impl vstd::std_specs::convert::FromSpecImpl<usize> for MySQLReplacerNode {
    closed spec fn obeys_from_spec() -> bool {
        true
    }

    closed spec fn from_spec(v: usize) -> MySQLReplacerNode {
        MySQLReplacerNode { id: v, replaceable: true }
    }
}

/// `record`'s result respects the capacities, keeps ids distinct and in
/// range, and keeps the two lists disjoint.
proof fn lemma_record_wf(
    yl: Seq<(usize, bool)>,
    ol: Seq<(usize, bool)>,
    cap: usize,
    maxy: usize,
    fid: usize,
    kind: AccessType,
)
    requires
        maxy <= cap,
        cap > 0 ==> maxy < cap,
        yl.len() <= maxy,
        ol.len() + maxy <= cap,
        entries_wf(yl, cap),
        entries_wf(ol, cap),
        lists_disjoint(yl, ol),
        fid < cap,
    ensures
        ({
            let r = record_spec(yl, ol, cap, maxy, fid, kind);
            &&& r.0.len() <= maxy
            &&& r.1.len() + maxy <= cap
            &&& entries_wf(r.0, cap)
            &&& entries_wf(r.1, cap)
            &&& lists_disjoint(r.0, r.1)
        }),
{
    let old_cap = cap - maxy;
    let placed = record_place(yl, ol, old_cap as int, fid, kind);
    let y2 = placed.0;
    let o2 = placed.1;
    if has_id(ol, fid) {
        let i = index_of_id(ol, fid);
        assert(0 <= i < ol.len() && ol[i].0 == fid);
        let ol2 = ol.remove(i);
        lemma_remove_wf(ol, cap, i);
        lemma_disjoint_remove(yl, ol, i);
        assert(id_absent(yl, fid));
        if kind == AccessType::Lookup {
            lemma_cons_wf((fid, true), yl, cap);
            lemma_disjoint_cons_left((fid, true), yl, ol2);
        } else {
            lemma_cons_wf((fid, true), ol2, cap);
            lemma_disjoint_cons_right((fid, true), yl, ol2);
        }
    } else if has_id(yl, fid) {
        let i = index_of_id(yl, fid);
        assert(0 <= i < yl.len() && yl[i].0 == fid);
        lemma_remove_wf(yl, cap, i);
        lemma_entries_after_remove(yl, i);
        assert(lists_disjoint(yl.remove(i), ol));
        assert(id_absent(ol, fid));
        lemma_cons_wf((fid, true), yl.remove(i), cap);
        lemma_disjoint_cons_left((fid, true), yl.remove(i), ol);
    } else if ol.len() >= old_cap {
        let yids = yl.map_values(|p: (usize, bool)| p.0);
        let oids = ol.map_values(|p: (usize, bool)| p.0);
        let ids = yids + oids;
        assert forall|i: int, j: int|
            (0 <= i < ids.len() && 0 <= j < ids.len() && i != j) implies ids[i] != ids[j] by {
            if i < yids.len() {
                if j < yids.len() {
                    assert(ids[i] == yl[i].0 && ids[j] == yl[j].0);
                } else {
                    assert(ids[i] == yl[i].0 && ids[j] == ol[j - yids.len()].0);
                }
            } else {
                if j < yids.len() {
                    assert(ids[i] == ol[i - yids.len()].0 && ids[j] == yl[j].0);
                } else {
                    assert(ids[i] == ol[i - yids.len()].0 && ids[j] == ol[j - yids.len()].0);
                }
            }
        }
        assert forall|i: int| 0 <= i < ids.len() implies ids[i] < cap && ids[i] != fid by {
            if i < yids.len() {
                assert(ids[i] == yl[i].0);
            } else {
                assert(ids[i] == ol[i - yids.len()].0);
            }
        }
        lemma_distinct_ids_bound(ids, cap, fid);
        assert(yl.len() + ol.len() < cap);
        assert(ol.len() == old_cap);
        assert(yl.len() < maxy);
        assert(ol.len() > 0);
        assert(id_absent(yl, ol[0].0));
        lemma_cons_wf(ol[0], yl, cap);
        assert(ol.drop_first() =~= ol.remove(0));
        lemma_remove_wf(ol, cap, 0);
        lemma_cons_wf((fid, true), ol.remove(0), cap);
        lemma_disjoint_remove(yl, ol, 0);
        lemma_disjoint_cons_right((fid, true), yl, ol.remove(0));
        assert(id_absent(seq![(fid, true)] + ol.remove(0), ol[0].0)) by {
            let t = seq![(fid, true)] + ol.remove(0);
            assert forall|j: int| 0 <= j < t.len() implies t[j].0 != ol[0].0 by {
                if j > 0 {
                    assert(t[j] == ol.remove(0)[j - 1]);
                }
            }
        }
        lemma_disjoint_cons_left(ol[0], yl, seq![(fid, true)] + ol.remove(0));
    } else {
        assert(id_absent(ol, fid));
        assert(id_absent(yl, fid));
        lemma_cons_wf((fid, true), ol, cap);
        lemma_disjoint_cons_right((fid, true), yl, ol);
    }
    assert(entries_wf(y2, cap));
    assert(entries_wf(o2, cap));
    assert(lists_disjoint(y2, o2));
    assert(y2.len() <= maxy + 1);
    assert(o2.len() <= old_cap);
    assert(y2.len() > maxy ==> o2.len() < old_cap);
    if y2.len() > maxy as int {
        let moved = y2.last();
        let y3 = y2.drop_last();
        assert(y3 =~= y2.remove(y2.len() - 1));
        lemma_remove_wf(y2, cap, y2.len() - 1);
        lemma_entries_after_remove(y2, y2.len() - 1);
        assert(id_absent(y3, moved.0));
        assert(id_absent(o2, moved.0));
        lemma_cons_wf(moved, o2, cap);
        assert(lists_disjoint(y3, o2));
        lemma_disjoint_cons_right(moved, y3, o2);
    }
}

/// The pin flag that the pair of lists as a whole records for `g`,
/// consulting the old list first as lookups do.
pub open spec fn entry_flag(yl: Seq<(usize, bool)>, ol: Seq<(usize, bool)>, g: usize) -> bool {
    if has_id(ol, g) {
        ol[index_of_id(ol, g)].1
    } else {
        yl[index_of_id(yl, g)].1
    }
}

/// What `last_replaceable` names: a real index with a raised flag, or no
/// raised flag anywhere.
pub proof fn lemma_last_replaceable_props(s: Seq<(usize, bool)>)
    ensures
        last_replaceable(s) >= 0 ==> 0 <= last_replaceable(s) < s.len() && s[last_replaceable(
            s,
        )].1,
        last_replaceable(s) < 0 ==> forall|i: int| 0 <= i < s.len() ==> !(#[trigger] s[i].1),
    decreases s.len(),
{
    if s.len() > 0 && !s.last().1 {
        lemma_last_replaceable_props(s.drop_last());
        if last_replaceable(s) < 0 {
            assert forall|i: int| 0 <= i < s.len() implies !(#[trigger] s[i].1) by {
                if i < s.len() - 1 {
                    assert(s.drop_last()[i] == s[i]);
                }
            }
        }
    }
}

/// Removing the entry at `i` from a list with distinct ids: its id leaves,
/// every other id stays with its flag.
pub proof fn lemma_remove_entry_effects(s: Seq<(usize, bool)>, i: int)
    requires
        0 <= i < s.len(),
        forall|p: int, q: int| 0 <= p < q < s.len() ==> s[p].0 != s[q].0,
    ensures
        !has_id(s.remove(i), s[i].0),
        forall|g: usize| g != s[i].0 ==> has_id(s.remove(i), g) == has_id(s, g),
        forall|g: usize|
            g != s[i].0 && has_id(s, g) ==> s.remove(i)[index_of_id(s.remove(i), g)].1
                == s[#[trigger] index_of_id(s, g)].1,
{
    lemma_entries_after_remove(s, i);
    let t = s.remove(i);
    assert forall|g: usize| g != s[i].0 implies has_id(t, g) == has_id(s, g) by {
        if has_id(s, g) {
            let j = index_of_id(s, g);
            assert(0 <= j < s.len() && s[j].0 == g);
            if j < i {
                assert(t[j] == s[j]);
            } else {
                assert(j > i);
                assert(t[j - 1] == s[j]);
            }
            assert(has_id(t, g));
        } else {
            if has_id(t, g) {
                let j = index_of_id(t, g);
                assert(0 <= j < t.len() && t[j].0 == g);
                if j < i {
                    assert(s[j].0 == g);
                } else {
                    assert(s[j + 1].0 == g);
                }
                assert(has_id(s, g));
            }
        }
    }
    assert forall|g: usize| g != s[i].0 && has_id(s, g) implies t[index_of_id(t, g)].1 == s[
    #[trigger] index_of_id(s, g)].1 by {
        let j = index_of_id(s, g);
        assert(0 <= j < s.len() && s[j].0 == g);
        if j < i {
            assert(t[j] == s[j]);
            lemma_found_index_sub(t, g, j);
        } else {
            assert(j > i);
            assert(t[j - 1] == s[j]);
            lemma_found_index_sub(t, g, j - 1);
        }
    }
}

/// Putting a fresh entry at the head: its id arrives with its flag, every
/// other id stays with its flag.
pub proof fn lemma_cons_entry_effects(x: (usize, bool), s: Seq<(usize, bool)>)
    requires
        id_absent(s, x.0),
        forall|p: int, q: int| 0 <= p < q < s.len() ==> s[p].0 != s[q].0,
    ensures
        has_id(seq![x] + s, x.0),
        (seq![x] + s)[index_of_id(seq![x] + s, x.0)].1 == x.1,
        forall|g: usize| g != x.0 ==> has_id(seq![x] + s, g) == has_id(s, g),
        forall|g: usize|
            g != x.0 && has_id(s, g) ==> (seq![x] + s)[index_of_id(seq![x] + s, g)].1 == s[
            #[trigger] index_of_id(s, g)].1,
{
    let t = seq![x] + s;
    assert(t[0] == x);
    assert forall|p: int, q: int| 0 <= p < q < t.len() implies t[p].0 != t[q].0 by {
        if p == 0 {
            assert(t[q] == s[q - 1]);
        } else {
            assert(t[p] == s[p - 1] && t[q] == s[q - 1]);
        }
    }
    lemma_found_index_sub(t, x.0, 0);
    assert forall|g: usize| g != x.0 implies has_id(t, g) == has_id(s, g) by {
        if has_id(s, g) {
            let j = index_of_id(s, g);
            assert(t[j + 1] == s[j]);
            assert(has_id(t, g));
        } else {
            if has_id(t, g) {
                let j = index_of_id(t, g);
                assert(t[j].0 == g && j > 0);
                assert(s[j - 1].0 == g);
            }
        }
    }
    assert forall|g: usize| g != x.0 && has_id(s, g) implies t[index_of_id(t, g)].1 == s[
    #[trigger] index_of_id(s, g)].1 by {
        let j = index_of_id(s, g);
        assert(0 <= j < s.len() && s[j].0 == g);
        assert(t[j + 1] == s[j]);
        lemma_found_index_sub(t, g, j + 1);
    }
}

/// Rewriting the flag at `i`: that id's flag becomes the new one, every
/// other id keeps its flag.
pub proof fn lemma_update_entry_effects(s: Seq<(usize, bool)>, i: int, v: bool)
    requires
        0 <= i < s.len(),
        forall|p: int, q: int| 0 <= p < q < s.len() ==> s[p].0 != s[q].0,
    ensures
        ({
            let t = s.update(i, (s[i].0, v));
            &&& forall|g: usize| has_id(t, g) == has_id(s, g)
            &&& t[index_of_id(t, s[i].0)].1 == v
            &&& forall|g: usize|
                g != s[i].0 && has_id(s, g) ==> t[index_of_id(t, g)].1 == s[#[trigger] index_of_id(
                    s,
                    g,
                )].1
        }),
{
    let t = s.update(i, (s[i].0, v));
    assert forall|g: usize| has_id(t, g) == has_id(s, g) by {
        if has_id(s, g) {
            let j = index_of_id(s, g);
            assert(t[j].0 == g);
            assert(has_id(t, g));
        }
        if has_id(t, g) {
            let j = index_of_id(t, g);
            assert(s[j].0 == g);
            assert(has_id(s, g));
        }
    }
    assert forall|p: int, q: int| 0 <= p < q < t.len() implies t[p].0 != t[q].0 by {
        assert(t[p].0 == s[p].0 && t[q].0 == s[q].0);
    }
    assert(t[i].0 == s[i].0);
    lemma_found_index_sub(t, s[i].0, i);
    assert forall|g: usize| g != s[i].0 && has_id(s, g) implies t[index_of_id(t, g)].1 == s[
    #[trigger] index_of_id(s, g)].1 by {
        let j = index_of_id(s, g);
        assert(0 <= j < s.len() && s[j].0 == g && j != i);
        assert(t[j] == s[j]);
        lemma_found_index_sub(t, g, j);
    }
}

/// As `lemma_found_index`, stated over distinct-id lists given pairwise
/// distinctness directly.
proof fn lemma_found_index_sub(s: Seq<(usize, bool)>, fid: usize, i: int)
    requires
        0 <= i < s.len(),
        s[i].0 == fid,
        forall|p: int, q: int| 0 <= p < q < s.len() ==> s[p].0 != s[q].0,
    ensures
        has_id(s, fid),
        index_of_id(s, fid) == i,
{
    lemma_found_index(s, fid, i);
}

/// Ids of `s` are pairwise distinct.
pub open spec fn ids_distinct(s: Seq<(usize, bool)>) -> bool {
    forall|p: int, q: int| 0 <= p < q < s.len() ==> s[p].0 != s[q].0
}

/// Union-level effect of removing an old-list entry: its id leaves the
/// pair, every other id keeps its presence and its flag.
pub proof fn lemma_union_remove_old(yl: Seq<(usize, bool)>, ol: Seq<(usize, bool)>, i: int)
    requires
        0 <= i < ol.len(),
        ids_distinct(yl),
        ids_distinct(ol),
    ensures
        !has_id(ol.remove(i), ol[i].0),
        forall|g: usize|
            g != ol[i].0 ==> (has_id(yl, g) || has_id(ol.remove(i), g)) == (has_id(yl, g)
                || has_id(ol, g)),
        forall|g: usize|
            g != ol[i].0 && (has_id(yl, g) || has_id(ol, g)) ==> entry_flag(yl, ol.remove(i), g)
                == entry_flag(yl, ol, g),
{
    lemma_remove_entry_effects(ol, i);
    assert forall|g: usize|
        g != ol[i].0 && (has_id(yl, g) || has_id(ol, g)) implies entry_flag(yl, ol.remove(i), g)
        == entry_flag(yl, ol, g) by {
        if has_id(ol, g) {
            assert(ol.remove(i)[index_of_id(ol.remove(i), g)].1 == ol[index_of_id(ol, g)].1);
        }
    }
}

/// Union-level effect of removing a young-list entry.
pub proof fn lemma_union_remove_young(yl: Seq<(usize, bool)>, ol: Seq<(usize, bool)>, i: int)
    requires
        0 <= i < yl.len(),
        ids_distinct(yl),
        ids_distinct(ol),
    ensures
        !has_id(yl.remove(i), yl[i].0),
        forall|g: usize|
            g != yl[i].0 ==> (has_id(yl.remove(i), g) || has_id(ol, g)) == (has_id(yl, g)
                || has_id(ol, g)),
        forall|g: usize|
            g != yl[i].0 && (has_id(yl, g) || has_id(ol, g)) ==> entry_flag(yl.remove(i), ol, g)
                == entry_flag(yl, ol, g),
{
    lemma_remove_entry_effects(yl, i);
    assert forall|g: usize|
        g != yl[i].0 && (has_id(yl, g) || has_id(ol, g)) implies entry_flag(yl.remove(i), ol, g)
        == entry_flag(yl, ol, g) by {
        if !has_id(ol, g) && has_id(yl, g) {
            assert(yl.remove(i)[index_of_id(yl.remove(i), g)].1 == yl[index_of_id(yl, g)].1);
        }
    }
}

/// Union-level effect of a fresh entry at the young head: its id arrives
/// with its flag when the old list does not hold it, every other id keeps
/// its presence and its flag.
pub proof fn lemma_union_cons_young(x: (usize, bool), yl: Seq<(usize, bool)>, ol: Seq<(usize, bool)>)
    requires
        ids_distinct(yl),
        id_absent(yl, x.0),
    ensures
        has_id(seq![x] + yl, x.0),
        !has_id(ol, x.0) ==> entry_flag(seq![x] + yl, ol, x.0) == x.1,
        forall|g: usize|
            g != x.0 ==> (has_id(seq![x] + yl, g) || has_id(ol, g)) == (has_id(yl, g) || has_id(
                ol,
                g,
            )),
        forall|g: usize|
            g != x.0 && (has_id(yl, g) || has_id(ol, g)) ==> entry_flag(seq![x] + yl, ol, g)
                == entry_flag(yl, ol, g),
{
    lemma_cons_entry_effects(x, yl);
    assert forall|g: usize|
        g != x.0 && (has_id(yl, g) || has_id(ol, g)) implies entry_flag(seq![x] + yl, ol, g)
        == entry_flag(yl, ol, g) by {
        if !has_id(ol, g) && has_id(yl, g) {
            assert((seq![x] + yl)[index_of_id(seq![x] + yl, g)].1 == yl[index_of_id(yl, g)].1);
        }
    }
}

/// Union-level effect of a fresh entry at the old head.
pub proof fn lemma_union_cons_old(x: (usize, bool), yl: Seq<(usize, bool)>, ol: Seq<(usize, bool)>)
    requires
        ids_distinct(ol),
        id_absent(ol, x.0),
    ensures
        has_id(seq![x] + ol, x.0),
        entry_flag(yl, seq![x] + ol, x.0) == x.1,
        forall|g: usize|
            g != x.0 ==> (has_id(yl, g) || has_id(seq![x] + ol, g)) == (has_id(yl, g) || has_id(
                ol,
                g,
            )),
        forall|g: usize|
            g != x.0 && (has_id(yl, g) || has_id(ol, g)) ==> entry_flag(yl, seq![x] + ol, g)
                == entry_flag(yl, ol, g),
{
    lemma_cons_entry_effects(x, ol);
    assert forall|g: usize|
        g != x.0 && (has_id(yl, g) || has_id(ol, g)) implies entry_flag(yl, seq![x] + ol, g)
        == entry_flag(yl, ol, g) by {
        if has_id(ol, g) {
            assert((seq![x] + ol)[index_of_id(seq![x] + ol, g)].1 == ol[index_of_id(ol, g)].1);
        }
    }
}

/// What `record` does to the recorded pair of lists as a whole: the
/// recorded id is present and unpinned afterwards, and every other id keeps
/// exactly its presence and its pin flag.
pub proof fn lemma_record_effects(
    yl: Seq<(usize, bool)>,
    ol: Seq<(usize, bool)>,
    cap: usize,
    maxy: usize,
    fid: usize,
    kind: AccessType,
)
    requires
        maxy <= cap,
        cap > 0 ==> maxy < cap,
        yl.len() <= maxy,
        ol.len() + maxy <= cap,
        entries_wf(yl, cap),
        entries_wf(ol, cap),
        lists_disjoint(yl, ol),
        fid < cap,
    ensures
        ({
            let r = record_spec(yl, ol, cap, maxy, fid, kind);
            &&& has_id(r.0, fid) || has_id(r.1, fid)
            &&& entry_flag(r.0, r.1, fid)
            &&& forall|g: usize|
                g != fid ==> (has_id(r.0, g) || has_id(r.1, g)) == (has_id(yl, g) || has_id(
                    ol,
                    g,
                ))
            &&& forall|g: usize|
                g != fid && (has_id(yl, g) || has_id(ol, g)) ==> entry_flag(r.0, r.1, g)
                    == entry_flag(yl, ol, g)
        }),
{
    lemma_record_wf(yl, ol, cap, maxy, fid, kind);
    let old_cap = cap - maxy;
    let placed = record_place(yl, ol, old_cap as int, fid, kind);
    let y2 = placed.0;
    let o2 = placed.1;
    // steps 1-3, branch by branch
    if has_id(ol, fid) {
        let i = index_of_id(ol, fid);
        assert(0 <= i < ol.len() && ol[i].0 == fid);
        lemma_union_remove_old(yl, ol, i);
        if kind == AccessType::Lookup {
            lemma_union_cons_young((fid, true), yl, ol.remove(i));
        } else {
            lemma_remove_entry_effects(ol, i);
            lemma_union_cons_old((fid, true), yl, ol.remove(i));
        }
    } else if has_id(yl, fid) {
        let i = index_of_id(yl, fid);
        assert(0 <= i < yl.len() && yl[i].0 == fid);
        lemma_union_remove_young(yl, ol, i);
        lemma_remove_entry_effects(yl, i);
        lemma_union_cons_young((fid, true), yl.remove(i), ol);
    } else if ol.len() >= old_cap {
        assert(ol.len() > 0);
        let m = ol[0];
        assert(ol.drop_first() =~= ol.remove(0));
        lemma_union_remove_old(yl, ol, 0);
        lemma_union_cons_young(m, yl, ol.remove(0));
        lemma_union_cons_old((fid, true), seq![m] + yl, ol.remove(0));
        // the promoted head keeps its flag: it sat at index 0 of the old list
        assert(entry_flag(yl, ol, m.0) == m.1) by {
            lemma_found_index_sub(ol, m.0, 0);
        }
        assert(entry_flag(y2, o2, m.0) == m.1);
    } else {
        lemma_union_cons_old((fid, true), yl, ol);
    }
    assert(has_id(y2, fid) || has_id(o2, fid));
    assert(entry_flag(y2, o2, fid));
    assert(forall|g: usize|
        g != fid ==> (has_id(y2, g) || has_id(o2, g)) == (has_id(yl, g) || has_id(ol, g)));
    assert(forall|g: usize|
        g != fid && (has_id(yl, g) || has_id(ol, g)) ==> entry_flag(y2, o2, g) == entry_flag(
            yl,
            ol,
            g,
        ));
    // step 4: the demotion moves the young tail across with its flag
    if y2.len() > maxy as int {
        let m2 = y2.last();
        let n = y2.len() as int;
        assert(y2.drop_last() =~= y2.remove(n - 1));
        lemma_union_remove_young(y2, o2, n - 1);
        lemma_union_cons_old(m2, y2.remove(n - 1), o2);
        assert(entry_flag(y2, o2, m2.0) == m2.1) by {
            lemma_found_index_sub(y2, m2.0, n - 1);
        }
    }
}

/// Union-level effect of rewriting an old-list flag: that id's flag becomes
/// the new one, every other id keeps its presence and its flag.
pub proof fn lemma_union_update_old(yl: Seq<(usize, bool)>, ol: Seq<(usize, bool)>, i: int, v: bool)
    requires
        0 <= i < ol.len(),
        ids_distinct(ol),
    ensures
        ({
            let t = ol.update(i, (ol[i].0, v));
            &&& forall|g: usize|
                (has_id(yl, g) || has_id(t, g)) == (has_id(yl, g) || has_id(ol, g))
            &&& entry_flag(yl, t, ol[i].0) == v
            &&& forall|g: usize|
                g != ol[i].0 && (has_id(yl, g) || has_id(ol, g)) ==> entry_flag(yl, t, g)
                    == entry_flag(yl, ol, g)
        }),
{
    lemma_update_entry_effects(ol, i, v);
    let t = ol.update(i, (ol[i].0, v));
    assert(t[i].0 == ol[i].0);
    assert(has_id(t, ol[i].0));
    assert forall|g: usize|
        g != ol[i].0 && (has_id(yl, g) || has_id(ol, g)) implies entry_flag(yl, t, g)
        == entry_flag(yl, ol, g) by {
        if has_id(ol, g) {
            assert(t[index_of_id(t, g)].1 == ol[index_of_id(ol, g)].1);
        }
    }
}

/// Union-level effect of rewriting a young-list flag, for an id the old
/// list does not hold.
pub proof fn lemma_union_update_young(
    yl: Seq<(usize, bool)>,
    ol: Seq<(usize, bool)>,
    i: int,
    v: bool,
)
    requires
        0 <= i < yl.len(),
        ids_distinct(yl),
        id_absent(ol, yl[i].0),
    ensures
        ({
            let t = yl.update(i, (yl[i].0, v));
            &&& forall|g: usize|
                (has_id(t, g) || has_id(ol, g)) == (has_id(yl, g) || has_id(ol, g))
            &&& entry_flag(t, ol, yl[i].0) == v
            &&& forall|g: usize|
                g != yl[i].0 && (has_id(yl, g) || has_id(ol, g)) ==> entry_flag(t, ol, g)
                    == entry_flag(yl, ol, g)
        }),
{
    lemma_update_entry_effects(yl, i, v);
    let t = yl.update(i, (yl[i].0, v));
    assert(t[i].0 == yl[i].0);
    assert(has_id(t, yl[i].0));
    assert(!has_id(ol, yl[i].0));
    assert forall|g: usize|
        g != yl[i].0 && (has_id(yl, g) || has_id(ol, g)) implies entry_flag(t, ol, g)
        == entry_flag(yl, ol, g) by {
        if !has_id(ol, g) && has_id(yl, g) {
            assert(t[index_of_id(t, g)].1 == yl[index_of_id(yl, g)].1);
        }
    }
}

/// Law: the replacer's partition.  The young list stays within its
/// capacity, the old list within the remainder, and no frame id is in
/// both lists.
pub proof fn lemma_replacer_partition(r: &MySQLReplacer)
    requires
        r.wf(),
    ensures
        r.young_view().len() <= r.max_young(),
        r.old_view().len() + r.max_young() <= r.capacity(),
        lists_disjoint(r.young_view(), r.old_view()),
{
}

} // verus!
