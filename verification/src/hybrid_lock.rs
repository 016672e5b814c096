//! The hybrid lock: reader-writer bookkeeping with a version counter.
//!
//! A hybrid lock guards a value with shared readers and one exclusive
//! writer, and additionally keeps an `exclusive_locked` flag and a version
//! counter that is incremented at every write-guard release.  An optimistic
//! reader takes no lock at all: it notes the version, reads, and then
//! validates that the flag was clear before and after and that the version
//! did not move.  [`lemma_optimistic_read_safety`] proves that a validated
//! optimistic read observed no writer: along any run of lock transitions
//! whose ends are unlocked and share one version, the guarded value never
//! changed.

use vstd::prelude::*;

verus! {

/// One observable state of a hybrid lock together with the value it guards.
/// Used only in specifications: it is the vocabulary of the lock's
/// transition relation.
pub struct LockObservation<T> {
    /// The guarded value.
    pub value: T,
    /// The version counter, incremented at each write-guard release.
    pub version: nat,
    /// Whether a write guard is held.
    pub locked_exclusive: bool,
    /// How many read guards are held.
    pub readers: nat,
}

/// The transitions a hybrid lock admits: acquiring and releasing a read
/// guard, acquiring a write guard, mutating the value under the write
/// guard, and releasing the write guard, which first increments the version
/// and then clears the flag.
pub open spec fn lock_step<T>(pre: LockObservation<T>, post: LockObservation<T>) -> bool {
    ||| {
        // a reader enters: only while no writer holds the lock
        &&& !pre.locked_exclusive
        &&& post.value == pre.value
        &&& post.version == pre.version
        &&& post.locked_exclusive == pre.locked_exclusive
        &&& post.readers == pre.readers + 1
    }
    ||| {
        // a reader leaves
        &&& pre.readers > 0
        &&& post.value == pre.value
        &&& post.version == pre.version
        &&& post.locked_exclusive == pre.locked_exclusive
        &&& post.readers == pre.readers - 1
    }
    ||| {
        // a writer enters: alone, and the flag is raised
        &&& !pre.locked_exclusive
        &&& pre.readers == 0
        &&& post.value == pre.value
        &&& post.version == pre.version
        &&& post.locked_exclusive
        &&& post.readers == pre.readers
    }
    ||| {
        // the writer mutates the value, only under the raised flag
        &&& pre.locked_exclusive
        &&& post.version == pre.version
        &&& post.locked_exclusive
        &&& post.readers == pre.readers
    }
    ||| {
        // the writer leaves: the version moves and the flag falls
        &&& pre.locked_exclusive
        &&& post.value == pre.value
        &&& post.version == pre.version + 1
        &&& !post.locked_exclusive
        &&& post.readers == pre.readers
    }
}

/// A run of the lock: consecutive observations are related by `lock_step`.
pub open spec fn lock_trace<T>(tr: Seq<LockObservation<T>>) -> bool {
    forall|i: int| 0 <= i < tr.len() - 1 ==> lock_step(tr[i], #[trigger] tr[i + 1])
}

/// The version counter never goes backwards.
proof fn lemma_version_monotonic<T>(tr: Seq<LockObservation<T>>, i: int, j: int)
    requires
        lock_trace(tr),
        0 <= i <= j < tr.len(),
    ensures
        tr[i].version <= tr[j].version,
    decreases j - i,
{
    if i < j {
        lemma_version_monotonic(tr, i, j - 1);
        assert(lock_step(tr[j - 1], tr[j - 1 + 1]));
        assert(tr[j - 1 + 1] == tr[j]);
    }
}

/// Along a run of one version whose last state is unlocked, every state is
/// unlocked and the value never moves.
proof fn lemma_unlocked_trace<T>(tr: Seq<LockObservation<T>>)
    requires
        tr.len() > 0,
        lock_trace(tr),
        !tr.last().locked_exclusive,
        forall|i: int| 0 <= i < tr.len() ==> #[trigger] tr[i].version == tr.last().version,
    ensures
        forall|i: int|
            0 <= i < tr.len() ==> !(#[trigger] tr[i].locked_exclusive) && tr[i].value
                == tr.last().value,
    decreases tr.len(),
{
    if tr.len() > 1 {
        let n = tr.len() as int;
        assert(lock_step(tr[n - 2], tr[n - 2 + 1]));
        assert(tr[n - 2 + 1] == tr[n - 1]);
        // the step into the unlocked last state preserves the version, so it
        // is no write release; and no other step leaves a locked state
        // unlocked, so the state before it is unlocked and shares the value
        assert(!tr[n - 2].locked_exclusive && tr[n - 2].value == tr[n - 1].value);
        let pre = tr.drop_last();
        assert(lock_trace(pre)) by {
            assert(forall|i: int|
                0 <= i < pre.len() - 1 ==> lock_step(pre[i], #[trigger] pre[i + 1]));
        }
        lemma_unlocked_trace(pre);
        assert forall|i: int|
            0 <= i < tr.len() implies !(#[trigger] tr[i].locked_exclusive) && tr[i].value
            == tr.last().value by {
            if i < n - 1 {
                assert(pre[i] == tr[i]);
            }
        }
    }
}

/// Optimistic-read safety: a validated optimistic read observed no writer
/// in its critical window.  Whenever a run of the lock starts and ends with
/// the exclusive flag clear and an unchanged version counter — exactly what
/// the optimistic reader validates — no write guard was held at any point in
/// between, and the guarded value was the same throughout.
pub proof fn lemma_optimistic_read_safety<T>(tr: Seq<LockObservation<T>>)
    requires
        tr.len() > 0,
        lock_trace(tr),
        !tr.first().locked_exclusive,
        !tr.last().locked_exclusive,
        tr.first().version == tr.last().version,
    ensures
        forall|i: int| 0 <= i < tr.len() ==> !(#[trigger] tr[i].locked_exclusive),
        forall|i: int| 0 <= i < tr.len() ==> #[trigger] tr[i].value == tr.first().value,
{
    assert forall|i: int| 0 <= i < tr.len() implies #[trigger] tr[i].version
        == tr.last().version by {
        lemma_version_monotonic(tr, 0, i);
        lemma_version_monotonic(tr, i, tr.len() - 1);
    }
    lemma_unlocked_trace(tr);
    assert(!tr[0].locked_exclusive && tr[0].value == tr.last().value);
    assert forall|i: int| 0 <= i < tr.len() implies #[trigger] tr[i].value
        == tr.first().value by {
        assert(!tr[i].locked_exclusive && tr[i].value == tr.last().value);
    }
}

/// The version counter after one write-guard release.  The counter wraps
/// around at the top of its range, the usual compromise of version-counter
/// schemes; every release still changes the counter.
pub open spec fn version_next(v: u64) -> u64 {
    if v == u64::MAX {
        0
    } else {
        (v + 1) as u64
    }
}

/// The lock itself: the bookkeeping half of a reader-writer lock with a
/// version counter.  The pool couples one of these to each page's swip and
/// funnels every access through it, so the contracts here are the page's
/// exclusion discipline.
pub struct HybridLock {
    version: u64,
    locked_exclusive: bool,
    readers: usize,
}

impl HybridLock {
    /// The version counter.
    pub closed spec fn version_spec(&self) -> u64 {
        self.version
    }

    /// Whether a write guard is held.
    pub closed spec fn locked_spec(&self) -> bool {
        self.locked_exclusive
    }

    /// How many read guards are held.
    pub closed spec fn readers_spec(&self) -> usize {
        self.readers
    }

    /// No guard of either kind is held.
    pub open spec fn quiescent(&self) -> bool {
        !self.locked_spec() && self.readers_spec() == 0
    }

    /// A fresh lock: version zero, no guards.
    pub fn new() -> (r: HybridLock)
        ensures
            r.version_spec() == 0,
            r.quiescent(),
    {
        HybridLock { version: 0, locked_exclusive: false, readers: 0 }
    }

    /// Reads the version counter, for optimistic validation.
    pub fn current_version(&self) -> (v: u64)
        ensures
            v == self.version_spec(),
    {
        self.version
    }

    /// How many read guards are held.
    pub fn readers(&self) -> (r: usize)
        ensures
            r == self.readers_spec(),
    {
        self.readers
    }

    /// Whether a write guard is held, for optimistic validation.
    pub fn is_locked_exclusive(&self) -> (b: bool)
        ensures
            b == self.locked_spec(),
    {
        self.locked_exclusive
    }

    /// A reader enters.  Mirrors the read-acquire transition: only while no
    /// writer holds the lock.
    pub fn read_acquire(&mut self)
        requires
            !old(self).locked_spec(),
            old(self).readers_spec() < usize::MAX,
        ensures
            final(self).version_spec() == old(self).version_spec(),
            !final(self).locked_spec(),
            final(self).readers_spec() == old(self).readers_spec() + 1,
    {
        self.readers = self.readers + 1;
    }

    /// A reader leaves.
    pub fn read_release(&mut self)
        requires
            old(self).readers_spec() > 0,
        ensures
            final(self).version_spec() == old(self).version_spec(),
            final(self).locked_spec() == old(self).locked_spec(),
            final(self).readers_spec() == old(self).readers_spec() - 1,
    {
        self.readers = self.readers - 1;
    }

    /// The writer enters: alone, raising the exclusive flag.
    pub fn write_acquire(&mut self)
        requires
            old(self).quiescent(),
        ensures
            final(self).version_spec() == old(self).version_spec(),
            final(self).locked_spec(),
            final(self).readers_spec() == 0,
    {
        self.locked_exclusive = true;
    }

    /// The writer leaves: the version moves, then the flag falls.
    pub fn write_release(&mut self)
        requires
            old(self).locked_spec(),
        ensures
            final(self).version_spec() == version_next(old(self).version_spec()),
            !final(self).locked_spec(),
            final(self).readers_spec() == old(self).readers_spec(),
    {
        if self.version == u64::MAX {
            self.version = 0;
        } else {
            self.version = self.version + 1;
        }
        self.locked_exclusive = false;
    }

    /// The optimistic reader's validation: the flag is clear and the version
    /// has not moved since `pre_version` was read.
    pub fn validate(&self, pre_version: u64) -> (ok: bool)
        ensures
            ok == (!self.locked_spec() && self.version_spec() == pre_version),
    {
        !self.locked_exclusive && self.version == pre_version
    }
}

} // verus!
