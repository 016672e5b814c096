//! The error kinds that the pool reports.

use vstd::prelude::*;

verus! {

/// What went wrong during a pool operation.
#[derive(Clone, Copy, PartialEq, Eq, Structural, Debug)]
pub enum PoolError {
    /// A read, write or open against the backing store failed.
    IoError,
    /// A read or write moved fewer bytes than a whole page.
    ShortIo,
    /// Every frame is pinned; the caller may retry once a guard drops.
    NoFramesAvailable,
    /// A flush was asked of a page that is not in memory.
    NotResident,
    /// Internal bookkeeping disagrees with itself, e.g. the replacement
    /// policy and the page directory name different frames.
    InvariantViolation,
}

} // verus!
