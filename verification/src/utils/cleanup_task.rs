//! Files that are no longer needed.

use vstd::prelude::*;

verus! {

/// A file to be removed, by its number.
#[derive(Debug, Clone, Copy, PartialEq, Eq, Structural)]
pub enum CleanupTask {
    /// A table.
    Sstable(u64),
    /// A log.
    Wal(u64),
}

} // verus!
