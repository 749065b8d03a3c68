//! Git status vocabulary.
//!
//! Repository access itself is the application shell's business; only the
//! per-file status classification lives here.

use vstd::prelude::*;

verus! {

/// The status of one file against the repository's index and work tree.
#[derive(Debug, Clone, Copy, PartialEq, Eq, Structural)]
pub enum FileStatus {
    /// Unchanged since the last commit
    Unmodified,
    /// Newly added to the index or work tree
    Added,
    /// Changed in the index or work tree
    Modified,
    /// Deleted from the index or work tree
    Deleted,
    /// Renamed in the index or work tree
    Renamed,
    /// Copied from another file
    Copied,
    /// Not tracked by the repository
    Untracked,
    /// Matched by an ignore rule
    Ignored,
    /// Carrying a merge conflict
    Conflicted,
}

} // verus!
