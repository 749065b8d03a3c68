//! Input-mode classification.
//!
//! The surrounding application routes key events by a single mode derived
//! from its overlay flags.  Only the mode vocabulary lives here; the event
//! routing itself is thin dispatch in the application shell.

use vstd::prelude::*;

verus! {

/// Application modes for cleaner event routing
#[derive(Debug, Clone, Copy, PartialEq, Eq, Structural)]
pub enum AppMode {
    /// Creating a new file
    FileCreation,
    /// File picker overlay is active
    FilePicker,
    /// Move destination picker is active
    MoveDestination,
    /// Git status display is active
    GitStatus,
    /// File operation mode (copy/move/etc.)
    Operation,
    /// Inline line editing mode
    LineEdit,
    /// Editor command mode
    EditorCommand,
    /// Raw editor mode
    RawEditor,
    /// Help screen is displayed
    Help,
    /// Delete confirmation dialog
    DeleteConfirmation,
    /// Normal browsing/navigation mode
    Normal,
}

} // verus!
