//! The error taxonomy of the engine.
//!
//! Lookup misses carry the id that was asked for, illegal state transitions
//! carry the task id, and validation failures carry a short static message.
//! Infrastructure failures (database, migration, I/O) belong to the excluded
//! storage collaborator and have no counterpart here: the in-memory store
//! cannot fail that way.

use vstd::prelude::*;

verus! {

/// Everything an engine operation can fail with.
#[derive(Debug, Clone, Copy, PartialEq, Eq)]
pub enum ZapError {
    /// No task with the given id exists.
    TaskNotFound(u32),
    /// `start` was asked of a task that is not in the Todo state.
    TaskAlreadyStarted(u32),
    /// `stop` was asked of a task that is not Running.
    TaskNotStarted(u32),
    /// Reopening was asked of a task that is not Finished.
    TaskNotDone(u32),
    /// No category with the given id exists.
    CategoryNotFound(u32),
    /// No time entry with the given id exists.
    TimeEntryNotFound(u32),
    /// A task input failed validation (for example an empty title).
    InvalidTaskData(&'static str),
    /// A category input failed validation (an empty name, or a reference to
    /// a category that does not exist).
    InvalidCategoryData(&'static str),
    /// A category cannot be removed while tasks still reference it.
    CategoryHasTasks,
}

} // verus!
