//! Results and errors of task-manager operations.

use vstd::prelude::*;

verus! {

/// The result of a task-manager operation, with a message when it fails.
pub type TmResult<T = ()> = Result<T, String>;

/// An error that is thrown from within a managed task.
pub trait TaskError {
    /// Whether the task manager may carry on after this error.
    fn is_recoverable(&self) -> bool;
}

} // verus!
