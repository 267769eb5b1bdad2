//! Dispatch strategies: resolving a task type tag to a handler id.

use vstd::prelude::*;

use crate::error::WeaverError;

verus! {

/// Maps a task type tag to the id of the handler that should run it.
pub trait DispatchStrategy {
    fn select_handler(&self, task_type: &str) -> Result<String, WeaverError>;
}

/// The identity mapping: every task type names its own handler.
#[derive(Debug, Clone, Copy, PartialEq, Eq, Structural)]
pub struct DirectDispatch;

impl DirectDispatch {
    pub fn new() -> Self {
        DirectDispatch
    }
}

impl Default for DirectDispatch {
    fn default() -> Self {
        Self::new()
    }
}

impl DispatchStrategy for DirectDispatch {
    fn select_handler(&self, task_type: &str) -> (r: Result<String, WeaverError>)
        ensures
            r is Ok,
            r->Ok_0@ == task_type@,
    {
        Ok(String::from_str(task_type))
    }
}

} // verus!
