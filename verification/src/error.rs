//! Engine-level errors.

use vstd::prelude::*;

use crate::ids::{JobId, TaskId};
use crate::task::TaskType;

verus! {

/// Mathematical image of a [`WeaverError`].
pub ghost enum WeaverErrorView {
    HandlerNotFound(Seq<char>),
    DuplicateHandler(Seq<char>),
    DependencyCycle(Seq<usize>),
    InvalidDependency { task_index: usize, depends_on: usize },
    UnknownJob(JobId),
    UnknownTask(TaskId),
    TaskNotRunning(TaskId),
    RetryBudgetExhausted(TaskId),
    MissingExpectedTaskType(Seq<char>),
    Other(Seq<char>),
}

/// Everything that can go wrong at the engine's surface. Handler errors
/// never appear here: workers turn them into failure outcomes.
#[derive(Debug)]
pub enum WeaverError {
    /// No handler exists under the given task type.
    HandlerNotFound(TaskType),
    /// A handler already exists under the given task type.
    DuplicateHandler(TaskType),
    /// The submitted dependencies contain a cycle; the positions (within
    /// the submitted task list) form a closed path.
    DependencyCycle(Vec<usize>),
    /// A declared dependency points outside the submitted task list.
    InvalidDependency { task_index: usize, depends_on: usize },
    /// No job with this id exists.
    UnknownJob(JobId),
    /// No task with this id exists.
    UnknownTask(TaskId),
    /// The operation needs a running task, but this one is not running.
    TaskNotRunning(TaskId),
    /// A retry was requested for a task whose attempt budget is spent.
    RetryBudgetExhausted(TaskId),
    /// An expected task type was not registered before the build.
    MissingExpectedTaskType(String),
    /// Anything else, described in text.
    Other(String),
}

impl View for WeaverError {
    type V = WeaverErrorView;

    open spec fn view(&self) -> WeaverErrorView {
        match self {
            WeaverError::HandlerNotFound(t) => WeaverErrorView::HandlerNotFound(t@),
            WeaverError::DuplicateHandler(t) => WeaverErrorView::DuplicateHandler(t@),
            WeaverError::DependencyCycle(p) => WeaverErrorView::DependencyCycle(p@),
            WeaverError::InvalidDependency { task_index, depends_on } =>
                WeaverErrorView::InvalidDependency {
                task_index: *task_index,
                depends_on: *depends_on,
            },
            WeaverError::UnknownJob(j) => WeaverErrorView::UnknownJob(*j),
            WeaverError::UnknownTask(t) => WeaverErrorView::UnknownTask(*t),
            WeaverError::TaskNotRunning(t) => WeaverErrorView::TaskNotRunning(*t),
            WeaverError::RetryBudgetExhausted(t) => WeaverErrorView::RetryBudgetExhausted(*t),
            WeaverError::MissingExpectedTaskType(s) =>
                WeaverErrorView::MissingExpectedTaskType(s@),
            WeaverError::Other(s) => WeaverErrorView::Other(s@),
        }
    }
}

impl WeaverError {
    /// A short human-readable description.
    pub fn message(&self) -> (r: String)
        ensures
            (self@ matches WeaverErrorView::HandlerNotFound(t) ==> r@ ==
                "handler not found for task_type="@ + t),
            (self@ matches WeaverErrorView::DuplicateHandler(t) ==> r@ ==
                "duplicate handler for task_type="@ + t),
            (self@ matches WeaverErrorView::Other(s) ==> r@ == s),
    {
        match self {
            WeaverError::HandlerNotFound(t) => String::from_str(
                "handler not found for task_type=",
            ).concat(t.as_str()),
            WeaverError::DuplicateHandler(t) => String::from_str(
                "duplicate handler for task_type=",
            ).concat(t.as_str()),
            WeaverError::DependencyCycle(_) => String::from_str(
                "submitted dependencies contain a cycle",
            ),
            WeaverError::InvalidDependency { .. } => String::from_str(
                "a declared dependency points outside the submitted task list",
            ),
            WeaverError::UnknownJob(_) => String::from_str("unknown job"),
            WeaverError::UnknownTask(_) => String::from_str("unknown task"),
            WeaverError::TaskNotRunning(_) => String::from_str("task is not running"),
            WeaverError::RetryBudgetExhausted(_) => String::from_str(
                "retry requested but the attempt budget is spent",
            ),
            WeaverError::MissingExpectedTaskType(_) => String::from_str(
                "an expected task type was not registered",
            ),
            WeaverError::Other(s) => s.clone(),
        }
    }
}

} // verus!
