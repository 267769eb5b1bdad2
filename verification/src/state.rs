//! Task and job state machines.

use vstd::prelude::*;

verus! {

/// State of one task.
///
/// Transitions:
/// - Queued -> Running -> Succeeded
/// - Queued -> Running -> RetryScheduled -> Queued (until the budget is spent)
/// - Queued -> Running -> Dead (budget spent)
/// - Queued -> Running -> Decomposed (the task spawned children and is done)
///
/// Succeeded, Dead and Decomposed are absorbing.
#[derive(Debug, Clone, Copy, PartialEq, Eq, Hash, Structural)]
pub enum TaskState {
    /// Ready to run as soon as its dependencies are resolved.
    Queued,
    /// Currently held by exactly one lease.
    Running,
    /// Finished successfully.
    Succeeded,
    /// Waiting for its retry time.
    RetryScheduled,
    /// Failed permanently.
    Dead,
    /// Replaced by child tasks.
    Decomposed,
}

impl TaskState {
    /// Whether this state admits no further transition.
    pub open spec fn spec_is_terminal(self) -> bool {
        match self {
            TaskState::Succeeded => true,
            TaskState::Dead => true,
            TaskState::Decomposed => true,
            _ => false,
        }
    }

    /// Is this a terminal state (no further transitions)?
    pub fn is_terminal(self) -> (r: bool)
        ensures
            r == self.spec_is_terminal(),
    {
        matches!(self, TaskState::Succeeded | TaskState::Decomposed | TaskState::Dead)
    }

    /// Whether the task is eligible for a lease.
    pub fn is_runnable(self) -> (r: bool)
        ensures
            r == (self == TaskState::Queued),
    {
        matches!(self, TaskState::Queued)
    }
}

/// State of one job, aggregated from its member tasks plus explicit
/// cancel and stuck marks.
#[derive(Debug, Clone, Copy, PartialEq, Eq, Hash, Structural)]
pub enum JobState {
    /// Some member task may still make progress (also the state of an
    /// empty job).
    Running,
    /// Every member task is terminal and none is dead.
    Completed,
    /// Every member task is terminal and at least one is dead.
    Failed,
    /// Cancelled by the caller; new leases of member tasks are refused.
    Cancelled,
    /// The job's deadline elapsed before its tasks were done.
    Stuck,
}

impl JobState {
    /// Cancelled and Stuck are explicit marks that aggregation never
    /// overwrites; Completed and Failed can only be left by marking.
    pub open spec fn spec_is_terminal(self) -> bool {
        self != JobState::Running
    }

    /// Whether this job can still change state through task completion.
    pub fn is_terminal(self) -> (r: bool)
        ensures
            r == self.spec_is_terminal(),
    {
        !matches!(self, JobState::Running)
    }
}

} // verus!
