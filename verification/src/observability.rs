//! Status views: state counts and per-job summaries.

use vstd::prelude::*;

use crate::attempt::{AttemptRecord, AttemptRecordView, DecisionRecord, DecisionRecordView};
use crate::ids::{JobId, TaskId};
use crate::state::JobState;

verus! {

/// How many tasks sit in each state.
#[derive(Debug, Clone, Copy, PartialEq, Eq, Structural)]
pub struct QueueCounts {
    pub queued: usize,
    pub running: usize,
    pub succeeded: usize,
    pub retry_scheduled: usize,
    pub dead: usize,
    pub decomposed: usize,
}

impl Default for QueueCounts {
    /// All counts zero.
    fn default() -> (r: Self)
        ensures
            r == (QueueCounts {
                queued: 0usize,
                running: 0usize,
                succeeded: 0usize,
                retry_scheduled: 0usize,
                dead: 0usize,
                decomposed: 0usize,
            }),
    {
        QueueCounts { queued: 0, running: 0, succeeded: 0, retry_scheduled: 0, dead: 0, decomposed: 0 }
    }
}

/// Summary of one job: state, timestamps and member-task counts.
#[derive(Debug, Clone, Copy, PartialEq, Eq, Structural)]
pub struct JobStatus {
    pub job_id: JobId,
    pub state: JobState,
    pub created_at_ms: u64,
    pub updated_at_ms: u64,
    pub deadline_at_ms: Option<u64>,
    /// All member tasks.
    pub total_tasks: usize,
    /// Members that succeeded.
    pub completed_tasks: usize,
    /// Members that died.
    pub failed_tasks: usize,
    /// Members that may still make progress (queued, running or waiting
    /// for a retry).
    pub running_tasks: usize,
}

/// Mathematical image of a [`JobResult`].
pub ghost struct JobResultView {
    pub status: JobStatus,
    pub task_ids: Seq<TaskId>,
    pub attempts: Seq<AttemptRecordView>,
    pub decisions: Seq<DecisionRecordView>,
}

/// Everything recorded about one job: the summary plus the full attempt
/// and decision history of its member tasks.
#[derive(Debug)]
pub struct JobResult {
    pub status: JobStatus,
    pub task_ids: Vec<TaskId>,
    pub attempts: Vec<AttemptRecord>,
    pub decisions: Vec<DecisionRecord>,
}

impl View for JobResult {
    type V = JobResultView;

    open spec fn view(&self) -> JobResultView {
        JobResultView {
            status: self.status,
            task_ids: self.task_ids@,
            attempts: self.attempts.deep_view(),
            decisions: self.decisions.deep_view(),
        }
    }
}

} // verus!
