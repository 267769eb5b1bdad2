//! Task records: the single source of truth for one task's state.

use vstd::prelude::*;

use crate::ids::{JobId, TaskId};
use crate::state::TaskState;
use crate::task::{TaskEnvelope, TaskEnvelopeView};

verus! {

/// Mathematical image of a [`TaskRecord`].
pub ghost struct TaskRecordView {
    pub envelope: TaskEnvelopeView,
    pub state: TaskState,
    pub job_id: Option<JobId>,
    pub attempts: u32,
    pub max_attempts: u32,
    pub last_error: Option<Seq<char>>,
    pub next_run_at: Option<u64>,
    pub parent_task_id: Option<TaskId>,
    pub child_task_ids: Seq<TaskId>,
    pub created_at: u64,
    pub updated_at: u64,
}

/// Metadata plus envelope for one task. Queue structures hold only task
/// ids; every state transition happens through these methods.
#[derive(Debug)]
pub struct TaskRecord {
    /// What to run.
    pub envelope: TaskEnvelope,
    /// Where the task stands in its lifecycle.
    pub state: TaskState,
    /// The owning job, absent for ad-hoc enqueued tasks.
    pub job_id: Option<JobId>,
    /// Lease count so far, the running attempt included.
    pub attempts: u32,
    /// Maximum allowed attempts, from the policy or the job budget.
    pub max_attempts: u32,
    /// The most recent error message, if any.
    pub last_error: Option<String>,
    /// When to run next, in epoch milliseconds; set exactly in RetryScheduled.
    pub next_run_at: Option<u64>,
    /// The task this one was decomposed from, if any.
    pub parent_task_id: Option<TaskId>,
    /// Children spawned by decomposition.
    pub child_task_ids: Vec<TaskId>,
    /// Creation time, epoch milliseconds.
    pub created_at: u64,
    /// Last mutation time, epoch milliseconds.
    pub updated_at: u64,
}

impl View for TaskRecord {
    type V = TaskRecordView;

    open spec fn view(&self) -> TaskRecordView {
        TaskRecordView {
            envelope: self.envelope@,
            state: self.state,
            job_id: self.job_id,
            attempts: self.attempts,
            max_attempts: self.max_attempts,
            last_error: self.last_error.deep_view(),
            next_run_at: self.next_run_at,
            parent_task_id: self.parent_task_id,
            child_task_ids: self.child_task_ids@,
            created_at: self.created_at,
            updated_at: self.updated_at,
        }
    }
}

impl TaskRecord {
    /// A fresh queued record with no owning job.
    pub fn new(envelope: TaskEnvelope, max_attempts: u32, now_ms: u64) -> (r: Self)
        ensures
            r@ == (TaskRecordView {
                envelope: envelope@,
                state: TaskState::Queued,
                job_id: None,
                attempts: 0,
                max_attempts,
                last_error: None,
                next_run_at: None,
                parent_task_id: None,
                child_task_ids: Seq::<TaskId>::empty(),
                created_at: now_ms,
                updated_at: now_ms,
            }),
    {
        let r = TaskRecord {
            envelope,
            state: TaskState::Queued,
            job_id: None,
            attempts: 0,
            max_attempts,
            last_error: None,
            next_run_at: None,
            parent_task_id: None,
            child_task_ids: Vec::new(),
            created_at: now_ms,
            updated_at: now_ms,
        };
        proof {
            assert(r@.child_task_ids =~= Seq::<TaskId>::empty());
        }
        r
    }

    /// A fresh queued record owned by `job_id`.
    pub fn new_with_job(envelope: TaskEnvelope, max_attempts: u32, job_id: JobId, now_ms: u64) -> (r:
        Self)
        ensures
            r@ == (TaskRecordView {
                job_id: Some(job_id),
                ..TaskRecord::new_view(envelope@, max_attempts, now_ms)
            }),
    {
        let mut record = Self::new(envelope, max_attempts, now_ms);
        record.job_id = Some(job_id);
        record
    }

    /// A fresh queued record with optional owner and parent.
    pub fn new_with_job_opt(
        envelope: TaskEnvelope,
        max_attempts: u32,
        job_id: Option<JobId>,
        parent_task_id: Option<TaskId>,
        now_ms: u64,
    ) -> (r: Self)
        ensures
            r@ == (TaskRecordView {
                job_id,
                parent_task_id,
                ..TaskRecord::new_view(envelope@, max_attempts, now_ms)
            }),
    {
        let mut record = Self::new(envelope, max_attempts, now_ms);
        record.job_id = job_id;
        record.parent_task_id = parent_task_id;
        record
    }

    /// The view produced by [`TaskRecord::new`].
    pub open spec fn new_view(envelope: TaskEnvelopeView, max_attempts: u32, now_ms: u64)
        -> TaskRecordView {
        TaskRecordView {
            envelope,
            state: TaskState::Queued,
            job_id: None,
            attempts: 0,
            max_attempts,
            last_error: None,
            next_run_at: None,
            parent_task_id: None,
            child_task_ids: Seq::<TaskId>::empty(),
            created_at: now_ms,
            updated_at: now_ms,
        }
    }

    /// Marks the task running and counts the new attempt. A task is only
    /// leased while its budget is not spent, so the count stays within
    /// `max_attempts`.
    pub fn start_attempt(&mut self, now_ms: u64)
        requires
            old(self).attempts < old(self).max_attempts,
        ensures
            final(self)@ == (TaskRecordView {
                state: TaskState::Running,
                attempts: (old(self).attempts + 1) as u32,
                updated_at: now_ms,
                ..old(self)@
            }),
    {
        self.state = TaskState::Running;
        self.attempts = self.attempts + 1;
        self.updated_at = now_ms;
    }

    /// Marks the task succeeded.
    pub fn mark_succeeded(&mut self, now_ms: u64)
        ensures
            final(self)@ == (TaskRecordView {
                state: TaskState::Succeeded,
                updated_at: now_ms,
                ..old(self)@
            }),
    {
        self.state = TaskState::Succeeded;
        self.updated_at = now_ms;
    }

    /// Marks the task dead (its budget is spent).
    pub fn mark_dead(&mut self, error: String, now_ms: u64)
        ensures
            final(self)@ == (TaskRecordView {
                state: TaskState::Dead,
                last_error: Some(error@),
                updated_at: now_ms,
                ..old(self)@
            }),
    {
        self.state = TaskState::Dead;
        self.last_error = Some(error);
        self.updated_at = now_ms;
    }

    /// Schedules a retry at `next_run_at`.
    pub fn schedule_retry(&mut self, next_run_at: u64, error: String, now_ms: u64)
        ensures
            final(self)@ == (TaskRecordView {
                state: TaskState::RetryScheduled,
                next_run_at: Some(next_run_at),
                last_error: Some(error@),
                updated_at: now_ms,
                ..old(self)@
            }),
    {
        self.state = TaskState::RetryScheduled;
        self.next_run_at = Some(next_run_at);
        self.last_error = Some(error);
        self.updated_at = now_ms;
    }

    /// Moves the task from RetryScheduled back to Queued.
    pub fn requeue(&mut self, now_ms: u64)
        ensures
            final(self)@ == (TaskRecordView {
                state: TaskState::Queued,
                next_run_at: None,
                updated_at: now_ms,
                ..old(self)@
            }),
    {
        self.state = TaskState::Queued;
        self.next_run_at = None;
        self.updated_at = now_ms;
    }

    /// Marks the task decomposed into `children`.
    pub fn mark_decomposed(&mut self, children: Vec<TaskId>, now_ms: u64)
        ensures
            final(self)@ == (TaskRecordView {
                state: TaskState::Decomposed,
                child_task_ids: children@,
                updated_at: now_ms,
                ..old(self)@
            }),
    {
        self.state = TaskState::Decomposed;
        self.child_task_ids = children;
        self.updated_at = now_ms;
    }
}

} // verus!
