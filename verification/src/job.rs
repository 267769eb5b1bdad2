//! Job records and job state aggregation.

use vstd::prelude::*;

use crate::ids::{JobId, TaskId};
use crate::job_spec::{JobSpec, JobSpecView};
use crate::state::{JobState, TaskState};

verus! {

/// The job state that a list of member task states aggregates to:
/// an empty job reads as Running; any non-terminal member keeps the job
/// Running; otherwise one dead member makes it Failed, else Completed.
pub open spec fn aggregate_states(states: Seq<TaskState>) -> JobState {
    if states.len() == 0 {
        JobState::Running
    } else if !(forall|j: int| 0 <= j < states.len() ==> states[j].spec_is_terminal()) {
        JobState::Running
    } else if exists|j: int| 0 <= j < states.len() && states[j] == TaskState::Dead {
        JobState::Failed
    } else {
        JobState::Completed
    }
}

/// Mathematical image of a [`JobRecord`].
pub ghost struct JobRecordView {
    pub job_id: JobId,
    pub spec: JobSpecView,
    pub state: JobState,
    pub task_ids: Seq<TaskId>,
    pub created_at: u64,
    pub updated_at: u64,
    pub deadline_at_ms: Option<u64>,
}

/// One job: its original spec, its aggregated state and its member tasks.
///
/// The state is a pure function of the members' states plus the explicit
/// cancel and stuck marks; a job record is never deleted.
#[derive(Debug)]
pub struct JobRecord {
    pub job_id: JobId,
    /// The spec as submitted.
    pub spec: JobSpec,
    /// Aggregated state; Cancelled and Stuck are sticky marks.
    pub state: JobState,
    /// Member tasks, in creation order.
    pub task_ids: Vec<TaskId>,
    /// Creation time, epoch milliseconds.
    pub created_at: u64,
    /// Last mutation time, epoch milliseconds.
    pub updated_at: u64,
    /// Absolute deadline, epoch milliseconds, if the budget set one.
    pub deadline_at_ms: Option<u64>,
}

impl View for JobRecord {
    type V = JobRecordView;

    open spec fn view(&self) -> JobRecordView {
        JobRecordView {
            job_id: self.job_id,
            spec: self.spec@,
            state: self.state,
            task_ids: self.task_ids@,
            created_at: self.created_at,
            updated_at: self.updated_at,
            deadline_at_ms: self.deadline_at_ms,
        }
    }
}

impl JobRecord {
    /// A fresh running job with no members yet. The deadline is
    /// `now_ms + budget.deadline_ms` where the budget sets one,
    /// saturating at `u64::MAX`.
    pub fn new(job_id: JobId, spec: JobSpec, now_ms: u64) -> (r: Self)
        ensures
            r@ == (JobRecordView {
                job_id,
                spec: spec@,
                state: JobState::Running,
                task_ids: Seq::<TaskId>::empty(),
                created_at: now_ms,
                updated_at: now_ms,
                deadline_at_ms: match spec@.budget.deadline_ms {
                    Some(d) => Some(
                        if now_ms + d > u64::MAX { u64::MAX } else { (now_ms + d) as u64 },
                    ),
                    None => None,
                },
            }),
    {
        let deadline_at_ms = match spec.budget.deadline_ms {
            Some(d) => Some(
                if d > u64::MAX - now_ms {
                    u64::MAX
                } else {
                    now_ms + d
                },
            ),
            None => None,
        };
        let r = JobRecord {
            job_id,
            spec,
            state: JobState::Running,
            task_ids: Vec::new(),
            created_at: now_ms,
            updated_at: now_ms,
            deadline_at_ms,
        };
        proof {
            assert(r@.task_ids =~= Seq::<TaskId>::empty());
        }
        r
    }

    /// Appends one member task.
    pub fn add_task(&mut self, task_id: TaskId, now_ms: u64)
        ensures
            final(self)@ == (JobRecordView {
                task_ids: old(self)@.task_ids.push(task_id),
                updated_at: now_ms,
                ..old(self)@
            }),
    {
        self.task_ids.push(task_id);
        self.updated_at = now_ms;
    }

    /// Marks the job cancelled. Cancelling a job that is no longer
    /// running (completed, failed, already cancelled or stuck) changes
    /// nothing.
    pub fn mark_cancelled(&mut self, now_ms: u64)
        ensures
            old(self).state == JobState::Running ==> final(self)@ == (JobRecordView {
                state: JobState::Cancelled,
                updated_at: now_ms,
                ..old(self)@
            }),
            old(self).state != JobState::Running ==> final(self)@ == old(self)@,
    {
        if matches!(self.state, JobState::Running) {
            self.state = JobState::Cancelled;
            self.updated_at = now_ms;
        }
    }

    /// Marks the job stuck (its deadline elapsed). Only a running job
    /// can become stuck.
    pub fn mark_stuck(&mut self, now_ms: u64)
        ensures
            old(self).state == JobState::Running ==> final(self)@ == (JobRecordView {
                state: JobState::Stuck,
                updated_at: now_ms,
                ..old(self)@
            }),
            old(self).state != JobState::Running ==> final(self)@ == old(self)@,
    {
        if matches!(self.state, JobState::Running) {
            self.state = JobState::Stuck;
            self.updated_at = now_ms;
        }
    }

    /// Re-aggregates the job state from its members' states. Explicit
    /// marks and settled states are sticky: only a running job moves.
    pub fn update_state_from_tasks(&mut self, task_states: &Vec<(TaskId, TaskState)>, now_ms: u64)
        ensures
            old(self).state == JobState::Running ==> final(self)@ == (JobRecordView {
                state: aggregate_states(task_states@.map_values(|p: (TaskId, TaskState)| p.1)),
                updated_at: now_ms,
                ..old(self)@
            }),
            old(self).state != JobState::Running ==> final(self)@ == old(self)@,
    {
        if !matches!(self.state, JobState::Running) {
            return ;
        }
        let ghost states = task_states@.map_values(|p: (TaskId, TaskState)| p.1);
        let n = task_states.len();
        if n == 0 {
            self.state = JobState::Running;
            self.updated_at = now_ms;
            return ;
        }
        let mut all_terminal = true;
        let mut any_dead = false;
        let mut i: usize = 0;
        while i < n
            invariant
                i <= n,
                n == task_states.len(),
                states == task_states@.map_values(|p: (TaskId, TaskState)| p.1),
                states.len() == n,
                all_terminal == (forall|j: int| 0 <= j < i ==> states[j].spec_is_terminal()),
                any_dead == (exists|j: int| 0 <= j < i && states[j] == TaskState::Dead),
            decreases n - i,
        {
            let s = task_states[i].1;
            proof {
                assert(states[i as int] == task_states@[i as int].1);
            }
            if !s.is_terminal() {
                all_terminal = false;
            }
            if matches!(s, TaskState::Dead) {
                any_dead = true;
            }
            i = i + 1;
        }
        let next = if !all_terminal {
            JobState::Running
        } else if any_dead {
            JobState::Failed
        } else {
            JobState::Completed
        };
        self.state = next;
        self.updated_at = now_ms;
    }
}

} // verus!
