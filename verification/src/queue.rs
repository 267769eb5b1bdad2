//! The in-memory queue: the single source of truth for jobs, tasks,
//! history and the ready/scheduled structures, with every operation a
//! short synchronous mutation.
//!
//! Callers that want blocking behaviour wrap this store in a lock and a
//! notification primitive; every operation here takes the current time
//! as an argument, so the whole engine is deterministic and testable.

use vstd::prelude::*;

use crate::attempt::{AttemptRecord, AttemptRecordView, DecisionContext, DecisionContextView, DecisionRecord, DecisionRecordView, DecisionTrigger, DecisionTriggerView};
use crate::error::{WeaverError, WeaverErrorView};
use crate::graph::{has_cycle, is_cycle, sole_waiters, sole_waiters_of, DependencyGraph};
use crate::ids::{
    lemma_attempt_id_injective, lemma_job_id_injective, lemma_task_id_injective, AttemptId, JobId,
    TaskId,
};
use crate::job::{aggregate_states, JobRecord, JobRecordView};
use crate::job_spec::{JobSpec, TaskSpec, TaskSpecView, DEFAULT_MAX_ATTEMPTS};
use crate::observability::{JobResult, JobStatus, QueueCounts};
use crate::outcome::{Artifact, ArtifactView, Outcome, OutcomeKind};
use crate::record::{TaskRecord, TaskRecordView};
use crate::decision::{Decision, DecisionView};
use crate::outcome::clone_artifacts;
use crate::retry::{backoff_ms, RetryPolicy};
use crate::state::{JobState, TaskState};
use crate::task::{TaskEnvelope, TaskEnvelopeView, TaskType};

verus! {

/// How many entries of `s` are the id `t`.
pub open spec fn id_count(s: Seq<TaskId>, t: TaskId) -> nat
    decreases s.len(),
{
    if s.len() == 0 {
        0
    } else {
        id_count(s.drop_last(), t) + if s.last() == t {
            1nat
        } else {
            0nat
        }
    }
}

/// Appending one id raises its own count by one and no other.
pub proof fn lemma_id_count_push(s: Seq<TaskId>, t: TaskId, x: TaskId)
    ensures
        id_count(s.push(x), t) == id_count(s, t) + if x == t {
            1nat
        } else {
            0nat
        },
{
    assert(s.push(x).drop_last() =~= s);
}

/// A one-entry list counts one for its entry, zero otherwise.
pub proof fn lemma_id_count_singleton(x: TaskId, t: TaskId)
    ensures
        id_count(seq![x], t) == if x == t {
            1nat
        } else {
            0nat
        },
{
    assert(id_count(Seq::<TaskId>::empty(), t) == 0);
    assert(seq![x].len() == 1);
    assert(seq![x].last() == x);
    assert(seq![x].drop_last() =~= Seq::<TaskId>::empty());
}

/// Removing one entry lowers its id's count by one and no other.
pub proof fn lemma_id_count_remove(s: Seq<TaskId>, t: TaskId, i: int)
    requires
        0 <= i < s.len(),
    ensures
        id_count(s, t) == id_count(s.remove(i), t) + if s[i] == t {
            1nat
        } else {
            0nat
        },
    decreases s.len(),
{
    if i == s.len() - 1 {
        assert(s.remove(i) =~= s.drop_last());
    } else {
        assert(s.remove(i).drop_last() =~= s.drop_last().remove(i));
        assert(s.remove(i).last() == s.last());
        lemma_id_count_remove(s.drop_last(), t, i);
    }
}

/// An id occurs somewhere exactly when its count is positive.
pub proof fn lemma_id_count_contains(s: Seq<TaskId>, t: TaskId)
    ensures
        (id_count(s, t) > 0) <==> s.contains(t),
    decreases s.len(),
{
    if s.len() > 0 {
        lemma_id_count_contains(s.drop_last(), t);
        if s.contains(t) {
            let i = choose|i: int| 0 <= i < s.len() && s[i] == t;
            if i < s.len() - 1 {
                assert(s.drop_last()[i] == t);
            }
        }
        if s.drop_last().contains(t) {
            let i = choose|i: int| 0 <= i < s.drop_last().len() && s.drop_last()[i] == t;
            assert(s[i] == t);
        }
    }
}

/// Two distinct positions holding the same id put its count at two.
pub proof fn lemma_id_count_at_least_two(s: Seq<TaskId>, v: TaskId, i: int, j: int)
    requires
        0 <= i < j < s.len(),
        s[i] == v,
        s[j] == v,
    ensures
        id_count(s, v) >= 2,
    decreases s.len(),
{
    if j == s.len() - 1 {
        lemma_id_count_contains(s.drop_last(), v);
        assert(s.drop_last()[i] == v);
        assert(s.drop_last().contains(v));
    } else {
        assert(s.drop_last()[i] == v && s.drop_last()[j] == v);
        lemma_id_count_at_least_two(s.drop_last(), v, i, j);
    }
}

/// Counts add over concatenation.
pub proof fn lemma_id_count_concat(a: Seq<TaskId>, b: Seq<TaskId>, t: TaskId)
    ensures
        id_count(a + b, t) == id_count(a, t) + id_count(b, t),
    decreases b.len(),
{
    if b.len() == 0 {
        assert(a + b =~= a);
    } else {
        assert((a + b).drop_last() =~= a + b.drop_last());
        assert((a + b).last() == b.last());
        lemma_id_count_concat(a, b.drop_last(), t);
    }
}

/// How many of these task views sit in state `st`.
pub open spec fn state_count(ts: Seq<TaskRecordView>, st: TaskState) -> nat
    decreases ts.len(),
{
    if ts.len() == 0 {
        0
    } else {
        state_count(ts.drop_last(), st) + if ts.last().state == st {
            1nat
        } else {
            0nat
        }
    }
}

/// The in-memory queue and state store.
///
/// Ids are minted sequentially: the task with raw id `k` sits at index
/// `k - 1`, and likewise for jobs and attempts.
pub struct InMemoryQueue {
    jobs: Vec<JobRecord>,
    tasks: Vec<TaskRecord>,
    ready: Vec<TaskId>,
    attempts: Vec<AttemptRecord>,
    decisions: Vec<DecisionRecord>,
    /// Pending retries `(next_run_at_ms, task_id)`, sorted by time.
    scheduled: Vec<(u64, TaskId)>,
    graph: DependencyGraph,
    retry_policy: RetryPolicy,
}

impl InMemoryQueue {
    /// The task records, as views.
    pub closed spec fn spec_tasks(self) -> Seq<TaskRecordView> {
        self.tasks@.map_values(|r: TaskRecord| r@)
    }

    /// The job records, as views.
    pub closed spec fn spec_jobs(self) -> Seq<JobRecordView> {
        self.jobs@.map_values(|r: JobRecord| r@)
    }

    /// The attempt history, oldest first.
    pub closed spec fn spec_attempts(self) -> Seq<AttemptRecordView> {
        self.attempts@.map_values(|r: AttemptRecord| r@)
    }

    /// The decision history, oldest first.
    pub closed spec fn spec_decisions(self) -> Seq<DecisionRecordView> {
        self.decisions@.map_values(|r: DecisionRecord| r@)
    }

    /// The ready FIFO, front first.
    pub closed spec fn spec_ready(self) -> Seq<TaskId> {
        self.ready@
    }

    /// The pending retries, earliest first.
    pub closed spec fn spec_scheduled(self) -> Seq<(u64, TaskId)> {
        self.scheduled@
    }

    /// The ids in the scheduled list, in order.
    pub open spec fn sched_ids(self) -> Seq<TaskId> {
        self.spec_scheduled().map_values(|e: (u64, TaskId)| e.1)
    }

    /// The dependency graph as a value.
    pub closed spec fn spec_graph(self) -> DependencyGraph {
        self.graph
    }

    /// Whether `task` still waits for `depends_on`.
    pub closed spec fn spec_edge(self, task: TaskId, depends_on: TaskId) -> bool {
        self.graph.spec_edge(task, depends_on)
    }

    /// Whether `task` still waits for anything.
    pub open spec fn spec_has_deps(self, task: TaskId) -> bool {
        exists|d: TaskId| self.spec_edge(task, d)
    }

    /// The retry policy the queue was built with.
    pub closed spec fn spec_retry_policy(self) -> RetryPolicy {
        self.retry_policy
    }

    /// Whether a task with this id exists.
    pub open spec fn valid_task_id(self, t: TaskId) -> bool {
        1 <= t@ && t@ <= self.spec_tasks().len()
    }

    /// The record of task `t`.
    pub open spec fn task_view(self, t: TaskId) -> TaskRecordView {
        self.spec_tasks()[t@ as int - 1]
    }

    /// Whether a job with this id exists.
    pub open spec fn valid_job_id(self, j: JobId) -> bool {
        1 <= j@ && j@ <= self.spec_jobs().len()
    }

    /// The record of job `j`.
    pub open spec fn job_view(self, j: JobId) -> JobRecordView {
        self.spec_jobs()[j@ as int - 1]
    }

    /// Every structural invariant of the store:
    /// ids match positions; a task's attempts never exceed its budget,
    /// and a task that can still be leased has budget left; a task is
    /// scheduled exactly once exactly when it waits for a retry, under
    /// its recorded time, and the schedule is sorted; a task sits in the
    /// ready FIFO exactly once exactly when it is queued with no
    /// outstanding dependencies; dependency edges run between existing
    /// tasks and only out of queued ones; and job membership is mutual
    /// and duplicate-free.
    pub open spec fn wf(self) -> bool {
        &&& forall|i: int|
            0 <= i < self.spec_tasks().len() ==> (#[trigger] self.spec_tasks()[i]).envelope.task_id@
                == i + 1
        &&& forall|i: int|
            0 <= i < self.spec_jobs().len() ==> (#[trigger] self.spec_jobs()[i]).job_id@ == i + 1
        &&& forall|i: int|
            0 <= i < self.spec_attempts().len() ==> (#[trigger] self.spec_attempts()[i]).attempt_id@
                == i + 1
        &&& forall|i: int|
            0 <= i < self.spec_tasks().len() ==> (#[trigger] self.spec_tasks()[i]).attempts
                <= self.spec_tasks()[i].max_attempts
        &&& forall|i: int|
            0 <= i < self.spec_tasks().len() && ((#[trigger] self.spec_tasks()[i]).state
                == TaskState::Queued || self.spec_tasks()[i].state == TaskState::RetryScheduled)
                ==> self.spec_tasks()[i].attempts < self.spec_tasks()[i].max_attempts
        &&& forall|i: int|
            0 <= i < self.spec_tasks().len() ==> ((#[trigger] self.spec_tasks()[i]).state
                == TaskState::RetryScheduled <==> self.spec_tasks()[i].next_run_at is Some)
        &&& forall|i: int|
            0 <= i < self.spec_tasks().len() ==> id_count(
                self.sched_ids(),
                (#[trigger] self.spec_tasks()[i]).envelope.task_id,
            ) == if self.spec_tasks()[i].state == TaskState::RetryScheduled {
                1nat
            } else {
                0nat
            }
        &&& forall|j: int|
            0 <= j < self.spec_scheduled().len() ==> self.valid_task_id(
                (#[trigger] self.spec_scheduled()[j]).1,
            ) && self.task_view(self.spec_scheduled()[j].1).state == TaskState::RetryScheduled
                && self.task_view(self.spec_scheduled()[j].1).next_run_at == Some(
                self.spec_scheduled()[j].0,
            )
        &&& forall|j: int, k: int|
            0 <= j < k < self.spec_scheduled().len() ==> (#[trigger] self.spec_scheduled()[j]).0
                <= (#[trigger] self.spec_scheduled()[k]).0
        &&& forall|i: int|
            0 <= i < self.spec_tasks().len() ==> id_count(
                self.spec_ready(),
                (#[trigger] self.spec_tasks()[i]).envelope.task_id,
            ) == if self.spec_tasks()[i].state == TaskState::Queued && !self.spec_has_deps(
                self.spec_tasks()[i].envelope.task_id,
            ) {
                1nat
            } else {
                0nat
            }
        &&& forall|j: int|
            0 <= j < self.spec_ready().len() ==> self.valid_task_id(
                #[trigger] self.spec_ready()[j],
            )
        &&& self.graph_wf()
        &&& forall|a: TaskId, b: TaskId|
            #[trigger] self.spec_edge(a, b) ==> self.valid_task_id(a) && self.valid_task_id(b)
                && self.task_view(a).state == TaskState::Queued
        &&& forall|i: int|
            0 <= i < self.spec_tasks().len() && (#[trigger] self.spec_tasks()[i]).job_id is Some
                ==> self.valid_job_id(self.spec_tasks()[i].job_id->0)
        &&& forall|jb: int, k: int|
            0 <= jb < self.spec_jobs().len() && 0 <= k < (#[trigger] self.spec_jobs()[jb]).task_ids.len()
                ==> self.valid_task_id(#[trigger] self.spec_jobs()[jb].task_ids[k])
                && self.task_view(self.spec_jobs()[jb].task_ids[k]).job_id == Some(
                self.spec_jobs()[jb].job_id,
            )
        &&& forall|jb: int|
            0 <= jb < self.spec_jobs().len() ==> (#[trigger] self.spec_jobs()[jb]).task_ids.no_duplicates()
    }

    /// The inner graph invariant.
    pub closed spec fn graph_wf(self) -> bool {
        self.graph.wf()
    }

    /// An empty queue over the given retry policy.
    pub fn new(retry_policy: RetryPolicy) -> (r: Self)
        ensures
            r.wf(),
            r.spec_tasks().len() == 0,
            r.spec_jobs().len() == 0,
            r.spec_attempts().len() == 0,
            r.spec_decisions().len() == 0,
            r.spec_ready().len() == 0,
            r.spec_scheduled().len() == 0,
            forall|a: TaskId, b: TaskId| !r.spec_edge(a, b),
            r.spec_retry_policy() == retry_policy,
    {
        let r = InMemoryQueue {
            jobs: Vec::new(),
            tasks: Vec::new(),
            ready: Vec::new(),
            attempts: Vec::new(),
            decisions: Vec::new(),
            scheduled: Vec::new(),
            graph: DependencyGraph::new(),
            retry_policy,
        };
        r
    }
}


/// A state count never exceeds the number of tasks.
pub proof fn lemma_state_count_le(ts: Seq<TaskRecordView>, st: TaskState)
    ensures
        state_count(ts, st) <= ts.len(),
    decreases ts.len(),
{
    if ts.len() > 0 {
        lemma_state_count_le(ts.drop_last(), st);
    }
}

impl InMemoryQueue {
    /// Creates one ad-hoc task (no owning job) from this envelope, under
    /// a fresh id and the default attempt budget, and makes it ready.
    /// Returns the new id.
    pub fn enqueue(&mut self, envelope: TaskEnvelope, now_ms: u64) -> (t: TaskId)
        requires
            old(self).wf(),
        ensures
            final(self).wf(),
            t@ == old(self).spec_tasks().len() + 1,
            final(self).spec_tasks() == old(self).spec_tasks().push(
                TaskRecord::new_view(
                    (TaskEnvelopeView { task_id: t, ..envelope@ }),
                    DEFAULT_MAX_ATTEMPTS,
                    now_ms,
                ),
            ),
            final(self).spec_ready() == old(self).spec_ready().push(t),
            final(self).spec_jobs() == old(self).spec_jobs(),
            final(self).spec_attempts() == old(self).spec_attempts(),
            final(self).spec_decisions() == old(self).spec_decisions(),
            final(self).spec_scheduled() == old(self).spec_scheduled(),
            forall|a: TaskId, b: TaskId| final(self).spec_edge(a, b) == old(self).spec_edge(a, b),
            final(self).spec_retry_policy() == old(self).spec_retry_policy(),
    {
        let ghost olds = *old(self);
        let raw: u128 = (self.tasks.len() as u128) + 1;
        let t = TaskId::new(raw);
        let envelope = envelope.with_task_id(t);
        let record = TaskRecord::new(envelope, DEFAULT_MAX_ATTEMPTS, now_ms);
        self.tasks.push(record);
        self.ready.push(t);
        proof {
            assert(self.spec_tasks() =~= olds.spec_tasks().push(record@));
            assert(self.spec_ready() =~= olds.spec_ready().push(t));
            let n = olds.spec_tasks().len() as int;
            assert(t@ == n + 1);
            // the new id is fresh: it cannot appear in any old structure
            assert forall|j: int| 0 <= j < olds.spec_ready().len() implies olds.spec_ready()[j]
                != t by {
                assert(olds.valid_task_id(olds.spec_ready()[j]));
            }
            lemma_id_count_contains(olds.spec_ready(), t);
            if olds.spec_ready().contains(t) {
                let j = choose|j: int|
                    0 <= j < olds.spec_ready().len() && olds.spec_ready()[j] == t;
                assert(false);
            }
            lemma_id_count_contains(olds.sched_ids(), t);
            if olds.sched_ids().contains(t) {
                let j = choose|j: int| 0 <= j < olds.sched_ids().len() && olds.sched_ids()[j] == t;
                assert(olds.valid_task_id(olds.spec_scheduled()[j].1));
                assert(false);
            }
            assert(self.sched_ids() =~= olds.sched_ids());
            // ready counts: the push adds one occurrence of t and nothing else
            assert forall|i: int| 0 <= i < self.spec_tasks().len() implies id_count(
                self.spec_ready(),
                (#[trigger] self.spec_tasks()[i]).envelope.task_id,
            ) == if self.spec_tasks()[i].state == TaskState::Queued && !self.spec_has_deps(
                self.spec_tasks()[i].envelope.task_id,
            ) {
                1nat
            } else {
                0nat
            } by {
                let tid = self.spec_tasks()[i].envelope.task_id;
                lemma_id_count_push(olds.spec_ready(), tid, t);
                if i < n {
                    assert(self.spec_tasks()[i] == olds.spec_tasks()[i]);
                    assert(tid@ == i + 1);
                    assert(tid != t);
                    if self.spec_has_deps(tid) {
                        let d = choose|d: TaskId| self.spec_edge(tid, d);
                        assert(olds.spec_edge(tid, d));
                    }
                    if olds.spec_has_deps(tid) {
                        let d = choose|d: TaskId| olds.spec_edge(tid, d);
                        assert(self.spec_edge(tid, d));
                    }
                    assert(self.spec_has_deps(tid) == olds.spec_has_deps(tid));
                } else {
                    assert(self.spec_tasks()[i] == record@);
                    assert(tid == t);
                    assert(id_count(olds.spec_ready(), t) == 0);
                    if self.spec_has_deps(t) {
                        let d = choose|d: TaskId| self.spec_edge(t, d);
                        assert(olds.spec_edge(t, d));
                        assert(olds.valid_task_id(t));
                        assert(false);
                    }
                }
            }
            // scheduled counts unchanged, and the new task is not scheduled
            assert forall|i: int| 0 <= i < self.spec_tasks().len() implies id_count(
                self.sched_ids(),
                (#[trigger] self.spec_tasks()[i]).envelope.task_id,
            ) == if self.spec_tasks()[i].state == TaskState::RetryScheduled {
                1nat
            } else {
                0nat
            } by {
                let tid = self.spec_tasks()[i].envelope.task_id;
                if i < n {
                    assert(self.spec_tasks()[i] == olds.spec_tasks()[i]);
                } else {
                    assert(tid == t);
                    assert(id_count(olds.sched_ids(), t) == 0);
                }
            }
            // edges are untouched and still run between old queued tasks
            assert forall|a: TaskId, b: TaskId| #[trigger] self.spec_edge(a, b) implies
                self.valid_task_id(a) && self.valid_task_id(b) && self.task_view(a).state
                == TaskState::Queued by {
                assert(olds.spec_edge(a, b));
                assert(olds.valid_task_id(a) && olds.valid_task_id(b));
                assert(self.task_view(a) == olds.task_view(a));
            }
            assert(self.wf());
        }
        t
    }

    /// Counts tasks per state, in one pass over the records.
    pub fn counts_by_state(&self) -> (r: QueueCounts)
        ensures
            r.queued == state_count(self.spec_tasks(), TaskState::Queued),
            r.running == state_count(self.spec_tasks(), TaskState::Running),
            r.succeeded == state_count(self.spec_tasks(), TaskState::Succeeded),
            r.retry_scheduled == state_count(self.spec_tasks(), TaskState::RetryScheduled),
            r.dead == state_count(self.spec_tasks(), TaskState::Dead),
            r.decomposed == state_count(self.spec_tasks(), TaskState::Decomposed),
    {
        let mut counts = QueueCounts::default();
        let mut i: usize = 0;
        while i < self.tasks.len()
            invariant
                i <= self.tasks.len(),
                self.spec_tasks().len() == self.tasks@.len(),
                counts.queued == state_count(
                    self.spec_tasks().subrange(0, i as int),
                    TaskState::Queued,
                ),
                counts.running == state_count(
                    self.spec_tasks().subrange(0, i as int),
                    TaskState::Running,
                ),
                counts.succeeded == state_count(
                    self.spec_tasks().subrange(0, i as int),
                    TaskState::Succeeded,
                ),
                counts.retry_scheduled == state_count(
                    self.spec_tasks().subrange(0, i as int),
                    TaskState::RetryScheduled,
                ),
                counts.dead == state_count(
                    self.spec_tasks().subrange(0, i as int),
                    TaskState::Dead,
                ),
                counts.decomposed == state_count(
                    self.spec_tasks().subrange(0, i as int),
                    TaskState::Decomposed,
                ),
            decreases self.tasks.len() - i,
        {
            proof {
                let pre = self.spec_tasks().subrange(0, i as int);
                let post = self.spec_tasks().subrange(0, i as int + 1);
                assert(post.drop_last() =~= pre);
                assert(post.last() == self.spec_tasks()[i as int]);
                lemma_state_count_le(pre, TaskState::Queued);
                lemma_state_count_le(pre, TaskState::Running);
                lemma_state_count_le(pre, TaskState::Succeeded);
                lemma_state_count_le(pre, TaskState::RetryScheduled);
                lemma_state_count_le(pre, TaskState::Dead);
                lemma_state_count_le(pre, TaskState::Decomposed);
            }
            match self.tasks[i].state {
                TaskState::Queued => {
                    counts.queued = counts.queued + 1;
                },
                TaskState::Running => {
                    counts.running = counts.running + 1;
                },
                TaskState::Succeeded => {
                    counts.succeeded = counts.succeeded + 1;
                },
                TaskState::RetryScheduled => {
                    counts.retry_scheduled = counts.retry_scheduled + 1;
                },
                TaskState::Dead => {
                    counts.dead = counts.dead + 1;
                },
                TaskState::Decomposed => {
                    counts.decomposed = counts.decomposed + 1;
                },
            }
            i = i + 1;
        }
        proof {
            assert(self.spec_tasks().subrange(0, self.tasks@.len() as int) =~= self.spec_tasks());
        }
        counts
    }
}


/// How many leading scheduled entries are due at `now` (the schedule is
/// kept sorted, so these form a prefix).
pub open spec fn due_len(s: Seq<(u64, TaskId)>, now_ms: u64) -> nat
    decreases s.len(),
{
    if s.len() == 0 || s[0].0 > now_ms {
        0
    } else {
        1 + due_len(s.drop_first(), now_ms)
    }
}

/// The due prefix is characterised by its boundary.
pub proof fn lemma_due_len_char(s: Seq<(u64, TaskId)>, now_ms: u64, k: int)
    requires
        0 <= k <= s.len(),
        forall|j: int| 0 <= j < k ==> (#[trigger] s[j]).0 <= now_ms,
        k == s.len() || s[k].0 > now_ms,
    ensures
        due_len(s, now_ms) == k,
    decreases s.len(),
{
    if k == 0 {
    } else {
        assert(s[0].0 <= now_ms);
        let s2 = s.drop_first();
        assert forall|j: int| 0 <= j < k - 1 implies (#[trigger] s2[j]).0 <= now_ms by {
            assert(s2[j] == s[j + 1]);
        }
        if k - 1 < s2.len() {
            assert(s2[k - 1] == s[k]);
        }
        lemma_due_len_char(s2, now_ms, k - 1);
    }
}

/// The record view after a task is promoted from the schedule back to
/// the ready queue.
pub open spec fn requeued_view(v: TaskRecordView, now_ms: u64) -> TaskRecordView {
    TaskRecordView { state: TaskState::Queued, next_run_at: None, updated_at: now_ms, ..v }
}

impl InMemoryQueue {
    /// Moves every scheduled task whose time has come back to the ready
    /// queue, earliest first, and stops at the first entry still in the
    /// future. Nothing else changes.
    pub fn promote_scheduled_tasks(&mut self, now_ms: u64)
        requires
            old(self).wf(),
        ensures
            final(self).wf(),
            final(self).spec_scheduled() == old(self).spec_scheduled().subrange(
                due_len(old(self).spec_scheduled(), now_ms) as int,
                old(self).spec_scheduled().len() as int,
            ),
            final(self).spec_ready() == old(self).spec_ready() + old(self).spec_scheduled()
                .subrange(0, due_len(old(self).spec_scheduled(), now_ms) as int).map_values(
                |e: (u64, TaskId)| e.1,
            ),
            final(self).spec_tasks().len() == old(self).spec_tasks().len(),
            forall|t: TaskId|
                old(self).valid_task_id(t) ==> #[trigger] final(self).task_view(t) == (
                if old(self).task_view(t).state == TaskState::RetryScheduled && old(
                    self,
                ).task_view(t).next_run_at->0 <= now_ms {
                    requeued_view(old(self).task_view(t), now_ms)
                } else {
                    old(self).task_view(t)
                }),
            final(self).spec_jobs() == old(self).spec_jobs(),
            final(self).spec_attempts() == old(self).spec_attempts(),
            final(self).spec_decisions() == old(self).spec_decisions(),
            forall|a: TaskId, b: TaskId| final(self).spec_edge(a, b) == old(self).spec_edge(a, b),
            final(self).spec_retry_policy() == old(self).spec_retry_policy(),
    {
        let ghost olds = *old(self);
        let ghost s0 = old(self).spec_scheduled();
        let ghost r0 = old(self).spec_ready();
        let ghost k: int = 0;
        while self.scheduled.len() > 0 && self.scheduled[0].0 <= now_ms
            invariant
                self.wf(),
                0 <= k <= s0.len(),
                forall|j: int| 0 <= j < k ==> (#[trigger] s0[j]).0 <= now_ms,
                self.spec_scheduled() == s0.subrange(k, s0.len() as int),
                self.spec_ready() == r0 + s0.subrange(0, k).map_values(|e: (u64, TaskId)| e.1),
                self.spec_tasks().len() == olds.spec_tasks().len(),
                forall|t: TaskId|
                    olds.valid_task_id(t) ==> #[trigger] self.task_view(t) == (
                    if s0.subrange(0, k).map_values(|e: (u64, TaskId)| e.1).contains(t) {
                        requeued_view(olds.task_view(t), now_ms)
                    } else {
                        olds.task_view(t)
                    }),
                self.spec_jobs() == olds.spec_jobs(),
                self.spec_attempts() == olds.spec_attempts(),
                self.spec_decisions() == olds.spec_decisions(),
                forall|a: TaskId, b: TaskId| self.spec_edge(a, b) == olds.spec_edge(a, b),
                self.spec_retry_policy() == olds.spec_retry_policy(),
            decreases self.scheduled.len(),
        {
            let ghost pre = *self;
            let entry_time = self.scheduled[0].0;
            let id = self.scheduled[0].1;
            proof {
                assert(pre.spec_scheduled()[0] == (entry_time, id));
                assert(pre.valid_task_id(id));
                assert(pre.task_view(id).state == TaskState::RetryScheduled);
            }
            self.scheduled.remove(0);
            proof {
                assert(id@ - 1 < pre.spec_tasks().len());
                assert(pre.spec_tasks().len() == pre.tasks@.len());
                assert(pre.tasks@.len() <= usize::MAX) by {
                    assert(pre.tasks@.len() == vstd::std_specs::vec::spec_vec_len(&pre.tasks));
                }
            }
            let raw: u128 = id.get();
            let idx: usize = (raw - 1) as usize;
            proof {
                assert(idx as int == id@ - 1);
                let ghost i0 = id@ as int - 1;
                assert(pre.spec_tasks()[i0].envelope.task_id@ == i0 + 1);
                lemma_task_id_injective(pre.spec_tasks()[i0].envelope.task_id, id);
                assert(pre.spec_tasks()[i0].envelope.task_id == id);
            }
            let mut rec = self.tasks.remove(idx);
            rec.requeue(now_ms);
            self.tasks.insert(idx, rec);
            self.ready.push(id);
            proof {
                assert(self.tasks@ =~= pre.tasks@.update(idx as int, rec));
                assert(self.spec_tasks() =~= pre.spec_tasks().update(idx as int, rec@));
                assert(self.spec_scheduled() =~= pre.spec_scheduled().drop_first());
                assert(self.spec_ready() =~= pre.spec_ready().push(id));
                assert(self.sched_ids() =~= pre.sched_ids().drop_first());
                assert(rec@ == requeued_view(pre.task_view(id), now_ms));

                // the popped entry is the task's only schedule entry
                assert(id_count(pre.sched_ids(), id) == 1);
                assert(pre.sched_ids() =~= seq![id] + self.sched_ids());
                lemma_id_count_concat(seq![id], self.sched_ids(), id);
                lemma_id_count_singleton(id, id);
                assert(id_count(self.sched_ids(), id) == 0);

                // ready gains exactly one occurrence of id, which had none
                assert(id_count(pre.spec_ready(), id) == 0);
                lemma_id_count_push(pre.spec_ready(), id, id);

                // the promoted task has no outstanding dependencies: only
                // queued tasks carry edges
                if pre.spec_has_deps(id) {
                    let d = choose|d: TaskId| pre.spec_edge(id, d);
                    assert(pre.task_view(id).state == TaskState::Queued);
                }

                // re-establish every structural clause
                assert forall|i: int| 0 <= i < self.spec_tasks().len() implies (
                #[trigger] self.spec_tasks()[i]).envelope.task_id@ == i + 1 by {
                    if i != idx {
                        assert(self.spec_tasks()[i] == pre.spec_tasks()[i]);
                    }
                }
                assert forall|i: int|
                    0 <= i < self.spec_tasks().len() implies id_count(
                    self.sched_ids(),
                    (#[trigger] self.spec_tasks()[i]).envelope.task_id,
                ) == if self.spec_tasks()[i].state == TaskState::RetryScheduled {
                    1nat
                } else {
                    0nat
                } by {
                    let tid = self.spec_tasks()[i].envelope.task_id;
                    assert(tid@ == i + 1);
                    lemma_id_count_concat(seq![id], self.sched_ids(), tid);
                    assert(pre.sched_ids() =~= seq![id] + self.sched_ids());
                    assert(id_count(pre.sched_ids(), tid) == id_count(seq![id], tid) + id_count(
                        self.sched_ids(),
                        tid,
                    ));
                    if i == idx {
                        assert(tid == id) by {
                            lemma_task_id_injective(tid, id);
                        }
                    } else {
                        assert(self.spec_tasks()[i] == pre.spec_tasks()[i]);
                        if tid == id {
                            assert(tid@ == id@);
                            assert(false);
                        }
                        lemma_id_count_singleton(id, tid);
                    }
                }
                assert forall|i: int|
                    0 <= i < self.spec_tasks().len() implies id_count(
                    self.spec_ready(),
                    (#[trigger] self.spec_tasks()[i]).envelope.task_id,
                ) == if self.spec_tasks()[i].state == TaskState::Queued && !self.spec_has_deps(
                    self.spec_tasks()[i].envelope.task_id,
                ) {
                    1nat
                } else {
                    0nat
                } by {
                    let tid = self.spec_tasks()[i].envelope.task_id;
                    assert(tid@ == i + 1);
                    lemma_id_count_push(pre.spec_ready(), tid, id);
                    assert(self.spec_has_deps(tid) == pre.spec_has_deps(tid)) by {
                        if self.spec_has_deps(tid) {
                            let d = choose|d: TaskId| self.spec_edge(tid, d);
                            assert(pre.spec_edge(tid, d));
                        }
                        if pre.spec_has_deps(tid) {
                            let d = choose|d: TaskId| pre.spec_edge(tid, d);
                            assert(self.spec_edge(tid, d));
                        }
                    }
                    if i == idx {
                        assert(tid == id) by {
                            lemma_task_id_injective(tid, id);
                        }
                        assert(id_count(pre.spec_ready(), tid) == 0);
                        assert(!self.spec_has_deps(tid));
                    } else {
                        assert(self.spec_tasks()[i] == pre.spec_tasks()[i]);
                        if tid == id {
                            assert(false);
                        }
                    }
                }
                assert forall|j: int|
                    0 <= j < self.spec_scheduled().len() implies self.valid_task_id(
                    (#[trigger] self.spec_scheduled()[j]).1,
                ) && self.task_view(self.spec_scheduled()[j].1).state == TaskState::RetryScheduled
                    && self.task_view(self.spec_scheduled()[j].1).next_run_at == Some(
                    self.spec_scheduled()[j].0,
                ) by {
                    assert(self.spec_scheduled()[j] == pre.spec_scheduled()[j + 1]);
                    let sid = self.spec_scheduled()[j].1;
                    assert(pre.valid_task_id(sid));
                    if sid@ - 1 == idx {
                        assert(sid == id) by {
                            lemma_task_id_injective(sid, id);
                        }
                        assert(id_count(self.sched_ids(), id) == 0);
                        assert(self.sched_ids()[j] == id);
                        lemma_id_count_contains(self.sched_ids(), id);
                        assert(false);
                    }
                    assert(self.task_view(sid) == pre.task_view(sid));
                }
                assert forall|a: TaskId, b: TaskId| #[trigger] self.spec_edge(a, b) implies
                    self.valid_task_id(a) && self.valid_task_id(b) && self.task_view(a).state
                    == TaskState::Queued by {
                    assert(pre.spec_edge(a, b));
                    if a@ - 1 == idx {
                        assert(a == id) by {
                            lemma_task_id_injective(a, id);
                        }
                        assert(pre.task_view(id).state == TaskState::Queued);
                        assert(false);
                    }
                    assert(self.task_view(a) == pre.task_view(a));
                }
                assert forall|jb: int, kk: int|
                    0 <= jb < self.spec_jobs().len() && 0 <= kk < (
                #[trigger] self.spec_jobs()[jb]).task_ids.len() implies self.valid_task_id(
                    #[trigger] self.spec_jobs()[jb].task_ids[kk],
                ) && self.task_view(self.spec_jobs()[jb].task_ids[kk]).job_id == Some(
                    self.spec_jobs()[jb].job_id,
                ) by {
                    let mid = self.spec_jobs()[jb].task_ids[kk];
                    assert(olds.spec_jobs()[jb].task_ids[kk] == mid);
                    assert(pre.valid_task_id(mid));
                    if mid@ - 1 == idx {
                        assert(self.task_view(mid) == rec@);
                    } else {
                        assert(self.task_view(mid) == pre.task_view(mid));
                    }
                }
                assert(self.wf());

                // step bookkeeping for the outer description
                assert(s0.subrange(k, s0.len() as int)[0] == s0[k]);
                assert(s0[k] == (entry_time, id));
                let prefix_new = s0.subrange(0, k + 1).map_values(|e: (u64, TaskId)| e.1);
                let prefix_old = s0.subrange(0, k).map_values(|e: (u64, TaskId)| e.1);
                assert(prefix_new =~= prefix_old.push(id));
                assert(self.spec_ready() =~= r0 + prefix_new);
                assert(self.spec_scheduled() =~= s0.subrange(k + 1, s0.len() as int));
                assert forall|t: TaskId|
                    olds.valid_task_id(t) implies #[trigger] self.task_view(t) == (
                    if prefix_new.contains(t) {
                        requeued_view(olds.task_view(t), now_ms)
                    } else {
                        olds.task_view(t)
                    }) by {
                    if t@ - 1 == idx {
                        assert(t == id) by {
                            lemma_task_id_injective(t, id);
                        }
                        assert(prefix_new.contains(t)) by {
                            assert(prefix_new[k] == id);
                        }
                        assert(!prefix_old.contains(id));
                        assert(self.task_view(id) == rec@);
                        assert(pre.task_view(id) == olds.task_view(id));
                    } else {
                        assert(self.task_view(t) == pre.task_view(t));
                        if prefix_new.contains(t) {
                            let j = choose|j: int| 0 <= j < prefix_new.len() && prefix_new[j] == t;
                            if j < k {
                                assert(prefix_old[j] == t);
                            } else {
                                assert(t == id);
                                assert(false);
                            }
                        }
                        if prefix_old.contains(t) {
                            let j = choose|j: int| 0 <= j < prefix_old.len() && prefix_old[j] == t;
                            assert(prefix_new[j] == t);
                        }
                    }
                }
                k = k + 1;
            }
        }
        proof {
            assert(k == s0.len() || s0.subrange(k, s0.len() as int).len() > 0);
            if k < s0.len() {
                assert(self.spec_scheduled()[0] == s0[k]);
                assert(s0[k].0 > now_ms);
            }
            lemma_due_len_char(s0, now_ms, k);
            // relate the per-id promotion description to the final one
            assert forall|t: TaskId|
                olds.valid_task_id(t) implies #[trigger] self.task_view(t) == (
                if olds.task_view(t).state == TaskState::RetryScheduled && olds.task_view(
                    t,
                ).next_run_at->0 <= now_ms {
                    requeued_view(olds.task_view(t), now_ms)
                } else {
                    olds.task_view(t)
                }) by {
                let prefix = s0.subrange(0, k).map_values(|e: (u64, TaskId)| e.1);
                let i = t@ as int - 1;
                assert(olds.spec_tasks()[i].envelope.task_id@ == i + 1);
                assert(olds.spec_tasks()[i].envelope.task_id == t) by {
                    lemma_task_id_injective(olds.spec_tasks()[i].envelope.task_id, t);
                }
                if prefix.contains(t) {
                    let j = choose|j: int| 0 <= j < prefix.len() && prefix[j] == t;
                    assert(s0[j].1 == t);
                    assert(olds.spec_scheduled()[j] == s0[j]);
                    assert(olds.task_view(t).state == TaskState::RetryScheduled);
                    assert(olds.task_view(t).next_run_at == Some(s0[j].0));
                    assert(s0[j].0 <= now_ms);
                } else {
                    if olds.task_view(t).state == TaskState::RetryScheduled && olds.task_view(
                        t,
                    ).next_run_at->0 <= now_ms {
                        assert(id_count(olds.sched_ids(), t) == 1);
                        lemma_id_count_contains(olds.sched_ids(), t);
                        let j = choose|j: int|
                            0 <= j < olds.sched_ids().len() && olds.sched_ids()[j] == t;
                        assert(olds.spec_scheduled()[j].1 == t);
                        assert(olds.task_view(t).next_run_at == Some(olds.spec_scheduled()[j].0));
                        assert(olds.spec_scheduled()[j].0 <= now_ms);
                        if j < k {
                            assert(prefix[j] == t);
                            assert(false);
                        } else {
                            // a due entry past the boundary contradicts sortedness
                            if k < s0.len() {
                                assert(s0[k].0 <= s0[j].0);
                                assert(false);
                            } else {
                                assert(false);
                            }
                        }
                    }
                }
            }
        }
    }
}


/// Exclusive permission for one worker to run one attempt of one task.
/// Hand it back through `complete`, `ack` or `fail`.
#[derive(Debug)]
pub struct Lease {
    task_id: TaskId,
    envelope: TaskEnvelope,
}

impl Lease {
    /// The leased task.
    pub closed spec fn spec_task_id(self) -> TaskId {
        self.task_id
    }

    /// The envelope carried to the handler.
    pub closed spec fn spec_envelope(self) -> TaskEnvelopeView {
        self.envelope@
    }

    /// The leased task's id.
    pub fn task_id(&self) -> (t: TaskId)
        ensures
            t == self.spec_task_id(),
    {
        self.task_id
    }

    /// The envelope to hand to the handler.
    pub fn envelope(&self) -> (r: &TaskEnvelope)
        ensures
            r@ == self.spec_envelope(),
    {
        &self.envelope
    }
}

/// What one lease attempt produced.
#[derive(Debug)]
pub enum LeaseOutcome {
    /// A task was leased and is now running.
    Leased(Lease),
    /// Nothing is leasable right now; if anything is scheduled, the
    /// earliest retry time says how long a caller may sleep.
    Idle { next_run_at_ms: Option<u64> },
}

impl InMemoryQueue {
    /// The task views after every due retry is promoted at `now_ms`.
    pub open spec fn promoted_tasks(self, now_ms: u64) -> Seq<TaskRecordView> {
        Seq::new(
            self.spec_tasks().len(),
            |i: int|
                if self.spec_tasks()[i].state == TaskState::RetryScheduled
                    && self.spec_tasks()[i].next_run_at->0 <= now_ms {
                    requeued_view(self.spec_tasks()[i], now_ms)
                } else {
                    self.spec_tasks()[i]
                },
        )
    }

    /// The ready FIFO after every due retry is promoted at `now_ms`.
    pub open spec fn promoted_ready(self, now_ms: u64) -> Seq<TaskId> {
        self.spec_ready() + self.spec_scheduled().subrange(
            0,
            due_len(self.spec_scheduled(), now_ms) as int,
        ).map_values(|e: (u64, TaskId)| e.1)
    }

    /// The schedule after every due retry is promoted at `now_ms`.
    pub open spec fn promoted_scheduled(self, now_ms: u64) -> Seq<(u64, TaskId)> {
        self.spec_scheduled().subrange(
            due_len(self.spec_scheduled(), now_ms) as int,
            self.spec_scheduled().len() as int,
        )
    }

    /// Whether `t` was passed over by the lease scan: it belongs to a
    /// job that is cancelled or stuck.
    pub open spec fn spec_skipped(self, t: TaskId) -> bool {
        match self.task_view(t).job_id {
            Some(j) => self.job_view(j).state == JobState::Cancelled || self.job_view(j).state
                == JobState::Stuck,
            None => false,
        }
    }

    /// The record view of a task as it starts its next attempt.
    pub open spec fn running_view(v: TaskRecordView, now_ms: u64) -> TaskRecordView {
        TaskRecordView {
            state: TaskState::Running,
            attempts: (v.attempts + 1) as u32,
            updated_at: now_ms,
            ..v
        }
    }

    /// Marks job `j` stuck (deadline elapsed); everything else stays.
    fn mark_job_stuck(&mut self, j: JobId, now_ms: u64)
        requires
            old(self).wf(),
            old(self).valid_job_id(j),
        ensures
            final(self).wf(),
            final(self).spec_jobs().len() == old(self).spec_jobs().len(),
            final(self).job_view(j) == (if old(self).job_view(j).state == JobState::Running {
                JobRecordView { state: JobState::Stuck, updated_at: now_ms, ..old(self).job_view(j) }
            } else {
                old(self).job_view(j)
            }),
            forall|j2: JobId|
                old(self).valid_job_id(j2) && j2 != j ==> #[trigger] final(self).job_view(j2)
                    == old(self).job_view(j2),
            final(self).spec_tasks() == old(self).spec_tasks(),
            final(self).spec_ready() == old(self).spec_ready(),
            final(self).spec_scheduled() == old(self).spec_scheduled(),
            final(self).spec_attempts() == old(self).spec_attempts(),
            final(self).spec_decisions() == old(self).spec_decisions(),
            forall|a: TaskId, b: TaskId| final(self).spec_edge(a, b) == old(self).spec_edge(a, b),
            final(self).spec_retry_policy() == old(self).spec_retry_policy(),
    {
        let ghost pre = *old(self);
        let jidx: usize = (j.get() - 1) as usize;
        proof {
            assert(pre.spec_jobs().len() == pre.jobs@.len());
            assert(pre.jobs@.len() <= usize::MAX) by {
                assert(pre.jobs@.len() == vstd::std_specs::vec::spec_vec_len(&pre.jobs));
            }
            assert(jidx as int == j@ - 1);
        }
        let mut jrec = self.jobs.remove(jidx);
        jrec.mark_stuck(now_ms);
        self.jobs.insert(jidx, jrec);
        proof {
            assert(self.jobs@ =~= pre.jobs@.update(jidx as int, jrec));
            assert(self.spec_jobs() =~= pre.spec_jobs().update(jidx as int, jrec@));
            assert forall|j2: JobId|
                pre.valid_job_id(j2) && j2 != j implies #[trigger] self.job_view(j2)
                == pre.job_view(j2) by {
                if j2@ - 1 == jidx {
                    lemma_job_id_injective(j2, j);
                    assert(false);
                }
            }
            assert forall|jb: int|
                0 <= jb < self.spec_jobs().len() implies (#[trigger] self.spec_jobs()[jb]).job_id@
                == jb + 1 by {
                if jb == jidx {
                    assert(self.spec_jobs()[jb] == jrec@);
                    assert(jrec@.job_id == pre.spec_jobs()[jb].job_id);
                } else {
                    assert(self.spec_jobs()[jb] == pre.spec_jobs()[jb]);
                }
            }
            assert forall|jb: int, kk2: int|
                0 <= jb < self.spec_jobs().len() && 0 <= kk2 < (
            #[trigger] self.spec_jobs()[jb]).task_ids.len() implies self.valid_task_id(
                #[trigger] self.spec_jobs()[jb].task_ids[kk2],
            ) && self.task_view(self.spec_jobs()[jb].task_ids[kk2]).job_id == Some(
                self.spec_jobs()[jb].job_id,
            ) by {
                if jb == jidx {
                    assert(self.spec_jobs()[jb].task_ids == pre.spec_jobs()[jb].task_ids);
                    assert(self.spec_jobs()[jb].job_id == pre.spec_jobs()[jb].job_id);
                } else {
                    assert(self.spec_jobs()[jb] == pre.spec_jobs()[jb]);
                }
            }
            assert forall|jb: int|
                0 <= jb < self.spec_jobs().len() implies (
            #[trigger] self.spec_jobs()[jb]).task_ids.no_duplicates() by {
                if jb == jidx {
                    assert(self.spec_jobs()[jb].task_ids == pre.spec_jobs()[jb].task_ids);
                } else {
                    assert(self.spec_jobs()[jb] == pre.spec_jobs()[jb]);
                }
            }
            assert forall|i: int| 0 <= i < self.spec_tasks().len() implies id_count(
                self.spec_ready(),
                (#[trigger] self.spec_tasks()[i]).envelope.task_id,
            ) == if self.spec_tasks()[i].state == TaskState::Queued && !self.spec_has_deps(
                self.spec_tasks()[i].envelope.task_id,
            ) {
                1nat
            } else {
                0nat
            } by {
                let tid = self.spec_tasks()[i].envelope.task_id;
                assert(self.spec_has_deps(tid) == pre.spec_has_deps(tid)) by {
                    if self.spec_has_deps(tid) {
                        let d = choose|d: TaskId| self.spec_edge(tid, d);
                        assert(pre.spec_edge(tid, d));
                    }
                    if pre.spec_has_deps(tid) {
                        let d = choose|d: TaskId| pre.spec_edge(tid, d);
                        assert(self.spec_edge(tid, d));
                    }
                }
                assert(self.spec_tasks()[i] == pre.spec_tasks()[i]);
                assert(self.spec_ready() == pre.spec_ready());
            }
            assert forall|a: TaskId, b: TaskId| #[trigger] self.spec_edge(a, b) implies
                self.valid_task_id(a) && self.valid_task_id(b) && self.task_view(a).state
                == TaskState::Queued by {
                assert(pre.spec_edge(a, b));
                assert(self.task_view(a) == pre.task_view(a));
            }
            assert forall|jr: int|
                0 <= jr < self.spec_ready().len() implies self.valid_task_id(
                #[trigger] self.spec_ready()[jr],
            ) by {
                assert(self.spec_ready()[jr] == pre.spec_ready()[jr]);
                assert(pre.valid_task_id(pre.spec_ready()[jr]));
            }
            assert(self.wf());
        }
    }

    /// Leases the ready entry at position `k`: the task starts running,
    /// its attempt is counted, and it leaves the FIFO. Nothing else
    /// changes.
    fn lease_ready_task(&mut self, k: usize, now_ms: u64) -> (l: Lease)
        requires
            old(self).wf(),
            k < old(self).spec_ready().len(),
        ensures
            final(self).wf(),
            l.spec_task_id() == old(self).spec_ready()[k as int],
            old(self).task_view(l.spec_task_id()).state == TaskState::Queued,
            final(self).spec_ready() == old(self).spec_ready().remove(k as int),
            final(self).task_view(l.spec_task_id()) == InMemoryQueue::running_view(
                old(self).task_view(l.spec_task_id()),
                now_ms,
            ),
            l.spec_envelope() == final(self).task_view(l.spec_task_id()).envelope,
            final(self).spec_tasks().len() == old(self).spec_tasks().len(),
            forall|t2: TaskId|
                old(self).valid_task_id(t2) && t2 != l.spec_task_id()
                    ==> #[trigger] final(self).task_view(t2) == old(self).task_view(t2),
            final(self).spec_jobs() == old(self).spec_jobs(),
            final(self).spec_scheduled() == old(self).spec_scheduled(),
            final(self).spec_attempts() == old(self).spec_attempts(),
            final(self).spec_decisions() == old(self).spec_decisions(),
            forall|a: TaskId, b: TaskId| final(self).spec_edge(a, b) == old(self).spec_edge(a, b),
            final(self).spec_retry_policy() == old(self).spec_retry_policy(),
    {
        let ghost pre = *old(self);
        let t = self.ready[k];
        proof {
            assert(pre.valid_task_id(t));
        }
        let tidx: usize = (t.get() - 1) as usize;
        proof {
            assert(pre.spec_tasks().len() == pre.tasks@.len());
            assert(pre.tasks@.len() <= usize::MAX) by {
                assert(pre.tasks@.len() == vstd::std_specs::vec::spec_vec_len(&pre.tasks));
            }
            assert(tidx as int == t@ - 1);
        }
        self.ready.remove(k);
        let mut rec = self.tasks.remove(tidx);
        proof {
            assert(rec@ == pre.task_view(t));
            assert(pre.spec_tasks()[tidx as int].envelope.task_id@ == tidx + 1);
            lemma_task_id_injective(pre.spec_tasks()[tidx as int].envelope.task_id, t);
            // the entry sits in the FIFO, so the task is queued with no deps
            assert(id_count(pre.spec_ready(), t) >= 1) by {
                lemma_id_count_remove(pre.spec_ready(), t, k as int);
            }
            assert(pre.task_view(t).state == TaskState::Queued);
            assert(rec@.attempts < rec@.max_attempts);
        }
        rec.start_attempt(now_ms);
        let env = rec.envelope.duplicate();
        self.tasks.insert(tidx, rec);
        proof {
            assert(self.tasks@ =~= pre.tasks@.update(tidx as int, rec));
            assert(self.spec_tasks() =~= pre.spec_tasks().update(tidx as int, rec@));
            assert(self.spec_ready() =~= pre.spec_ready().remove(k as int));
            assert(rec@ == InMemoryQueue::running_view(pre.task_view(t), now_ms));

            assert(id_count(pre.spec_ready(), t) == 1);
            lemma_id_count_remove(pre.spec_ready(), t, k as int);
            assert(id_count(self.spec_ready(), t) == 0);

            assert forall|i: int| 0 <= i < self.spec_tasks().len() implies id_count(
                self.spec_ready(),
                (#[trigger] self.spec_tasks()[i]).envelope.task_id,
            ) == if self.spec_tasks()[i].state == TaskState::Queued && !self.spec_has_deps(
                self.spec_tasks()[i].envelope.task_id,
            ) {
                1nat
            } else {
                0nat
            } by {
                let tid = self.spec_tasks()[i].envelope.task_id;
                assert(tid@ == i + 1);
                lemma_id_count_remove(pre.spec_ready(), tid, k as int);
                assert(self.spec_has_deps(tid) == pre.spec_has_deps(tid)) by {
                    if self.spec_has_deps(tid) {
                        let d = choose|d: TaskId| self.spec_edge(tid, d);
                        assert(pre.spec_edge(tid, d));
                    }
                    if pre.spec_has_deps(tid) {
                        let d = choose|d: TaskId| pre.spec_edge(tid, d);
                        assert(self.spec_edge(tid, d));
                    }
                }
                if i == tidx {
                } else {
                    assert(self.spec_tasks()[i] == pre.spec_tasks()[i]);
                    if tid == t {
                        assert(tid@ == t@);
                        assert(false);
                    }
                }
            }
            assert forall|i: int| 0 <= i < self.spec_tasks().len() implies id_count(
                self.sched_ids(),
                (#[trigger] self.spec_tasks()[i]).envelope.task_id,
            ) == if self.spec_tasks()[i].state == TaskState::RetryScheduled {
                1nat
            } else {
                0nat
            } by {
                let tid = self.spec_tasks()[i].envelope.task_id;
                if i == tidx {
                    assert(id_count(pre.sched_ids(), tid) == 0);
                } else {
                    assert(self.spec_tasks()[i] == pre.spec_tasks()[i]);
                }
            }
            assert forall|jj: int|
                0 <= jj < self.spec_scheduled().len() implies self.valid_task_id(
                (#[trigger] self.spec_scheduled()[jj]).1,
            ) && self.task_view(self.spec_scheduled()[jj].1).state == TaskState::RetryScheduled
                && self.task_view(self.spec_scheduled()[jj].1).next_run_at == Some(
                self.spec_scheduled()[jj].0,
            ) by {
                let sid = self.spec_scheduled()[jj].1;
                assert(pre.valid_task_id(sid));
                if sid@ - 1 == tidx {
                    assert(sid == t) by {
                        lemma_task_id_injective(sid, t);
                    }
                    assert(pre.task_view(t).state == TaskState::Queued);
                    assert(false);
                }
                assert(self.task_view(sid) == pre.task_view(sid));
            }
            assert forall|a: TaskId, b: TaskId| #[trigger] self.spec_edge(a, b) implies
                self.valid_task_id(a) && self.valid_task_id(b) && self.task_view(a).state
                == TaskState::Queued by {
                assert(pre.spec_edge(a, b));
                if a@ - 1 == tidx {
                    assert(a == t) by {
                        lemma_task_id_injective(a, t);
                    }
                    assert(!pre.spec_has_deps(t)) by {
                        assert(id_count(pre.spec_ready(), t) == 1);
                    }
                    assert(false);
                }
                assert(self.task_view(a) == pre.task_view(a));
            }
            assert forall|jb: int, kk2: int|
                0 <= jb < self.spec_jobs().len() && 0 <= kk2 < (
            #[trigger] self.spec_jobs()[jb]).task_ids.len() implies self.valid_task_id(
                #[trigger] self.spec_jobs()[jb].task_ids[kk2],
            ) && self.task_view(self.spec_jobs()[jb].task_ids[kk2]).job_id == Some(
                self.spec_jobs()[jb].job_id,
            ) by {
                let mid2 = self.spec_jobs()[jb].task_ids[kk2];
                assert(pre.valid_task_id(mid2));
                if mid2@ - 1 == tidx {
                    assert(self.task_view(mid2) == rec@);
                } else {
                    assert(self.task_view(mid2) == pre.task_view(mid2));
                }
            }
            assert(self.wf());
            assert forall|t2: TaskId|
                pre.valid_task_id(t2) && t2 != t implies #[trigger] self.task_view(t2)
                == pre.task_view(t2) by {
                if t2@ - 1 == tidx {
                    lemma_task_id_injective(t2, t);
                    assert(false);
                }
            }
        }
        Lease { task_id: t, envelope: env }
    }

    /// Tries to lease one task: promotes due retries, then walks the
    /// ready FIFO front to back. A task whose job is cancelled or whose
    /// job's deadline has elapsed (the job is then marked stuck) is
    /// passed over and stays queued. The first eligible task becomes
    /// running, its attempt counted; if none is eligible the caller
    /// learns the earliest scheduled retry time.
    #[verifier::rlimit(100)]
    pub fn try_lease(&mut self, now_ms: u64) -> (r: LeaseOutcome)
        requires
            old(self).wf(),
        ensures
            final(self).wf(),
            final(self).spec_attempts() == old(self).spec_attempts(),
            final(self).spec_decisions() == old(self).spec_decisions(),
            forall|a: TaskId, b: TaskId| final(self).spec_edge(a, b) == old(self).spec_edge(a, b),
            final(self).spec_retry_policy() == old(self).spec_retry_policy(),
            final(self).spec_scheduled() == old(self).promoted_scheduled(now_ms),
            final(self).spec_tasks().len() == old(self).spec_tasks().len(),
            final(self).spec_jobs().len() == old(self).spec_jobs().len(),
            forall|j: JobId|
                old(self).valid_job_id(j) ==> #[trigger] final(self).job_view(j) == old(
                    self,
                ).job_view(j) || (old(self).job_view(j).state == JobState::Running && (old(
                    self,
                ).job_view(j).deadline_at_ms matches Some(d) && now_ms > d) && final(self).job_view(
                    j,
                ) == (JobRecordView {
                    state: JobState::Stuck,
                    updated_at: now_ms,
                    ..old(self).job_view(j)
                })),
            match r {
                LeaseOutcome::Leased(l) => {
                    &&& final(self).valid_task_id(l.spec_task_id())
                    &&& exists|kk: int|
                        {
                            &&& 0 <= kk < old(self).promoted_ready(now_ms).len()
                            &&& old(self).promoted_ready(now_ms)[kk] == l.spec_task_id()
                            &&& final(self).spec_ready() == old(self).promoted_ready(
                                now_ms,
                            ).remove(kk)
                            &&& forall|j: int|
                                0 <= j < kk ==> final(self).spec_skipped(
                                    #[trigger] old(self).promoted_ready(now_ms)[j],
                                )
                        }
                    &&& final(self).task_view(l.spec_task_id())
                        == InMemoryQueue::running_view(
                        old(self).promoted_tasks(now_ms)[l.spec_task_id()@ as int - 1],
                        now_ms,
                    )
                    &&& l.spec_envelope() == final(self).task_view(l.spec_task_id()).envelope
                    &&& !final(self).spec_skipped(l.spec_task_id())
                    // a task of a running job past its deadline is never
                    // leased: the scan marks such a job stuck and passes on
                    &&& (final(self).task_view(l.spec_task_id()).job_id matches Some(j) ==> !(
                    final(self).job_view(j).state == JobState::Running && (final(self).job_view(
                        j,
                    ).deadline_at_ms matches Some(d) && now_ms > d)))
                    &&& forall|t: TaskId|
                        old(self).valid_task_id(t) && t != l.spec_task_id()
                            ==> #[trigger] final(self).task_view(t) == old(self).promoted_tasks(
                            now_ms,
                        )[t@ as int - 1]
                },
                LeaseOutcome::Idle { next_run_at_ms } => {
                    &&& final(self).spec_ready() == old(self).promoted_ready(now_ms)
                    &&& forall|j: int|
                        0 <= j < final(self).spec_ready().len() ==> final(self).spec_skipped(
                            #[trigger] final(self).spec_ready()[j],
                        )
                    &&& forall|t: TaskId|
                        old(self).valid_task_id(t) ==> #[trigger] final(self).task_view(t) == old(
                            self,
                        ).promoted_tasks(now_ms)[t@ as int - 1]
                    &&& next_run_at_ms == (if old(self).promoted_scheduled(now_ms).len() > 0 {
                        Some(old(self).promoted_scheduled(now_ms)[0].0)
                    } else {
                        Option::<u64>::None
                    })
                },
            },
    {
        let ghost olds = *old(self);
        self.promote_scheduled_tasks(now_ms);
        let ghost mid = *self;
        proof {
            assert(mid.spec_tasks() =~= olds.promoted_tasks(now_ms)) by {
                assert forall|i: int| 0 <= i < mid.spec_tasks().len() implies mid.spec_tasks()[i]
                    == olds.promoted_tasks(now_ms)[i] by {
                    let t = olds.spec_tasks()[i].envelope.task_id;
                    assert(t@ == i + 1);
                    assert(olds.valid_task_id(t));
                    assert(mid.task_view(t) == mid.spec_tasks()[i]);
                    assert(olds.task_view(t) == olds.spec_tasks()[i]);
                }
            }
            assert(mid.spec_ready() == olds.promoted_ready(now_ms));
            assert(mid.spec_scheduled() == olds.promoted_scheduled(now_ms));
        }
        let mut k: usize = 0;
        while k < self.ready.len()
            invariant
                olds == *old(self),
                self.wf(),
                mid.wf(),
                k <= self.ready.len(),
                mid.spec_tasks() == olds.promoted_tasks(now_ms),
                mid.spec_ready() == olds.promoted_ready(now_ms),
                mid.spec_scheduled() == olds.promoted_scheduled(now_ms),
                mid.spec_attempts() == olds.spec_attempts(),
                mid.spec_decisions() == olds.spec_decisions(),
                mid.spec_jobs() == olds.spec_jobs(),
                mid.spec_tasks().len() == olds.spec_tasks().len(),
                forall|a: TaskId, b: TaskId| mid.spec_edge(a, b) == olds.spec_edge(a, b),
                mid.spec_retry_policy() == olds.spec_retry_policy(),
                self.spec_tasks() == mid.spec_tasks(),
                self.spec_ready() == mid.spec_ready(),
                self.spec_scheduled() == mid.spec_scheduled(),
                self.spec_attempts() == mid.spec_attempts(),
                self.spec_decisions() == mid.spec_decisions(),
                self.spec_jobs().len() == mid.spec_jobs().len(),
                forall|a: TaskId, b: TaskId| self.spec_edge(a, b) == mid.spec_edge(a, b),
                self.spec_retry_policy() == mid.spec_retry_policy(),
                forall|j: JobId|
                    mid.valid_job_id(j) ==> #[trigger] self.job_view(j) == mid.job_view(j) || (
                    mid.job_view(j).state == JobState::Running && (
                    mid.job_view(j).deadline_at_ms matches Some(d) && now_ms > d)
                        && self.job_view(j) == (JobRecordView {
                        state: JobState::Stuck,
                        updated_at: now_ms,
                        ..mid.job_view(j)
                    })),
                forall|j: int|
                    0 <= j < k ==> self.spec_skipped(#[trigger] self.spec_ready()[j]),
            decreases self.ready.len() - k,
        {
            let t = self.ready[k];
            proof {
                assert(self.valid_task_id(t));
            }
            let tidx: usize = (t.get() - 1) as usize;
            proof {
                assert(self.spec_tasks().len() == self.tasks@.len());
                assert(self.tasks@.len() <= usize::MAX) by {
                    assert(self.tasks@.len() == vstd::std_specs::vec::spec_vec_len(&self.tasks));
                }
                assert(tidx as int == t@ - 1);
            }
            let job_id_opt = self.tasks[tidx].job_id;
            proof {
                assert(self.spec_tasks()[tidx as int].job_id == job_id_opt);
                assert(job_id_opt == self.task_view(t).job_id);
            }
            let mut skip = false;
            if let Some(j) = job_id_opt {
                proof {
                    assert(self.spec_tasks()[tidx as int].job_id == Some(j));
                    assert(self.task_view(t).job_id == Some(j));
                    assert(self.valid_job_id(j));
                }
                let jidx: usize = (j.get() - 1) as usize;
                proof {
                    assert(self.spec_jobs().len() == self.jobs@.len());
                    assert(self.jobs@.len() <= usize::MAX) by {
                        assert(self.jobs@.len() == vstd::std_specs::vec::spec_vec_len(&self.jobs));
                    }
                    assert(jidx as int == j@ - 1);
                }
                let jstate = self.jobs[jidx].state;
                if matches!(jstate, JobState::Cancelled) || matches!(jstate, JobState::Stuck) {
                    skip = true;
                } else if matches!(jstate, JobState::Running) {
                    let deadline = self.jobs[jidx].deadline_at_ms;
                    if let Some(d) = deadline {
                        if now_ms > d {
                            self.mark_job_stuck(j, now_ms);
                            skip = true;
                        }
                    }
                }
            }
            if skip {
                proof {
                    assert(self.spec_skipped(t)) by {
                        assert(self.task_view(t).job_id is Some);
                    }
                }
                k = k + 1;
            } else {
                let ghost pre = *self;
                let l = self.lease_ready_task(k, now_ms);
                proof {
                    assert(pre.spec_ready()[k as int] == t);
                    assert(l.spec_task_id() == t);
                    assert(self.spec_ready() == mid.spec_ready().remove(k as int));
                    assert(self.task_view(t) == InMemoryQueue::running_view(
                        olds.promoted_tasks(now_ms)[t@ as int - 1],
                        now_ms,
                    )) by {
                        assert(pre.task_view(t) == mid.spec_tasks()[t@ as int - 1]);
                    }
                    assert forall|t2: TaskId|
                        olds.valid_task_id(t2) && t2 != t implies #[trigger] self.task_view(t2)
                        == olds.promoted_tasks(now_ms)[t2@ as int - 1] by {
                        assert(pre.valid_task_id(t2));
                        assert(self.task_view(t2) == pre.task_view(t2));
                        assert(pre.task_view(t2) == mid.spec_tasks()[t2@ as int - 1]);
                    }
                    assert(!self.spec_skipped(t)) by {
                        assert(self.task_view(t).job_id == pre.task_view(t).job_id);
                        if self.task_view(t).job_id is Some {
                            let j = self.task_view(t).job_id->0;
                            assert(self.job_view(j) == pre.job_view(j));
                        }
                    }
                    assert(self.task_view(t).job_id matches Some(j2) ==> !(self.job_view(
                        j2,
                    ).state == JobState::Running && (self.job_view(j2).deadline_at_ms matches Some(
                        d,
                    ) && now_ms > d))) by {
                        if self.task_view(t).job_id is Some {
                            let j2 = self.task_view(t).job_id->0;
                            assert(self.task_view(t).job_id == pre.task_view(t).job_id);
                            assert(self.job_view(j2) == pre.job_view(j2));
                        }
                    }
                    assert forall|j: int|
                        0 <= j < k implies self.spec_skipped(
                        #[trigger] olds.promoted_ready(now_ms)[j],
                    ) by {
                        let sk = mid.spec_ready()[j];
                        assert(pre.spec_skipped(sk));
                        assert(sk != t) by {
                            if sk == t {
                                assert(id_count(pre.spec_ready(), t) == 1);
                                lemma_id_count_remove(pre.spec_ready(), t, k as int);
                                lemma_id_count_contains(pre.spec_ready().remove(k as int), t);
                                assert(pre.spec_ready().remove(k as int)[j] == sk);
                                assert(false);
                            }
                        }
                        assert(self.task_view(sk) == pre.task_view(sk));
                        if pre.task_view(sk).job_id is Some {
                            let jj = pre.task_view(sk).job_id->0;
                            assert(self.job_view(jj) == pre.job_view(jj));
                        }
                    }
                    assert forall|j: JobId|
                        olds.valid_job_id(j) implies #[trigger] self.job_view(j) == olds.job_view(
                        j,
                    ) || (olds.job_view(j).state == JobState::Running && (
                    olds.job_view(j).deadline_at_ms matches Some(d) && now_ms > d)
                        && self.job_view(j) == (JobRecordView {
                        state: JobState::Stuck,
                        updated_at: now_ms,
                        ..olds.job_view(j)
                    })) by {
                        assert(mid.valid_job_id(j));
                        assert(mid.job_view(j) == olds.job_view(j));
                        assert(self.job_view(j) == pre.job_view(j));
                    }
                }
                return LeaseOutcome::Leased(l);
            }
        }
        let next: Option<u64> = if self.scheduled.len() > 0 {
            Some(self.scheduled[0].0)
        } else {
            None
        };
        proof {
            assert(self.spec_ready() == olds.promoted_ready(now_ms));
            assert forall|t2: TaskId|
                olds.valid_task_id(t2) implies #[trigger] self.task_view(t2)
                == olds.promoted_tasks(now_ms)[t2@ as int - 1] by {
                assert(self.task_view(t2) == mid.task_view(t2));
                assert(mid.spec_tasks() == olds.promoted_tasks(now_ms));
            }
        }
        LeaseOutcome::Idle { next_run_at_ms: next }
    }
}


impl InMemoryQueue {
    /// Appends one attempt record under a fresh attempt id.
    fn record_attempt(
        &mut self,
        task_id: TaskId,
        action: String,
        observation: Vec<Artifact>,
        outcome: Outcome,
        now_ms: u64,
    ) -> (aid: AttemptId)
        requires
            old(self).wf(),
        ensures
            final(self).wf(),
            aid@ == old(self).spec_attempts().len() + 1,
            final(self).spec_attempts() == old(self).spec_attempts().push(
                AttemptRecordView {
                    attempt_id: aid,
                    task_id,
                    action: action@,
                    observation: observation.deep_view(),
                    outcome: outcome@,
                    started_at: now_ms,
                    completed_at: now_ms,
                },
            ),
            final(self).spec_tasks() == old(self).spec_tasks(),
            final(self).spec_jobs() == old(self).spec_jobs(),
            final(self).spec_ready() == old(self).spec_ready(),
            final(self).spec_scheduled() == old(self).spec_scheduled(),
            final(self).spec_decisions() == old(self).spec_decisions(),
            final(self).spec_graph() == old(self).spec_graph(),
            forall|a: TaskId, b: TaskId| final(self).spec_edge(a, b) == old(self).spec_edge(a, b),
            final(self).spec_retry_policy() == old(self).spec_retry_policy(),
    {
        let ghost pre = *old(self);
        let raw: u128 = (self.attempts.len() as u128) + 1;
        let aid = AttemptId::new(raw);
        let rec = AttemptRecord::new(aid, task_id, action, observation, outcome, now_ms);
        self.attempts.push(rec);
        proof {
            assert(self.spec_attempts() =~= pre.spec_attempts().push(rec@));
            assert forall|i: int|
                0 <= i < self.spec_attempts().len() implies (
            #[trigger] self.spec_attempts()[i]).attempt_id@ == i + 1 by {
                if i < pre.spec_attempts().len() {
                    assert(self.spec_attempts()[i] == pre.spec_attempts()[i]);
                }
            }
            assert forall|i: int| 0 <= i < self.spec_tasks().len() implies id_count(
                self.spec_ready(),
                (#[trigger] self.spec_tasks()[i]).envelope.task_id,
            ) == if self.spec_tasks()[i].state == TaskState::Queued && !self.spec_has_deps(
                self.spec_tasks()[i].envelope.task_id,
            ) {
                1nat
            } else {
                0nat
            } by {
                let tid = self.spec_tasks()[i].envelope.task_id;
                assert(self.spec_has_deps(tid) == pre.spec_has_deps(tid)) by {
                    if self.spec_has_deps(tid) {
                        let d = choose|d: TaskId| self.spec_edge(tid, d);
                        assert(pre.spec_edge(tid, d));
                    }
                    if pre.spec_has_deps(tid) {
                        let d = choose|d: TaskId| pre.spec_edge(tid, d);
                        assert(self.spec_edge(tid, d));
                    }
                }
                assert(self.spec_tasks()[i] == pre.spec_tasks()[i]);
            }
            assert forall|a: TaskId, b: TaskId| #[trigger] self.spec_edge(a, b) implies
                self.valid_task_id(a) && self.valid_task_id(b) && self.task_view(a).state
                == TaskState::Queued by {
                assert(pre.spec_edge(a, b));
                assert(self.task_view(a) == pre.task_view(a));
            }
            assert forall|jr: int|
                0 <= jr < self.spec_ready().len() implies self.valid_task_id(
                #[trigger] self.spec_ready()[jr],
            ) by {
                assert(self.spec_ready()[jr] == pre.spec_ready()[jr]);
                assert(pre.valid_task_id(pre.spec_ready()[jr]));
            }
            assert(self.wf());
        }
        aid
    }

    /// Appends one decision record.
    fn record_decision(&mut self, rec: DecisionRecord)
        requires
            old(self).wf(),
        ensures
            final(self).wf(),
            final(self).spec_decisions() == old(self).spec_decisions().push(rec@),
            final(self).spec_tasks() == old(self).spec_tasks(),
            final(self).spec_jobs() == old(self).spec_jobs(),
            final(self).spec_ready() == old(self).spec_ready(),
            final(self).spec_scheduled() == old(self).spec_scheduled(),
            final(self).spec_attempts() == old(self).spec_attempts(),
            forall|a: TaskId, b: TaskId| final(self).spec_edge(a, b) == old(self).spec_edge(a, b),
            final(self).spec_retry_policy() == old(self).spec_retry_policy(),
    {
        let ghost pre = *old(self);
        self.decisions.push(rec);
        proof {
            assert(self.spec_decisions() =~= pre.spec_decisions().push(rec@));
            assert forall|i: int| 0 <= i < self.spec_tasks().len() implies id_count(
                self.spec_ready(),
                (#[trigger] self.spec_tasks()[i]).envelope.task_id,
            ) == if self.spec_tasks()[i].state == TaskState::Queued && !self.spec_has_deps(
                self.spec_tasks()[i].envelope.task_id,
            ) {
                1nat
            } else {
                0nat
            } by {
                let tid = self.spec_tasks()[i].envelope.task_id;
                assert(self.spec_has_deps(tid) == pre.spec_has_deps(tid)) by {
                    if self.spec_has_deps(tid) {
                        let d = choose|d: TaskId| self.spec_edge(tid, d);
                        assert(pre.spec_edge(tid, d));
                    }
                    if pre.spec_has_deps(tid) {
                        let d = choose|d: TaskId| pre.spec_edge(tid, d);
                        assert(self.spec_edge(tid, d));
                    }
                }
                assert(self.spec_tasks()[i] == pre.spec_tasks()[i]);
            }
            assert forall|a: TaskId, b: TaskId| #[trigger] self.spec_edge(a, b) implies
                self.valid_task_id(a) && self.valid_task_id(b) && self.task_view(a).state
                == TaskState::Queued by {
                assert(pre.spec_edge(a, b));
                assert(self.task_view(a) == pre.task_view(a));
            }
            assert forall|jr: int|
                0 <= jr < self.spec_ready().len() implies self.valid_task_id(
                #[trigger] self.spec_ready()[jr],
            ) by {
                assert(self.spec_ready()[jr] == pre.spec_ready()[jr]);
                assert(pre.valid_task_id(pre.spec_ready()[jr]));
            }
            assert(self.wf());
        }
    }

    /// Marks a running task dead.
    fn set_task_dead(&mut self, t: TaskId, error: String, now_ms: u64)
        requires
            old(self).wf(),
            old(self).valid_task_id(t),
            old(self).task_view(t).state == TaskState::Running,
        ensures
            final(self).wf(),
            final(self).spec_tasks().len() == old(self).spec_tasks().len(),
            final(self).task_view(t) == (TaskRecordView {
                state: TaskState::Dead,
                last_error: Some(error@),
                updated_at: now_ms,
                ..old(self).task_view(t)
            }),
            forall|t2: TaskId|
                old(self).valid_task_id(t2) && t2 != t ==> #[trigger] final(self).task_view(t2)
                    == old(self).task_view(t2),
            final(self).spec_jobs() == old(self).spec_jobs(),
            final(self).spec_ready() == old(self).spec_ready(),
            final(self).spec_scheduled() == old(self).spec_scheduled(),
            final(self).spec_attempts() == old(self).spec_attempts(),
            final(self).spec_decisions() == old(self).spec_decisions(),
            forall|a: TaskId, b: TaskId| final(self).spec_edge(a, b) == old(self).spec_edge(a, b),
            final(self).spec_retry_policy() == old(self).spec_retry_policy(),
    {
        let ghost pre = *old(self);
        let tidx: usize = (t.get() - 1) as usize;
        proof {
            assert(pre.spec_tasks().len() == pre.tasks@.len());
            assert(pre.tasks@.len() <= usize::MAX) by {
                assert(pre.tasks@.len() == vstd::std_specs::vec::spec_vec_len(&pre.tasks));
            }
            assert(tidx as int == t@ - 1);
        }
        let mut rec = self.tasks.remove(tidx);
        rec.mark_dead(error, now_ms);
        self.tasks.insert(tidx, rec);
        proof {
            assert(self.tasks@ =~= pre.tasks@.update(tidx as int, rec));
            assert(self.spec_tasks() =~= pre.spec_tasks().update(tidx as int, rec@));
            assert(pre.spec_tasks()[tidx as int].envelope.task_id@ == tidx + 1);
            lemma_task_id_injective(pre.spec_tasks()[tidx as int].envelope.task_id, t);
            assert(rec@ == (TaskRecordView {
                state: TaskState::Dead,
                last_error: Some(error@),
                updated_at: now_ms,
                ..pre.task_view(t)
            }));
            assert forall|t2: TaskId|
                pre.valid_task_id(t2) && t2 != t implies #[trigger] self.task_view(t2)
                == pre.task_view(t2) by {
                if t2@ - 1 == tidx {
                    lemma_task_id_injective(t2, t);
                    assert(false);
                }
            }
            assert forall|i: int| 0 <= i < self.spec_tasks().len() implies id_count(
                self.spec_ready(),
                (#[trigger] self.spec_tasks()[i]).envelope.task_id,
            ) == if self.spec_tasks()[i].state == TaskState::Queued && !self.spec_has_deps(
                self.spec_tasks()[i].envelope.task_id,
            ) {
                1nat
            } else {
                0nat
            } by {
                let tid = self.spec_tasks()[i].envelope.task_id;
                assert(tid@ == i + 1);
                assert(self.spec_has_deps(tid) == pre.spec_has_deps(tid)) by {
                    if self.spec_has_deps(tid) {
                        let d = choose|d: TaskId| self.spec_edge(tid, d);
                        assert(pre.spec_edge(tid, d));
                    }
                    if pre.spec_has_deps(tid) {
                        let d = choose|d: TaskId| pre.spec_edge(tid, d);
                        assert(self.spec_edge(tid, d));
                    }
                }
                if i == tidx {
                    assert(id_count(pre.spec_ready(), tid)  == 0);
                } else {
                    assert(self.spec_tasks()[i] == pre.spec_tasks()[i]);
                }
            }
            assert forall|i: int| 0 <= i < self.spec_tasks().len() implies id_count(
                self.sched_ids(),
                (#[trigger] self.spec_tasks()[i]).envelope.task_id,
            ) == if self.spec_tasks()[i].state == TaskState::RetryScheduled {
                1nat
            } else {
                0nat
            } by {
                if i != tidx {
                    assert(self.spec_tasks()[i] == pre.spec_tasks()[i]);
                }
            }
            assert forall|j: int|
                0 <= j < self.spec_scheduled().len() implies self.valid_task_id(
                (#[trigger] self.spec_scheduled()[j]).1,
            ) && self.task_view(self.spec_scheduled()[j].1).state == TaskState::RetryScheduled
                && self.task_view(self.spec_scheduled()[j].1).next_run_at == Some(
                self.spec_scheduled()[j].0,
            ) by {
                let sid = self.spec_scheduled()[j].1;
                assert(pre.valid_task_id(sid));
                if sid@ - 1 == tidx {
                    assert(sid == t) by {
                        lemma_task_id_injective(sid, t);
                    }
                    assert(pre.task_view(t).state == TaskState::Running);
                    assert(false);
                }
                assert(self.task_view(sid) == pre.task_view(sid));
            }
            assert forall|a: TaskId, b: TaskId| #[trigger] self.spec_edge(a, b) implies
                self.valid_task_id(a) && self.valid_task_id(b) && self.task_view(a).state
                == TaskState::Queued by {
                assert(pre.spec_edge(a, b));
                if a@ - 1 == tidx {
                    assert(a == t) by {
                        lemma_task_id_injective(a, t);
                    }
                    assert(pre.task_view(t).state == TaskState::Running);
                    assert(false);
                }
                assert(self.task_view(a) == pre.task_view(a));
            }
            assert forall|jb: int, kk2: int|
                0 <= jb < self.spec_jobs().len() && 0 <= kk2 < (
            #[trigger] self.spec_jobs()[jb]).task_ids.len() implies self.valid_task_id(
                #[trigger] self.spec_jobs()[jb].task_ids[kk2],
            ) && self.task_view(self.spec_jobs()[jb].task_ids[kk2]).job_id == Some(
                self.spec_jobs()[jb].job_id,
            ) by {
                let mid2 = self.spec_jobs()[jb].task_ids[kk2];
                assert(pre.valid_task_id(mid2));
                if mid2@ - 1 == tidx {
                    assert(self.task_view(mid2) == rec@);
                } else {
                    assert(self.task_view(mid2) == pre.task_view(mid2));
                }
            }
            assert(self.wf());
        }
    }

    /// The states of a job's member tasks, in membership order.
    pub open spec fn member_states(self, j: JobId) -> Seq<TaskState> {
        self.job_view(j).task_ids.map_values(|t: TaskId| self.task_view(t).state)
    }

    /// Re-aggregates one job's state from its members (sticky marks and
    /// settled states stay).
    fn refresh_job_state(&mut self, j: JobId, now_ms: u64)
        requires
            old(self).wf(),
            old(self).valid_job_id(j),
        ensures
            final(self).wf(),
            final(self).spec_jobs().len() == old(self).spec_jobs().len(),
            final(self).job_view(j) == (if old(self).job_view(j).state == JobState::Running {
                JobRecordView {
                    state: aggregate_states(old(self).member_states(j)),
                    updated_at: now_ms,
                    ..old(self).job_view(j)
                }
            } else {
                old(self).job_view(j)
            }),
            forall|j2: JobId|
                old(self).valid_job_id(j2) && j2 != j ==> #[trigger] final(self).job_view(j2)
                    == old(self).job_view(j2),
            final(self).spec_tasks() == old(self).spec_tasks(),
            final(self).spec_ready() == old(self).spec_ready(),
            final(self).spec_scheduled() == old(self).spec_scheduled(),
            final(self).spec_attempts() == old(self).spec_attempts(),
            final(self).spec_decisions() == old(self).spec_decisions(),
            forall|a: TaskId, b: TaskId| final(self).spec_edge(a, b) == old(self).spec_edge(a, b),
            final(self).spec_retry_policy() == old(self).spec_retry_policy(),
    {
        let ghost pre = *old(self);
        let jidx: usize = (j.get() - 1) as usize;
        proof {
            assert(pre.spec_jobs().len() == pre.jobs@.len());
            assert(pre.jobs@.len() <= usize::MAX) by {
                assert(pre.jobs@.len() == vstd::std_specs::vec::spec_vec_len(&pre.jobs));
            }
            assert(jidx as int == j@ - 1);
        }
        let mut states: Vec<(TaskId, TaskState)> = Vec::new();
        let mut m: usize = 0;
        let n = self.jobs[jidx].task_ids.len();
        while m < n
            invariant
                pre == *old(self),
                *self == pre,
                self.wf(),
                jidx as int == j@ - 1,
                0 <= jidx < self.jobs@.len(),
                n == self.spec_jobs()[jidx as int].task_ids.len(),
                m <= n,
                states@.len() == m,
                forall|x: int|
                    0 <= x < m ==> (#[trigger] states@[x]).1 == self.task_view(
                        self.spec_jobs()[jidx as int].task_ids[x],
                    ).state,
            decreases n - m,
        {
            let tid = self.jobs[jidx].task_ids[m];
            proof {
                assert(self.spec_jobs()[jidx as int].task_ids[m as int] == tid);
                assert(self.valid_task_id(tid));
            }
            let tdx: usize = (tid.get() - 1) as usize;
            proof {
                assert(self.spec_tasks().len() == self.tasks@.len());
                assert(self.tasks@.len() <= usize::MAX) by {
                    assert(self.tasks@.len() == vstd::std_specs::vec::spec_vec_len(&self.tasks));
                }
                assert(tdx as int == tid@ - 1);
            }
            let st = self.tasks[tdx].state;
            states.push((tid, st));
            m = m + 1;
        }
        let mut jrec = self.jobs.remove(jidx);
        jrec.update_state_from_tasks(&states, now_ms);
        self.jobs.insert(jidx, jrec);
        proof {
            assert(self.jobs@ =~= pre.jobs@.update(jidx as int, jrec));
            assert(self.spec_jobs() =~= pre.spec_jobs().update(jidx as int, jrec@));
            assert(states@.map_values(|p: (TaskId, TaskState)| p.1) =~= pre.member_states(j));
            assert forall|j2: JobId|
                pre.valid_job_id(j2) && j2 != j implies #[trigger] self.job_view(j2)
                == pre.job_view(j2) by {
                if j2@ - 1 == jidx {
                    lemma_job_id_injective(j2, j);
                    assert(false);
                }
            }
            assert forall|jb: int|
                0 <= jb < self.spec_jobs().len() implies (#[trigger] self.spec_jobs()[jb]).job_id@
                == jb + 1 by {
                if jb == jidx {
                    assert(self.spec_jobs()[jb] == jrec@);
                    assert(jrec@.job_id == pre.spec_jobs()[jb].job_id);
                } else {
                    assert(self.spec_jobs()[jb] == pre.spec_jobs()[jb]);
                }
            }
            assert forall|jb: int, kk2: int|
                0 <= jb < self.spec_jobs().len() && 0 <= kk2 < (
            #[trigger] self.spec_jobs()[jb]).task_ids.len() implies self.valid_task_id(
                #[trigger] self.spec_jobs()[jb].task_ids[kk2],
            ) && self.task_view(self.spec_jobs()[jb].task_ids[kk2]).job_id == Some(
                self.spec_jobs()[jb].job_id,
            ) by {
                if jb == jidx {
                    assert(self.spec_jobs()[jb].task_ids == pre.spec_jobs()[jb].task_ids);
                    assert(self.spec_jobs()[jb].job_id == pre.spec_jobs()[jb].job_id);
                } else {
                    assert(self.spec_jobs()[jb] == pre.spec_jobs()[jb]);
                }
            }
            assert forall|jb: int|
                0 <= jb < self.spec_jobs().len() implies (
            #[trigger] self.spec_jobs()[jb]).task_ids.no_duplicates() by {
                if jb == jidx {
                    assert(self.spec_jobs()[jb].task_ids == pre.spec_jobs()[jb].task_ids);
                } else {
                    assert(self.spec_jobs()[jb] == pre.spec_jobs()[jb]);
                }
            }
            assert forall|i: int| 0 <= i < self.spec_tasks().len() implies id_count(
                self.spec_ready(),
                (#[trigger] self.spec_tasks()[i]).envelope.task_id,
            ) == if self.spec_tasks()[i].state == TaskState::Queued && !self.spec_has_deps(
                self.spec_tasks()[i].envelope.task_id,
            ) {
                1nat
            } else {
                0nat
            } by {
                let tid = self.spec_tasks()[i].envelope.task_id;
                assert(self.spec_has_deps(tid) == pre.spec_has_deps(tid)) by {
                    if self.spec_has_deps(tid) {
                        let d = choose|d: TaskId| self.spec_edge(tid, d);
                        assert(pre.spec_edge(tid, d));
                    }
                    if pre.spec_has_deps(tid) {
                        let d = choose|d: TaskId| pre.spec_edge(tid, d);
                        assert(self.spec_edge(tid, d));
                    }
                }
                assert(self.spec_tasks()[i] == pre.spec_tasks()[i]);
                assert(self.spec_ready() == pre.spec_ready());
            }
            assert forall|a: TaskId, b: TaskId| #[trigger] self.spec_edge(a, b) implies
                self.valid_task_id(a) && self.valid_task_id(b) && self.task_view(a).state
                == TaskState::Queued by {
                assert(pre.spec_edge(a, b));
                assert(self.task_view(a) == pre.task_view(a));
            }
            assert forall|jr: int|
                0 <= jr < self.spec_ready().len() implies self.valid_task_id(
                #[trigger] self.spec_ready()[jr],
            ) by {
                assert(self.spec_ready()[jr] == pre.spec_ready()[jr]);
                assert(pre.valid_task_id(pre.spec_ready()[jr]));
            }
            assert(self.wf());
        }
    }
}


impl InMemoryQueue {
    /// Moves a running task to RetryScheduled and files its entry in the
    /// time-sorted schedule.
    fn set_task_retry(&mut self, t: TaskId, next_run_at: u64, error: String, now_ms: u64)
        requires
            old(self).wf(),
            old(self).valid_task_id(t),
            old(self).task_view(t).state == TaskState::Running,
            old(self).task_view(t).attempts < old(self).task_view(t).max_attempts,
        ensures
            final(self).wf(),
            final(self).spec_tasks().len() == old(self).spec_tasks().len(),
            final(self).task_view(t) == (TaskRecordView {
                state: TaskState::RetryScheduled,
                next_run_at: Some(next_run_at),
                last_error: Some(error@),
                updated_at: now_ms,
                ..old(self).task_view(t)
            }),
            forall|t2: TaskId|
                old(self).valid_task_id(t2) && t2 != t ==> #[trigger] final(self).task_view(t2)
                    == old(self).task_view(t2),
            exists|p: int|
                0 <= p <= old(self).spec_scheduled().len() && final(self).spec_scheduled() == old(
                    self,
                ).spec_scheduled().insert(p, (next_run_at, t)),
            final(self).spec_jobs() == old(self).spec_jobs(),
            final(self).spec_ready() == old(self).spec_ready(),
            final(self).spec_attempts() == old(self).spec_attempts(),
            final(self).spec_decisions() == old(self).spec_decisions(),
            forall|a: TaskId, b: TaskId| final(self).spec_edge(a, b) == old(self).spec_edge(a, b),
            final(self).spec_retry_policy() == old(self).spec_retry_policy(),
    {
        let ghost pre = *old(self);
        let tidx: usize = (t.get() - 1) as usize;
        proof {
            assert(pre.spec_tasks().len() == pre.tasks@.len());
            assert(pre.tasks@.len() <= usize::MAX) by {
                assert(pre.tasks@.len() == vstd::std_specs::vec::spec_vec_len(&pre.tasks));
            }
            assert(tidx as int == t@ - 1);
            assert(pre.spec_tasks()[tidx as int].envelope.task_id@ == tidx + 1);
            lemma_task_id_injective(pre.spec_tasks()[tidx as int].envelope.task_id, t);
        }
        let mut rec = self.tasks.remove(tidx);
        rec.schedule_retry(next_run_at, error, now_ms);
        self.tasks.insert(tidx, rec);
        // find the first entry strictly later than the new time
        let mut p: usize = 0;
        while p < self.scheduled.len() && self.scheduled[p].0 <= next_run_at
            invariant
                p <= self.scheduled.len(),
                forall|x: int| 0 <= x < p ==> (#[trigger] self.spec_scheduled()[x]).0 <= next_run_at,
            decreases self.scheduled.len() - p,
        {
            p = p + 1;
        }
        proof {
            assert forall|x: int| 0 <= x < p implies (#[trigger] pre.spec_scheduled()[x]).0
                <= next_run_at by {
                assert(self.spec_scheduled()[x] == pre.spec_scheduled()[x]);
            }
            assert(p == pre.spec_scheduled().len() || pre.spec_scheduled()[p as int].0
                > next_run_at);
        }
        self.scheduled.insert(p, (next_run_at, t));
        proof {
            assert(self.tasks@ =~= pre.tasks@.update(tidx as int, rec));
            assert(self.spec_tasks() =~= pre.spec_tasks().update(tidx as int, rec@));
            assert(self.spec_scheduled() =~= pre.spec_scheduled().insert(
                p as int,
                (next_run_at, t),
            ));
            assert(rec@ == (TaskRecordView {
                state: TaskState::RetryScheduled,
                next_run_at: Some(next_run_at),
                last_error: Some(error@),
                updated_at: now_ms,
                ..pre.task_view(t)
            }));
            assert forall|t2: TaskId|
                pre.valid_task_id(t2) && t2 != t implies #[trigger] self.task_view(t2)
                == pre.task_view(t2) by {
                if t2@ - 1 == tidx {
                    lemma_task_id_injective(t2, t);
                    assert(false);
                }
            }
            assert(self.sched_ids() =~= pre.sched_ids().insert(p as int, t));
            assert(self.sched_ids().remove(p as int) =~= pre.sched_ids());
            // counts: the new entry adds one occurrence of t and no other
            assert forall|i: int| 0 <= i < self.spec_tasks().len() implies id_count(
                self.sched_ids(),
                (#[trigger] self.spec_tasks()[i]).envelope.task_id,
            ) == if self.spec_tasks()[i].state == TaskState::RetryScheduled {
                1nat
            } else {
                0nat
            } by {
                let tid = self.spec_tasks()[i].envelope.task_id;
                assert(tid@ == i + 1);
                lemma_id_count_remove(self.sched_ids(), tid, p as int);
                assert(self.sched_ids()[p as int] == t);
                if i == tidx {
                    assert(id_count(pre.sched_ids(), t) == 0);
                } else {
                    assert(self.spec_tasks()[i] == pre.spec_tasks()[i]);
                    if tid == t {
                        assert(tid@ == t@);
                        assert(false);
                    }
                }
            }
            assert forall|i: int| 0 <= i < self.spec_tasks().len() implies id_count(
                self.spec_ready(),
                (#[trigger] self.spec_tasks()[i]).envelope.task_id,
            ) == if self.spec_tasks()[i].state == TaskState::Queued && !self.spec_has_deps(
                self.spec_tasks()[i].envelope.task_id,
            ) {
                1nat
            } else {
                0nat
            } by {
                let tid = self.spec_tasks()[i].envelope.task_id;
                assert(self.spec_has_deps(tid) == pre.spec_has_deps(tid)) by {
                    if self.spec_has_deps(tid) {
                        let d = choose|d: TaskId| self.spec_edge(tid, d);
                        assert(pre.spec_edge(tid, d));
                    }
                    if pre.spec_has_deps(tid) {
                        let d = choose|d: TaskId| pre.spec_edge(tid, d);
                        assert(self.spec_edge(tid, d));
                    }
                }
                if i == tidx {
                    assert(id_count(pre.spec_ready(), tid) == 0);
                } else {
                    assert(self.spec_tasks()[i] == pre.spec_tasks()[i]);
                }
            }
            assert forall|jx: int|
                0 <= jx < self.spec_scheduled().len() implies self.valid_task_id(
                (#[trigger] self.spec_scheduled()[jx]).1,
            ) && self.task_view(self.spec_scheduled()[jx].1).state == TaskState::RetryScheduled
                && self.task_view(self.spec_scheduled()[jx].1).next_run_at == Some(
                self.spec_scheduled()[jx].0,
            ) by {
                if jx == p {
                    assert(self.spec_scheduled()[jx] == (next_run_at, t));
                    assert(self.task_view(t) == rec@);
                } else {
                    let prev: int = if jx < p {
                        jx
                    } else {
                        jx - 1
                    };
                    assert(self.spec_scheduled()[jx] == pre.spec_scheduled()[prev]);
                    let sid = self.spec_scheduled()[jx].1;
                    assert(pre.valid_task_id(sid));
                    if sid@ - 1 == tidx {
                        assert(sid == t) by {
                            lemma_task_id_injective(sid, t);
                        }
                        assert(pre.task_view(t).state == TaskState::Running);
                        assert(false);
                    }
                    assert(self.task_view(sid) == pre.task_view(sid));
                }
            }
            assert forall|jx: int, kx: int|
                0 <= jx < kx < self.spec_scheduled().len() implies (
            #[trigger] self.spec_scheduled()[jx]).0 <= (#[trigger] self.spec_scheduled()[kx]).0
                by {
                let old_sched = pre.spec_scheduled();
                let pp = p as int;
                if jx < pp {
                    assert(self.spec_scheduled()[jx] == old_sched[jx]);
                    assert(old_sched[jx].0 <= next_run_at);
                } else if jx == pp {
                    assert(self.spec_scheduled()[jx] == (next_run_at, t));
                } else {
                    assert(self.spec_scheduled()[jx] == old_sched[jx - 1]);
                    assert(jx - 1 >= pp);
                    assert(old_sched[pp].0 > next_run_at);
                    if jx - 1 > pp {
                        assert(old_sched[pp].0 <= old_sched[jx - 1].0);
                    }
                }
                if kx < pp {
                    assert(self.spec_scheduled()[kx] == old_sched[kx]);
                    assert(old_sched[jx].0 <= old_sched[kx].0);
                } else if kx == pp {
                    assert(self.spec_scheduled()[kx] == (next_run_at, t));
                } else {
                    assert(self.spec_scheduled()[kx] == old_sched[kx - 1]);
                    assert(kx - 1 >= pp);
                    assert(old_sched[pp].0 > next_run_at);
                    if kx - 1 > pp {
                        assert(old_sched[pp].0 <= old_sched[kx - 1].0);
                    }
                    if jx < pp {
                        assert(old_sched[jx].0 <= old_sched[kx - 1].0);
                    } else if jx > pp {
                        assert(old_sched[jx - 1].0 <= old_sched[kx - 1].0);
                    }
                }
            }
            assert forall|a: TaskId, b: TaskId| #[trigger] self.spec_edge(a, b) implies
                self.valid_task_id(a) && self.valid_task_id(b) && self.task_view(a).state
                == TaskState::Queued by {
                assert(pre.spec_edge(a, b));
                if a@ - 1 == tidx {
                    assert(a == t) by {
                        lemma_task_id_injective(a, t);
                    }
                    assert(pre.task_view(t).state == TaskState::Running);
                    assert(false);
                }
                assert(self.task_view(a) == pre.task_view(a));
            }
            assert forall|jb: int, kk2: int|
                0 <= jb < self.spec_jobs().len() && 0 <= kk2 < (
            #[trigger] self.spec_jobs()[jb]).task_ids.len() implies self.valid_task_id(
                #[trigger] self.spec_jobs()[jb].task_ids[kk2],
            ) && self.task_view(self.spec_jobs()[jb].task_ids[kk2]).job_id == Some(
                self.spec_jobs()[jb].job_id,
            ) by {
                let mid2 = self.spec_jobs()[jb].task_ids[kk2];
                assert(pre.valid_task_id(mid2));
                if mid2@ - 1 == tidx {
                    assert(self.task_view(mid2) == rec@);
                } else {
                    assert(self.task_view(mid2) == pre.task_view(mid2));
                }
            }
            assert(self.wf());
        }
    }

    /// Marks a running task succeeded and resolves its dependents: every
    /// edge into the task disappears, and each waiter left with no other
    /// dependency joins the ready queue.
    fn set_task_succeeded(&mut self, t: TaskId, now_ms: u64) -> (freed_ws: Ghost<Seq<TaskId>>)
        requires
            old(self).wf(),
            old(self).valid_task_id(t),
            old(self).task_view(t).state == TaskState::Running,
        ensures
            final(self).wf(),
            final(self).spec_tasks().len() == old(self).spec_tasks().len(),
            final(self).task_view(t) == (TaskRecordView {
                state: TaskState::Succeeded,
                updated_at: now_ms,
                ..old(self).task_view(t)
            }),
            forall|t2: TaskId|
                old(self).valid_task_id(t2) && t2 != t ==> #[trigger] final(self).task_view(t2)
                    == old(self).task_view(t2),
            forall|a: TaskId, b: TaskId|
                final(self).spec_edge(a, b) <==> (old(self).spec_edge(a, b) && b != t),
            final(self).spec_ready() == old(self).spec_ready() + freed_ws@,
            freed_ws@ == sole_waiters(old(self).spec_graph(), t),
            freed_ws@.no_duplicates(),
            forall|w: TaskId|
                freed_ws@.contains(w) <==> (old(self).spec_edge(w, t) && (forall|d: TaskId|
                    old(self).spec_edge(w, d) ==> d == t)),
            final(self).spec_jobs() == old(self).spec_jobs(),
            final(self).spec_scheduled() == old(self).spec_scheduled(),
            final(self).spec_attempts() == old(self).spec_attempts(),
            final(self).spec_decisions() == old(self).spec_decisions(),
            final(self).spec_retry_policy() == old(self).spec_retry_policy(),
    {
        let ghost pre = *old(self);
        let tidx: usize = (t.get() - 1) as usize;
        proof {
            assert(pre.spec_tasks().len() == pre.tasks@.len());
            assert(pre.tasks@.len() <= usize::MAX) by {
                assert(pre.tasks@.len() == vstd::std_specs::vec::spec_vec_len(&pre.tasks));
            }
            assert(tidx as int == t@ - 1);
            assert(pre.spec_tasks()[tidx as int].envelope.task_id@ == tidx + 1);
            lemma_task_id_injective(pre.spec_tasks()[tidx as int].envelope.task_id, t);
        }
        let mut rec = self.tasks.remove(tidx);
        rec.mark_succeeded(now_ms);
        self.tasks.insert(tidx, rec);
        proof {
            assert(self.tasks@ =~= pre.tasks@.update(tidx as int, rec));
            assert(self.spec_tasks() =~= pre.spec_tasks().update(tidx as int, rec@));
            assert forall|t2: TaskId|
                pre.valid_task_id(t2) && t2 != t implies #[trigger] self.task_view(t2)
                == pre.task_view(t2) by {
                if t2@ - 1 == tidx {
                    lemma_task_id_injective(t2, t);
                    assert(false);
                }
            }
            assert forall|i: int| 0 <= i < self.spec_tasks().len() implies id_count(
                self.spec_ready(),
                (#[trigger] self.spec_tasks()[i]).envelope.task_id,
            ) == if self.spec_tasks()[i].state == TaskState::Queued && !self.spec_has_deps(
                self.spec_tasks()[i].envelope.task_id,
            ) {
                1nat
            } else {
                0nat
            } by {
                let tid = self.spec_tasks()[i].envelope.task_id;
                assert(tid@ == i + 1);
                assert(self.spec_has_deps(tid) == pre.spec_has_deps(tid)) by {
                    if self.spec_has_deps(tid) {
                        let d = choose|d: TaskId| self.spec_edge(tid, d);
                        assert(pre.spec_edge(tid, d));
                    }
                    if pre.spec_has_deps(tid) {
                        let d = choose|d: TaskId| pre.spec_edge(tid, d);
                        assert(self.spec_edge(tid, d));
                    }
                }
                if i == tidx {
                    assert(id_count(pre.spec_ready(), tid) == 0);
                } else {
                    assert(self.spec_tasks()[i] == pre.spec_tasks()[i]);
                }
            }
            assert forall|i: int| 0 <= i < self.spec_tasks().len() implies id_count(
                self.sched_ids(),
                (#[trigger] self.spec_tasks()[i]).envelope.task_id,
            ) == if self.spec_tasks()[i].state == TaskState::RetryScheduled {
                1nat
            } else {
                0nat
            } by {
                if i != tidx {
                    assert(self.spec_tasks()[i] == pre.spec_tasks()[i]);
                }
            }
            assert forall|j: int|
                0 <= j < self.spec_scheduled().len() implies self.valid_task_id(
                (#[trigger] self.spec_scheduled()[j]).1,
            ) && self.task_view(self.spec_scheduled()[j].1).state == TaskState::RetryScheduled
                && self.task_view(self.spec_scheduled()[j].1).next_run_at == Some(
                self.spec_scheduled()[j].0,
            ) by {
                let sid = self.spec_scheduled()[j].1;
                assert(pre.valid_task_id(sid));
                if sid@ - 1 == tidx {
                    assert(sid == t) by {
                        lemma_task_id_injective(sid, t);
                    }
                    assert(pre.task_view(t).state == TaskState::Running);
                    assert(false);
                }
                assert(self.task_view(sid) == pre.task_view(sid));
            }
            assert forall|a: TaskId, b: TaskId| #[trigger] self.spec_edge(a, b) implies
                self.valid_task_id(a) && self.valid_task_id(b) && self.task_view(a).state
                == TaskState::Queued by {
                assert(pre.spec_edge(a, b));
                if a@ - 1 == tidx {
                    assert(a == t) by {
                        lemma_task_id_injective(a, t);
                    }
                    assert(pre.task_view(t).state == TaskState::Running);
                    assert(false);
                }
                assert(self.task_view(a) == pre.task_view(a));
            }
            assert forall|jb: int, kk2: int|
                0 <= jb < self.spec_jobs().len() && 0 <= kk2 < (
            #[trigger] self.spec_jobs()[jb]).task_ids.len() implies self.valid_task_id(
                #[trigger] self.spec_jobs()[jb].task_ids[kk2],
            ) && self.task_view(self.spec_jobs()[jb].task_ids[kk2]).job_id == Some(
                self.spec_jobs()[jb].job_id,
            ) by {
                let mid2 = self.spec_jobs()[jb].task_ids[kk2];
                assert(pre.valid_task_id(mid2));
                if mid2@ - 1 == tidx {
                    assert(self.task_view(mid2) == rec@);
                } else {
                    assert(self.task_view(mid2) == pre.task_view(mid2));
                }
            }
            assert(self.wf());
        }
        let ghost mid = *self;
        let ghost g0 = self.graph;
        let waiters = self.graph.get_waiting_tasks(t);
        let ghost mut ws: Seq<TaskId> = Seq::empty();
        let mut m: usize = 0;
        proof {
            assert(mid.spec_ready() =~= mid.spec_ready() + ws);
            assert(mid.spec_tasks() =~= pre.spec_tasks().update(
                tidx as int,
                mid.spec_tasks()[tidx as int],
            ));
            reveal_with_fuel(Seq::<TaskId>::filter, 2);
            assert(waiters@.subrange(0, 0).len() == 0);
            assert(ws =~= sole_waiters_of(g0, t, waiters@.subrange(0, 0)));
            assert(waiters@ == g0.waiters_seq(t));
            assert(g0 == pre.spec_graph());
        }
        while m < waiters.len()
            invariant
                pre == *old(self),
                mid.wf(),
                self.wf(),
                0 <= tidx < pre.spec_tasks().len(),
                tidx as int == t@ - 1,
                pre.valid_task_id(t),
                m <= waiters.len(),
                waiters@.no_duplicates(),
                forall|w: TaskId| waiters@.contains(w) <==> mid.spec_edge(w, t),
                forall|a: TaskId, b: TaskId| mid.spec_edge(a, b) == pre.spec_edge(a, b),
                mid.spec_tasks().len() == pre.spec_tasks().len(),
                mid.task_view(t) == (TaskRecordView {
                    state: TaskState::Succeeded,
                    updated_at: now_ms,
                    ..pre.task_view(t)
                }),
                forall|t2: TaskId|
                    pre.valid_task_id(t2) && t2 != t ==> #[trigger] mid.task_view(t2)
                        == pre.task_view(t2),
                mid.spec_ready() == pre.spec_ready(),
                mid.spec_jobs() == pre.spec_jobs(),
                mid.spec_scheduled() == pre.spec_scheduled(),
                mid.spec_attempts() == pre.spec_attempts(),
                mid.spec_decisions() == pre.spec_decisions(),
                mid.spec_retry_policy() == pre.spec_retry_policy(),
                self.spec_tasks() == mid.spec_tasks(),
                self.spec_jobs() == mid.spec_jobs(),
                self.spec_scheduled() == mid.spec_scheduled(),
                self.spec_attempts() == mid.spec_attempts(),
                self.spec_decisions() == mid.spec_decisions(),
                self.spec_retry_policy() == mid.spec_retry_policy(),
                forall|a: TaskId, b: TaskId|
                    self.spec_edge(a, b) <==> (mid.spec_edge(a, b) && !(b == t
                        && waiters@.subrange(0, m as int).contains(a))),
                self.spec_ready() == mid.spec_ready() + ws,
                ws.no_duplicates(),
                forall|w: TaskId|
                    ws.contains(w) <==> (waiters@.subrange(0, m as int).contains(w) && (
                    forall|d: TaskId| mid.spec_edge(w, d) ==> d == t)),
                g0 == mid.spec_graph(),
                ws == sole_waiters_of(g0, t, waiters@.subrange(0, m as int)),
            decreases waiters.len() - m,
        {
            let ghost looppre = *self;
            let w = waiters[m];
            let ghost prefix_old = waiters@.subrange(0, m as int);
            let ghost prefix_new = waiters@.subrange(0, m as int + 1);
            proof {
                assert(waiters@.contains(w));
                assert(mid.spec_edge(w, t));
                assert(prefix_new =~= prefix_old.push(w));
                assert(!prefix_old.contains(w)) by {
                    if prefix_old.contains(w) {
                        let x = choose|x: int| 0 <= x < m && prefix_old[x] == w;
                        assert(waiters@[x] == w);
                        assert(waiters@[m as int] == w);
                        assert(false);
                    }
                }
                assert(looppre.spec_edge(w, t));
            }
            let freed = self.resolve_waiter(w, t);
            proof {
                assert forall|a: TaskId, b: TaskId|
                    self.spec_edge(a, b) <==> (mid.spec_edge(a, b) && !(b == t
                        && prefix_new.contains(a))) by {
                    assert(self.spec_edge(a, b) <==> (looppre.spec_edge(a, b) && !(a == w && b
                        == t)));
                    assert(looppre.spec_edge(a, b) <==> (mid.spec_edge(a, b) && !(b == t
                        && prefix_old.contains(a))));
                    assert(prefix_new.contains(a) <==> (prefix_old.contains(a) || a == w)) by {
                        if prefix_new.contains(a) {
                            let x = choose|x: int| 0 <= x < prefix_new.len() && prefix_new[x]
                                == a;
                            if x < m {
                                assert(prefix_old[x] == a);
                            } else {
                                assert(a == w);
                            }
                        }
                        if prefix_old.contains(a) {
                            let x = choose|x: int| 0 <= x < prefix_old.len() && prefix_old[x]
                                == a;
                            assert(prefix_new[x] == a);
                        }
                        if a == w {
                            assert(prefix_new[m as int] == w);
                        }
                    }
                }
                // freed exactly when the only dependency was t
                assert(freed == (forall|d: TaskId| mid.spec_edge(w, d) ==> d == t)) by {
                    if freed {
                        assert forall|d: TaskId| mid.spec_edge(w, d) implies d == t by {
                            if d != t {
                                assert(looppre.spec_edge(w, d)) by {
                                    assert(!prefix_old.contains(w));
                                }
                                assert(false);
                            }
                        }
                    } else {
                        let d = choose|d: TaskId| looppre.spec_edge(w, d) && d != t;
                        assert(mid.spec_edge(w, d));
                    }
                }
                let ghost ws0 = ws;
                if freed {
                    ws = ws.push(w);
                    assert(!ws0.contains(w)) by {
                        if ws0.contains(w) {
                            assert(prefix_old.contains(w));
                        }
                    }
                    assert(self.spec_ready() =~= mid.spec_ready() + ws) by {
                        assert(self.spec_ready() =~= looppre.spec_ready().push(w));
                        assert(looppre.spec_ready() == mid.spec_ready() + ws0);
                        assert((mid.spec_ready() + ws0).push(w) =~= mid.spec_ready() + ws);
                    }
                    assert(ws.no_duplicates()) by {
                        assert forall|x: int, y: int| 0 <= x < y < ws.len() implies ws[x] != ws[y]
                            by {
                            if y == ws.len() - 1 {
                                assert(ws[y] == w);
                                if ws[x] == w {
                                    assert(ws0[x] == w);
                                    assert(ws0.contains(w));
                                }
                            } else {
                                assert(ws[x] == ws0[x] && ws[y] == ws0[y]);
                            }
                        }
                    }
                }
                assert forall|w2: TaskId|
                    ws.contains(w2) <==> (prefix_new.contains(w2) && (forall|d: TaskId|
                        mid.spec_edge(w2, d) ==> d == t)) by {
                    if ws.contains(w2) {
                        let x = choose|x: int| 0 <= x < ws.len() && ws[x] == w2;
                        if freed && x == ws.len() - 1 {
                            assert(w2 == w);
                            assert(prefix_new[m as int] == w);
                        } else {
                            assert(ws0[x] == w2);
                            assert(ws0.contains(w2));
                            assert(prefix_old.contains(w2));
                            let y = choose|y: int| 0 <= y < prefix_old.len() && prefix_old[y]
                                == w2;
                            assert(prefix_new[y] == w2);
                        }
                    }
                    if prefix_new.contains(w2) && (forall|d: TaskId|
                        mid.spec_edge(w2, d) ==> d == t) {
                        let y = choose|y: int| 0 <= y < prefix_new.len() && prefix_new[y] == w2;
                        if y < m {
                            assert(prefix_old[y] == w2);
                            assert(ws0.contains(w2));
                            let x = choose|x: int| 0 <= x < ws0.len() && ws0[x] == w2;
                            assert(ws[x] == w2);
                        } else {
                            assert(w2 == w);
                            assert(freed);
                            assert(ws.last() == w);
                        }
                    }
                }
                // the freed list is exactly the filtered waiter prefix
                assert(ws == sole_waiters_of(g0, t, prefix_new)) by {
                    reveal_with_fuel(Seq::<TaskId>::filter, 2);
                    assert(prefix_new.drop_last() =~= prefix_old);
                    assert(prefix_new.last() == w);
                    assert((forall|d: TaskId| g0.spec_edge(w, d) ==> d == t) == freed) by {
                        if freed {
                            assert forall|d: TaskId| g0.spec_edge(w, d) implies d == t by {
                                assert(mid.spec_edge(w, d));
                            }
                        }
                        if forall|d: TaskId| g0.spec_edge(w, d) ==> d == t {
                            assert forall|d: TaskId| mid.spec_edge(w, d) implies d == t by {
                                assert(g0.spec_edge(w, d));
                            }
                        }
                    }
                    if freed {
                        assert(ws =~= ws0.push(w));
                    }
                }
            }
            m = m + 1;
            proof {
                assert(waiters@.subrange(0, m as int) =~= prefix_new);
                assert forall|a: TaskId, b: TaskId|
                    self.spec_edge(a, b) <==> (mid.spec_edge(a, b) && !(b == t
                        && waiters@.subrange(0, m as int).contains(a))) by {
                    assert(self.spec_edge(a, b) <==> (mid.spec_edge(a, b) && !(b == t
                        && prefix_new.contains(a))));
                }
            }
        }
        proof {
            assert(waiters@.subrange(0, waiters@.len() as int) =~= waiters@);
            assert(ws == sole_waiters_of(g0, t, waiters@));
            assert(ws == sole_waiters(g0, t));
            assert(ws == sole_waiters(pre.spec_graph(), t));
            assert forall|a: TaskId, b: TaskId|
                self.spec_edge(a, b) <==> (pre.spec_edge(a, b) && b != t) by {
                if pre.spec_edge(a, b) && b == t {
                    assert(mid.spec_edge(a, b));
                    assert(waiters@.contains(a));
                }
            }
            assert forall|w: TaskId|
                ws.contains(w) <==> (pre.spec_edge(w, t) && (forall|d: TaskId|
                    pre.spec_edge(w, d) ==> d == t)) by {
                if ws.contains(w) {
                    assert(waiters@.contains(w));
                    assert(mid.spec_edge(w, t));
                    assert forall|d: TaskId| pre.spec_edge(w, d) implies d == t by {
                        assert(mid.spec_edge(w, d));
                    }
                }
                if pre.spec_edge(w, t) && (forall|d: TaskId| pre.spec_edge(w, d) ==> d == t) {
                    assert(mid.spec_edge(w, t));
                    assert(waiters@.contains(w));
                    assert forall|d: TaskId| mid.spec_edge(w, d) implies d == t by {
                        assert(pre.spec_edge(w, d));
                    }
                }
            }
            assert forall|t2: TaskId|
                pre.valid_task_id(t2) && t2 != t implies #[trigger] self.task_view(t2)
                == pre.task_view(t2) by {
                assert(self.task_view(t2) == mid.task_view(t2));
            }
        }
        Ghost(ws)
    }

    /// Removes the edge `w -> t` (t completed); if that was `w`'s last
    /// dependency, `w` joins the ready queue. Reports whether it did.
    fn resolve_waiter(&mut self, w: TaskId, t: TaskId) -> (freed: bool)
        requires
            old(self).wf(),
            old(self).spec_edge(w, t),
        ensures
            final(self).wf(),
            freed == (forall|d: TaskId| old(self).spec_edge(w, d) ==> d == t),
            forall|a: TaskId, b: TaskId|
                final(self).spec_edge(a, b) <==> (old(self).spec_edge(a, b) && !(a == w && b
                    == t)),
            final(self).spec_ready() == (if freed {
                old(self).spec_ready().push(w)
            } else {
                old(self).spec_ready()
            }),
            final(self).spec_tasks() == old(self).spec_tasks(),
            final(self).spec_jobs() == old(self).spec_jobs(),
            final(self).spec_scheduled() == old(self).spec_scheduled(),
            final(self).spec_attempts() == old(self).spec_attempts(),
            final(self).spec_decisions() == old(self).spec_decisions(),
            final(self).spec_retry_policy() == old(self).spec_retry_policy(),
    {
        let ghost pre = *old(self);
        proof {
            assert(pre.valid_task_id(w));
            assert(pre.task_view(w).state == TaskState::Queued);
            assert(pre.spec_has_deps(w));
            let i = w@ as int - 1;
            assert(pre.spec_tasks()[i].envelope.task_id@ == i + 1);
            lemma_task_id_injective(pre.spec_tasks()[i].envelope.task_id, w);
            assert(pre.spec_tasks()[i].envelope.task_id == w);
            assert(id_count(pre.spec_ready(), w) == 0);
        }
        self.graph.remove_dependency(w, t);
        let freed = !self.graph.has_dependencies(w);
        if freed {
            self.ready.push(w);
        }
        proof {
            assert(freed == (forall|d: TaskId| pre.spec_edge(w, d) ==> d == t)) by {
                if freed {
                    assert forall|d: TaskId| pre.spec_edge(w, d) implies d == t by {
                        if d != t {
                            assert(self.spec_edge(w, d));
                            assert(self.graph.spec_has_deps(w));
                            assert(false);
                        }
                    }
                } else {
                    let d = choose|d: TaskId| self.graph.spec_edge(w, d);
                    assert(pre.spec_edge(w, d));
                    assert(d != t);
                }
            }
            if freed {
                lemma_id_count_push(pre.spec_ready(), w, w);
            }
            assert forall|i: int| 0 <= i < self.spec_tasks().len() implies id_count(
                self.spec_ready(),
                (#[trigger] self.spec_tasks()[i]).envelope.task_id,
            ) == if self.spec_tasks()[i].state == TaskState::Queued && !self.spec_has_deps(
                self.spec_tasks()[i].envelope.task_id,
            ) {
                1nat
            } else {
                0nat
            } by {
                let tid = self.spec_tasks()[i].envelope.task_id;
                assert(tid@ == i + 1);
                assert(self.spec_tasks()[i] == pre.spec_tasks()[i]);
                if freed {
                    lemma_id_count_push(pre.spec_ready(), tid, w);
                }
                if tid == w {
                    assert(self.spec_has_deps(w) == !freed) by {
                        if freed {
                            if self.spec_has_deps(w) {
                                let d = choose|d: TaskId| self.spec_edge(w, d);
                                assert(self.graph.spec_has_deps(w));
                                assert(false);
                            }
                        } else {
                            let d = choose|d: TaskId| self.graph.spec_edge(w, d);
                            assert(self.spec_edge(w, d));
                        }
                    }
                } else {
                    assert(self.spec_has_deps(tid) == pre.spec_has_deps(tid)) by {
                        if self.spec_has_deps(tid) {
                            let d = choose|d: TaskId| self.spec_edge(tid, d);
                            assert(pre.spec_edge(tid, d));
                        }
                        if pre.spec_has_deps(tid) {
                            let d = choose|d: TaskId| pre.spec_edge(tid, d);
                            if !(tid == w && d == t) {
                                assert(self.spec_edge(tid, d));
                            }
                        }
                    }
                }
            }
            assert forall|a: TaskId, b: TaskId| #[trigger] self.spec_edge(a, b) implies
                self.valid_task_id(a) && self.valid_task_id(b) && self.task_view(a).state
                == TaskState::Queued by {
                assert(pre.spec_edge(a, b));
                assert(self.task_view(a) == pre.task_view(a));
            }
            assert forall|jr: int|
                0 <= jr < self.spec_ready().len() implies self.valid_task_id(
                #[trigger] self.spec_ready()[jr],
            ) by {
                if jr < pre.spec_ready().len() {
                    assert(self.spec_ready()[jr] == pre.spec_ready()[jr]);
                    assert(pre.valid_task_id(pre.spec_ready()[jr]));
                } else {
                    assert(self.spec_ready()[jr] == w);
                }
            }
            assert(self.wf());
        }
        freed
    }
}



/// The record view of a freshly spawned task.
pub open spec fn spawned_view(
    t: TaskId,
    task_type: Seq<char>,
    payload: Seq<char>,
    max_attempts: u32,
    job_id: Option<JobId>,
    parent_task_id: Option<TaskId>,
    now_ms: u64,
) -> TaskRecordView {
    TaskRecordView {
        envelope: TaskEnvelopeView { task_id: t, task_type, payload },
        state: TaskState::Queued,
        job_id,
        attempts: 0,
        max_attempts,
        last_error: None,
        next_run_at: None,
        parent_task_id,
        child_task_ids: Seq::<TaskId>::empty(),
        created_at: now_ms,
        updated_at: now_ms,
    }
}

impl InMemoryQueue {
    /// Creates one fresh queued, ready task, optionally owned by a job
    /// and recorded as that job's member.
    fn spawn_task(
        &mut self,
        task_type: TaskType,
        payload: String,
        max_attempts: u32,
        job_id: Option<JobId>,
        parent_task_id: Option<TaskId>,
        now_ms: u64,
    ) -> (t: TaskId)
        requires
            old(self).wf(),
            max_attempts >= 1,
            old(self).spec_tasks().len() + 1 <= u128::MAX,
            match job_id {
                Some(j) => old(self).valid_job_id(j),
                None => true,
            },
        ensures
            final(self).wf(),
            t@ == old(self).spec_tasks().len() + 1,
            final(self).spec_tasks() == old(self).spec_tasks().push(
                spawned_view(t, task_type@, payload@, max_attempts, job_id, parent_task_id, now_ms),
            ),
            final(self).spec_ready() == old(self).spec_ready().push(t),
            final(self).spec_jobs().len() == old(self).spec_jobs().len(),
            match job_id {
                Some(j) => final(self).job_view(j) == (JobRecordView {
                    task_ids: old(self).job_view(j).task_ids.push(t),
                    updated_at: now_ms,
                    ..old(self).job_view(j)
                }) && (forall|j2: JobId|
                    old(self).valid_job_id(j2) && j2 != j ==> #[trigger] final(self).job_view(j2)
                        == old(self).job_view(j2)),
                None => final(self).spec_jobs() == old(self).spec_jobs(),
            },
            final(self).spec_attempts() == old(self).spec_attempts(),
            final(self).spec_decisions() == old(self).spec_decisions(),
            final(self).spec_scheduled() == old(self).spec_scheduled(),
            forall|a: TaskId, b: TaskId| final(self).spec_edge(a, b) == old(self).spec_edge(a, b),
            final(self).spec_retry_policy() == old(self).spec_retry_policy(),
    {
        let ghost pre = *old(self);
        let raw: u128 = (self.tasks.len() as u128) + 1;
        let t = TaskId::new(raw);
        let envelope = TaskEnvelope::new(t, task_type, payload);
        let record = TaskRecord::new_with_job_opt(envelope, max_attempts, job_id, parent_task_id,
            now_ms);
        self.tasks.push(record);
        self.ready.push(t);
        if let Some(j) = job_id {
            let jidx: usize = (j.get() - 1) as usize;
            proof {
                assert(pre.spec_jobs().len() == pre.jobs@.len());
                assert(pre.jobs@.len() <= usize::MAX) by {
                    assert(pre.jobs@.len() == vstd::std_specs::vec::spec_vec_len(&pre.jobs));
                }
                assert(jidx as int == j@ - 1);
            }
            let mut jrec = self.jobs.remove(jidx);
            jrec.add_task(t, now_ms);
            self.jobs.insert(jidx, jrec);
            proof {
                assert(self.jobs@ =~= pre.jobs@.update(jidx as int, jrec));
                assert(self.spec_jobs() =~= pre.spec_jobs().update(jidx as int, jrec@));
                assert(self.job_view(j) == jrec@);
                assert(jrec@ == (JobRecordView {
                    task_ids: pre.job_view(j).task_ids.push(t),
                    updated_at: now_ms,
                    ..pre.job_view(j)
                }));
                assert(self.spec_jobs()[jidx as int].task_ids =~= pre.spec_jobs()[jidx as int]
                    .task_ids.push(t));
                assert forall|j2: JobId|
                    pre.valid_job_id(j2) && j2 != j implies #[trigger] self.job_view(j2)
                    == pre.job_view(j2) by {
                    if j2@ - 1 == jidx {
                        lemma_job_id_injective(j2, j);
                        assert(false);
                    }
                }
            }
        }
        proof {
            assert(self.spec_tasks() =~= pre.spec_tasks().push(record@));
            assert(record@ == spawned_view(t, record@.envelope.task_type,
                record@.envelope.payload, max_attempts, job_id, parent_task_id, now_ms));
            assert(self.spec_ready() =~= pre.spec_ready().push(t));
            let n = pre.spec_tasks().len() as int;
            assert(t@ == n + 1);
            assert forall|jx: int| 0 <= jx < pre.spec_ready().len() implies pre.spec_ready()[jx]
                != t by {
                assert(pre.valid_task_id(pre.spec_ready()[jx]));
            }
            lemma_id_count_contains(pre.spec_ready(), t);
            if pre.spec_ready().contains(t) {
                let jx = choose|jx: int|
                    0 <= jx < pre.spec_ready().len() && pre.spec_ready()[jx] == t;
                assert(false);
            }
            lemma_id_count_contains(pre.sched_ids(), t);
            if pre.sched_ids().contains(t) {
                let jx = choose|jx: int|
                    0 <= jx < pre.sched_ids().len() && pre.sched_ids()[jx] == t;
                assert(pre.valid_task_id(pre.spec_scheduled()[jx].1));
                assert(false);
            }
            assert(self.sched_ids() =~= pre.sched_ids());
            assert forall|i: int| 0 <= i < self.spec_tasks().len() implies id_count(
                self.spec_ready(),
                (#[trigger] self.spec_tasks()[i]).envelope.task_id,
            ) == if self.spec_tasks()[i].state == TaskState::Queued && !self.spec_has_deps(
                self.spec_tasks()[i].envelope.task_id,
            ) {
                1nat
            } else {
                0nat
            } by {
                let tid = self.spec_tasks()[i].envelope.task_id;
                lemma_id_count_push(pre.spec_ready(), tid, t);
                assert(self.spec_has_deps(tid) == pre.spec_has_deps(tid)) by {
                    if self.spec_has_deps(tid) {
                        let d = choose|d: TaskId| self.spec_edge(tid, d);
                        assert(pre.spec_edge(tid, d));
                    }
                    if pre.spec_has_deps(tid) {
                        let d = choose|d: TaskId| pre.spec_edge(tid, d);
                        assert(self.spec_edge(tid, d));
                    }
                }
                if i < n {
                    assert(self.spec_tasks()[i] == pre.spec_tasks()[i]);
                    assert(tid@ == i + 1);
                    assert(tid != t);
                } else {
                    assert(self.spec_tasks()[i] == record@);
                    assert(tid == t);
                    assert(id_count(pre.spec_ready(), t) == 0);
                    if pre.spec_has_deps(t) {
                        let d = choose|d: TaskId| pre.spec_edge(t, d);
                        assert(pre.valid_task_id(t));
                        assert(false);
                    }
                }
            }
            assert forall|i: int| 0 <= i < self.spec_tasks().len() implies id_count(
                self.sched_ids(),
                (#[trigger] self.spec_tasks()[i]).envelope.task_id,
            ) == if self.spec_tasks()[i].state == TaskState::RetryScheduled {
                1nat
            } else {
                0nat
            } by {
                let tid = self.spec_tasks()[i].envelope.task_id;
                if i < n {
                    assert(self.spec_tasks()[i] == pre.spec_tasks()[i]);
                } else {
                    assert(tid == t);
                    assert(id_count(pre.sched_ids(), t) == 0);
                }
            }
            assert forall|a: TaskId, b: TaskId| #[trigger] self.spec_edge(a, b) implies
                self.valid_task_id(a) && self.valid_task_id(b) && self.task_view(a).state
                == TaskState::Queued by {
                assert(pre.spec_edge(a, b));
                assert(pre.valid_task_id(a) && pre.valid_task_id(b));
                assert(self.task_view(a) == pre.task_view(a));
            }
            assert forall|jb: int, kk2: int|
                0 <= jb < self.spec_jobs().len() && 0 <= kk2 < (
            #[trigger] self.spec_jobs()[jb]).task_ids.len() implies self.valid_task_id(
                #[trigger] self.spec_jobs()[jb].task_ids[kk2],
            ) && self.task_view(self.spec_jobs()[jb].task_ids[kk2]).job_id == Some(
                self.spec_jobs()[jb].job_id,
            ) by {
                let mtid = self.spec_jobs()[jb].task_ids[kk2];
                if job_id is Some && jb == job_id->0@ - 1 {
                    let oldids = pre.spec_jobs()[jb].task_ids;
                    assert(self.spec_jobs()[jb].task_ids == oldids.push(t));
                    assert(pre.spec_jobs()[jb].job_id@ == jb + 1);
                    lemma_job_id_injective(pre.spec_jobs()[jb].job_id, job_id->0);
                    assert(self.spec_jobs()[jb].job_id == job_id->0);
                    if kk2 == oldids.len() {
                        assert(mtid == t);
                        assert(self.task_view(t) == record@);
                    } else {
                        assert(oldids[kk2] == mtid);
                        assert(pre.valid_task_id(mtid));
                        assert(mtid@ <= n);
                        assert(mtid != t);
                        assert(self.task_view(mtid) == pre.task_view(mtid));
                    }
                } else {
                    assert(self.spec_jobs()[jb] == pre.spec_jobs()[jb]);
                    assert(pre.spec_jobs()[jb].task_ids[kk2] == mtid);
                    assert(pre.valid_task_id(mtid));
                    assert(mtid@ <= n);
                    assert(mtid != t);
                    assert(self.task_view(mtid) == pre.task_view(mtid));
                }
            }
            assert forall|jb: int|
                0 <= jb < self.spec_jobs().len() implies (#[trigger] self.spec_jobs()[jb]).job_id@
                == jb + 1 by {
                if !(job_id is Some && jb == job_id->0@ - 1) {
                    assert(self.spec_jobs()[jb] == pre.spec_jobs()[jb]);
                }
            }
            assert forall|jb: int|
                0 <= jb < self.spec_jobs().len() implies (
            #[trigger] self.spec_jobs()[jb]).task_ids.no_duplicates() by {
                if job_id is Some && jb == job_id->0@ - 1 {
                    let ids = self.spec_jobs()[jb].task_ids;
                    let oldids = pre.spec_jobs()[jb].task_ids;
                    assert(ids =~= oldids.push(t));
                    assert forall|x: int, y: int| 0 <= x < y < ids.len() implies ids[x] != ids[y]
                        by {
                        if y == ids.len() - 1 {
                            assert(ids[y] == t);
                            assert(ids[x] == oldids[x]);
                            assert(pre.valid_task_id(oldids[x]));
                            assert(oldids[x]@ <= n);
                        } else {
                            assert(ids[x] == oldids[x] && ids[y] == oldids[y]);
                        }
                    }
                } else {
                    assert(self.spec_jobs()[jb] == pre.spec_jobs()[jb]);
                }
            }
            assert forall|i: int|
                0 <= i < self.spec_tasks().len() && (#[trigger] self.spec_tasks()[i]).job_id
                    is Some implies self.valid_job_id(self.spec_tasks()[i].job_id->0) by {
                if i < n {
                    assert(self.spec_tasks()[i] == pre.spec_tasks()[i]);
                }
            }
            assert(self.wf());
        }
        t
    }

    /// Registers that `task` waits for `depends_on`; if `task` sat in
    /// the ready queue, it leaves it.
    fn add_task_dependency(&mut self, task: TaskId, depends_on: TaskId)
        requires
            old(self).wf(),
            old(self).valid_task_id(task),
            old(self).valid_task_id(depends_on),
            old(self).task_view(task).state == TaskState::Queued,
        ensures
            final(self).wf(),
            forall|a: TaskId, b: TaskId|
                final(self).spec_edge(a, b) <==> (old(self).spec_edge(a, b) || (a == task && b
                    == depends_on)),
            old(self).spec_has_deps(task) ==> final(self).spec_ready() == old(self).spec_ready(),
            !old(self).spec_has_deps(task) ==> exists|k: int|
                0 <= k < old(self).spec_ready().len() && old(self).spec_ready()[k] == task
                    && final(self).spec_ready() == old(self).spec_ready().remove(k),
            final(self).spec_tasks() == old(self).spec_tasks(),
            final(self).spec_jobs() == old(self).spec_jobs(),
            final(self).spec_scheduled() == old(self).spec_scheduled(),
            final(self).spec_attempts() == old(self).spec_attempts(),
            final(self).spec_decisions() == old(self).spec_decisions(),
            final(self).spec_retry_policy() == old(self).spec_retry_policy(),
    {
        let ghost pre = *old(self);
        proof {
            let i = task@ as int - 1;
            assert(pre.spec_tasks()[i].envelope.task_id@ == i + 1);
            lemma_task_id_injective(pre.spec_tasks()[i].envelope.task_id, task);
            assert(pre.spec_tasks()[i].envelope.task_id == task);
        }
        let ghost mut ki: int = 0;
        let had_deps = self.graph.has_dependencies(task);
        proof {
            assert(had_deps == pre.spec_has_deps(task)) by {
                if had_deps {
                    let d = choose|d: TaskId| pre.graph.spec_edge(task, d);
                    assert(pre.spec_edge(task, d));
                }
                if pre.spec_has_deps(task) {
                    let d = choose|d: TaskId| pre.spec_edge(task, d);
                    assert(pre.graph.spec_edge(task, d));
                    assert(pre.graph.spec_has_deps(task));
                }
            }
        }
        self.graph.add_dependency(task, depends_on);
        if !had_deps {
            // the task was ready; pull it out
            let mut x: usize = 0;
            let mut found = false;
            while x < self.ready.len() && !found
                invariant
                    x <= self.ready.len(),
                    self.spec_ready() == pre.spec_ready(),
                    found ==> x > 0 && 0 <= x - 1 < self.spec_ready().len()
                        && self.spec_ready()[x - 1] == task,
                    !found ==> forall|y: int| 0 <= y < x ==> self.spec_ready()[y] != task,
                decreases self.ready.len() - x,
            {
                if self.ready[x] == task {
                    found = true;
                }
                x = x + 1;
            }
            proof {
                assert(id_count(pre.spec_ready(), task) == 1);
                lemma_id_count_contains(pre.spec_ready(), task);
                if !found {
                    let y = choose|y: int|
                        0 <= y < pre.spec_ready().len() && pre.spec_ready()[y] == task;
                    assert(false);
                }
            }
            let idx = x - 1;
            proof {
                ki = idx as int;
            }
            self.ready.remove(idx);
            proof {
                assert(self.spec_ready() =~= pre.spec_ready().remove(ki));
                assert(pre.spec_ready()[ki] == task);
            }
        }
        proof {
            let i = task@ as int - 1;
            assert(pre.spec_tasks()[i].envelope.task_id@ == i + 1);
            lemma_task_id_injective(pre.spec_tasks()[i].envelope.task_id, task);
            if !had_deps {
                assert(id_count(pre.spec_ready(), task) == 1);
                lemma_id_count_remove(pre.spec_ready(), task, ki);
            }
            assert forall|i2: int| 0 <= i2 < self.spec_tasks().len() implies id_count(
                self.spec_ready(),
                (#[trigger] self.spec_tasks()[i2]).envelope.task_id,
            ) == if self.spec_tasks()[i2].state == TaskState::Queued && !self.spec_has_deps(
                self.spec_tasks()[i2].envelope.task_id,
            ) {
                1nat
            } else {
                0nat
            } by {
                let tid = self.spec_tasks()[i2].envelope.task_id;
                assert(tid@ == i2 + 1);
                assert(self.spec_tasks()[i2] == pre.spec_tasks()[i2]);
                if !had_deps {
                    lemma_id_count_remove(pre.spec_ready(), tid, ki);
                }
                if tid == task {
                    assert(self.spec_has_deps(task)) by {
                        assert(self.spec_edge(task, depends_on));
                    }
                } else {
                    assert(self.spec_has_deps(tid) == pre.spec_has_deps(tid)) by {
                        if self.spec_has_deps(tid) {
                            let d = choose|d: TaskId| self.spec_edge(tid, d);
                            assert(pre.spec_edge(tid, d));
                        }
                        if pre.spec_has_deps(tid) {
                            let d = choose|d: TaskId| pre.spec_edge(tid, d);
                            assert(self.spec_edge(tid, d));
                        }
                    }
                }
            }
            assert forall|a: TaskId, b: TaskId| #[trigger] self.spec_edge(a, b) implies
                self.valid_task_id(a) && self.valid_task_id(b) && self.task_view(a).state
                == TaskState::Queued by {
                if a == task && b == depends_on {
                    assert(self.task_view(task) == pre.task_view(task));
                } else {
                    assert(pre.spec_edge(a, b));
                    assert(self.task_view(a) == pre.task_view(a));
                }
            }
            assert forall|i2: int| 0 <= i2 < self.spec_tasks().len() implies id_count(
                self.sched_ids(),
                (#[trigger] self.spec_tasks()[i2]).envelope.task_id,
            ) == if self.spec_tasks()[i2].state == TaskState::RetryScheduled {
                1nat
            } else {
                0nat
            } by {
                assert(self.spec_tasks()[i2] == pre.spec_tasks()[i2]);
                assert(self.sched_ids() == pre.sched_ids());
            }
            assert forall|jr: int|
                0 <= jr < self.spec_ready().len() implies self.valid_task_id(
                #[trigger] self.spec_ready()[jr],
            ) by {
                if !had_deps {
                    if jr < ki {
                        assert(self.spec_ready()[jr] == pre.spec_ready()[jr]);
                    } else {
                        assert(self.spec_ready()[jr] == pre.spec_ready()[jr + 1]);
                    }
                    assert(pre.valid_task_id(pre.spec_ready().remove(ki)[jr]));
                } else {
                    assert(self.spec_ready()[jr] == pre.spec_ready()[jr]);
                    assert(pre.valid_task_id(pre.spec_ready()[jr]));
                }
            }
            assert(self.wf());
            if pre.spec_has_deps(task) {
                assert(self.spec_ready() == pre.spec_ready());
            }
        }
    }
}


/// Two stores read the same: every observable component is equal.
pub open spec fn same_state(a: InMemoryQueue, b: InMemoryQueue) -> bool {
    &&& b.spec_tasks() == a.spec_tasks()
    &&& b.spec_jobs() == a.spec_jobs()
    &&& b.spec_ready() == a.spec_ready()
    &&& b.spec_scheduled() == a.spec_scheduled()
    &&& b.spec_attempts() == a.spec_attempts()
    &&& b.spec_decisions() == a.spec_decisions()
    &&& (forall|x: TaskId, y: TaskId| b.spec_edge(x, y) == a.spec_edge(x, y))
    &&& b.spec_retry_policy() == a.spec_retry_policy()
}

/// The title of a task spec names the task type; untitled specs get this.
pub open spec fn spec_task_type(v: TaskSpecView) -> Seq<char> {
    match v.title {
        Some(s) => s,
        None => "generic"@,
    }
}

/// The payload handed to handlers is the spec's seed action hint, or
/// empty JSON where none was given.
pub open spec fn spec_payload(v: TaskSpecView) -> Seq<char> {
    match v.seed_action_hint {
        Some(s) => s,
        None => "{}"@,
    }
}

/// A per-task attempt budget of zero is treated as one: every task may
/// run at least once.
pub open spec fn effective_max_attempts(budget_max: u32) -> u32 {
    if budget_max == 0 {
        1u32
    } else {
        budget_max
    }
}

impl InMemoryQueue {
    /// The task type tag and payload for a spawned task spec.
    fn spec_envelope_parts(task_spec: &TaskSpec) -> (r: (TaskType, String))
        ensures
            r.0@ == spec_task_type(task_spec@),
            r.1@ == spec_payload(task_spec@),
    {
        let tag = match &task_spec.title {
            Some(s) => TaskType::new(s.clone()),
            None => TaskType::new(String::from_str("generic")),
        };
        let payload = match &task_spec.seed_action_hint {
            Some(s) => s.clone(),
            None => String::from_str("{}"),
        };
        (tag, payload)
    }

    /// Ends a running task by decomposition: each child spec becomes a
    /// fresh ready task owned by the same job, inheriting the parent's
    /// budget and recording the parent; the parent becomes Decomposed.
    /// Returns the children, in spec order.
    fn set_task_decomposed(
        &mut self,
        t: TaskId,
        child_specs: &Vec<TaskSpec>,
        now_ms: u64,
    ) -> (children: Vec<TaskId>)
        requires
            old(self).wf(),
            old(self).valid_task_id(t),
            old(self).task_view(t).state == TaskState::Running,
            old(self).spec_tasks().len() + child_specs@.len() <= u128::MAX,
        ensures
            final(self).wf(),
            children@.len() == child_specs@.len(),
            final(self).spec_tasks().len() == old(self).spec_tasks().len() + child_specs@.len(),
            forall|i: int|
                0 <= i < children@.len() ==> (#[trigger] children@[i])@ == old(
                    self,
                ).spec_tasks().len() + 1 + i,
            forall|i: int|
                0 <= i < children@.len() ==> #[trigger] final(self).task_view(children@[i])
                    == spawned_view(
                    children@[i],
                    spec_task_type(child_specs.deep_view()[i]),
                    spec_payload(child_specs.deep_view()[i]),
                    effective_max_attempts(old(self).task_view(t).max_attempts),
                    old(self).task_view(t).job_id,
                    Some(t),
                    now_ms,
                ),
            final(self).task_view(t) == (TaskRecordView {
                state: TaskState::Decomposed,
                child_task_ids: children@,
                updated_at: now_ms,
                ..old(self).task_view(t)
            }),
            forall|t2: TaskId|
                old(self).valid_task_id(t2) && t2 != t ==> #[trigger] final(self).task_view(t2)
                    == old(self).task_view(t2),
            final(self).spec_ready() == old(self).spec_ready() + children@,
            final(self).spec_jobs().len() == old(self).spec_jobs().len(),
            match old(self).task_view(t).job_id {
                Some(j) => final(self).job_view(j) == (if child_specs@.len() == 0 {
                    old(self).job_view(j)
                } else {
                    JobRecordView {
                        task_ids: old(self).job_view(j).task_ids + children@,
                        updated_at: now_ms,
                        ..old(self).job_view(j)
                    }
                }) && (forall|j2: JobId|
                    old(self).valid_job_id(j2) && j2 != j ==> #[trigger] final(self).job_view(j2)
                        == old(self).job_view(j2)),
                None => final(self).spec_jobs() == old(self).spec_jobs(),
            },
            final(self).spec_attempts() == old(self).spec_attempts(),
            final(self).spec_decisions() == old(self).spec_decisions(),
            final(self).spec_scheduled() == old(self).spec_scheduled(),
            forall|a: TaskId, b: TaskId| final(self).spec_edge(a, b) == old(self).spec_edge(a, b),
            final(self).spec_retry_policy() == old(self).spec_retry_policy(),
    {
        let ghost pre = *old(self);
        let job_id = {
            let tidx: usize = (t.get() - 1) as usize;
            proof {
                assert(pre.spec_tasks().len() == pre.tasks@.len());
                assert(pre.tasks@.len() <= usize::MAX) by {
                    assert(pre.tasks@.len() == vstd::std_specs::vec::spec_vec_len(&pre.tasks));
                }
                assert(tidx as int == t@ - 1);
            }
            self.tasks[tidx].job_id
        };
        let raw_max = {
            let tidx: usize = (t.get() - 1) as usize;
            self.tasks[tidx].max_attempts
        };
        let max_attempts: u32 = if raw_max == 0 {
            1
        } else {
            raw_max
        };
        proof {
            assert(job_id == pre.task_view(t).job_id);
            assert(max_attempts == effective_max_attempts(pre.task_view(t).max_attempts));
            assert(max_attempts >= 1);
            if job_id is Some {
                let i = t@ as int - 1;
                assert(pre.spec_tasks()[i].job_id == job_id);
                assert(pre.valid_job_id(job_id->0));
            }
        }
        let mut children: Vec<TaskId> = Vec::new();
        let mut c: usize = 0;
        while c < child_specs.len()
            invariant
                pre == *old(self),
                self.wf(),
                c <= child_specs@.len(),
                pre.wf(),
                pre.valid_task_id(t),
                pre.task_view(t).state == TaskState::Running,
                pre.spec_tasks().len() + child_specs@.len() <= u128::MAX,
                max_attempts == effective_max_attempts(pre.task_view(t).max_attempts),
                max_attempts >= 1,
                job_id == pre.task_view(t).job_id,
                job_id is Some ==> pre.valid_job_id(job_id->0),
                children@.len() == c,
                self.spec_tasks().len() == pre.spec_tasks().len() + c,
                forall|i: int|
                    0 <= i < c ==> (#[trigger] children@[i])@ == pre.spec_tasks().len() + 1 + i,
                forall|i: int|
                    0 <= i < c ==> #[trigger] self.task_view(children@[i]) == spawned_view(
                        children@[i],
                        spec_task_type(child_specs.deep_view()[i]),
                        spec_payload(child_specs.deep_view()[i]),
                        max_attempts,
                        job_id,
                        Some(t),
                        now_ms,
                    ),
                forall|t2: TaskId|
                    pre.valid_task_id(t2) ==> #[trigger] self.task_view(t2) == pre.task_view(t2),
                self.spec_ready() == pre.spec_ready() + children@,
                self.spec_jobs().len() == pre.spec_jobs().len(),
                match job_id {
                    Some(j) => self.job_view(j) == (if c == 0 {
                        pre.job_view(j)
                    } else {
                        JobRecordView {
                            task_ids: pre.job_view(j).task_ids + children@,
                            updated_at: now_ms,
                            ..pre.job_view(j)
                        }
                    }) && (forall|j2: JobId|
                        pre.valid_job_id(j2) && j2 != j ==> #[trigger] self.job_view(j2)
                            == pre.job_view(j2)),
                    None => self.spec_jobs() == pre.spec_jobs(),
                },
                self.spec_attempts() == pre.spec_attempts(),
                self.spec_decisions() == pre.spec_decisions(),
                self.spec_scheduled() == pre.spec_scheduled(),
                forall|a: TaskId, b: TaskId| self.spec_edge(a, b) == pre.spec_edge(a, b),
                self.spec_retry_policy() == pre.spec_retry_policy(),
            decreases child_specs@.len() - c,
        {
            let ghost looppre = *self;
            let (tag, payload) = Self::spec_envelope_parts(&child_specs[c]);
            let child = self.spawn_task(tag, payload, max_attempts, job_id, Some(t), now_ms);
            children.push(child);
            proof {
                assert(child_specs.deep_view()[c as int] == child_specs@[c as int].deep_view());
                assert(self.spec_ready() =~= pre.spec_ready() + children@) by {
                    assert(self.spec_ready() =~= looppre.spec_ready().push(child));
                    assert((pre.spec_ready() + children@.drop_last()).push(child)
                        =~= pre.spec_ready() + children@);
                    assert(children@.drop_last() =~= children@.subrange(0, c as int));
                    assert(looppre.spec_ready() == pre.spec_ready() + children@.drop_last());
                }
                assert forall|t2: TaskId|
                    pre.valid_task_id(t2) implies #[trigger] self.task_view(t2) == pre.task_view(
                    t2,
                ) by {
                    assert(t2 != child);
                    assert(self.task_view(t2) == looppre.task_view(t2));
                }
                assert forall|i: int|
                    0 <= i < c + 1 implies #[trigger] self.task_view(children@[i])
                    == spawned_view(
                    children@[i],
                    spec_task_type(child_specs.deep_view()[i]),
                    spec_payload(child_specs.deep_view()[i]),
                    max_attempts,
                    job_id,
                    Some(t),
                    now_ms,
                ) by {
                    if i < c {
                        assert(children@[i] == children@.drop_last()[i]);
                        assert(self.task_view(children@[i]) == looppre.task_view(children@[i]))
                            by {
                            assert(children@[i]@ <= looppre.spec_tasks().len());
                        }
                    } else {
                        assert(children@[i] == child);
                    }
                }
                if job_id is Some {
                    let j = job_id->0;
                    assert(self.job_view(j) == (JobRecordView {
                        task_ids: pre.job_view(j).task_ids + children@,
                        updated_at: now_ms,
                        ..pre.job_view(j)
                    })) by {
                        assert(looppre.job_view(j).task_ids.push(child) =~= pre.job_view(
                            j,
                        ).task_ids + children@);
                    }
                }
            }
            c = c + 1;
        }
        // the parent becomes Decomposed, recording its children
        let ghost mid = *self;
        let tidx: usize = (t.get() - 1) as usize;
        proof {
            assert(mid.spec_tasks().len() == mid.tasks@.len());
            assert(mid.tasks@.len() <= usize::MAX) by {
                assert(mid.tasks@.len() == vstd::std_specs::vec::spec_vec_len(&mid.tasks));
            }
            assert(tidx as int == t@ - 1);
            assert(mid.task_view(t) == pre.task_view(t));
        }
        let ghost kids = children@;
        let kid_copy = {
            let mut v: Vec<TaskId> = Vec::new();
            let mut x: usize = 0;
            while x < children.len()
                invariant
                    x <= children.len(),
                    v@ == children@.subrange(0, x as int),
                decreases children.len() - x,
            {
                v.push(children[x]);
                proof {
                    assert(v@ =~= children@.subrange(0, x as int + 1));
                }
                x = x + 1;
            }
            proof {
                assert(v@ =~= children@);
            }
            v
        };
        let mut rec = self.tasks.remove(tidx);
        rec.mark_decomposed(kid_copy, now_ms);
        self.tasks.insert(tidx, rec);
        proof {
            assert(self.tasks@ =~= mid.tasks@.update(tidx as int, rec));
            assert(self.spec_tasks() =~= mid.spec_tasks().update(tidx as int, rec@));
            assert(mid.spec_tasks()[tidx as int].envelope.task_id@ == tidx + 1);
            lemma_task_id_injective(mid.spec_tasks()[tidx as int].envelope.task_id, t);
            assert(rec@ == (TaskRecordView {
                state: TaskState::Decomposed,
                child_task_ids: kids,
                updated_at: now_ms,
                ..pre.task_view(t)
            }));
            assert forall|t2: TaskId|
                mid.valid_task_id(t2) && t2 != t implies #[trigger] self.task_view(t2)
                == mid.task_view(t2) by {
                if t2@ - 1 == tidx {
                    lemma_task_id_injective(t2, t);
                    assert(false);
                }
            }
            assert forall|i: int| 0 <= i < self.spec_tasks().len() implies id_count(
                self.spec_ready(),
                (#[trigger] self.spec_tasks()[i]).envelope.task_id,
            ) == if self.spec_tasks()[i].state == TaskState::Queued && !self.spec_has_deps(
                self.spec_tasks()[i].envelope.task_id,
            ) {
                1nat
            } else {
                0nat
            } by {
                let tid = self.spec_tasks()[i].envelope.task_id;
                assert(tid@ == i + 1);
                assert(self.spec_has_deps(tid) == mid.spec_has_deps(tid)) by {
                    if self.spec_has_deps(tid) {
                        let d = choose|d: TaskId| self.spec_edge(tid, d);
                        assert(mid.spec_edge(tid, d));
                    }
                    if mid.spec_has_deps(tid) {
                        let d = choose|d: TaskId| mid.spec_edge(tid, d);
                        assert(self.spec_edge(tid, d));
                    }
                }
                if i == tidx {
                    assert(id_count(mid.spec_ready(), tid) == 0);
                } else {
                    assert(self.spec_tasks()[i] == mid.spec_tasks()[i]);
                }
            }
            assert forall|i: int| 0 <= i < self.spec_tasks().len() implies id_count(
                self.sched_ids(),
                (#[trigger] self.spec_tasks()[i]).envelope.task_id,
            ) == if self.spec_tasks()[i].state == TaskState::RetryScheduled {
                1nat
            } else {
                0nat
            } by {
                if i != tidx {
                    assert(self.spec_tasks()[i] == mid.spec_tasks()[i]);
                }
            }
            assert forall|j: int|
                0 <= j < self.spec_scheduled().len() implies self.valid_task_id(
                (#[trigger] self.spec_scheduled()[j]).1,
            ) && self.task_view(self.spec_scheduled()[j].1).state == TaskState::RetryScheduled
                && self.task_view(self.spec_scheduled()[j].1).next_run_at == Some(
                self.spec_scheduled()[j].0,
            ) by {
                let sid = self.spec_scheduled()[j].1;
                assert(mid.valid_task_id(sid));
                if sid@ - 1 == tidx {
                    assert(sid == t) by {
                        lemma_task_id_injective(sid, t);
                    }
                    assert(mid.task_view(t).state == TaskState::Running);
                    assert(false);
                }
                assert(self.task_view(sid) == mid.task_view(sid));
            }
            assert forall|a: TaskId, b: TaskId| #[trigger] self.spec_edge(a, b) implies
                self.valid_task_id(a) && self.valid_task_id(b) && self.task_view(a).state
                == TaskState::Queued by {
                assert(mid.spec_edge(a, b));
                if a@ - 1 == tidx {
                    assert(a == t) by {
                        lemma_task_id_injective(a, t);
                    }
                    assert(mid.task_view(t).state == TaskState::Running);
                    assert(false);
                }
                assert(self.task_view(a) == mid.task_view(a));
            }
            assert forall|jb: int, kk2: int|
                0 <= jb < self.spec_jobs().len() && 0 <= kk2 < (
            #[trigger] self.spec_jobs()[jb]).task_ids.len() implies self.valid_task_id(
                #[trigger] self.spec_jobs()[jb].task_ids[kk2],
            ) && self.task_view(self.spec_jobs()[jb].task_ids[kk2]).job_id == Some(
                self.spec_jobs()[jb].job_id,
            ) by {
                let mid2 = self.spec_jobs()[jb].task_ids[kk2];
                assert(mid.valid_task_id(mid2));
                if mid2@ - 1 == tidx {
                    assert(self.task_view(mid2) == rec@);
                } else {
                    assert(self.task_view(mid2) == mid.task_view(mid2));
                }
            }
            assert(self.wf());
            assert forall|t2: TaskId|
                pre.valid_task_id(t2) && t2 != t implies #[trigger] self.task_view(t2)
                == pre.task_view(t2) by {
                assert(mid.valid_task_id(t2));
                assert(self.task_view(t2) == mid.task_view(t2));
            }
            assert forall|i: int|
                0 <= i < kids.len() implies #[trigger] self.task_view(kids[i]) == spawned_view(
                kids[i],
                spec_task_type(child_specs.deep_view()[i]),
                spec_payload(child_specs.deep_view()[i]),
                max_attempts,
                job_id,
                Some(t),
                now_ms,
            ) by {
                assert(kids[i]@ == pre.spec_tasks().len() + 1 + i);
                assert(kids[i]@ - 1 != tidx as int);
                assert(self.task_view(kids[i]) == mid.task_view(kids[i]));
            }
            if job_id is Some {
                let j = job_id->0;
                assert(self.job_view(j) == mid.job_view(j));
                assert forall|j2: JobId|
                    pre.valid_job_id(j2) && j2 != j implies #[trigger] self.job_view(j2)
                    == pre.job_view(j2) by {
                    assert(self.job_view(j2) == mid.job_view(j2));
                }
            } else {
                assert(self.spec_jobs() == mid.spec_jobs());
            }
        }
        children
    }
}


impl InMemoryQueue {
    /// Whether this lease denotes a live running task.
    fn validate_lease(&self, lease: &Lease) -> (r: Result<(), WeaverError>)
        ensures
            match r {
                Ok(()) => self.valid_task_id(lease.spec_task_id()) && self.task_view(
                    lease.spec_task_id(),
                ).state == TaskState::Running,
                Err(e) => e@ == (if !self.valid_task_id(lease.spec_task_id()) {
                    WeaverErrorView::UnknownTask(lease.spec_task_id())
                } else {
                    WeaverErrorView::TaskNotRunning(lease.spec_task_id())
                }) && !(self.valid_task_id(lease.spec_task_id()) && self.task_view(
                    lease.spec_task_id(),
                ).state == TaskState::Running),
            },
    {
        let t = lease.task_id();
        let raw = t.get();
        if raw < 1 || raw > self.tasks.len() as u128 {
            return Err(WeaverError::UnknownTask(t));
        }
        let tidx: usize = (raw - 1) as usize;
        proof {
            assert(self.spec_tasks().len() == self.tasks@.len());
            assert(self.tasks@.len() <= usize::MAX) by {
                assert(self.tasks@.len() == vstd::std_specs::vec::spec_vec_len(&self.tasks));
            }
            assert(tidx as int == t@ - 1);
        }
        if !matches!(self.tasks[tidx].state, TaskState::Running) {
            return Err(WeaverError::TaskNotRunning(t));
        }
        Ok(())
    }

    /// Reports success for a leased task: appends one attempt record
    /// with a bare success outcome, marks the task succeeded, frees the
    /// dependents whose last dependency this was, and re-aggregates the
    /// owning job. No decision record is appended for bare success.
    pub fn ack(&mut self, lease: Lease, now_ms: u64) -> (r: Result<(), WeaverError>)
        requires
            old(self).wf(),
        ensures
            final(self).wf(),
            match r {
                Ok(()) => {
                    let t = lease.spec_task_id();
                    &&& old(self).valid_task_id(t)
                    &&& old(self).task_view(t).state == TaskState::Running
                    // exactly one attempt is appended, recording a success
                    &&& final(self).spec_attempts().len() == old(self).spec_attempts().len() + 1
                    &&& old(self).spec_attempts().is_prefix_of(final(self).spec_attempts())
                    &&& final(self).spec_attempts().last().task_id == t
                    &&& final(self).spec_attempts().last().outcome.kind == OutcomeKind::Success
                    &&& final(self).spec_attempts().last().outcome.reason is None
                    &&& final(self).spec_attempts().last().outcome.artifacts
                        == Seq::<ArtifactView>::empty()
                    &&& final(self).spec_attempts().last().observation
                        == Seq::<ArtifactView>::empty()
                    &&& final(self).spec_attempts().last().action == old(self).task_view(
                        t,
                    ).envelope.payload
                    &&& final(self).spec_attempts().last().started_at == now_ms
                    // the task settles
                    &&& final(self).task_view(t) == (TaskRecordView {
                        state: TaskState::Succeeded,
                        updated_at: now_ms,
                        ..old(self).task_view(t)
                    })
                    &&& (forall|t2: TaskId|
                        old(self).valid_task_id(t2) && t2 != t
                            ==> #[trigger] final(self).task_view(t2) == old(self).task_view(t2))
                    // every dependency on the task is resolved
                    &&& (forall|a: TaskId, b: TaskId|
                        final(self).spec_edge(a, b) <==> (old(self).spec_edge(a, b) && b != t))
                    // waiters left with no other dependency join the ready
                    // queue, in dependency-registration order
                    &&& final(self).spec_ready() == old(self).spec_ready() + sole_waiters(
                        old(self).spec_graph(),
                        t,
                    )
                    &&& sole_waiters(old(self).spec_graph(), t).no_duplicates()
                    &&& (forall|w: TaskId|
                        sole_waiters(old(self).spec_graph(), t).contains(w) <==> (old(
                            self,
                        ).spec_edge(w, t) && (forall|d: TaskId|
                            old(self).spec_edge(w, d) ==> d == t)))
                    // the owning job re-aggregates
                    &&& match old(self).task_view(t).job_id {
                        Some(j) => final(self).job_view(j) == (if old(self).job_view(j).state
                            == JobState::Running {
                            JobRecordView {
                                state: aggregate_states(final(self).member_states(j)),
                                updated_at: now_ms,
                                ..old(self).job_view(j)
                            }
                        } else {
                            old(self).job_view(j)
                        }) && (forall|j2: JobId|
                            old(self).valid_job_id(j2) && j2 != j
                                ==> #[trigger] final(self).job_view(j2) == old(self).job_view(j2)),
                        None => final(self).spec_jobs() == old(self).spec_jobs(),
                    }
                    &&& final(self).spec_decisions() == old(self).spec_decisions()
                    &&& final(self).spec_scheduled() == old(self).spec_scheduled()
                    &&& final(self).spec_tasks().len() == old(self).spec_tasks().len()
                    &&& final(self).spec_jobs().len() == old(self).spec_jobs().len()
                    &&& final(self).spec_retry_policy() == old(self).spec_retry_policy()
                },
                Err(e) => same_state(*old(self), *final(self)) && !(old(self).valid_task_id(
                    lease.spec_task_id(),
                ) && old(self).task_view(lease.spec_task_id()).state == TaskState::Running),
            },
    {
        let ghost pre = *old(self);
        if let Err(e) = self.validate_lease(&lease) {
            return Err(e);
        }
        let t = lease.task_id();
        let payload = {
            let tidx: usize = (t.get() - 1) as usize;
            proof {
                assert(self.spec_tasks().len() == self.tasks@.len());
                assert(self.tasks@.len() <= usize::MAX) by {
                    assert(self.tasks@.len() == vstd::std_specs::vec::spec_vec_len(&self.tasks));
                }
                assert(tidx as int == t@ - 1);
            }
            self.tasks[tidx].envelope.payload().clone()
        };
        let job_id = {
            let tidx: usize = (t.get() - 1) as usize;
            self.tasks[tidx].job_id
        };
        proof {
            assert(payload@ == pre.task_view(t).envelope.payload);
            assert(job_id == pre.task_view(t).job_id);
        }
        self.record_attempt(t, payload, Vec::new(), Outcome::success(), now_ms);
        let ghost s1 = *self;
        let ws = self.set_task_succeeded(t, now_ms);
        let ghost s2 = *self;
        if let Some(j) = job_id {
            proof {
                assert(s2.valid_job_id(j));
            }
            self.refresh_job_state(j, now_ms);
            proof {
                assert(s2.member_states(j) =~= self.member_states(j)) by {
                    assert(self.job_view(j).task_ids == s2.job_view(j).task_ids);
                }
            }
        }
        proof {
            let tg = lease.spec_task_id();
            assert(self.spec_attempts() =~= pre.spec_attempts().push(
                self.spec_attempts().last(),
            ));
            assert(pre.spec_attempts().is_prefix_of(self.spec_attempts()));
            assert(self.spec_attempts().last().observation =~= Seq::<ArtifactView>::empty());
            assert(self.spec_attempts().last().outcome.artifacts =~= Seq::<ArtifactView>::empty());
            assert(self.spec_ready() == pre.spec_ready() + ws@);
            assert(self.spec_tasks().len() == pre.spec_tasks().len());
            assert(self.spec_jobs().len() == pre.spec_jobs().len()) by {
                assert(s1.spec_jobs() == pre.spec_jobs());
                assert(s2.spec_jobs() == s1.spec_jobs());
            }
            assert forall|t2: TaskId|
                pre.valid_task_id(t2) && t2 != tg implies #[trigger] self.task_view(t2)
                == pre.task_view(t2) by {
                assert(s1.task_view(t2) == pre.task_view(t2));
                assert(s2.task_view(t2) == s1.task_view(t2));
                assert(self.task_view(t2) == s2.task_view(t2));
            }
            assert(self.task_view(tg) == s2.task_view(tg));
            assert(s1.task_view(tg) == pre.task_view(tg));
            assert forall|a: TaskId, b: TaskId|
                self.spec_edge(a, b) <==> (pre.spec_edge(a, b) && b != tg) by {
                assert(self.spec_edge(a, b) == s2.spec_edge(a, b));
                assert(s2.spec_edge(a, b) <==> (s1.spec_edge(a, b) && b != tg));
                assert(s1.spec_edge(a, b) == pre.spec_edge(a, b));
            }
            assert(s1.spec_graph() == pre.spec_graph());
            assert(ws@ == sole_waiters(pre.spec_graph(), tg));
            assert forall|w: TaskId|
                ws@.contains(w) <==> (pre.spec_edge(w, tg) && (forall|d: TaskId|
                    pre.spec_edge(w, d) ==> d == tg)) by {
                assert(ws@.contains(w) <==> (s1.spec_edge(w, tg) && (forall|d: TaskId|
                    s1.spec_edge(w, d) ==> d == tg)));
                assert(s1.spec_edge(w, tg) == pre.spec_edge(w, tg));
                assert((forall|d: TaskId| s1.spec_edge(w, d) ==> d == tg) == (forall|d: TaskId|
                    pre.spec_edge(w, d) ==> d == tg)) by {
                    assert forall|d: TaskId| s1.spec_edge(w, d) == pre.spec_edge(w, d) by {}
                }
            }
            if job_id is Some {
                let j = job_id->0;
                assert(s2.job_view(j) == pre.job_view(j)) by {
                    assert(s1.spec_jobs() == pre.spec_jobs());
                    assert(s2.spec_jobs() == s1.spec_jobs());
                }
                assert forall|j2: JobId|
                    pre.valid_job_id(j2) && j2 != j implies #[trigger] self.job_view(j2)
                    == pre.job_view(j2) by {
                    assert(self.job_view(j2) == s2.job_view(j2));
                    assert(s2.job_view(j2) == pre.job_view(j2));
                }
            } else {
                assert(self.spec_jobs() == pre.spec_jobs());
            }
        }
        Ok(())
    }
}


/// `a + b`, saturating at `u64::MAX`.
pub open spec fn sat_add(a: u64, b: u64) -> u64 {
    if a + b > u64::MAX {
        u64::MAX
    } else {
        (a + b) as u64
    }
}

impl InMemoryQueue {
    /// `now + delay`, saturating.
    fn sat_add_exec(a: u64, b: u64) -> (r: u64)
        ensures
            r == sat_add(a, b),
    {
        if b > u64::MAX - a {
            u64::MAX
        } else {
            a + b
        }
    }

    /// Completes a leased attempt: appends the attempt record, applies
    /// the decision (retry with backoff, mark dead, or decompose into
    /// children), appends the matching decision record, and on a settled
    /// task re-aggregates the owning job.
    pub fn complete(
        &mut self,
        lease: Lease,
        outcome: Outcome,
        decision: Decision,
        now_ms: u64,
    ) -> (r: Result<(), WeaverError>)
        requires
            old(self).wf(),
        ensures
            final(self).wf(),
            match r {
                Ok(()) => {
                    let t = lease.spec_task_id();
                    &&& old(self).valid_task_id(t)
                    &&& old(self).task_view(t).state == TaskState::Running
                    &&& final(self).spec_attempts().len() == old(self).spec_attempts().len() + 1
                    &&& old(self).spec_attempts().is_prefix_of(final(self).spec_attempts())
                    &&& final(self).spec_attempts().last().task_id == t
                    &&& final(self).spec_attempts().last().outcome == outcome@
                    &&& final(self).spec_attempts().last().observation == outcome@.artifacts
                    &&& final(self).spec_attempts().last().action == old(self).task_view(
                        t,
                    ).envelope.payload
                    &&& final(self).spec_decisions().len() == old(self).spec_decisions().len() + 1
                    &&& old(self).spec_decisions().is_prefix_of(final(self).spec_decisions())
                    &&& final(self).spec_decisions().last().task_id == t
                    &&& final(self).spec_decisions().last().trigger.outcome_kind == outcome@.kind
                    &&& final(self).spec_jobs().len() == old(self).spec_jobs().len()
                    &&& final(self).spec_retry_policy() == old(self).spec_retry_policy()
                    &&& match decision@ {
                        DecisionView::Retry { delay_ms, reason } => {
                            &&& final(self).task_view(t) == (TaskRecordView {
                                state: TaskState::RetryScheduled,
                                next_run_at: Some(sat_add(now_ms, delay_ms)),
                                last_error: Some(reason),
                                updated_at: now_ms,
                                ..old(self).task_view(t)
                            })
                            &&& (forall|t2: TaskId|
                                old(self).valid_task_id(t2) && t2 != t
                                    ==> #[trigger] final(self).task_view(t2)
                                    == old(self).task_view(t2))
                            &&& final(self).spec_ready() == old(self).spec_ready()
                            &&& final(self).spec_jobs() == old(self).spec_jobs()
                            &&& final(self).spec_tasks().len() == old(self).spec_tasks().len()
                            &&& (forall|a: TaskId, b: TaskId|
                                final(self).spec_edge(a, b) == old(self).spec_edge(a, b))
                            &&& final(self).spec_decisions().last().decision
                                == "schedule_retry"@
                            &&& final(self).spec_decisions().last().policy == "retry_policy"@
                            &&& final(self).spec_decisions().last().context == Some(
                                DecisionContextView::Retry {
                                    delay_ms,
                                    next_run_at_ms: sat_add(now_ms, delay_ms),
                                },
                            )
                        },
                        DecisionView::MarkDead { reason } => {
                            &&& final(self).task_view(t) == (TaskRecordView {
                                state: TaskState::Dead,
                                last_error: Some(reason),
                                updated_at: now_ms,
                                ..old(self).task_view(t)
                            })
                            &&& (forall|t2: TaskId|
                                old(self).valid_task_id(t2) && t2 != t
                                    ==> #[trigger] final(self).task_view(t2)
                                    == old(self).task_view(t2))
                            &&& final(self).spec_ready() == old(self).spec_ready()
                            &&& final(self).spec_scheduled() == old(self).spec_scheduled()
                            &&& final(self).spec_tasks().len() == old(self).spec_tasks().len()
                            &&& (forall|a: TaskId, b: TaskId|
                                final(self).spec_edge(a, b) == old(self).spec_edge(a, b))
                            &&& final(self).spec_decisions().last().decision == "mark_dead"@
                            &&& final(self).spec_decisions().last().policy == "retry_policy"@
                            &&& final(self).spec_decisions().last().context is None
                            &&& match old(self).task_view(t).job_id {
                                Some(j) => final(self).job_view(j) == (if old(self).job_view(
                                    j,
                                ).state == JobState::Running {
                                    JobRecordView {
                                        state: aggregate_states(final(self).member_states(j)),
                                        updated_at: now_ms,
                                        ..old(self).job_view(j)
                                    }
                                } else {
                                    old(self).job_view(j)
                                }),
                                None => final(self).spec_jobs() == old(self).spec_jobs(),
                            }
                        },
                        DecisionView::Decompose { child_specs, reason } => {
                            let cs = final(self).task_view(t).child_task_ids;
                            &&& final(self).task_view(t).state == TaskState::Decomposed
                            &&& cs.len() == child_specs.len()
                            &&& final(self).spec_tasks().len() == old(self).spec_tasks().len()
                                + child_specs.len()
                            &&& (forall|i: int|
                                0 <= i < cs.len() ==> (#[trigger] cs[i])@ == old(
                                    self,
                                ).spec_tasks().len() + 1 + i)
                            &&& (forall|i: int|
                                0 <= i < cs.len() ==> #[trigger] final(self).task_view(cs[i])
                                    == spawned_view(
                                    cs[i],
                                    spec_task_type(child_specs[i]),
                                    spec_payload(child_specs[i]),
                                    effective_max_attempts(old(self).task_view(t).max_attempts),
                                    old(self).task_view(t).job_id,
                                    Some(t),
                                    now_ms,
                                ))
                            &&& final(self).spec_ready() == old(self).spec_ready() + cs
                            &&& (forall|t2: TaskId|
                                old(self).valid_task_id(t2) && t2 != t
                                    ==> #[trigger] final(self).task_view(t2)
                                    == old(self).task_view(t2))
                            &&& (forall|a: TaskId, b: TaskId|
                                final(self).spec_edge(a, b) == old(self).spec_edge(a, b))
                            &&& final(self).spec_decisions().last().decision == "decompose"@
                            &&& final(self).spec_decisions().last().policy == "decomposition"@
                            &&& final(self).spec_decisions().last().context == Some(
                                DecisionContextView::Decompose { child_ids: cs },
                            )
                        },
                    }
                },
                Err(e) => same_state(*old(self), *final(self)) && (e@ matches
                    WeaverErrorView::RetryBudgetExhausted(_) ==> old(self).task_view(
                    lease.spec_task_id(),
                ).attempts >= old(self).task_view(lease.spec_task_id()).max_attempts) && !(old(
                    self,
                ).valid_task_id(lease.spec_task_id()) && old(self).task_view(
                    lease.spec_task_id(),
                ).state == TaskState::Running && (decision@ matches DecisionView::Retry { .. }
                    ==> old(self).task_view(lease.spec_task_id()).attempts < old(self).task_view(
                    lease.spec_task_id(),
                ).max_attempts)),
            },
    {
        let ghost pre = *old(self);
        if let Err(e) = self.validate_lease(&lease) {
            return Err(e);
        }
        let t = lease.task_id();
        let tidx: usize = (t.get() - 1) as usize;
        proof {
            assert(self.spec_tasks().len() == self.tasks@.len());
            assert(self.tasks@.len() <= usize::MAX) by {
                assert(self.tasks@.len() == vstd::std_specs::vec::spec_vec_len(&self.tasks));
            }
            assert(tidx as int == t@ - 1);
        }
        let attempts_now = self.tasks[tidx].attempts;
        let max_now = self.tasks[tidx].max_attempts;
        if matches!(&decision, Decision::Retry { .. }) && attempts_now >= max_now {
            return Err(WeaverError::RetryBudgetExhausted(t));
        }
        let payload = self.tasks[tidx].envelope.payload().clone();
        let job_id = self.tasks[tidx].job_id;
        let ghost okind = outcome@.kind;
        let reason_snapshot = match &outcome.reason {
            Some(x) => Some(x.clone()),
            None => None,
        };
        let kind_snapshot = outcome.kind;
        let observation = clone_artifacts(&outcome.artifacts);
        proof {
            assert(payload@ == pre.task_view(t).envelope.payload);
            assert(job_id == pre.task_view(t).job_id);
        }
        let aid = self.record_attempt(t, payload, observation, outcome, now_ms);
        let ghost s1 = *self;
        let trigger = DecisionTrigger {
            attempt_id: aid,
            outcome_kind: kind_snapshot,
            attempts: attempts_now,
            max_attempts: max_now,
            error: reason_snapshot,
        };
        match decision {
            Decision::Retry { delay_ms, reason } => {
                let next_run_at = Self::sat_add_exec(now_ms, delay_ms);
                self.set_task_retry(t, next_run_at, reason, now_ms);
                let ghost s2 = *self;
                let rec = DecisionRecord::new(
                    t,
                    trigger,
                    String::from_str("retry_policy"),
                    String::from_str("schedule_retry"),
                    Some(DecisionContext::Retry { delay_ms, next_run_at_ms: next_run_at }),
                    now_ms,
                );
                self.record_decision(rec);
                proof {
                    assert(self.spec_attempts() =~= pre.spec_attempts().push(
                        self.spec_attempts().last(),
                    ));
                    assert(pre.spec_attempts().is_prefix_of(self.spec_attempts()));
                    assert(self.spec_decisions() =~= pre.spec_decisions().push(
                        self.spec_decisions().last(),
                    ));
                    assert(pre.spec_decisions().is_prefix_of(self.spec_decisions()));
                    assert(self.task_view(t) == s2.task_view(t));
                    assert(s1.task_view(t) == pre.task_view(t));
                    assert forall|t2: TaskId|
                        pre.valid_task_id(t2) && t2 != t implies #[trigger] self.task_view(t2)
                        == pre.task_view(t2) by {
                        assert(s1.task_view(t2) == pre.task_view(t2));
                        assert(s2.task_view(t2) == s1.task_view(t2));
                        assert(self.task_view(t2) == s2.task_view(t2));
                    }
                    assert forall|a: TaskId, b: TaskId|
                        self.spec_edge(a, b) == pre.spec_edge(a, b) by {
                        assert(self.spec_edge(a, b) == s2.spec_edge(a, b));
                        assert(s2.spec_edge(a, b) == s1.spec_edge(a, b));
                        assert(s1.spec_edge(a, b) == pre.spec_edge(a, b));
                    }
                    assert(self.spec_tasks().len() == pre.spec_tasks().len());
                    assert(self.spec_jobs() == pre.spec_jobs()) by {
                        assert(s1.spec_jobs() == pre.spec_jobs());
                        assert(s2.spec_jobs() == s1.spec_jobs());
                    }
                }
                Ok(())
            },
            Decision::MarkDead { reason } => {
                self.set_task_dead(t, reason, now_ms);
                let ghost s2 = *self;
                let rec = DecisionRecord::new(
                    t,
                    trigger,
                    String::from_str("retry_policy"),
                    String::from_str("mark_dead"),
                    None,
                    now_ms,
                );
                self.record_decision(rec);
                let ghost s3 = *self;
                if let Some(j) = job_id {
                    proof {
                        assert(s3.valid_job_id(j));
                    }
                    self.refresh_job_state(j, now_ms);
                    proof {
                        assert(s3.member_states(j) =~= self.member_states(j)) by {
                            assert(self.job_view(j).task_ids == s3.job_view(j).task_ids);
                        }
                    }
                }
                proof {
                    assert(self.spec_attempts() =~= pre.spec_attempts().push(
                        self.spec_attempts().last(),
                    ));
                    assert(pre.spec_attempts().is_prefix_of(self.spec_attempts()));
                    assert(self.spec_decisions() =~= pre.spec_decisions().push(
                        self.spec_decisions().last(),
                    ));
                    assert(pre.spec_decisions().is_prefix_of(self.spec_decisions()));
                    assert(self.task_view(t) == s2.task_view(t));
                    assert(s1.task_view(t) == pre.task_view(t));
                    assert forall|t2: TaskId|
                        pre.valid_task_id(t2) && t2 != t implies #[trigger] self.task_view(t2)
                        == pre.task_view(t2) by {
                        assert(s1.task_view(t2) == pre.task_view(t2));
                        assert(s2.task_view(t2) == s1.task_view(t2));
                        assert(self.task_view(t2) == s2.task_view(t2));
                    }
                    assert forall|a: TaskId, b: TaskId|
                        self.spec_edge(a, b) == pre.spec_edge(a, b) by {
                        assert(self.spec_edge(a, b) == s2.spec_edge(a, b));
                        assert(s2.spec_edge(a, b) == s1.spec_edge(a, b));
                        assert(s1.spec_edge(a, b) == pre.spec_edge(a, b));
                    }
                    assert(self.spec_tasks().len() == pre.spec_tasks().len());
                    if job_id is Some {
                        let j = job_id->0;
                        assert(s3.job_view(j) == pre.job_view(j)) by {
                            assert(s1.spec_jobs() == pre.spec_jobs());
                            assert(s2.spec_jobs() == s1.spec_jobs());
                            assert(s3.spec_jobs() == s2.spec_jobs());
                        }
                        assert(self.spec_jobs().len() == pre.spec_jobs().len()) by {
                            assert(s3.spec_jobs() == pre.spec_jobs());
                        }
                    } else {
                        assert(self.spec_jobs() == pre.spec_jobs());
                    }
                }
                Ok(())
            },
            Decision::Decompose { child_specs, reason } => {
                proof {
                    // both counts are machine-bounded, so fresh ids cannot
                    // run out of the 128-bit space
                    assert(self.spec_tasks().len() == self.tasks@.len());
                    assert(self.tasks@.len() <= usize::MAX) by {
                        assert(self.tasks@.len() == vstd::std_specs::vec::spec_vec_len(
                            &self.tasks,
                        ));
                    }
                    assert(child_specs@.len() <= usize::MAX) by {
                        assert(child_specs@.len() == vstd::std_specs::vec::spec_vec_len(
                            &child_specs,
                        ));
                    }
                    assert(self.spec_tasks().len() + child_specs.deep_view().len() <= u128::MAX);
                }
                let children = self.set_task_decomposed(t, &child_specs, now_ms);
                let ghost s2 = *self;
                let ghost kids = children@;
                let rec = DecisionRecord::new(
                    t,
                    trigger,
                    String::from_str("decomposition"),
                    String::from_str("decompose"),
                    Some(DecisionContext::Decompose { child_ids: children }),
                    now_ms,
                );
                self.record_decision(rec);
                let ghost s3 = *self;
                if let Some(j) = job_id {
                    proof {
                        assert(s2.valid_job_id(j)) by {
                            assert(s1.task_view(t).job_id == Some(j));
                        }
                        assert(s3.valid_job_id(j));
                    }
                    self.refresh_job_state(j, now_ms);
                }
                proof {
                    assert(self.spec_attempts() =~= pre.spec_attempts().push(
                        self.spec_attempts().last(),
                    ));
                    assert(pre.spec_attempts().is_prefix_of(self.spec_attempts()));
                    assert(self.spec_decisions() =~= pre.spec_decisions().push(
                        self.spec_decisions().last(),
                    ));
                    assert(pre.spec_decisions().is_prefix_of(self.spec_decisions()));
                    assert(self.task_view(t) == s2.task_view(t));
                    assert(s1.task_view(t) == pre.task_view(t));
                    assert(self.task_view(t).child_task_ids == kids);
                    assert forall|t2: TaskId|
                        pre.valid_task_id(t2) && t2 != t implies #[trigger] self.task_view(t2)
                        == pre.task_view(t2) by {
                        assert(s1.task_view(t2) == pre.task_view(t2));
                        assert(s2.task_view(t2) == s1.task_view(t2));
                        assert(self.task_view(t2) == s2.task_view(t2));
                    }
                    assert forall|i: int|
                        0 <= i < kids.len() implies #[trigger] self.task_view(kids[i])
                        == spawned_view(
                        kids[i],
                        spec_task_type(child_specs.deep_view()[i]),
                        spec_payload(child_specs.deep_view()[i]),
                        effective_max_attempts(pre.task_view(t).max_attempts),
                        pre.task_view(t).job_id,
                        Some(t),
                        now_ms,
                    ) by {
                        assert(s2.task_view(kids[i]) == spawned_view(
                            kids[i],
                            spec_task_type(child_specs.deep_view()[i]),
                            spec_payload(child_specs.deep_view()[i]),
                            effective_max_attempts(s1.task_view(t).max_attempts),
                            s1.task_view(t).job_id,
                            Some(t),
                            now_ms,
                        ));
                        assert(self.task_view(kids[i]) == s2.task_view(kids[i]));
                    }
                    assert forall|a: TaskId, b: TaskId|
                        self.spec_edge(a, b) == pre.spec_edge(a, b) by {
                        assert(self.spec_edge(a, b) == s2.spec_edge(a, b));
                        assert(s2.spec_edge(a, b) == s1.spec_edge(a, b));
                        assert(s1.spec_edge(a, b) == pre.spec_edge(a, b));
                    }
                    assert(self.spec_ready() == pre.spec_ready() + kids);
                    assert(self.spec_jobs().len() == pre.spec_jobs().len()) by {
                        assert(s1.spec_jobs() == pre.spec_jobs());
                        assert(s2.spec_jobs().len() == s1.spec_jobs().len());
                        assert(s3.spec_jobs().len() == s2.spec_jobs().len());
                    }
                }
                Ok(())
            },
        }
    }

    /// Reports failure for a leased task, letting the queue's own retry
    /// policy decide: the attempt budget spent means dead, otherwise a
    /// retry is scheduled with exponential backoff.
    pub fn fail(&mut self, lease: Lease, error: String, now_ms: u64) -> (r: Result<
        (),
        WeaverError,
    >)
        requires
            old(self).wf(),
        ensures
            final(self).wf(),
            match r {
                Ok(()) => {
                    let t = lease.spec_task_id();
                    let delay = backoff_ms(
                        old(self).spec_retry_policy().base_delay_ms as nat,
                        old(self).spec_retry_policy().multiplier_milli as nat,
                        if old(self).task_view(t).attempts == 0 {
                            0nat
                        } else {
                            (old(self).task_view(t).attempts - 1) as nat
                        },
                    ) as u64;
                    &&& old(self).valid_task_id(t)
                    &&& old(self).task_view(t).state == TaskState::Running
                    // exactly one attempt is appended: a failure carrying the
                    // error as reason and as captured output
                    &&& final(self).spec_attempts().len() == old(self).spec_attempts().len() + 1
                    &&& old(self).spec_attempts().is_prefix_of(final(self).spec_attempts())
                    &&& final(self).spec_attempts().last().task_id == t
                    &&& final(self).spec_attempts().last().action == old(self).task_view(
                        t,
                    ).envelope.payload
                    &&& final(self).spec_attempts().last().observation == seq![
                        ArtifactView::Stdout(error@),
                    ]
                    &&& final(self).spec_attempts().last().outcome.kind == OutcomeKind::Failure
                    &&& final(self).spec_attempts().last().outcome.reason == Some(error@)
                    &&& final(self).spec_attempts().last().started_at == now_ms
                    // exactly one decision is appended, naming the retry policy
                    // and what it observed
                    &&& final(self).spec_decisions().len() == old(self).spec_decisions().len() + 1
                    &&& old(self).spec_decisions().is_prefix_of(final(self).spec_decisions())
                    &&& final(self).spec_decisions().last().task_id == t
                    &&& final(self).spec_decisions().last().policy == "retry_policy"@
                    &&& final(self).spec_decisions().last().trigger == (DecisionTriggerView {
                        attempt_id: final(self).spec_attempts().last().attempt_id,
                        outcome_kind: OutcomeKind::Failure,
                        attempts: old(self).task_view(t).attempts,
                        max_attempts: old(self).task_view(t).max_attempts,
                        error: Some(error@),
                    })
                    &&& final(self).spec_decisions().last().decided_at == now_ms
                    // a spent budget means dead; otherwise a retry is scheduled
                    // with the policy's backoff delay
                    &&& (old(self).task_view(t).attempts >= old(self).task_view(t).max_attempts
                        ==> {
                        &&& final(self).task_view(t) == (TaskRecordView {
                            state: TaskState::Dead,
                            last_error: Some(error@),
                            updated_at: now_ms,
                            ..old(self).task_view(t)
                        })
                        &&& final(self).spec_decisions().last().decision == "mark_dead"@
                        &&& final(self).spec_decisions().last().context is None
                        &&& final(self).spec_scheduled() == old(self).spec_scheduled()
                        &&& match old(self).task_view(t).job_id {
                            Some(j) => final(self).job_view(j) == (if old(self).job_view(j).state
                                == JobState::Running {
                                JobRecordView {
                                    state: aggregate_states(final(self).member_states(j)),
                                    updated_at: now_ms,
                                    ..old(self).job_view(j)
                                }
                            } else {
                                old(self).job_view(j)
                            }) && (forall|j2: JobId|
                                old(self).valid_job_id(j2) && j2 != j
                                    ==> #[trigger] final(self).job_view(j2) == old(self).job_view(
                                    j2,
                                )),
                            None => final(self).spec_jobs() == old(self).spec_jobs(),
                        }
                    })
                    &&& (old(self).task_view(t).attempts < old(self).task_view(t).max_attempts
                        ==> {
                        &&& final(self).task_view(t) == (TaskRecordView {
                            state: TaskState::RetryScheduled,
                            next_run_at: Some(sat_add(now_ms, delay)),
                            last_error: Some(error@),
                            updated_at: now_ms,
                            ..old(self).task_view(t)
                        })
                        &&& final(self).spec_decisions().last().decision == "schedule_retry"@
                        &&& final(self).spec_decisions().last().context == Some(
                            DecisionContextView::Retry {
                                delay_ms: delay,
                                next_run_at_ms: sat_add(now_ms, delay),
                            },
                        )
                        &&& final(self).spec_jobs() == old(self).spec_jobs()
                    })
                    &&& (forall|t2: TaskId|
                        old(self).valid_task_id(t2) && t2 != t
                            ==> #[trigger] final(self).task_view(t2) == old(self).task_view(t2))
                    &&& final(self).spec_tasks().len() == old(self).spec_tasks().len()
                    &&& final(self).spec_jobs().len() == old(self).spec_jobs().len()
                    &&& final(self).spec_ready() == old(self).spec_ready()
                    &&& (forall|a: TaskId, b: TaskId|
                        final(self).spec_edge(a, b) == old(self).spec_edge(a, b))
                    &&& final(self).spec_retry_policy() == old(self).spec_retry_policy()
                },
                Err(e) => same_state(*old(self), *final(self)) && !(old(self).valid_task_id(
                    lease.spec_task_id(),
                ) && old(self).task_view(lease.spec_task_id()).state == TaskState::Running),
            },
    {
        let ghost pre = *old(self);
        if let Err(e) = self.validate_lease(&lease) {
            return Err(e);
        }
        let t = lease.task_id();
        let tidx: usize = (t.get() - 1) as usize;
        proof {
            assert(self.spec_tasks().len() == self.tasks@.len());
            assert(self.tasks@.len() <= usize::MAX) by {
                assert(self.tasks@.len() == vstd::std_specs::vec::spec_vec_len(&self.tasks));
            }
            assert(tidx as int == t@ - 1);
        }
        let attempts_now = self.tasks[tidx].attempts;
        let max_now = self.tasks[tidx].max_attempts;
        let payload = self.tasks[tidx].envelope.payload().clone();
        let job_id = self.tasks[tidx].job_id;
        proof {
            assert(payload@ == pre.task_view(t).envelope.payload);
            assert(attempts_now == pre.task_view(t).attempts);
            assert(max_now == pre.task_view(t).max_attempts);
            assert(job_id == pre.task_view(t).job_id);
        }
        let mut observation: Vec<Artifact> = Vec::new();
        observation.push(Artifact::Stdout(error.clone()));
        let ghost obs_view = observation.deep_view();
        proof {
            assert(obs_view =~= seq![ArtifactView::Stdout(error@)]);
        }
        let outcome = Outcome::failure(error.clone());
        let aid = self.record_attempt(t, payload, observation, outcome, now_ms);
        let ghost s1 = *self;
        let trigger = DecisionTrigger {
            attempt_id: aid,
            outcome_kind: OutcomeKind::Failure,
            attempts: attempts_now,
            max_attempts: max_now,
            error: Some(error.clone()),
        };
        if attempts_now >= max_now {
            self.set_task_dead(t, error, now_ms);
            let ghost s2 = *self;
            let rec = DecisionRecord::new(
                t,
                trigger,
                String::from_str("retry_policy"),
                String::from_str("mark_dead"),
                None,
                now_ms,
            );
            self.record_decision(rec);
            let ghost s3 = *self;
            if let Some(j) = job_id {
                proof {
                    assert(s3.valid_job_id(j)) by {
                        assert(pre.task_view(t).job_id == Some(j));
                    }
                }
                self.refresh_job_state(j, now_ms);
                proof {
                    assert(s3.member_states(j) =~= self.member_states(j)) by {
                        assert(self.job_view(j).task_ids == s3.job_view(j).task_ids);
                    }
                }
            }
            proof {
                assert(self.spec_attempts() =~= pre.spec_attempts().push(
                    self.spec_attempts().last(),
                ));
                assert(pre.spec_attempts().is_prefix_of(self.spec_attempts()));
                assert(self.spec_attempts().last().observation == obs_view);
                assert(self.spec_decisions() =~= pre.spec_decisions().push(
                    self.spec_decisions().last(),
                ));
                assert(pre.spec_decisions().is_prefix_of(self.spec_decisions()));
                assert(self.task_view(t) == s2.task_view(t));
                assert(s1.task_view(t) == pre.task_view(t));
                assert(self.spec_tasks().len() == pre.spec_tasks().len());
                assert(self.spec_jobs().len() == pre.spec_jobs().len()) by {
                    assert(s1.spec_jobs() == pre.spec_jobs());
                    assert(s2.spec_jobs() == s1.spec_jobs());
                    assert(s3.spec_jobs() == s2.spec_jobs());
                }
                assert(self.spec_scheduled() == pre.spec_scheduled()) by {
                    assert(s1.spec_scheduled() == pre.spec_scheduled());
                    assert(s2.spec_scheduled() == s1.spec_scheduled());
                    assert(s3.spec_scheduled() == s2.spec_scheduled());
                }
                assert forall|t2: TaskId|
                    pre.valid_task_id(t2) && t2 != t implies #[trigger] self.task_view(t2)
                    == pre.task_view(t2) by {
                    assert(s1.task_view(t2) == pre.task_view(t2));
                    assert(s2.task_view(t2) == s1.task_view(t2));
                    assert(self.task_view(t2) == s2.task_view(t2));
                }
                assert forall|a: TaskId, b: TaskId|
                    self.spec_edge(a, b) == pre.spec_edge(a, b) by {
                    assert(self.spec_edge(a, b) == s2.spec_edge(a, b));
                    assert(s2.spec_edge(a, b) == s1.spec_edge(a, b));
                    assert(s1.spec_edge(a, b) == pre.spec_edge(a, b));
                }
                if job_id is Some {
                    let j = job_id->0;
                    assert(s3.job_view(j) == pre.job_view(j)) by {
                        assert(s1.spec_jobs() == pre.spec_jobs());
                        assert(s2.spec_jobs() == s1.spec_jobs());
                        assert(s3.spec_jobs() == s2.spec_jobs());
                    }
                    assert forall|j2: JobId|
                        pre.valid_job_id(j2) && j2 != j implies #[trigger] self.job_view(j2)
                        == pre.job_view(j2) by {
                        assert(self.job_view(j2) == s3.job_view(j2));
                        assert(s3.job_view(j2) == pre.job_view(j2));
                    }
                } else {
                    assert(self.spec_jobs() == pre.spec_jobs());
                }
            }
            Ok(())
        } else {
            let delay = self.retry_policy.next_delay(attempts_now);
            let next_run_at = Self::sat_add_exec(now_ms, delay);
            self.set_task_retry(t, next_run_at, error, now_ms);
            let ghost s2 = *self;
            let rec = DecisionRecord::new(
                t,
                trigger,
                String::from_str("retry_policy"),
                String::from_str("schedule_retry"),
                Some(DecisionContext::Retry { delay_ms: delay, next_run_at_ms: next_run_at }),
                now_ms,
            );
            self.record_decision(rec);
            proof {
                assert(self.spec_attempts() =~= pre.spec_attempts().push(
                    self.spec_attempts().last(),
                ));
                assert(pre.spec_attempts().is_prefix_of(self.spec_attempts()));
                assert(self.spec_attempts().last().observation == obs_view);
                assert(self.spec_decisions() =~= pre.spec_decisions().push(
                    self.spec_decisions().last(),
                ));
                assert(pre.spec_decisions().is_prefix_of(self.spec_decisions()));
                assert(self.task_view(t) == s2.task_view(t));
                assert(s1.task_view(t) == pre.task_view(t));
                assert(self.spec_tasks().len() == pre.spec_tasks().len());
                assert(self.spec_jobs() == pre.spec_jobs()) by {
                    assert(s1.spec_jobs() == pre.spec_jobs());
                    assert(s2.spec_jobs() == s1.spec_jobs());
                }
                assert forall|t2: TaskId|
                    pre.valid_task_id(t2) && t2 != t implies #[trigger] self.task_view(t2)
                    == pre.task_view(t2) by {
                    assert(s1.task_view(t2) == pre.task_view(t2));
                    assert(s2.task_view(t2) == s1.task_view(t2));
                    assert(self.task_view(t2) == s2.task_view(t2));
                }
                assert forall|a: TaskId, b: TaskId|
                    self.spec_edge(a, b) == pre.spec_edge(a, b) by {
                    assert(self.spec_edge(a, b) == s2.spec_edge(a, b));
                    assert(s2.spec_edge(a, b) == s1.spec_edge(a, b));
                    assert(s1.spec_edge(a, b) == pre.spec_edge(a, b));
                }
            }
            Ok(())
        }
    }

    /// Cancels a job: new leases of its tasks are refused; in-flight
    /// attempts run to completion. Cancelling a job that is no longer
    /// running (completed, failed, stuck or already cancelled) changes
    /// nothing.
    pub fn cancel_job(&mut self, job_id: JobId, now_ms: u64) -> (r: Result<(), WeaverError>)
        requires
            old(self).wf(),
        ensures
            final(self).wf(),
            match r {
                Ok(()) => {
                    &&& old(self).valid_job_id(job_id)
                    &&& final(self).job_view(job_id) == (if old(self).job_view(job_id).state
                        == JobState::Running {
                        JobRecordView {
                            state: JobState::Cancelled,
                            updated_at: now_ms,
                            ..old(self).job_view(job_id)
                        }
                    } else {
                        old(self).job_view(job_id)
                    })
                    &&& (forall|j2: JobId|
                        old(self).valid_job_id(j2) && j2 != job_id
                            ==> #[trigger] final(self).job_view(j2) == old(self).job_view(j2))
                    &&& final(self).spec_tasks() == old(self).spec_tasks()
                    &&& final(self).spec_ready() == old(self).spec_ready()
                    &&& final(self).spec_scheduled() == old(self).spec_scheduled()
                    &&& final(self).spec_attempts() == old(self).spec_attempts()
                    &&& final(self).spec_decisions() == old(self).spec_decisions()
                    &&& (forall|a: TaskId, b: TaskId|
                        final(self).spec_edge(a, b) == old(self).spec_edge(a, b))
                    &&& final(self).spec_retry_policy() == old(self).spec_retry_policy()
                },
                Err(e) => same_state(*old(self), *final(self)) && e@ == WeaverErrorView::UnknownJob(
                    job_id,
                ) && !old(self).valid_job_id(job_id),
            },
    {
        let ghost pre = *old(self);
        let raw = job_id.get();
        if raw < 1 || raw > self.jobs.len() as u128 {
            return Err(WeaverError::UnknownJob(job_id));
        }
        let jidx: usize = (raw - 1) as usize;
        proof {
            assert(pre.spec_jobs().len() == pre.jobs@.len());
            assert(pre.jobs@.len() <= usize::MAX) by {
                assert(pre.jobs@.len() == vstd::std_specs::vec::spec_vec_len(&pre.jobs));
            }
            assert(jidx as int == job_id@ - 1);
        }
        let mut jrec = self.jobs.remove(jidx);
        jrec.mark_cancelled(now_ms);
        self.jobs.insert(jidx, jrec);
        proof {
            assert(self.jobs@ =~= pre.jobs@.update(jidx as int, jrec));
            assert(self.spec_jobs() =~= pre.spec_jobs().update(jidx as int, jrec@));
            assert forall|j2: JobId|
                pre.valid_job_id(j2) && j2 != job_id implies #[trigger] self.job_view(j2)
                == pre.job_view(j2) by {
                if j2@ - 1 == jidx {
                    lemma_job_id_injective(j2, job_id);
                    assert(false);
                }
            }
            assert forall|jb: int|
                0 <= jb < self.spec_jobs().len() implies (#[trigger] self.spec_jobs()[jb]).job_id@
                == jb + 1 by {
                if jb == jidx {
                    assert(self.spec_jobs()[jb] == jrec@);
                    assert(jrec@.job_id == pre.spec_jobs()[jb].job_id);
                } else {
                    assert(self.spec_jobs()[jb] == pre.spec_jobs()[jb]);
                }
            }
            assert forall|jb: int, kk2: int|
                0 <= jb < self.spec_jobs().len() && 0 <= kk2 < (
            #[trigger] self.spec_jobs()[jb]).task_ids.len() implies self.valid_task_id(
                #[trigger] self.spec_jobs()[jb].task_ids[kk2],
            ) && self.task_view(self.spec_jobs()[jb].task_ids[kk2]).job_id == Some(
                self.spec_jobs()[jb].job_id,
            ) by {
                if jb == jidx {
                    assert(self.spec_jobs()[jb].task_ids == pre.spec_jobs()[jb].task_ids);
                    assert(self.spec_jobs()[jb].job_id == pre.spec_jobs()[jb].job_id);
                } else {
                    assert(self.spec_jobs()[jb] == pre.spec_jobs()[jb]);
                }
            }
            assert forall|jb: int|
                0 <= jb < self.spec_jobs().len() implies (
            #[trigger] self.spec_jobs()[jb]).task_ids.no_duplicates() by {
                if jb == jidx {
                    assert(self.spec_jobs()[jb].task_ids == pre.spec_jobs()[jb].task_ids);
                } else {
                    assert(self.spec_jobs()[jb] == pre.spec_jobs()[jb]);
                }
            }
            assert forall|i: int| 0 <= i < self.spec_tasks().len() implies id_count(
                self.spec_ready(),
                (#[trigger] self.spec_tasks()[i]).envelope.task_id,
            ) == if self.spec_tasks()[i].state == TaskState::Queued && !self.spec_has_deps(
                self.spec_tasks()[i].envelope.task_id,
            ) {
                1nat
            } else {
                0nat
            } by {
                let tid = self.spec_tasks()[i].envelope.task_id;
                assert(self.spec_has_deps(tid) == pre.spec_has_deps(tid)) by {
                    if self.spec_has_deps(tid) {
                        let d = choose|d: TaskId| self.spec_edge(tid, d);
                        assert(pre.spec_edge(tid, d));
                    }
                    if pre.spec_has_deps(tid) {
                        let d = choose|d: TaskId| pre.spec_edge(tid, d);
                        assert(self.spec_edge(tid, d));
                    }
                }
                assert(self.spec_tasks()[i] == pre.spec_tasks()[i]);
            }
            assert forall|a: TaskId, b: TaskId| #[trigger] self.spec_edge(a, b) implies
                self.valid_task_id(a) && self.valid_task_id(b) && self.task_view(a).state
                == TaskState::Queued by {
                assert(pre.spec_edge(a, b));
                assert(self.task_view(a) == pre.task_view(a));
            }
            assert forall|jr: int|
                0 <= jr < self.spec_ready().len() implies self.valid_task_id(
                #[trigger] self.spec_ready()[jr],
            ) by {
                assert(self.spec_ready()[jr] == pre.spec_ready()[jr]);
                assert(pre.valid_task_id(pre.spec_ready()[jr]));
            }
            assert(self.wf());
        }
        Ok(())
    }
}



/// The new ids (in creation order) still ready after the first
/// `processed` tasks' dependencies are registered: a task with declared
/// dependencies leaves the ready queue when they are registered.
pub open spec fn submit_tail(
    ids: Seq<TaskId>,
    tasks: Seq<TaskSpecView>,
    base: int,
    processed: int,
) -> Seq<TaskId> {
    ids.filter(
        |id: TaskId|
            id@ - 1 - base >= processed || tasks[id@ - 1 - base].dependencies.len() == 0,
    )
}

/// The new ids whose tasks declared no dependencies, in creation order:
/// what a submission appends to the ready queue.
pub open spec fn depless_new_ids(ids: Seq<TaskId>, tasks: Seq<TaskSpecView>, base: int) -> Seq<
    TaskId,
> {
    submit_tail(ids, tasks, base, ids.len() as int)
}

/// Two processed-counts that agree on every listed id filter alike.
proof fn lemma_submit_tail_congruent(
    ids: Seq<TaskId>,
    tasks: Seq<TaskSpecView>,
    base: int,
    p1: int,
    p2: int,
)
    requires
        forall|y: int|
            0 <= y < ids.len() ==> (((#[trigger] ids[y])@ - 1 - base >= p1 || tasks[ids[y]@ - 1
                - base].dependencies.len() == 0) == (ids[y]@ - 1 - base >= p2 || tasks[ids[y]@ - 1
                - base].dependencies.len() == 0)),
    ensures
        submit_tail(ids, tasks, base, p1) == submit_tail(ids, tasks, base, p2),
    decreases ids.len(),
{
    reveal_with_fuel(Seq::<TaskId>::filter, 2);
    if ids.len() > 0 {
        assert forall|y: int|
            0 <= y < ids.drop_last().len() implies (((#[trigger] ids.drop_last()[y])@ - 1 - base
                >= p1 || tasks[ids.drop_last()[y]@ - 1 - base].dependencies.len() == 0) == (
            ids.drop_last()[y]@ - 1 - base >= p2 || tasks[ids.drop_last()[y]@ - 1
                - base].dependencies.len() == 0)) by {
            assert(ids.drop_last()[y] == ids[y]);
        }
        lemma_submit_tail_congruent(ids.drop_last(), tasks, base, p1, p2);
        assert(ids[ids.len() - 1] == ids.last());
    }
}

/// The ready tail splits over concatenation.
proof fn lemma_submit_tail_concat(
    a: Seq<TaskId>,
    b: Seq<TaskId>,
    tasks: Seq<TaskSpecView>,
    base: int,
    p: int,
)
    ensures
        submit_tail(a + b, tasks, base, p) == submit_tail(a, tasks, base, p) + submit_tail(
            b,
            tasks,
            base,
            p,
        ),
    decreases b.len(),
{
    reveal_with_fuel(Seq::<TaskId>::filter, 2);
    if b.len() == 0 {
        assert(a + b =~= a);
        assert(submit_tail(b, tasks, base, p) =~= Seq::<TaskId>::empty());
        assert(submit_tail(a, tasks, base, p) + submit_tail(b, tasks, base, p) =~= submit_tail(
            a,
            tasks,
            base,
            p,
        ));
    } else {
        assert((a + b).drop_last() =~= a + b.drop_last());
        assert((a + b).last() == b.last());
        assert(b.drop_last().push(b.last()) =~= b);
        lemma_submit_tail_concat(a, b.drop_last(), tasks, base, p);
        assert(submit_tail(a, tasks, base, p) + submit_tail(b.drop_last(), tasks, base, p).push(
            b.last(),
        ) =~= (submit_tail(a, tasks, base, p) + submit_tail(b.drop_last(), tasks, base, p)).push(
            b.last(),
        ));
    }
}

/// A tail of ids that all pass the filter is kept whole.
proof fn lemma_submit_tail_all(ids: Seq<TaskId>, tasks: Seq<TaskSpecView>, base: int, p: int)
    requires
        forall|y: int|
            0 <= y < ids.len() ==> ((#[trigger] ids[y])@ - 1 - base >= p || tasks[ids[y]@ - 1
                - base].dependencies.len() == 0),
    ensures
        submit_tail(ids, tasks, base, p) == ids,
    decreases ids.len(),
{
    reveal_with_fuel(Seq::<TaskId>::filter, 2);
    if ids.len() > 0 {
        assert forall|y: int|
            0 <= y < ids.drop_last().len() implies ((#[trigger] ids.drop_last()[y])@ - 1 - base
                >= p || tasks[ids.drop_last()[y]@ - 1 - base].dependencies.len() == 0) by {
            assert(ids.drop_last()[y] == ids[y]);
        }
        lemma_submit_tail_all(ids.drop_last(), tasks, base, p);
        assert(ids[ids.len() - 1] == ids.last());
        assert(ids.drop_last().push(ids.last()) =~= ids);
    }
}

/// Whether task `a` of the submitted list declares a dependency on `b`.
pub open spec fn dep_edge(tasks: Seq<TaskSpecView>, a: int, b: int) -> bool {
    0 <= a < tasks.len() && 0 <= b < tasks.len() && tasks[a].dependencies.contains(b as usize)
}

/// A closed path through the declared dependencies.
pub open spec fn is_spec_cycle(tasks: Seq<TaskSpecView>, p: Seq<int>) -> bool {
    p.len() >= 2 && p.first() == p.last() && (forall|i: int|
        0 <= i < p.len() - 1 ==> dep_edge(tasks, #[trigger] p[i], p[i + 1]))
}

/// Whether the declared dependencies contain any cycle.
pub open spec fn spec_has_dep_cycle(tasks: Seq<TaskSpecView>) -> bool {
    exists|p: Seq<int>| is_spec_cycle(tasks, p)
}

/// Whether some declared dependency points outside the task list.
pub open spec fn spec_has_range_error(tasks: Seq<TaskSpecView>) -> bool {
    exists|i: int, x: int|
        0 <= i < tasks.len() && 0 <= x < tasks[i].dependencies.len()
            && #[trigger] tasks[i].dependencies[x] >= tasks.len()
}

impl InMemoryQueue {
    /// Creates a job and its member tasks in one step. Every declared
    /// dependency is validated first: an index outside the submitted
    /// list or a dependency cycle rejects the submission, and nothing is
    /// created. Tasks with no outstanding dependencies become ready in
    /// submission order.
    #[verifier::rlimit(100)]
    pub fn submit_job(&mut self, spec: JobSpec, now_ms: u64) -> (r: Result<JobId, WeaverError>)
        requires
            old(self).wf(),
        ensures
            final(self).wf(),
            match r {
                Ok(j) => {
                    let n = spec@.tasks.len() as int;
                    let base = old(self).spec_tasks().len() as int;
                    &&& !spec_has_range_error(spec@.tasks)
                    &&& !spec_has_dep_cycle(spec@.tasks)
                    &&& j@ == old(self).spec_jobs().len() + 1
                    &&& final(self).spec_jobs().len() == old(self).spec_jobs().len() + 1
                    &&& final(self).valid_job_id(j)
                    &&& final(self).job_view(j).spec == spec@
                    &&& final(self).job_view(j).state == JobState::Running
                    &&& final(self).job_view(j).created_at == now_ms
                    &&& final(self).job_view(j).deadline_at_ms == (match spec@.budget.deadline_ms {
                        Some(d) => Some(sat_add(now_ms, d)),
                        None => None,
                    })
                    &&& final(self).job_view(j).task_ids.len() == n
                    &&& (forall|i: int|
                        0 <= i < n ==> (#[trigger] final(self).job_view(j).task_ids[i])@ == base
                            + 1 + i)
                    &&& final(self).spec_tasks().len() == base + n
                    &&& (forall|i: int|
                        0 <= i < n ==> #[trigger] final(self).task_view(
                            final(self).job_view(j).task_ids[i],
                        ) == (TaskRecordView {
                            envelope: TaskEnvelopeView {
                                task_id: final(self).job_view(j).task_ids[i],
                                task_type: spec_task_type(spec@.tasks[i]),
                                payload: spec_payload(spec@.tasks[i]),
                            },
                            state: TaskState::Queued,
                            job_id: Some(j),
                            attempts: 0,
                            max_attempts: effective_max_attempts(
                                spec@.budget.max_attempts_per_task,
                            ),
                            last_error: None,
                            next_run_at: None,
                            parent_task_id: None,
                            child_task_ids: Seq::<TaskId>::empty(),
                            created_at: now_ms,
                            updated_at: now_ms,
                        }))
                    &&& (forall|t2: TaskId|
                        old(self).valid_task_id(t2) ==> #[trigger] final(self).task_view(t2)
                            == old(self).task_view(t2))
                    &&& (forall|j2: JobId|
                        old(self).valid_job_id(j2) ==> #[trigger] final(self).job_view(j2) == old(
                            self,
                        ).job_view(j2))
                    // declared dependencies become edges between the new ids
                    &&& (forall|a: TaskId, b: TaskId|
                        final(self).spec_edge(a, b) <==> (old(self).spec_edge(a, b) || (base < a@
                            <= base + n && base < b@ <= base + n && dep_edge(
                            spec@.tasks,
                            a@ - 1 - base,
                            b@ - 1 - base,
                        ))))
                    // the tasks with no declared dependencies join the ready
                    // queue in submission order; the old queue is untouched
                    &&& final(self).spec_ready() == old(self).spec_ready() + depless_new_ids(
                        final(self).job_view(j).task_ids,
                        spec@.tasks,
                        old(self).spec_tasks().len() as int,
                    )
                    &&& final(self).spec_attempts() == old(self).spec_attempts()
                    &&& final(self).spec_decisions() == old(self).spec_decisions()
                    &&& final(self).spec_scheduled() == old(self).spec_scheduled()
                    &&& final(self).spec_retry_policy() == old(self).spec_retry_policy()
                },
                Err(e) => {
                    &&& same_state(*old(self), *final(self))
                    &&& (spec_has_range_error(spec@.tasks) || spec_has_dep_cycle(spec@.tasks))
                    &&& (e@ matches WeaverErrorView::DependencyCycle(_) || e@ matches
                        WeaverErrorView::InvalidDependency { .. })
                    &&& (e@ matches WeaverErrorView::InvalidDependency { task_index, depends_on }
                        ==> task_index < spec@.tasks.len()
                        && spec@.tasks[task_index as int].dependencies.contains(depends_on)
                        && depends_on >= spec@.tasks.len())
                    &&& (e@ matches WeaverErrorView::DependencyCycle(p) ==> is_spec_cycle(
                        spec@.tasks,
                        p.map_values(|x: usize| x as int),
                    ))
                },
            },
    {
        let ghost pre = *old(self);
        let n = spec.tasks.len();
        proof {
            // every count in play is machine-bounded, so fresh 128-bit ids
            // cannot run out
            assert(pre.spec_tasks().len() == pre.tasks@.len());
            assert(pre.tasks@.len() <= usize::MAX) by {
                assert(pre.tasks@.len() == vstd::std_specs::vec::spec_vec_len(&pre.tasks));
            }
            assert(spec@.tasks.len() == spec.tasks@.len());
            assert(spec.tasks@.len() <= usize::MAX) by {
                assert(spec.tasks@.len() == vstd::std_specs::vec::spec_vec_len(&spec.tasks));
            }
            assert(pre.spec_jobs().len() == pre.jobs@.len());
            assert(pre.jobs@.len() <= usize::MAX) by {
                assert(pre.jobs@.len() == vstd::std_specs::vec::spec_vec_len(&pre.jobs));
            }
            assert(pre.spec_tasks().len() + spec@.tasks.len() <= u128::MAX);
            assert(pre.spec_jobs().len() + 1 <= u128::MAX);
        }
        // pass 1: reject any dependency index outside the submitted list
        let mut i: usize = 0;
        while i < n
            invariant
                self.wf(),
                same_state(*old(self), *self),
                n == spec@.tasks.len(),
                i <= n,
                forall|i2: int, x: int|
                    0 <= i2 < i && 0 <= x < spec@.tasks[i2].dependencies.len()
                        ==> #[trigger] spec@.tasks[i2].dependencies[x] < n,
            decreases n - i,
        {
            let deps = &spec.tasks[i].dependencies;
            let mut x: usize = 0;
            while x < deps.len()
                invariant
                    self.wf(),
                    same_state(*old(self), *self),
                    n == spec@.tasks.len(),
                    i < n,
                    deps@ == spec@.tasks[i as int].dependencies,
                    x <= deps@.len(),
                    forall|x2: int| 0 <= x2 < x ==> (#[trigger] deps@[x2]) < n,
                decreases deps@.len() - x,
            {
                if deps[x] >= n {
                    proof {
                        assert(spec@.tasks[i as int].dependencies[x as int] >= n);
                        assert(spec_has_range_error(spec@.tasks));
                    }
                    return Err(WeaverError::InvalidDependency {
                        task_index: i,
                        depends_on: deps[x],
                    });
                }
                x = x + 1;
            }
            i = i + 1;
        }
        proof {
            if spec_has_range_error(spec@.tasks) {
                let (i2, x) = choose|i2: int, x: int|
                    0 <= i2 < spec@.tasks.len() && 0 <= x < spec@.tasks[i2].dependencies.len()
                        && #[trigger] spec@.tasks[i2].dependencies[x] >= spec@.tasks.len();
                assert(false);
            }
        }
        // pass 2: check the declared dependencies for cycles on a
        // candidate graph over list positions
        let mut candidate = DependencyGraph::new();
        let mut i2: usize = 0;
        while i2 < n
            invariant
                self.wf(),
                same_state(*old(self), *self),
                n == spec@.tasks.len(),
                n <= u128::MAX,
                i2 <= n,
                candidate.wf(),
                forall|i3: int, x: int|
                    0 <= i3 < n && 0 <= x < spec@.tasks[i3].dependencies.len()
                        ==> #[trigger] spec@.tasks[i3].dependencies[x] < n,
                forall|a: TaskId, b: TaskId|
                    #[trigger] candidate.spec_edge(a, b) <==> (1 <= a@ <= i2 && 1 <= b@ <= n
                        && dep_edge(spec@.tasks, a@ - 1, b@ - 1)),
            decreases n - i2,
        {
            let deps = &spec.tasks[i2].dependencies;
            let mut x: usize = 0;
            while x < deps.len()
                invariant
                    self.wf(),
                    same_state(*old(self), *self),
                    n == spec@.tasks.len(),
                    n <= u128::MAX,
                    i2 < n,
                    candidate.wf(),
                    deps@ == spec@.tasks[i2 as int].dependencies,
                    x <= deps@.len(),
                    forall|i3: int, x2: int|
                        0 <= i3 < n && 0 <= x2 < spec@.tasks[i3].dependencies.len()
                            ==> #[trigger] spec@.tasks[i3].dependencies[x2] < n,
                    forall|a: TaskId, b: TaskId|
                        #[trigger] candidate.spec_edge(a, b) <==> ((1 <= a@ <= i2 && 1 <= b@ <= n
                            && dep_edge(spec@.tasks, a@ - 1, b@ - 1)) || (a@ == i2 + 1 && 1 <= b@
                            <= n && (exists|x2: int|
                            0 <= x2 < x && (#[trigger] deps@[x2]) == b@ - 1))),
                decreases deps@.len() - x,
            {
                let ghost cpre = candidate;
                let d = deps[x];
                let from = TaskId::new((i2 as u128) + 1);
                let to = TaskId::new((d as u128) + 1);
                candidate.add_dependency(from, to);
                proof {
                    assert(deps@[x as int] == d);
                    assert(d < n);
                    assert forall|a: TaskId, b: TaskId|
                        #[trigger] candidate.spec_edge(a, b) <==> ((1 <= a@ <= i2 && 1 <= b@ <= n
                            && dep_edge(spec@.tasks, a@ - 1, b@ - 1)) || (a@ == i2 + 1 && 1 <= b@
                            <= n && (exists|x2: int|
                            0 <= x2 < x + 1 && (#[trigger] deps@[x2]) == b@ - 1))) by {
                        if candidate.spec_edge(a, b) {
                            if a == from && b == to {
                                assert(deps@[x as int] == b@ - 1);
                            } else {
                                assert(cpre.spec_edge(a, b));
                                if a@ == i2 + 1 && 1 <= b@ <= n && (exists|x2: int|
                                    0 <= x2 < x && deps@[x2] == b@ - 1) {
                                    let x2 = choose|x2: int|
                                        0 <= x2 < x && (#[trigger] deps@[x2]) == b@ - 1;
                                    assert(0 <= x2 < x + 1 && deps@[x2] == b@ - 1);
                                }
                            }
                        }
                        if a@ == i2 + 1 && 1 <= b@ <= n && (exists|x2: int|
                            0 <= x2 < x + 1 && (#[trigger] deps@[x2]) == b@ - 1) {
                            let x2 = choose|x2: int|
                                0 <= x2 < x + 1 && (#[trigger] deps@[x2]) == b@ - 1;
                            if x2 == x {
                                assert(b@ == d + 1);
                                assert(to@ == d + 1);
                                lemma_task_id_injective(b, to);
                                assert(a@ == i2 + 1 && from@ == i2 + 1);
                                lemma_task_id_injective(a, from);
                                assert(candidate.spec_edge(from, to));
                            } else {
                                assert(cpre.spec_edge(a, b));
                            }
                        }
                        if 1 <= a@ <= i2 && 1 <= b@ <= n && dep_edge(spec@.tasks, a@ - 1, b@ - 1) {
                            assert(cpre.spec_edge(a, b));
                        }
                    }
                }
                x = x + 1;
            }
            proof {
                assert forall|a: TaskId, b: TaskId|
                    #[trigger] candidate.spec_edge(a, b) <==> (1 <= a@ <= i2 + 1 && 1 <= b@ <= n
                        && dep_edge(spec@.tasks, a@ - 1, b@ - 1)) by {
                    if candidate.spec_edge(a, b) {
                        if a@ == i2 + 1 {
                            if !(1 <= a@ <= i2) {
                                let x2 = choose|x2: int|
                                    0 <= x2 < deps@.len() && (#[trigger] deps@[x2]) == b@ - 1;
                                assert(spec@.tasks[i2 as int].dependencies.contains(
                                    (b@ - 1) as usize,
                                ));
                                assert(dep_edge(spec@.tasks, a@ - 1, b@ - 1));
                            }
                        }
                    }
                    if 1 <= a@ <= i2 + 1 && 1 <= b@ <= n && dep_edge(spec@.tasks, a@ - 1, b@ - 1) {
                        if a@ == i2 + 1 {
                            assert(spec@.tasks[i2 as int].dependencies.contains((b@ - 1) as usize));
                            let x2 = choose|x2: int|
                                0 <= x2 < deps@.len() && (#[trigger] deps@[x2]) == (b@ - 1) as usize;
                            assert(deps@[x2] == b@ - 1);
                        }
                    }
                }
            }
            i2 = i2 + 1;
        }
        if let Some(cycle_ids) = candidate.detect_cycle() {
            let mut positions: Vec<usize> = Vec::new();
            let mut c: usize = 0;
            while c < cycle_ids.len()
                invariant
                    self.wf(),
                    same_state(*old(self), *self),
                    c <= cycle_ids@.len(),
                    positions@.len() == c,
                    is_cycle(candidate, cycle_ids@),
                    forall|a: TaskId, b: TaskId|
                        #[trigger] candidate.spec_edge(a, b) <==> (1 <= a@ <= spec@.tasks.len()
                            && 1 <= b@ <= spec@.tasks.len() && dep_edge(spec@.tasks, a@ - 1, b@
                            - 1)),
                    forall|y: int| 0 <= y < c ==> (#[trigger] positions@[y]) as int
                        == cycle_ids@[y]@ - 1,
                decreases cycle_ids@.len() - c,
            {
                proof {
                    if c < cycle_ids@.len() - 1 {
                        assert(candidate.spec_edge(cycle_ids@[c as int], cycle_ids@[c as int + 1]));
                    } else {
                        assert(cycle_ids@.last() == cycle_ids@.first());
                        assert(candidate.spec_edge(cycle_ids@[0], cycle_ids@[1]));
                    }
                    assert(1 <= cycle_ids@[c as int]@ <= spec@.tasks.len());
                    assert(spec@.tasks.len() == spec.tasks@.len());
                    assert(spec.tasks@.len() <= usize::MAX) by {
                        assert(spec.tasks@.len() == vstd::std_specs::vec::spec_vec_len(
                            &spec.tasks,
                        ));
                    }
                }
                let cid = cycle_ids[c];
                let ghost p0 = positions@;
                positions.push(((cid.get() - 1) as usize));
                proof {
                    assert(cid == cycle_ids@[c as int]);
                    assert(positions@[c as int] as int == cycle_ids@[c as int]@ - 1);
                    assert forall|y: int| 0 <= y < c + 1 implies (#[trigger] positions@[y]) as int
                        == cycle_ids@[y]@ - 1 by {
                        if y < c {
                            assert(positions@[y] == p0[y]);
                        }
                    }
                }
                c = c + 1;
            }
            proof {
                let ip = positions@.map_values(|v: usize| v as int);
                assert(ip.len() == cycle_ids@.len());
                assert forall|y: int| 0 <= y < ip.len() implies ip[y] == cycle_ids@[y]@ - 1 by {
                    assert(positions@[y] as int == cycle_ids@[y]@ - 1);
                }
                assert(is_spec_cycle(spec@.tasks, ip)) by {
                    assert(ip.first() == ip.last()) by {
                        assert(cycle_ids@.first() == cycle_ids@.last());
                    }
                    assert forall|y: int| 0 <= y < ip.len() - 1 implies dep_edge(
                        spec@.tasks,
                        #[trigger] ip[y],
                        ip[y + 1],
                    ) by {
                        assert(candidate.spec_edge(cycle_ids@[y], cycle_ids@[y + 1]));
                    }
                }
                assert(spec_has_dep_cycle(spec@.tasks));
            }
            return Err(WeaverError::DependencyCycle(positions));
        }
        proof {
            // no candidate cycle means no declared cycle
            if spec_has_dep_cycle(spec@.tasks) {
                let p = choose|p: Seq<int>| is_spec_cycle(spec@.tasks, p);
                let q = p.map_values(|v: int| crate::ids::task_id_from((v + 1) as u128));
                assert(is_cycle(candidate, q)) by {
                    assert(q.len() == p.len());
                    assert forall|y: int| 0 <= y < p.len() implies 0 <= #[trigger] p[y]
                        < spec@.tasks.len() by {
                        if y < p.len() - 1 {
                            assert(dep_edge(spec@.tasks, p[y], p[y + 1]));
                        } else {
                            assert(p.last() == p.first());
                            assert(dep_edge(spec@.tasks, p[0], p[1]));
                        }
                    }
                    assert forall|y: int| 0 <= y < q.len() implies (#[trigger] q[y])@ == p[y] + 1
                        by {
                        crate::ids::lemma_task_id_from((p[y] + 1) as u128);
                    }
                    assert(q.first() == q.last()) by {
                        assert(q[0]@ == p[0] + 1);
                        assert(q[q.len() - 1]@ == p[p.len() - 1] + 1);
                        lemma_task_id_injective(q[0], q[q.len() - 1]);
                    }
                    assert forall|y: int| 0 <= y < q.len() - 1 implies candidate.spec_edge(
                        #[trigger] q[y],
                        q[y + 1],
                    ) by {
                        assert(dep_edge(spec@.tasks, p[y], p[y + 1]));
                        assert(q[y]@ == p[y] + 1 && q[y + 1]@ == p[y + 1] + 1);
                    }
                }
                assert(has_cycle(candidate));
                assert(false);
            }
        }
        // pass 3: create the job and its tasks
        let jraw: u128 = (self.jobs.len() as u128) + 1;
        let j = JobId::new(jraw);
        let budget_max = spec.budget.max_attempts_per_task;
        let max_attempts: u32 = if budget_max == 0 {
            1
        } else {
            budget_max
        };
        let jrec = JobRecord::new(j, spec.duplicate(), now_ms);
        self.jobs.push(jrec);
        let ghost jview = jrec@;
        proof {
            assert(self.spec_jobs() =~= pre.spec_jobs().push(jview));
            assert(self.job_view(j) == jview);
            assert(jview.task_ids =~= Seq::<TaskId>::empty());
            assert forall|jb: int|
                0 <= jb < self.spec_jobs().len() implies (#[trigger] self.spec_jobs()[jb]).job_id@
                == jb + 1 by {
                if jb < pre.spec_jobs().len() {
                    assert(self.spec_jobs()[jb] == pre.spec_jobs()[jb]);
                }
            }
            assert forall|jb: int, kk2: int|
                0 <= jb < self.spec_jobs().len() && 0 <= kk2 < (
            #[trigger] self.spec_jobs()[jb]).task_ids.len() implies self.valid_task_id(
                #[trigger] self.spec_jobs()[jb].task_ids[kk2],
            ) && self.task_view(self.spec_jobs()[jb].task_ids[kk2]).job_id == Some(
                self.spec_jobs()[jb].job_id,
            ) by {
                assert(jb < pre.spec_jobs().len());
                assert(self.spec_jobs()[jb] == pre.spec_jobs()[jb]);
                assert(self.task_view(self.spec_jobs()[jb].task_ids[kk2]) == pre.task_view(
                    pre.spec_jobs()[jb].task_ids[kk2],
                ));
            }
            assert forall|jb: int|
                0 <= jb < self.spec_jobs().len() implies (
            #[trigger] self.spec_jobs()[jb]).task_ids.no_duplicates() by {
                if jb < pre.spec_jobs().len() {
                    assert(self.spec_jobs()[jb] == pre.spec_jobs()[jb]);
                }
            }
            assert forall|i3: int|
                0 <= i3 < self.spec_tasks().len() && (#[trigger] self.spec_tasks()[i3]).job_id
                    is Some implies self.valid_job_id(self.spec_tasks()[i3].job_id->0) by {
                assert(self.spec_tasks()[i3] == pre.spec_tasks()[i3]);
                assert(pre.valid_job_id(pre.spec_tasks()[i3].job_id->0));
            }
            assert forall|i3: int| 0 <= i3 < self.spec_tasks().len() implies id_count(
                self.spec_ready(),
                (#[trigger] self.spec_tasks()[i3]).envelope.task_id,
            ) == if self.spec_tasks()[i3].state == TaskState::Queued && !self.spec_has_deps(
                self.spec_tasks()[i3].envelope.task_id,
            ) {
                1nat
            } else {
                0nat
            } by {
                let tid = self.spec_tasks()[i3].envelope.task_id;
                assert(self.spec_tasks()[i3] == pre.spec_tasks()[i3]);
                assert(self.spec_has_deps(tid) == pre.spec_has_deps(tid)) by {
                    if self.spec_has_deps(tid) {
                        let d = choose|d: TaskId| self.spec_edge(tid, d);
                        assert(pre.spec_edge(tid, d));
                    }
                    if pre.spec_has_deps(tid) {
                        let d = choose|d: TaskId| pre.spec_edge(tid, d);
                        assert(self.spec_edge(tid, d));
                    }
                }
            }
            assert forall|a: TaskId, b: TaskId| #[trigger] self.spec_edge(a, b) implies
                self.valid_task_id(a) && self.valid_task_id(b) && self.task_view(a).state
                == TaskState::Queued by {
                assert(pre.spec_edge(a, b));
                assert(self.task_view(a) == pre.task_view(a));
            }
            assert forall|jr: int|
                0 <= jr < self.spec_ready().len() implies self.valid_task_id(
                #[trigger] self.spec_ready()[jr],
            ) by {
                assert(self.spec_ready()[jr] == pre.spec_ready()[jr]);
                assert(pre.valid_task_id(pre.spec_ready()[jr]));
            }
            assert forall|i3: int| 0 <= i3 < self.spec_tasks().len() implies id_count(
                self.sched_ids(),
                (#[trigger] self.spec_tasks()[i3]).envelope.task_id,
            ) == if self.spec_tasks()[i3].state == TaskState::RetryScheduled {
                1nat
            } else {
                0nat
            } by {
                assert(self.spec_tasks()[i3] == pre.spec_tasks()[i3]);
                assert(self.sched_ids() == pre.sched_ids());
            }
            assert(self.wf());
        }
        let ghost s_job = *self;
        let ghost base = pre.spec_tasks().len() as int;
        // create the member tasks, each ready for now
        let mut idv: Vec<TaskId> = Vec::new();
        let mut i4: usize = 0;
        while i4 < n
            invariant
                self.wf(),
                pre.wf(),
                s_job.wf(),
                n == spec@.tasks.len(),
                base == pre.spec_tasks().len() as int,
                base + n <= u128::MAX,
                max_attempts == effective_max_attempts(spec@.budget.max_attempts_per_task),
                max_attempts >= 1,
                i4 <= n,
                idv@.len() == i4,
                s_job.valid_job_id(j),
                j@ == pre.spec_jobs().len() + 1,
                s_job.spec_jobs().len() == pre.spec_jobs().len() + 1,
                s_job.job_view(j) == jview,
                jview.task_ids.len() == 0,
                jview.job_id == j,
                jview.spec == spec@,
                jview.state == JobState::Running,
                jview.created_at == now_ms,
                jview.updated_at == now_ms,
                jview.deadline_at_ms == (match spec@.budget.deadline_ms {
                    Some(d) => Some(sat_add(now_ms, d)),
                    None => None,
                }),
                s_job.spec_tasks() == pre.spec_tasks(),
                s_job.spec_ready() == pre.spec_ready(),
                s_job.spec_scheduled() == pre.spec_scheduled(),
                s_job.spec_attempts() == pre.spec_attempts(),
                s_job.spec_decisions() == pre.spec_decisions(),
                forall|a: TaskId, b: TaskId| s_job.spec_edge(a, b) == pre.spec_edge(a, b),
                s_job.spec_retry_policy() == pre.spec_retry_policy(),
                forall|j2: JobId|
                    pre.valid_job_id(j2) ==> #[trigger] s_job.job_view(j2) == pre.job_view(j2),
                forall|y: int| 0 <= y < i4 ==> (#[trigger] idv@[y])@ == base + 1 + y,
                self.spec_tasks().len() == base + i4,
                forall|y: int|
                    0 <= y < i4 ==> #[trigger] self.task_view(idv@[y]) == spawned_view(
                        idv@[y],
                        spec_task_type(spec@.tasks[y]),
                        spec_payload(spec@.tasks[y]),
                        max_attempts,
                        Some(j),
                        None,
                        now_ms,
                    ),
                forall|t2: TaskId|
                    pre.valid_task_id(t2) ==> #[trigger] self.task_view(t2) == pre.task_view(t2),
                self.spec_ready() == pre.spec_ready() + idv@,
                self.spec_jobs().len() == s_job.spec_jobs().len(),
                self.job_view(j) == (if i4 == 0 {
                    jview
                } else {
                    JobRecordView { task_ids: idv@, updated_at: now_ms, ..jview }
                }),
                forall|j2: JobId|
                    pre.valid_job_id(j2) ==> #[trigger] self.job_view(j2) == pre.job_view(j2),
                self.spec_attempts() == pre.spec_attempts(),
                self.spec_decisions() == pre.spec_decisions(),
                self.spec_scheduled() == pre.spec_scheduled(),
                forall|a: TaskId, b: TaskId| self.spec_edge(a, b) == pre.spec_edge(a, b),
                self.spec_retry_policy() == pre.spec_retry_policy(),
            decreases n - i4,
        {
            let ghost looppre = *self;
            let (tag, payload) = Self::spec_envelope_parts(&spec.tasks[i4]);
            let t = self.spawn_task(tag, payload, max_attempts, Some(j), None, now_ms);
            idv.push(t);
            proof {
                assert(spec.tasks.deep_view()[i4 as int] == spec@.tasks[i4 as int]);
                assert(t@ == base + 1 + i4);
                assert(self.spec_ready() =~= pre.spec_ready() + idv@) by {
                    assert(self.spec_ready() =~= looppre.spec_ready().push(t));
                    assert(looppre.spec_ready() == pre.spec_ready() + idv@.drop_last());
                    assert((pre.spec_ready() + idv@.drop_last()).push(t) =~= pre.spec_ready()
                        + idv@);
                }
                assert forall|t2: TaskId|
                    pre.valid_task_id(t2) implies #[trigger] self.task_view(t2) == pre.task_view(
                    t2,
                ) by {
                    assert(t2 != t);
                    assert(self.task_view(t2) == looppre.task_view(t2));
                }
                assert forall|y: int|
                    0 <= y < i4 + 1 implies #[trigger] self.task_view(idv@[y]) == spawned_view(
                    idv@[y],
                    spec_task_type(spec@.tasks[y]),
                    spec_payload(spec@.tasks[y]),
                    max_attempts,
                    Some(j),
                    None,
                    now_ms,
                ) by {
                    if y < i4 {
                        assert(idv@[y] == idv@.drop_last()[y]);
                        assert(self.task_view(idv@[y]) == looppre.task_view(idv@[y])) by {
                            assert(idv@[y]@ <= looppre.spec_tasks().len());
                        }
                    } else {
                        assert(idv@[y] == t);
                    }
                }
                assert(self.job_view(j) == (JobRecordView {
                    task_ids: idv@,
                    updated_at: now_ms,
                    ..jview
                })) by {
                    assert(looppre.job_view(j).task_ids.push(t) =~= idv@);
                }
                assert forall|j2: JobId|
                    pre.valid_job_id(j2) implies #[trigger] self.job_view(j2) == pre.job_view(j2)
                    by {
                    assert(j2@ <= pre.spec_jobs().len());
                    assert(j2 != j) by {
                        if j2 == j {
                            assert(j2@ == pre.spec_jobs().len() + 1);
                        }
                    }
                    assert(self.job_view(j2) == looppre.job_view(j2));
                }
            }
            i4 = i4 + 1;
        }
        let ghost s_spawn = *self;
        proof {
            assert forall|y: int|
                0 <= y < idv@.len() implies ((#[trigger] idv@[y])@ - 1 - base >= 0
                    || spec@.tasks[idv@[y]@ - 1 - base].dependencies.len() == 0) by {
                assert(idv@[y]@ == base + 1 + y);
            }
            lemma_submit_tail_all(idv@, spec@.tasks, base, 0);
            assert(self.spec_ready() == pre.spec_ready() + submit_tail(
                idv@,
                spec@.tasks,
                base,
                0,
            ));
        }
        // pass 4: register the declared dependencies between the new ids
        let ghost mut added: Set<(TaskId, TaskId)> = Set::empty();
        let mut i5: usize = 0;
        while i5 < n
            invariant
                self.wf(),
                pre.wf(),
                s_spawn.wf(),
                n == spec@.tasks.len(),
                base == pre.spec_tasks().len() as int,
                base + n <= u128::MAX,
                i5 <= n,
                forall|i3: int, x: int|
                    0 <= i3 < n && 0 <= x < spec@.tasks[i3].dependencies.len()
                        ==> #[trigger] spec@.tasks[i3].dependencies[x] < n,
                s_spawn.spec_tasks().len() == base + n,
                forall|y: int| 0 <= y < n ==> (#[trigger] idv@[y])@ == base + 1 + y,
                idv@.len() == n,
                forall|y: int|
                    0 <= y < n ==> #[trigger] s_spawn.task_view(idv@[y]).state
                        == TaskState::Queued,
                forall|a: TaskId, b: TaskId| s_spawn.spec_edge(a, b) == pre.spec_edge(a, b),
                forall|a: TaskId, b: TaskId|
                    #[trigger] pre.spec_edge(a, b) ==> pre.valid_task_id(a),
                self.spec_tasks() == s_spawn.spec_tasks(),
                self.spec_jobs() == s_spawn.spec_jobs(),
                self.spec_scheduled() == s_spawn.spec_scheduled(),
                self.spec_attempts() == s_spawn.spec_attempts(),
                self.spec_decisions() == s_spawn.spec_decisions(),
                self.spec_retry_policy() == s_spawn.spec_retry_policy(),
                forall|a: TaskId, b: TaskId|
                    #[trigger] self.spec_edge(a, b) <==> (pre.spec_edge(a, b)
                        || added.contains((a, b))),
                forall|a: TaskId, b: TaskId|
                    #[trigger] added.contains((a, b)) ==> base < a@ <= base + n && base < b@
                        <= base + n && dep_edge(spec@.tasks, a@ - 1 - base, b@ - 1 - base),
                forall|i3: int, x: int|
                    0 <= i3 < i5 && 0 <= x < spec@.tasks[i3].dependencies.len() ==> added.contains(
                        (
                            crate::ids::task_id_from((base + 1 + i3) as u128),
                            crate::ids::task_id_from(
                                (base + 1 + #[trigger] spec@.tasks[i3].dependencies[x]) as u128,
                            ),
                        ),
                    ),
                forall|a: TaskId, b: TaskId|
                    #[trigger] added.contains((a, b)) ==> a@ - 1 - base < i5,
                self.spec_ready() == pre.spec_ready() + submit_tail(
                    idv@,
                    spec@.tasks,
                    base,
                    i5 as int,
                ),
            decreases n - i5,
        {
            let deps = &spec.tasks[i5].dependencies;
            let from = idv[i5];
            let mut x: usize = 0;
            while x < deps.len()
                invariant
                    self.wf(),
                    pre.wf(),
                    s_spawn.wf(),
                    n == spec@.tasks.len(),
                    base == pre.spec_tasks().len() as int,
                    base + n <= u128::MAX,
                    i5 < n,
                    deps@ == spec@.tasks[i5 as int].dependencies,
                    from == idv@[i5 as int],
                    from@ == base + 1 + i5,
                    x <= deps@.len(),
                    forall|i3: int, x2: int|
                        0 <= i3 < n && 0 <= x2 < spec@.tasks[i3].dependencies.len()
                            ==> #[trigger] spec@.tasks[i3].dependencies[x2] < n,
                    s_spawn.spec_tasks().len() == base + n,
                    forall|y: int| 0 <= y < n ==> (#[trigger] idv@[y])@ == base + 1 + y,
                    idv@.len() == n,
                    forall|y: int|
                        0 <= y < n ==> #[trigger] s_spawn.task_view(idv@[y]).state
                            == TaskState::Queued,
                    forall|a: TaskId, b: TaskId| s_spawn.spec_edge(a, b) == pre.spec_edge(a, b),
                    forall|a: TaskId, b: TaskId|
                        #[trigger] pre.spec_edge(a, b) ==> pre.valid_task_id(a),
                    self.spec_tasks() == s_spawn.spec_tasks(),
                    self.spec_jobs() == s_spawn.spec_jobs(),
                    self.spec_scheduled() == s_spawn.spec_scheduled(),
                    self.spec_attempts() == s_spawn.spec_attempts(),
                    self.spec_decisions() == s_spawn.spec_decisions(),
                    self.spec_retry_policy() == s_spawn.spec_retry_policy(),
                    forall|a: TaskId, b: TaskId|
                        #[trigger] self.spec_edge(a, b) <==> (pre.spec_edge(a, b)
                            || added.contains((a, b))),
                    forall|a: TaskId, b: TaskId|
                        #[trigger] added.contains((a, b)) ==> base < a@ <= base + n && base < b@
                            <= base + n && dep_edge(spec@.tasks, a@ - 1 - base, b@ - 1 - base),
                    forall|i3: int, x2: int|
                        0 <= i3 < i5 && 0 <= x2 < spec@.tasks[i3].dependencies.len()
                            ==> added.contains(
                            (
                                crate::ids::task_id_from((base + 1 + i3) as u128),
                                crate::ids::task_id_from(
                                    (base + 1 + #[trigger] spec@.tasks[i3].dependencies[x2]) as u128,
                                ),
                            ),
                        ),
                    forall|x2: int|
                        0 <= x2 < x ==> added.contains(
                            (
                                crate::ids::task_id_from((base + 1 + i5) as u128),
                                crate::ids::task_id_from(
                                    (base + 1 + #[trigger] deps@[x2]) as u128,
                                ),
                            ),
                        ),
                    forall|a: TaskId, b: TaskId|
                        #[trigger] added.contains((a, b)) ==> (a@ - 1 - base < i5 || (a@ - 1
                            - base == i5 && x > 0)),
                    self.spec_ready() == pre.spec_ready() + submit_tail(
                        idv@,
                        spec@.tasks,
                        base,
                        (if x == 0 {
                            i5 as int
                        } else {
                            i5 as int + 1
                        }),
                    ),
                decreases deps@.len() - x,
            {
                let ghost looppre = *self;
                let d = deps[x];
                let to = idv[d];
                proof {
                    assert(deps@[x as int] == d);
                    assert(d < n);
                    assert(to@ == base + 1 + d);
                    assert(self.valid_task_id(from));
                    assert(self.valid_task_id(to));
                    assert(self.task_view(from).state == TaskState::Queued) by {
                        assert(self.task_view(from) == s_spawn.task_view(idv@[i5 as int]));
                    }
                }
                self.add_task_dependency(from, to);
                proof {
                    let ghost added0 = added;
                    let tasks_v = spec@.tasks;
                    // ready bookkeeping: the first registered dependency pulls
                    // the task out of the ready queue; later ones change nothing
                    if x == 0 {
                        assert(!looppre.spec_has_deps(from)) by {
                            if looppre.spec_has_deps(from) {
                                let dd = choose|dd: TaskId| looppre.spec_edge(from, dd);
                                if pre.spec_edge(from, dd) {
                                    assert(pre.valid_task_id(from));
                                    assert(false);
                                } else {
                                    assert(added0.contains((from, dd)));
                                    assert(false);
                                }
                            }
                        }
                        let k = choose|k: int|
                            0 <= k < looppre.spec_ready().len() && looppre.spec_ready()[k] == from
                                && self.spec_ready() == looppre.spec_ready().remove(k);
                        let av = idv@.subrange(0, i5 as int);
                        let bv = idv@.subrange(i5 as int + 1, n as int);
                        assert(idv@ =~= av + seq![from] + bv);
                        lemma_submit_tail_concat(av + seq![from], bv, tasks_v, base, i5 as int);
                        lemma_submit_tail_concat(av, seq![from], tasks_v, base, i5 as int);
                        assert forall|y: int|
                            0 <= y < seq![from].len() implies ((#[trigger] seq![from][y])@ - 1
                                - base >= i5 as int || tasks_v[seq![from][y]@ - 1
                                - base].dependencies.len() == 0) by {
                            assert(seq![from][y] == from);
                        }
                        lemma_submit_tail_all(seq![from], tasks_v, base, i5 as int);
                        let pv = pre.spec_ready() + submit_tail(av, tasks_v, base, i5 as int);
                        let sv = looppre.spec_ready();
                        assert(sv =~= pv + seq![from] + submit_tail(bv, tasks_v, base, i5 as int));
                        let pos = pv.len() as int;
                        assert(sv[pos] == from);
                        assert(id_count(sv, from) == 1) by {
                            let i = from@ as int - 1;
                            assert(looppre.spec_tasks()[i].envelope.task_id@ == i + 1);
                            lemma_task_id_injective(looppre.spec_tasks()[i].envelope.task_id, from);
                            assert(looppre.task_view(from).state == TaskState::Queued) by {
                                assert(looppre.task_view(from) == s_spawn.task_view(
                                    idv@[i5 as int],
                                ));
                            }
                        }
                        assert(k == pos) by {
                            if k < pos {
                                lemma_id_count_at_least_two(sv, from, k, pos);
                            }
                            if k > pos {
                                lemma_id_count_at_least_two(sv, from, pos, k);
                            }
                        }
                        assert(self.spec_ready() =~= pv + submit_tail(bv, tasks_v, base, i5 as int));
                        assert forall|y: int|
                            0 <= y < av.len() implies (((#[trigger] av[y])@ - 1 - base >= i5 as int
                                || tasks_v[av[y]@ - 1 - base].dependencies.len() == 0) == (av[y]@
                                - 1 - base >= i5 as int + 1 || tasks_v[av[y]@ - 1
                                - base].dependencies.len() == 0)) by {
                            assert(av[y] == idv@[y]);
                        }
                        lemma_submit_tail_congruent(av, tasks_v, base, i5 as int, i5 as int + 1);
                        assert forall|y: int|
                            0 <= y < bv.len() implies (((#[trigger] bv[y])@ - 1 - base >= i5 as int
                                || tasks_v[bv[y]@ - 1 - base].dependencies.len() == 0) == (bv[y]@
                                - 1 - base >= i5 as int + 1 || tasks_v[bv[y]@ - 1
                                - base].dependencies.len() == 0)) by {
                            assert(bv[y] == idv@[y + i5 + 1]);
                        }
                        lemma_submit_tail_congruent(bv, tasks_v, base, i5 as int, i5 as int + 1);
                        assert(submit_tail(seq![from], tasks_v, base, i5 as int + 1)
                            =~= Seq::<TaskId>::empty()) by {
                            reveal_with_fuel(Seq::<TaskId>::filter, 2);
                            assert(seq![from].drop_last() =~= Seq::<TaskId>::empty());
                            assert(seq![from].last() == from);
                            assert(tasks_v[i5 as int].dependencies.len() > 0);
                        }
                        lemma_submit_tail_concat(av + seq![from], bv, tasks_v, base, i5 as int + 1);
                        lemma_submit_tail_concat(av, seq![from], tasks_v, base, i5 as int + 1);
                        assert(self.spec_ready() =~= pre.spec_ready() + submit_tail(
                            idv@,
                            tasks_v,
                            base,
                            i5 as int + 1,
                        ));
                    } else {
                        assert(looppre.spec_has_deps(from)) by {
                            let d0 = crate::ids::task_id_from((base + 1 + deps@[0]) as u128);
                            assert(added0.contains(
                                (crate::ids::task_id_from((base + 1 + i5) as u128), d0),
                            ));
                            crate::ids::lemma_task_id_from((base + 1 + i5) as u128);
                            lemma_task_id_injective(
                                crate::ids::task_id_from((base + 1 + i5) as u128),
                                from,
                            );
                            assert(looppre.spec_edge(from, d0));
                        }
                        assert(self.spec_ready() == looppre.spec_ready());
                    }
                    added = added.insert((from, to));
                    assert(dep_edge(spec@.tasks, from@ - 1 - base, to@ - 1 - base)) by {
                        assert(spec@.tasks[i5 as int].dependencies[x as int] == d);
                        assert(spec@.tasks[i5 as int].dependencies.contains(d));
                    }
                    assert forall|x2: int|
                        0 <= x2 < x + 1 implies added.contains(
                        (
                            crate::ids::task_id_from((base + 1 + i5) as u128),
                            crate::ids::task_id_from((base + 1 + #[trigger] deps@[x2]) as u128),
                        ),
                    ) by {
                        crate::ids::lemma_task_id_from((base + 1 + i5) as u128);
                        crate::ids::lemma_task_id_from((base + 1 + deps@[x2]) as u128);
                        if x2 == x {
                            lemma_task_id_injective(
                                crate::ids::task_id_from((base + 1 + i5) as u128),
                                from,
                            );
                            lemma_task_id_injective(
                                crate::ids::task_id_from((base + 1 + deps@[x2]) as u128),
                                to,
                            );
                        }
                    }
                }
                x = x + 1;
            }
            proof {
                assert forall|i3: int, x2: int|
                    0 <= i3 < i5 + 1 && 0 <= x2 < spec@.tasks[i3].dependencies.len()
                        implies added.contains(
                    (
                        crate::ids::task_id_from((base + 1 + i3) as u128),
                        crate::ids::task_id_from(
                            (base + 1 + #[trigger] spec@.tasks[i3].dependencies[x2]) as u128,
                        ),
                    ),
                ) by {
                    if i3 == i5 {
                        assert(deps@[x2] == spec@.tasks[i3].dependencies[x2]);
                    }
                }
                if deps.len() == 0 {
                    // a task with no declared dependencies keeps its place
                    assert forall|y: int|
                        0 <= y < idv@.len() implies (((#[trigger] idv@[y])@ - 1 - base
                            >= i5 as int || spec@.tasks[idv@[y]@ - 1 - base].dependencies.len()
                            == 0) == (idv@[y]@ - 1 - base >= i5 as int + 1 || spec@.tasks[idv@[y]@
                            - 1 - base].dependencies.len() == 0)) by {
                        assert(idv@[y]@ == base + 1 + y);
                        if y == i5 {
                            assert(spec@.tasks[y].dependencies.len() == 0);
                        }
                    }
                    lemma_submit_tail_congruent(
                        idv@,
                        spec@.tasks,
                        base,
                        i5 as int,
                        i5 as int + 1,
                    );
                }
            }
            i5 = i5 + 1;
        }
        proof {
            // the added set is exactly the declared dependency pairs
            assert forall|a: TaskId, b: TaskId|
                self.spec_edge(a, b) <==> (pre.spec_edge(a, b) || (base < a@ <= base + n && base
                    < b@ <= base + n && dep_edge(spec@.tasks, a@ - 1 - base, b@ - 1 - base))) by {
                if base < a@ <= base + n && base < b@ <= base + n && dep_edge(
                    spec@.tasks,
                    a@ - 1 - base,
                    b@ - 1 - base,
                ) {
                    let i3 = a@ - 1 - base;
                    assert(spec@.tasks[i3].dependencies.contains((b@ - 1 - base) as usize));
                    let x2 = choose|x2: int|
                        0 <= x2 < spec@.tasks[i3].dependencies.len() && (
                        #[trigger] spec@.tasks[i3].dependencies[x2]) == (b@ - 1 - base) as usize;
                    assert(added.contains(
                        (
                            crate::ids::task_id_from((base + 1 + i3) as u128),
                            crate::ids::task_id_from(
                                (base + 1 + spec@.tasks[i3].dependencies[x2]) as u128,
                            ),
                        ),
                    ));
                    crate::ids::lemma_task_id_from((base + 1 + i3) as u128);
                    crate::ids::lemma_task_id_from(
                        (base + 1 + spec@.tasks[i3].dependencies[x2]) as u128,
                    );
                    lemma_task_id_injective(crate::ids::task_id_from((base + 1 + i3) as u128), a);
                    lemma_task_id_injective(
                        crate::ids::task_id_from(
                            (base + 1 + spec@.tasks[i3].dependencies[x2]) as u128,
                        ),
                        b,
                    );
                }
            }
        }
        proof {
            assert forall|t2: TaskId|
                pre.valid_task_id(t2) implies #[trigger] self.task_view(t2) == pre.task_view(t2)
                by {
                assert(self.task_view(t2) == s_spawn.task_view(t2));
            }
            assert forall|j2: JobId|
                pre.valid_job_id(j2) implies #[trigger] self.job_view(j2) == pre.job_view(j2) by {
                assert(self.job_view(j2) == s_spawn.job_view(j2));
            }
            assert(self.job_view(j) == s_spawn.job_view(j));
            assert forall|y: int|
                0 <= y < n implies #[trigger] self.task_view(idv@[y]) == s_spawn.task_view(
                idv@[y],
            ) by {}
            assert(self.job_view(j).task_ids == (if n == 0 {
                Seq::<TaskId>::empty()
            } else {
                idv@
            }));
            if n == 0 {
                assert(self.job_view(j).task_ids =~= idv@);
            }
            assert(self.job_view(j).task_ids == idv@);
            assert(self.spec_ready() == pre.spec_ready() + depless_new_ids(
                self.job_view(j).task_ids,
                spec@.tasks,
                base,
            ));
        }
        Ok(j)
    }
}


/// How many of these states equal `st`.
pub open spec fn member_count(states: Seq<TaskState>, st: TaskState) -> nat
    decreases states.len(),
{
    if states.len() == 0 {
        0
    } else {
        member_count(states.drop_last(), st) + if states.last() == st {
            1nat
        } else {
            0nat
        }
    }
}

/// A member count never exceeds the member list.
pub proof fn lemma_member_count_le(states: Seq<TaskState>, st: TaskState)
    ensures
        member_count(states, st) <= states.len(),
    decreases states.len(),
{
    if states.len() > 0 {
        lemma_member_count_le(states.drop_last(), st);
    }
}

impl InMemoryQueue {
    /// The status summary this store gives for job `j`.
    pub open spec fn spec_status(self, j: JobId) -> JobStatus {
        let jv = self.job_view(j);
        let states = self.member_states(j);
        JobStatus {
            job_id: j,
            state: jv.state,
            created_at_ms: jv.created_at,
            updated_at_ms: jv.updated_at,
            deadline_at_ms: jv.deadline_at_ms,
            total_tasks: jv.task_ids.len() as usize,
            completed_tasks: member_count(states, TaskState::Succeeded) as usize,
            failed_tasks: member_count(states, TaskState::Dead) as usize,
            running_tasks: (member_count(states, TaskState::Queued) + member_count(
                states,
                TaskState::Running,
            ) + member_count(states, TaskState::RetryScheduled)) as usize,
        }
    }

    /// A borrowed view of job `j`'s record, if it exists.
    pub fn get_job(&self, job_id: JobId) -> (r: Option<&JobRecord>)
        requires
            self.wf(),
        ensures
            match r {
                Some(rec) => self.valid_job_id(job_id) && rec@ == self.job_view(job_id),
                None => !self.valid_job_id(job_id),
            },
    {
        let raw = job_id.get();
        if raw < 1 || raw > self.jobs.len() as u128 {
            return None;
        }
        let jidx: usize = (raw - 1) as usize;
        proof {
            assert(self.spec_jobs().len() == self.jobs@.len());
            assert(self.jobs@.len() <= usize::MAX) by {
                assert(self.jobs@.len() == vstd::std_specs::vec::spec_vec_len(&self.jobs));
            }
            assert(jidx as int == job_id@ - 1);
        }
        Some(&self.jobs[jidx])
    }

    /// The member-task counts and state of job `j`, as one summary.
    pub fn get_status(&self, job_id: JobId) -> (r: Option<JobStatus>)
        requires
            self.wf(),
        ensures
            match r {
                Some(st) => self.valid_job_id(job_id) && st == self.spec_status(job_id),
                None => !self.valid_job_id(job_id),
            },
    {
        let raw = job_id.get();
        if raw < 1 || raw > self.jobs.len() as u128 {
            return None;
        }
        let jidx: usize = (raw - 1) as usize;
        proof {
            assert(self.spec_jobs().len() == self.jobs@.len());
            assert(self.jobs@.len() <= usize::MAX) by {
                assert(self.jobs@.len() == vstd::std_specs::vec::spec_vec_len(&self.jobs));
            }
            assert(jidx as int == job_id@ - 1);
        }
        let ghost states = self.member_states(job_id);
        let total = self.jobs[jidx].task_ids.len();
        let mut completed: usize = 0;
        let mut failed: usize = 0;
        let mut running: usize = 0;
        let mut m: usize = 0;
        while m < total
            invariant
                self.wf(),
                0 <= jidx < self.jobs@.len(),
                jidx as int == job_id@ - 1,
                states == self.member_states(job_id),
                total == self.spec_jobs()[jidx as int].task_ids.len(),
                states.len() == total,
                m <= total,
                completed == member_count(states.subrange(0, m as int), TaskState::Succeeded),
                failed == member_count(states.subrange(0, m as int), TaskState::Dead),
                running <= m,
                running == member_count(states.subrange(0, m as int), TaskState::Queued)
                    + member_count(states.subrange(0, m as int), TaskState::Running)
                    + member_count(states.subrange(0, m as int), TaskState::RetryScheduled),
            decreases total - m,
        {
            let tid = self.jobs[jidx].task_ids[m];
            proof {
                assert(self.spec_jobs()[jidx as int].task_ids[m as int] == tid);
                assert(self.valid_task_id(tid));
            }
            let tdx: usize = (tid.get() - 1) as usize;
            proof {
                assert(self.spec_tasks().len() == self.tasks@.len());
                assert(self.tasks@.len() <= usize::MAX) by {
                    assert(self.tasks@.len() == vstd::std_specs::vec::spec_vec_len(&self.tasks));
                }
                assert(tdx as int == tid@ - 1);
                let pre2 = states.subrange(0, m as int);
                let post2 = states.subrange(0, m as int + 1);
                assert(post2.drop_last() =~= pre2);
                assert(post2.last() == states[m as int]);
                assert(states[m as int] == self.task_view(tid).state);
                lemma_member_count_le(pre2, TaskState::Succeeded);
                lemma_member_count_le(pre2, TaskState::Dead);
                lemma_member_count_le(pre2, TaskState::Queued);
                lemma_member_count_le(pre2, TaskState::Running);
                lemma_member_count_le(pre2, TaskState::RetryScheduled);
            }
            let st = self.tasks[tdx].state;
            match st {
                TaskState::Succeeded => {
                    completed = completed + 1;
                },
                TaskState::Dead => {
                    failed = failed + 1;
                },
                TaskState::Queued => {
                    running = running + 1;
                },
                TaskState::Running => {
                    running = running + 1;
                },
                TaskState::RetryScheduled => {
                    running = running + 1;
                },
                TaskState::Decomposed => {},
            }
            m = m + 1;
        }
        proof {
            assert(states.subrange(0, total as int) =~= states);
        }
        let rec = &self.jobs[jidx];
        Some(
            JobStatus {
                job_id,
                state: rec.state,
                created_at_ms: rec.created_at,
                updated_at_ms: rec.updated_at,
                deadline_at_ms: rec.deadline_at_ms,
                total_tasks: total,
                completed_tasks: completed,
                failed_tasks: failed,
                running_tasks: running,
            },
        )
    }

    /// Whether this attempt belongs to a member task of job `j`.
    pub open spec fn attempt_of_job(self, a: AttemptRecordView, j: JobId) -> bool {
        self.valid_task_id(a.task_id) && self.task_view(a.task_id).job_id == Some(j)
    }

    /// Whether this decision concerns a member task of job `j`.
    pub open spec fn decision_of_job(self, d: DecisionRecordView, j: JobId) -> bool {
        self.valid_task_id(d.task_id) && self.task_view(d.task_id).job_id == Some(j)
    }

    /// Whether task `t` (if it exists) belongs to job `j`.
    fn task_belongs(&self, t: TaskId, j: JobId) -> (r: bool)
        requires
            self.wf(),
        ensures
            r == (self.valid_task_id(t) && self.task_view(t).job_id == Some(j)),
    {
        let raw = t.get();
        if raw < 1 || raw > self.tasks.len() as u128 {
            return false;
        }
        let tdx: usize = (raw - 1) as usize;
        proof {
            assert(self.spec_tasks().len() == self.tasks@.len());
            assert(self.tasks@.len() <= usize::MAX) by {
                assert(self.tasks@.len() == vstd::std_specs::vec::spec_vec_len(&self.tasks));
            }
            assert(tdx as int == t@ - 1);
        }
        match self.tasks[tdx].job_id {
            Some(x) => {
                let same = x.get() == j.get();
                proof {
                    if same {
                        lemma_job_id_injective(x, j);
                    }
                }
                same
            },
            None => false,
        }
    }

    /// Everything recorded about job `j`: the status summary, the member
    /// ids, and every attempt and decision of its member tasks, oldest
    /// first.
    pub fn get_result(&self, job_id: JobId) -> (r: Option<JobResult>)
        requires
            self.wf(),
        ensures
            match r {
                Some(res) => {
                    &&& self.valid_job_id(job_id)
                    &&& res@.status == self.spec_status(job_id)
                    &&& res@.task_ids == self.job_view(job_id).task_ids
                    &&& res@.attempts == self.spec_attempts().filter(
                        |a: AttemptRecordView| self.attempt_of_job(a, job_id),
                    )
                    &&& res@.decisions == self.spec_decisions().filter(
                        |d: DecisionRecordView| self.decision_of_job(d, job_id),
                    )
                },
                None => !self.valid_job_id(job_id),
            },
    {
        let status = match self.get_status(job_id) {
            Some(st) => st,
            None => {
                return None;
            },
        };
        let jidx: usize = (job_id.get() - 1) as usize;
        proof {
            assert(self.spec_jobs().len() == self.jobs@.len());
            assert(self.jobs@.len() <= usize::MAX) by {
                assert(self.jobs@.len() == vstd::std_specs::vec::spec_vec_len(&self.jobs));
            }
            assert(jidx as int == job_id@ - 1);
        }
        let mut task_ids: Vec<TaskId> = Vec::new();
        let mut m: usize = 0;
        let total = self.jobs[jidx].task_ids.len();
        while m < total
            invariant
                0 <= jidx < self.jobs@.len(),
                total == self.jobs@[jidx as int]@.task_ids.len(),
                m <= total,
                task_ids@ == self.jobs@[jidx as int]@.task_ids.subrange(0, m as int),
            decreases total - m,
        {
            task_ids.push(self.jobs[jidx].task_ids[m]);
            proof {
                assert(task_ids@ =~= self.jobs@[jidx as int]@.task_ids.subrange(0, m as int + 1));
            }
            m = m + 1;
        }
        proof {
            assert(task_ids@ =~= self.job_view(job_id).task_ids);
        }
        let mut attempts: Vec<AttemptRecord> = Vec::new();
        proof {
            reveal_with_fuel(Seq::<AttemptRecordView>::filter, 2);
            assert(attempts.deep_view() =~= Seq::<AttemptRecordView>::empty());
            assert(self.spec_attempts().subrange(0, 0).len() == 0);
        }
        let mut a: usize = 0;
        while a < self.attempts.len()
            invariant
                self.wf(),
                a <= self.attempts@.len(),
                attempts.deep_view() == self.spec_attempts().subrange(0, a as int).filter(
                    |av: AttemptRecordView| self.attempt_of_job(av, job_id),
                ),
            decreases self.attempts@.len() - a,
        {
            proof {
                reveal_with_fuel(Seq::<AttemptRecordView>::filter, 2);
                let pre2 = self.spec_attempts().subrange(0, a as int);
                let post2 = self.spec_attempts().subrange(0, a as int + 1);
                assert(post2.drop_last() =~= pre2);
                assert(post2.last() == self.spec_attempts()[a as int]);
            }
            let belongs = self.task_belongs(self.attempts[a].task_id, job_id);
            proof {
                assert(self.spec_attempts()[a as int].task_id == self.attempts@[a as int]@.task_id);
                assert(belongs == self.attempt_of_job(self.spec_attempts()[a as int], job_id));
            }
            if belongs {
                let copy = self.attempts[a].duplicate();
                let ghost prev = attempts.deep_view();
                attempts.push(copy);
                proof {
                    assert(attempts.deep_view() =~= prev.push(self.spec_attempts()[a as int]));
                }
            }
            a = a + 1;
        }
        proof {
            assert(self.spec_attempts().subrange(0, self.attempts@.len() as int)
                =~= self.spec_attempts());
        }
        let mut decisions: Vec<DecisionRecord> = Vec::new();
        proof {
            reveal_with_fuel(Seq::<DecisionRecordView>::filter, 2);
            assert(decisions.deep_view() =~= Seq::<DecisionRecordView>::empty());
            assert(self.spec_decisions().subrange(0, 0).len() == 0);
        }
        let mut dd: usize = 0;
        while dd < self.decisions.len()
            invariant
                self.wf(),
                dd <= self.decisions@.len(),
                decisions.deep_view() == self.spec_decisions().subrange(0, dd as int).filter(
                    |dv: DecisionRecordView| self.decision_of_job(dv, job_id),
                ),
            decreases self.decisions@.len() - dd,
        {
            proof {
                reveal_with_fuel(Seq::<DecisionRecordView>::filter, 2);
                let pre2 = self.spec_decisions().subrange(0, dd as int);
                let post2 = self.spec_decisions().subrange(0, dd as int + 1);
                assert(post2.drop_last() =~= pre2);
                assert(post2.last() == self.spec_decisions()[dd as int]);
            }
            let belongs = self.task_belongs(self.decisions[dd].task_id, job_id);
            proof {
                assert(self.spec_decisions()[dd as int].task_id
                    == self.decisions@[dd as int]@.task_id);
                assert(belongs == self.decision_of_job(self.spec_decisions()[dd as int], job_id));
            }
            if belongs {
                let copy = self.decisions[dd].duplicate();
                let ghost prev = decisions.deep_view();
                decisions.push(copy);
                proof {
                    assert(decisions.deep_view() =~= prev.push(self.spec_decisions()[dd as int]));
                }
            }
            dd = dd + 1;
        }
        proof {
            assert(self.spec_decisions().subrange(0, self.decisions@.len() as int)
                =~= self.spec_decisions());
        }
        Some(JobResult { status, task_ids, attempts, decisions })
    }

    /// A borrowed view of one attempt record, if the id exists.
    pub fn get_attempt(&self, attempt_id: AttemptId) -> (r: Option<&AttemptRecord>)
        requires
            self.wf(),
        ensures
            match r {
                Some(rec) => 1 <= attempt_id@ <= self.spec_attempts().len() && rec@
                    == self.spec_attempts()[attempt_id@ as int - 1],
                None => !(1 <= attempt_id@ <= self.spec_attempts().len()),
            },
    {
        let raw = attempt_id.get();
        if raw < 1 || raw > self.attempts.len() as u128 {
            return None;
        }
        let adx: usize = (raw - 1) as usize;
        proof {
            assert(self.spec_attempts().len() == self.attempts@.len());
            assert(self.attempts@.len() <= usize::MAX) by {
                assert(self.attempts@.len() == vstd::std_specs::vec::spec_vec_len(&self.attempts));
            }
            assert(adx as int == attempt_id@ - 1);
        }
        Some(&self.attempts[adx])
    }

    /// The decision history, oldest first.
    pub fn get_decisions(&self) -> (r: &Vec<DecisionRecord>)
        ensures
            r.deep_view() == self.spec_decisions(),
    {
        proof {
            assert(self.decisions.deep_view() =~= self.spec_decisions());
        }
        &self.decisions
    }

    /// The attempt history, oldest first.
    pub fn get_all_attempts(&self) -> (r: &Vec<AttemptRecord>)
        ensures
            r.deep_view() == self.spec_attempts(),
    {
        proof {
            assert(self.attempts.deep_view() =~= self.spec_attempts());
        }
        &self.attempts
    }
}


impl InMemoryQueue {
    /// A borrowed view of one task record, if the id exists.
    pub fn get_task(&self, task_id: TaskId) -> (r: Option<&TaskRecord>)
        requires
            self.wf(),
        ensures
            match r {
                Some(rec) => self.valid_task_id(task_id) && rec@ == self.task_view(task_id),
                None => !self.valid_task_id(task_id),
            },
    {
        let raw = task_id.get();
        if raw < 1 || raw > self.tasks.len() as u128 {
            return None;
        }
        let tdx: usize = (raw - 1) as usize;
        proof {
            assert(self.spec_tasks().len() == self.tasks@.len());
            assert(self.tasks@.len() <= usize::MAX) by {
                assert(self.tasks@.len() == vstd::std_specs::vec::spec_vec_len(&self.tasks));
            }
            assert(tdx as int == task_id@ - 1);
        }
        Some(&self.tasks[tdx])
    }
}


/// For every task of a well-formed store, the attempt count never
/// exceeds the attempt budget.
pub proof fn lemma_attempts_within_budget(q: InMemoryQueue, t: TaskId)
    requires
        q.wf(),
        q.valid_task_id(t),
    ensures
        q.task_view(t).attempts <= q.task_view(t).max_attempts,
{
    let i = t@ as int - 1;
    assert(q.spec_tasks()[i].attempts <= q.spec_tasks()[i].max_attempts);
}

/// A task is in the scheduled list exactly once exactly when it waits
/// for a retry.
pub proof fn lemma_scheduled_exactly_once(q: InMemoryQueue, t: TaskId)
    requires
        q.wf(),
        q.valid_task_id(t),
    ensures
        id_count(q.sched_ids(), t) == (if q.task_view(t).state == TaskState::RetryScheduled {
            1nat
        } else {
            0nat
        }),
{
    let i = t@ as int - 1;
    assert(q.spec_tasks()[i].envelope.task_id@ == i + 1);
    lemma_task_id_injective(q.spec_tasks()[i].envelope.task_id, t);
}

/// A task is in the ready FIFO exactly once exactly when it is queued
/// with no outstanding dependencies.
pub proof fn lemma_ready_exactly_once(q: InMemoryQueue, t: TaskId)
    requires
        q.wf(),
        q.valid_task_id(t),
    ensures
        id_count(q.spec_ready(), t) == (if q.task_view(t).state == TaskState::Queued
            && !q.spec_has_deps(t) {
            1nat
        } else {
            0nat
        }),
{
    let i = t@ as int - 1;
    assert(q.spec_tasks()[i].envelope.task_id@ == i + 1);
    lemma_task_id_injective(q.spec_tasks()[i].envelope.task_id, t);
}

} // verus!
