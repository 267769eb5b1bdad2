//! Attempt and decision records: the append-only execution history.

use vstd::prelude::*;

use crate::ids::{AttemptId, TaskId};
use crate::outcome::{clone_artifacts, Artifact, ArtifactView, Outcome, OutcomeKind, OutcomeView};

verus! {

/// Mathematical image of an [`AttemptRecord`].
pub ghost struct AttemptRecordView {
    pub attempt_id: AttemptId,
    pub task_id: TaskId,
    pub action: Seq<char>,
    pub observation: Seq<ArtifactView>,
    pub outcome: OutcomeView,
    pub started_at: u64,
    pub completed_at: u64,
}

/// One handler invocation: what was done, what was observed, and how it
/// ended. Append-only.
#[derive(Debug)]
pub struct AttemptRecord {
    pub attempt_id: AttemptId,
    pub task_id: TaskId,
    /// Snapshot of the payload that was handed to the handler, as JSON text.
    pub action: String,
    /// Artifacts observed during the attempt.
    pub observation: Vec<Artifact>,
    /// The handler's reported result.
    pub outcome: Outcome,
    /// When the attempt started, epoch milliseconds.
    pub started_at: u64,
    /// When the attempt completed, epoch milliseconds.
    pub completed_at: u64,
}

impl View for AttemptRecord {
    type V = AttemptRecordView;

    open spec fn view(&self) -> AttemptRecordView {
        AttemptRecordView {
            attempt_id: self.attempt_id,
            task_id: self.task_id,
            action: self.action@,
            observation: self.observation.deep_view(),
            outcome: self.outcome@,
            started_at: self.started_at,
            completed_at: self.completed_at,
        }
    }
}

impl DeepView for AttemptRecord {
    type V = AttemptRecordView;

    open spec fn deep_view(&self) -> AttemptRecordView {
        self.view()
    }
}

impl AttemptRecord {
    /// A record of one finished attempt; both timestamps are taken at
    /// recording time.
    pub fn new(
        attempt_id: AttemptId,
        task_id: TaskId,
        action: String,
        observation: Vec<Artifact>,
        outcome: Outcome,
        now_ms: u64,
    ) -> (r: Self)
        ensures
            r@ == (AttemptRecordView {
                attempt_id,
                task_id,
                action: action@,
                observation: observation.deep_view(),
                outcome: outcome@,
                started_at: now_ms,
                completed_at: now_ms,
            }),
    {
        AttemptRecord {
            attempt_id,
            task_id,
            action,
            observation,
            outcome,
            started_at: now_ms,
            completed_at: now_ms,
        }
    }

    /// Copies the record; the copy reads the same.
    pub fn duplicate(&self) -> (r: Self)
        ensures
            r@ == self@,
    {
        AttemptRecord {
            attempt_id: self.attempt_id,
            task_id: self.task_id,
            action: self.action.clone(),
            observation: clone_artifacts(&self.observation),
            outcome: self.outcome.duplicate(),
            started_at: self.started_at,
            completed_at: self.completed_at,
        }
    }
}

/// Mathematical image of a [`DecisionTrigger`].
pub ghost struct DecisionTriggerView {
    pub attempt_id: AttemptId,
    pub outcome_kind: OutcomeKind,
    pub attempts: u32,
    pub max_attempts: u32,
    pub error: Option<Seq<char>>,
}

/// What was observed when a decision was made: the attempt it reacted
/// to, the outcome kind, and the attempt budget at that moment.
#[derive(Debug)]
pub struct DecisionTrigger {
    pub attempt_id: AttemptId,
    pub outcome_kind: OutcomeKind,
    pub attempts: u32,
    pub max_attempts: u32,
    pub error: Option<String>,
}

impl View for DecisionTrigger {
    type V = DecisionTriggerView;

    open spec fn view(&self) -> DecisionTriggerView {
        DecisionTriggerView {
            attempt_id: self.attempt_id,
            outcome_kind: self.outcome_kind,
            attempts: self.attempts,
            max_attempts: self.max_attempts,
            error: self.error.deep_view(),
        }
    }
}

/// Mathematical image of a [`DecisionContext`].
pub ghost enum DecisionContextView {
    Retry { delay_ms: u64, next_run_at_ms: u64 },
    Decompose { child_ids: Seq<TaskId> },
}

/// Structured context attached to a decision.
#[derive(Debug)]
pub enum DecisionContext {
    /// A retry was scheduled with this delay, to run at this time.
    Retry { delay_ms: u64, next_run_at_ms: u64 },
    /// The task decomposed into these children.
    Decompose { child_ids: Vec<TaskId> },
}

impl View for DecisionContext {
    type V = DecisionContextView;

    open spec fn view(&self) -> DecisionContextView {
        match self {
            DecisionContext::Retry { delay_ms, next_run_at_ms } => DecisionContextView::Retry {
                delay_ms: *delay_ms,
                next_run_at_ms: *next_run_at_ms,
            },
            DecisionContext::Decompose { child_ids } => DecisionContextView::Decompose {
                child_ids: child_ids@,
            },
        }
    }
}

impl DeepView for DecisionContext {
    type V = DecisionContextView;

    open spec fn deep_view(&self) -> DecisionContextView {
        self.view()
    }
}

/// Mathematical image of a [`DecisionRecord`].
pub ghost struct DecisionRecordView {
    pub task_id: TaskId,
    pub trigger: DecisionTriggerView,
    pub policy: Seq<char>,
    pub decision: Seq<char>,
    pub context: Option<DecisionContextView>,
    pub decided_at: u64,
}

/// One decision entry of the audit trail: the trigger, the policy in
/// force and the chosen action. Append-only.
#[derive(Debug)]
pub struct DecisionRecord {
    pub task_id: TaskId,
    /// What was observed that triggered this decision.
    pub trigger: DecisionTrigger,
    /// The policy that was applied, such as `retry_policy`.
    pub policy: String,
    /// The action that was decided, such as `schedule_retry`.
    pub decision: String,
    /// Structured context, where the decision carries parameters.
    pub context: Option<DecisionContext>,
    /// When the decision was made, epoch milliseconds.
    pub decided_at: u64,
}

impl View for DecisionRecord {
    type V = DecisionRecordView;

    open spec fn view(&self) -> DecisionRecordView {
        DecisionRecordView {
            task_id: self.task_id,
            trigger: self.trigger@,
            policy: self.policy@,
            decision: self.decision@,
            context: self.context.deep_view(),
            decided_at: self.decided_at,
        }
    }
}

impl DeepView for DecisionRecord {
    type V = DecisionRecordView;

    open spec fn deep_view(&self) -> DecisionRecordView {
        self.view()
    }
}

impl DecisionRecord {
    pub fn new(
        task_id: TaskId,
        trigger: DecisionTrigger,
        policy: String,
        decision: String,
        context: Option<DecisionContext>,
        now_ms: u64,
    ) -> (r: Self)
        ensures
            r@ == (DecisionRecordView {
                task_id,
                trigger: trigger@,
                policy: policy@,
                decision: decision@,
                context: context.deep_view(),
                decided_at: now_ms,
            }),
    {
        DecisionRecord { task_id, trigger, policy, decision, context, decided_at: now_ms }
    }

    /// Copies the record; the copy reads the same.
    pub fn duplicate(&self) -> (r: Self)
        ensures
            r@ == self@,
    {
        DecisionRecord {
            task_id: self.task_id,
            trigger: DecisionTrigger {
                attempt_id: self.trigger.attempt_id,
                outcome_kind: self.trigger.outcome_kind,
                attempts: self.trigger.attempts,
                max_attempts: self.trigger.max_attempts,
                error: match &self.trigger.error {
                    Some(e) => Some(e.clone()),
                    None => None,
                },
            },
            policy: self.policy.clone(),
            decision: self.decision.clone(),
            context: match &self.context {
                Some(DecisionContext::Retry { delay_ms, next_run_at_ms }) => Some(
                    DecisionContext::Retry { delay_ms: *delay_ms, next_run_at_ms: *next_run_at_ms },
                ),
                Some(DecisionContext::Decompose { child_ids }) => {
                    let mut ids: Vec<TaskId> = Vec::new();
                    let mut i: usize = 0;
                    while i < child_ids.len()
                        invariant
                            i <= child_ids.len(),
                            ids@ == child_ids@.subrange(0, i as int),
                        decreases child_ids.len() - i,
                    {
                        ids.push(child_ids[i]);
                        proof {
                            assert(ids@ =~= child_ids@.subrange(0, i as int + 1));
                        }
                        i = i + 1;
                    }
                    proof {
                        assert(ids@ =~= child_ids@);
                    }
                    Some(DecisionContext::Decompose { child_ids: ids })
                },
                None => None,
            },
            decided_at: self.decided_at,
        }
    }
}

} // verus!
