//! Decisions: what the engine should do next with a task.

use vstd::prelude::*;

use crate::job_spec::{clone_task_specs, TaskSpec, TaskSpecView};
use crate::outcome::Outcome;
use crate::record::TaskRecord;
use crate::retry::{backoff_ms, RetryPolicy};
use crate::text::{dec_seq, u128_dec};

verus! {

/// Mathematical image of a [`Decision`].
pub ghost enum DecisionView {
    Retry { delay_ms: u64, reason: Seq<char> },
    MarkDead { reason: Seq<char> },
    Decompose { child_specs: Seq<TaskSpecView>, reason: Seq<char> },
}

/// The decider's verdict on a finished attempt.
#[derive(Debug)]
pub enum Decision {
    /// Run the task again after this delay.
    Retry { delay_ms: u64, reason: String },
    /// Give the task up for good.
    MarkDead { reason: String },
    /// End the task and spawn these children in its place.
    Decompose { child_specs: Vec<TaskSpec>, reason: String },
}

impl View for Decision {
    type V = DecisionView;

    open spec fn view(&self) -> DecisionView {
        match self {
            Decision::Retry { delay_ms, reason } => DecisionView::Retry {
                delay_ms: *delay_ms,
                reason: reason@,
            },
            Decision::MarkDead { reason } => DecisionView::MarkDead { reason: reason@ },
            Decision::Decompose { child_specs, reason } => DecisionView::Decompose {
                child_specs: child_specs.deep_view(),
                reason: reason@,
            },
        }
    }
}

/// The reason recorded when a task's budget is spent.
pub open spec fn mark_dead_reason(attempts: u32, max_attempts: u32) -> Seq<char> {
    "max attempts reached: "@ + dec_seq(attempts as nat) + "/"@ + dec_seq(max_attempts as nat)
}

/// The reason recorded when a retry is scheduled.
pub open spec fn retry_reason(next_attempt: u32, max_attempts: u32, delay_ms: u64) -> Seq<char> {
    "retry "@ + dec_seq(next_attempt as nat) + "/"@ + dec_seq(max_attempts as nat) + " after "@
        + dec_seq(delay_ms as nat) + "ms"@
}

/// The reason recorded when a handler proposes child tasks.
pub open spec fn decompose_reason() -> Seq<char> {
    "handler proposed child tasks"@
}

/// Builds the budget-spent reason text.
fn mark_dead_reason_text(attempts: u32, max_attempts: u32) -> (r: String)
    ensures
        r@ == mark_dead_reason(attempts, max_attempts),
{
    String::from_str("max attempts reached: ").concat(u128_dec(attempts as u128).as_str()).concat(
        "/",
    ).concat(u128_dec(max_attempts as u128).as_str())
}

/// Builds the retry reason text.
fn retry_reason_text(next_attempt: u32, max_attempts: u32, delay_ms: u64) -> (r: String)
    ensures
        r@ == retry_reason(next_attempt, max_attempts, delay_ms),
{
    String::from_str("retry ").concat(u128_dec(next_attempt as u128).as_str()).concat("/").concat(
        u128_dec(max_attempts as u128).as_str(),
    ).concat(" after ").concat(u128_dec(delay_ms as u128).as_str()).concat("ms")
}

/// A decider maps a task record and the outcome of its latest attempt to
/// the next decision. Deciders are pure: they mutate nothing.
pub trait Decider {
    fn decide(&self, task: &TaskRecord, outcome: &Outcome) -> (d: Decision);
}

/// What [`DefaultDecider::decide`] returns: decompose when the handler
/// proposed children; otherwise mark dead once the budget is spent, else
/// retry after the policy's backoff delay.
pub open spec fn default_decision(
    policy: RetryPolicy,
    attempts: u32,
    max_attempts: u32,
    outcome_children: Option<Seq<TaskSpecView>>,
) -> DecisionView {
    match outcome_children {
        Some(cs) => DecisionView::Decompose { child_specs: cs, reason: decompose_reason() },
        None => {
            if attempts >= max_attempts {
                DecisionView::MarkDead { reason: mark_dead_reason(attempts, max_attempts) }
            } else {
                let delay = backoff_ms(
                    policy.base_delay_ms as nat,
                    policy.multiplier_milli as nat,
                    if attempts == 0 { 0nat } else { (attempts - 1) as nat },
                );
                DecisionView::Retry {
                    delay_ms: delay as u64,
                    reason: retry_reason((attempts + 1) as u32, max_attempts, delay as u64),
                }
            }
        },
    }
}

/// The stock decider: attempt-budget retry with exponential backoff,
/// decomposition when the handler proposes children.
#[derive(Debug, Clone, Copy, PartialEq, Eq, Structural)]
pub struct DefaultDecider {
    /// The policy that prices each retry delay.
    pub retry_policy: RetryPolicy,
}

impl DefaultDecider {
    /// A decider over the given retry policy.
    pub fn new(retry_policy: RetryPolicy) -> (r: Self)
        ensures
            r.retry_policy == retry_policy,
    {
        DefaultDecider { retry_policy }
    }

    /// A decider over the stock policy.
    pub fn default_v1() -> (r: Self)
        ensures
            r.retry_policy == (RetryPolicy { base_delay_ms: 2000u64, multiplier_milli: 2000u64 }),
    {
        Self::new(RetryPolicy::default_v1())
    }
}

impl Decider for DefaultDecider {
    fn decide(&self, task: &TaskRecord, outcome: &Outcome) -> (d: Decision)
        ensures
            d@ == default_decision(
                self.retry_policy,
                task.attempts,
                task.max_attempts,
                outcome@.child_tasks,
            ),
    {
        match &outcome.child_tasks {
            Some(cs) => Decision::Decompose {
                child_specs: clone_task_specs(cs),
                reason: String::from_str("handler proposed child tasks"),
            },
            None => {
                if task.attempts >= task.max_attempts {
                    Decision::MarkDead {
                        reason: mark_dead_reason_text(task.attempts, task.max_attempts),
                    }
                } else {
                    let delay = self.retry_policy.next_delay(task.attempts);
                    Decision::Retry {
                        delay_ms: delay,
                        reason: retry_reason_text(task.attempts + 1, task.max_attempts, delay),
                    }
                }
            },
        }
    }
}

} // verus!
