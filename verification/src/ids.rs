//! Strongly-typed identifiers.
//!
//! Newtype ids keep a `TaskId` from being passed where a `JobId` is expected.
//! The raw value is 128 bits wide so that ULID-style time-ordered ids fit.

use vstd::prelude::*;

use crate::text::{dec_seq, u128_dec};

verus! {

/// Identifier of a job (the unit of submission, status, cancel and result).
#[derive(Debug, Clone, Copy, PartialEq, Eq, Hash, Structural)]
pub struct JobId(u128);

impl View for JobId {
    type V = u128;

    closed spec fn view(&self) -> u128 {
        self.0
    }
}

impl JobId {
    pub fn new(raw: u128) -> (r: Self)
        ensures
            r@ == raw,
    {
        JobId(raw)
    }

    pub fn get(self) -> (r: u128)
        ensures
            r == self@,
    {
        self.0
    }

    /// Human-readable label, stable across runs.
    pub fn to_string(&self) -> (r: String)
        ensures
            r@ == "job-"@ + dec_seq(self@ as nat),
    {
        String::from_str("job-").concat(u128_dec(self.0).as_str())
    }
}

/// Identifier of a task (a trackable unit within a job).
#[derive(Debug, Clone, Copy, PartialEq, Eq, Hash, Structural)]
pub struct TaskId(u128);

impl View for TaskId {
    type V = u128;

    closed spec fn view(&self) -> u128 {
        self.0
    }
}

impl TaskId {
    pub fn new(raw: u128) -> (r: Self)
        ensures
            r@ == raw,
    {
        TaskId(raw)
    }

    pub fn get(self) -> (r: u128)
        ensures
            r == self@,
    {
        self.0
    }

    /// Human-readable label, stable across runs.
    pub fn to_string(&self) -> (r: String)
        ensures
            r@ == "task-"@ + dec_seq(self@ as nat),
    {
        String::from_str("task-").concat(u128_dec(self.0).as_str())
    }
}

/// Identifier of an attempt (one execution try of a task).
#[derive(Debug, Clone, Copy, PartialEq, Eq, Hash, Structural)]
pub struct AttemptId(u128);

impl View for AttemptId {
    type V = u128;

    closed spec fn view(&self) -> u128 {
        self.0
    }
}

impl AttemptId {
    pub fn new(raw: u128) -> (r: Self)
        ensures
            r@ == raw,
    {
        AttemptId(raw)
    }

    pub fn get(self) -> (r: u128)
        ensures
            r == self@,
    {
        self.0
    }

    /// Human-readable label, stable across runs.
    pub fn to_string(&self) -> (r: String)
        ensures
            r@ == "attempt-"@ + dec_seq(self@ as nat),
    {
        String::from_str("attempt-").concat(u128_dec(self.0).as_str())
    }
}

/// The task id with this raw value.
pub closed spec fn task_id_from(raw: u128) -> TaskId {
    TaskId(raw)
}

/// `task_id_from` yields the id with that raw value.
pub proof fn lemma_task_id_from(raw: u128)
    ensures
        task_id_from(raw)@ == raw,
{
}

/// Task ids with the same raw value are the same id.
pub proof fn lemma_task_id_injective(a: TaskId, b: TaskId)
    requires
        a@ == b@,
    ensures
        a == b,
{
}

/// Job ids with the same raw value are the same id.
pub proof fn lemma_job_id_injective(a: JobId, b: JobId)
    requires
        a@ == b@,
    ensures
        a == b,
{
}

/// Attempt ids with the same raw value are the same id.
pub proof fn lemma_attempt_id_injective(a: AttemptId, b: AttemptId)
    requires
        a@ == b@,
    ensures
        a == b,
{
}

} // verus!
