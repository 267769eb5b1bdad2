//! Weaver: a durable, in-process task orchestration engine.
//!
//! Jobs are made of tasks; each task moves through a small state machine
//! (queued, running, succeeded, retry-scheduled, dead, decomposed) while the
//! engine records a complete audit trail of attempts and decisions.

pub mod ids;
pub mod state;
pub mod job_spec;
pub mod outcome;
pub mod task;
pub mod record;
pub mod attempt;
pub mod job;
pub mod retry;
pub mod decision;
pub mod graph;
pub mod error;
pub mod observability;
pub mod queue;
pub mod clock;
pub mod id_generator;
pub mod dispatch;
pub mod delivery;
pub mod text;
