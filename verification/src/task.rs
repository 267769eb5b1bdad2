//! Task type tags and envelopes.

use vstd::prelude::*;

use crate::ids::TaskId;

verus! {

/// A short tag naming what kind of work a task is
/// (recommended form: `namespace.domain.action.vN`).
#[derive(Debug, Hash)]
pub struct TaskType(String);

impl View for TaskType {
    type V = Seq<char>;

    closed spec fn view(&self) -> Seq<char> {
        self.0@
    }
}

impl TaskType {
    pub fn new(s: String) -> (r: Self)
        ensures
            r@ == s@,
    {
        TaskType(s)
    }

    pub fn as_str(&self) -> (r: &str)
        ensures
            r@ == self@,
    {
        self.0.as_str()
    }

    /// Copies the tag; the copy reads the same.
    pub fn duplicate(&self) -> (r: Self)
        ensures
            r@ == self@,
    {
        TaskType(self.0.clone())
    }

    /// Tag equality.
    pub fn same_as(&self, other: &TaskType) -> (r: bool)
        ensures
            r == (self@ == other@),
    {
        self.0 == other.0
    }
}

/// Mathematical image of a [`TaskEnvelope`].
pub ghost struct TaskEnvelopeView {
    pub task_id: TaskId,
    pub task_type: Seq<char>,
    pub payload: Seq<char>,
}

/// The transport triple handed to a handler: id, type tag and payload.
/// The payload is JSON text that the engine never interprets.
#[derive(Debug)]
pub struct TaskEnvelope {
    task_id: TaskId,
    task_type: TaskType,
    payload: String,
}

impl View for TaskEnvelope {
    type V = TaskEnvelopeView;

    closed spec fn view(&self) -> TaskEnvelopeView {
        TaskEnvelopeView {
            task_id: self.task_id,
            task_type: self.task_type@,
            payload: self.payload@,
        }
    }
}

impl TaskEnvelope {
    pub fn new(task_id: TaskId, task_type: TaskType, payload: String) -> (r: Self)
        ensures
            r@ == (TaskEnvelopeView { task_id, task_type: task_type@, payload: payload@ }),
    {
        TaskEnvelope { task_id, task_type, payload }
    }

    pub fn task_id(&self) -> (r: TaskId)
        ensures
            r == self@.task_id,
    {
        self.task_id
    }

    pub fn task_type(&self) -> (r: &TaskType)
        ensures
            r@ == self@.task_type,
    {
        &self.task_type
    }

    pub fn payload(&self) -> (r: &String)
        ensures
            r@ == self@.payload,
    {
        &self.payload
    }

    /// Copies the envelope; the copy reads the same.
    pub fn duplicate(&self) -> (r: Self)
        ensures
            r@ == self@,
    {
        TaskEnvelope {
            task_id: self.task_id,
            task_type: self.task_type.duplicate(),
            payload: self.payload.clone(),
        }
    }

    /// The same envelope under a different task id.
    pub fn with_task_id(self, task_id: TaskId) -> (r: Self)
        ensures
            r@ == (TaskEnvelopeView { task_id, ..self@ }),
    {
        TaskEnvelope { task_id, task_type: self.task_type, payload: self.payload }
    }
}

} // verus!
