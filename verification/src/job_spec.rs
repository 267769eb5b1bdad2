//! Input specs: what a caller submits (job, tasks, budget).

use vstd::prelude::*;

verus! {

/// Default number of attempts allowed per task.
pub const DEFAULT_MAX_ATTEMPTS: u32 = 5;

/// Default bound on no-progress steps.
pub const DEFAULT_MAX_NO_PROGRESS_STEPS: u32 = 50;

/// Execution budgets and stop conditions for a whole job.
#[derive(Debug, Clone, Copy, PartialEq, Eq, Structural)]
pub struct Budget {
    /// Maximum attempts per task (including retries).
    pub max_attempts_per_task: u32,
    /// Optional maximum attempts across the whole job.
    pub max_total_attempts: Option<u32>,
    /// Optional job-level deadline, in milliseconds from submission.
    pub deadline_ms: Option<u64>,
    /// Optional stuck detection: stop after this many steps without progress.
    pub max_no_progress_steps: Option<u32>,
}

impl Default for Budget {
    /// The default budget: five attempts per task, fifty no-progress steps,
    /// no total-attempt cap and no deadline.
    fn default() -> (r: Self)
        ensures
            r == Budget::spec_default(),
    {
        Budget {
            max_attempts_per_task: DEFAULT_MAX_ATTEMPTS,
            max_total_attempts: None,
            deadline_ms: None,
            max_no_progress_steps: Some(DEFAULT_MAX_NO_PROGRESS_STEPS),
        }
    }
}

impl Budget {
    /// The default budget as a value.
    pub open spec fn spec_default() -> Budget {
        Budget {
            max_attempts_per_task: DEFAULT_MAX_ATTEMPTS,
            max_total_attempts: None,
            deadline_ms: None,
            max_no_progress_steps: Some(DEFAULT_MAX_NO_PROGRESS_STEPS),
        }
    }
}

/// Mathematical image of a [`TaskSpec`].
pub ghost struct TaskSpecView {
    pub title: Option<Seq<char>>,
    pub intent: Option<Seq<char>>,
    pub goal: Option<Seq<char>>,
    pub constraints: Option<Seq<char>>,
    pub seed_action_hint: Option<Seq<char>>,
    pub dependencies: Seq<usize>,
}

/// One trackable unit inside a job.
///
/// The open-ended fields (`goal`, `constraints`, `seed_action_hint`) carry
/// JSON text that the engine never interprets; handlers decode it.
#[derive(Debug)]
pub struct TaskSpec {
    /// Human-readable title; also names the task type of the spawned task.
    pub title: Option<String>,
    /// Human-readable intent.
    pub intent: Option<String>,
    /// Goal or definition of done, as JSON text.
    pub goal: Option<String>,
    /// Task-specific constraints, as JSON text.
    pub constraints: Option<String>,
    /// Initial hint for how to execute the task, as JSON text.
    pub seed_action_hint: Option<String>,
    /// Indices (within the submitted task list) of tasks this one waits for.
    pub dependencies: Vec<usize>,
}

impl View for TaskSpec {
    type V = TaskSpecView;

    open spec fn view(&self) -> TaskSpecView {
        TaskSpecView {
            title: self.title.deep_view(),
            intent: self.intent.deep_view(),
            goal: self.goal.deep_view(),
            constraints: self.constraints.deep_view(),
            seed_action_hint: self.seed_action_hint.deep_view(),
            dependencies: self.dependencies.deep_view(),
        }
    }
}

impl DeepView for TaskSpec {
    type V = TaskSpecView;

    open spec fn deep_view(&self) -> TaskSpecView {
        self.view()
    }
}

/// Copies an optional string; the copy reads the same.
fn clone_opt_string(o: &Option<String>) -> (r: Option<String>)
    ensures
        r.deep_view() == o.deep_view(),
{
    match o {
        Some(s) => Some(s.clone()),
        None => None,
    }
}

/// Copies a list of indices; the copy reads the same.
fn clone_indices(v: &Vec<usize>) -> (r: Vec<usize>)
    ensures
        r@ == v@,
{
    let mut r: Vec<usize> = Vec::new();
    let mut i: usize = 0;
    while i < v.len()
        invariant
            i <= v.len(),
            r@ == v@.subrange(0, i as int),
        decreases v.len() - i,
    {
        r.push(v[i]);
        i = i + 1;
    }
    proof {
        assert(r@ =~= v@);
    }
    r
}

impl TaskSpec {
    /// Convenience constructor: a titled task with nothing else set.
    pub fn new(title: String) -> (r: Self)
        ensures
            r@.title == Some(title@),
            r@.intent is None,
            r@.goal is None,
            r@.constraints is None,
            r@.seed_action_hint is None,
            r@.dependencies == Seq::<usize>::empty(),
    {
        let r = TaskSpec {
            title: Some(title),
            intent: None,
            goal: None,
            constraints: None,
            seed_action_hint: None,
            dependencies: Vec::new(),
        };
        proof {
            assert(r@.dependencies =~= Seq::<usize>::empty());
        }
        r
    }

    /// Copies the spec; the copy reads the same.
    pub fn duplicate(&self) -> (r: Self)
        ensures
            r@ == self@,
    {
        TaskSpec {
            title: clone_opt_string(&self.title),
            intent: clone_opt_string(&self.intent),
            goal: clone_opt_string(&self.goal),
            constraints: clone_opt_string(&self.constraints),
            seed_action_hint: clone_opt_string(&self.seed_action_hint),
            dependencies: clone_indices(&self.dependencies),
        }
    }
}

/// Copies a list of task specs; the copy reads the same.
pub fn clone_task_specs(v: &Vec<TaskSpec>) -> (r: Vec<TaskSpec>)
    ensures
        r.deep_view() == v.deep_view(),
{
    let mut r: Vec<TaskSpec> = Vec::new();
    let mut i: usize = 0;
    while i < v.len()
        invariant
            i <= v.len(),
            r@.len() == i,
            forall|j: int| 0 <= j < i ==> r@[j].deep_view() == v@[j].deep_view(),
        decreases v.len() - i,
    {
        let x = v[i].duplicate();
        r.push(x);
        i = i + 1;
    }
    proof {
        assert forall|j: int| 0 <= j < r.deep_view().len() implies r.deep_view()[j]
            == v.deep_view()[j] by {
            assert(r@[j].deep_view() == v@[j].deep_view());
        }
        assert(r.deep_view() =~= v.deep_view());
    }
    r
}

/// Mathematical image of a [`JobSpec`].
pub ghost struct JobSpecView {
    pub tasks: Seq<TaskSpecView>,
    pub budget: Budget,
}

/// A job: the unit of submission, cancellation, status and result.
#[derive(Debug)]
pub struct JobSpec {
    /// The member tasks, in submission order.
    pub tasks: Vec<TaskSpec>,
    /// The budget that applies to the whole job.
    pub budget: Budget,
}

impl View for JobSpec {
    type V = JobSpecView;

    open spec fn view(&self) -> JobSpecView {
        JobSpecView { tasks: self.tasks.deep_view(), budget: self.budget }
    }
}

impl JobSpec {
    /// A job with the given tasks and the default budget.
    pub fn new(tasks: Vec<TaskSpec>) -> (r: Self)
        ensures
            r@.tasks == tasks.deep_view(),
            r@.budget == Budget::spec_default(),
    {
        JobSpec { tasks, budget: Budget::default() }
    }

    /// Copies the spec; the copy reads the same.
    pub fn duplicate(&self) -> (r: Self)
        ensures
            r@ == self@,
    {
        JobSpec { tasks: clone_task_specs(&self.tasks), budget: self.budget }
    }
}

} // verus!
