use weaver::job_spec::{Budget, JobSpec, TaskSpec};

#[test]
fn budget_default_is_reasonable() {
    let b = Budget::default();
    assert_eq!(b.max_attempts_per_task, 5);
    assert_eq!(b.max_no_progress_steps, Some(50));
}

#[test]
fn job_spec_defaults_to_stock_budget() {
    let job = JobSpec::new(vec![TaskSpec::new("hello".to_string())]);
    assert_eq!(job.tasks.len(), 1);
    assert_eq!(job.tasks[0].title.as_deref(), Some("hello"));
    assert_eq!(job.budget.max_attempts_per_task, 5);
    assert_eq!(job.budget.deadline_ms, None);
}
