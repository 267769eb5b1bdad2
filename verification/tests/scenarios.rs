use weaver::decision::{Decider, DefaultDecider};
use weaver::ids::{JobId, TaskId};
use weaver::job_spec::{JobSpec, TaskSpec};
use weaver::outcome::Outcome;
use weaver::queue::{InMemoryQueue, Lease, LeaseOutcome};
use weaver::retry::RetryPolicy;
use weaver::state::JobState;
use weaver::task::{TaskEnvelope, TaskType};
use weaver::error::WeaverError;

fn lease_now(queue: &mut InMemoryQueue, now: u64) -> Lease {
    match queue.try_lease(now) {
        LeaseOutcome::Leased(lease) => lease,
        LeaseOutcome::Idle { .. } => panic!("expected a leasable task"),
    }
}

/// Drives one leased attempt the way a worker would: the handler's
/// outcome goes through the decider, then back into the queue.
fn finish_with(queue: &mut InMemoryQueue, decider: &DefaultDecider, lease: Lease, outcome: Outcome, now: u64) {
    if outcome.kind == weaver::outcome::OutcomeKind::Success && outcome.child_tasks.is_none() {
        queue.ack(lease, now).unwrap();
        return;
    }
    let decision = {
        let task = queue.get_task(lease.task_id()).expect("leased task exists");
        decider.decide(task, &outcome)
    };
    queue.complete(lease, outcome, decision, now).unwrap();
}

#[test]
fn two_then_success_retry() {
    // handler fails twice, succeeds on the third attempt
    let policy = RetryPolicy { base_delay_ms: 50, multiplier_milli: 1000 };
    let mut queue = InMemoryQueue::new(policy);
    let decider = DefaultDecider::new(policy);
    let env = TaskEnvelope::new(
        TaskId::new(0),
        TaskType::new("flaky".to_string()),
        "{}".to_string(),
    );
    queue.enqueue(env, 0);

    let mut now: u64 = 0;
    let mut handler_calls = 0;
    loop {
        let lease = match queue.try_lease(now) {
            LeaseOutcome::Leased(lease) => lease,
            LeaseOutcome::Idle { next_run_at_ms } => {
                match next_run_at_ms {
                    Some(t) => {
                        now = t;
                        continue;
                    }
                    None => break,
                }
            }
        };
        handler_calls += 1;
        let outcome = if handler_calls <= 2 {
            Outcome::failure("flaky failure".to_string())
        } else {
            Outcome::success()
        };
        finish_with(&mut queue, &decider, lease, outcome, now);
        if handler_calls >= 3 {
            break;
        }
    }

    let counts = queue.counts_by_state();
    assert_eq!(counts.succeeded, 1);
    assert_eq!(counts.dead, 0);
    assert_eq!(queue.get_all_attempts().len(), 3);
    let retries = queue
        .get_decisions()
        .iter()
        .filter(|d| d.decision == "schedule_retry")
        .count();
    assert_eq!(retries, 2);
}

#[test]
fn exhaustion() {
    // the handler always fails; the budget is five attempts
    let policy = RetryPolicy { base_delay_ms: 10, multiplier_milli: 1000 };
    let mut queue = InMemoryQueue::new(policy);
    let decider = DefaultDecider::new(policy);
    let mut spec = JobSpec::new(vec![TaskSpec::new("always_fails".to_string())]);
    spec.budget.max_attempts_per_task = 5;
    queue.submit_job(spec, 0).unwrap();

    let mut now: u64 = 0;
    loop {
        let lease = match queue.try_lease(now) {
            LeaseOutcome::Leased(lease) => lease,
            LeaseOutcome::Idle { next_run_at_ms } => match next_run_at_ms {
                Some(t) => {
                    now = t;
                    continue;
                }
                None => break,
            },
        };
        finish_with(
            &mut queue,
            &decider,
            lease,
            Outcome::failure("still broken".to_string()),
            now,
        );
    }

    let counts = queue.counts_by_state();
    assert_eq!(counts.dead, 1);
    assert_eq!(counts.succeeded, 0);
    assert_eq!(queue.get_all_attempts().len(), 5);
    let decisions = queue.get_decisions();
    assert_eq!(decisions.last().unwrap().decision, "mark_dead");
}

#[test]
fn decomposition() {
    let policy = RetryPolicy::default_v1();
    let mut queue = InMemoryQueue::new(policy);
    let decider = DefaultDecider::new(policy);
    let spec = JobSpec::new(vec![TaskSpec::new("parent".to_string())]);
    queue.submit_job(spec, 0).unwrap();

    // the parent succeeds while proposing two children
    let parent_lease = lease_now(&mut queue, 1);
    let mut child_one = TaskSpec::new("decomposing".to_string());
    child_one.seed_action_hint = Some("{\"index\":1}".to_string());
    let mut child_two = TaskSpec::new("decomposing".to_string());
    child_two.seed_action_hint = Some("{\"index\":2}".to_string());
    let outcome = Outcome::success().with_decompose_hint(vec![child_one, child_two]);
    finish_with(&mut queue, &decider, parent_lease, outcome, 2);

    // both children run and succeed on their first attempt
    let first = lease_now(&mut queue, 3);
    assert_eq!(first.envelope().task_type().as_str(), "decomposing");
    assert_eq!(first.envelope().payload(), "{\"index\":1}");
    queue.ack(first, 4).unwrap();
    let second = lease_now(&mut queue, 5);
    assert_eq!(second.envelope().payload(), "{\"index\":2}");
    queue.ack(second, 6).unwrap();

    let counts = queue.counts_by_state();
    assert_eq!(counts.decomposed, 1);
    assert_eq!(counts.succeeded, 2);
    let decomposes = queue
        .get_decisions()
        .iter()
        .filter(|d| d.decision == "decompose")
        .count();
    assert_eq!(decomposes, 1);
}

#[test]
fn dependency_gating() {
    let mut queue = InMemoryQueue::new(RetryPolicy::default_v1());
    let a = TaskSpec::new("a".to_string());
    let b = TaskSpec::new("b".to_string());
    let mut c = TaskSpec::new("c".to_string());
    c.dependencies = vec![0, 1]; // C waits for A and B
    queue.submit_job(JobSpec::new(vec![a, b, c]), 0).unwrap();

    // only A and B are initially ready, in submission order
    let lease_a = lease_now(&mut queue, 1);
    assert_eq!(lease_a.envelope().task_type().as_str(), "a");
    queue.ack(lease_a, 2).unwrap();

    // C still waits for B: the only ready task is B
    let lease_b = lease_now(&mut queue, 3);
    assert_eq!(lease_b.envelope().task_type().as_str(), "b");
    match queue.try_lease(4) {
        LeaseOutcome::Idle { .. } => {}
        LeaseOutcome::Leased(_) => panic!("C must not be leasable yet"),
    }
    queue.ack(lease_b, 5).unwrap();

    // with both done, C becomes ready
    let lease_c = lease_now(&mut queue, 6);
    assert_eq!(lease_c.envelope().task_type().as_str(), "c");
}

#[test]
fn deadline_stuck() {
    let mut queue = InMemoryQueue::new(RetryPolicy::default_v1());
    let mut spec = JobSpec::new(vec![TaskSpec::new("slow".to_string())]);
    spec.budget.deadline_ms = Some(1);
    let job_id = queue.submit_job(spec, 0).unwrap();

    // after the deadline elapses the next lease attempt marks the job
    // stuck and passes the task over
    match queue.try_lease(10) {
        LeaseOutcome::Idle { .. } => {}
        LeaseOutcome::Leased(_) => panic!("an expired job's task must not be leased"),
    }
    let status = queue.get_status(job_id).unwrap();
    assert_eq!(status.state, JobState::Stuck);
}

#[test]
fn cycle_rejection() {
    let mut queue = InMemoryQueue::new(RetryPolicy::default_v1());
    let mut a = TaskSpec::new("a".to_string());
    a.dependencies = vec![1];
    let mut b = TaskSpec::new("b".to_string());
    b.dependencies = vec![0];
    let result = queue.submit_job(JobSpec::new(vec![a, b]), 0);
    match result {
        Err(WeaverError::DependencyCycle(path)) => {
            assert!(path.len() >= 2);
            assert_eq!(path.first(), path.last());
        }
        _ => panic!("a cyclic submission must be rejected with DependencyCycle"),
    }
    // nothing was created
    let counts = queue.counts_by_state();
    assert_eq!(counts.queued, 0);
    assert!(queue.get_status(JobId::new(1)).is_none());
}

#[test]
fn empty_job_reads_running() {
    let mut queue = InMemoryQueue::new(RetryPolicy::default_v1());
    let job_id = queue.submit_job(JobSpec::new(vec![]), 7).unwrap();
    // an empty member list aggregates as running, by definition
    let status = queue.get_status(job_id).unwrap();
    assert_eq!(status.state, JobState::Running);
    assert_eq!(status.total_tasks, 0);
    assert_eq!(status.created_at_ms, 7);
}

#[test]
fn cancel_completed_job_is_noop() {
    let mut queue = InMemoryQueue::new(RetryPolicy::default_v1());
    let job_id = queue
        .submit_job(JobSpec::new(vec![TaskSpec::new("only".to_string())]), 0)
        .unwrap();
    let lease = lease_now(&mut queue, 1);
    queue.ack(lease, 2).unwrap();
    assert_eq!(queue.get_status(job_id).unwrap().state, JobState::Completed);

    queue.cancel_job(job_id, 3).unwrap();
    assert_eq!(queue.get_status(job_id).unwrap().state, JobState::Completed);
}

#[test]
fn cancelled_job_tasks_are_never_leased() {
    let mut queue = InMemoryQueue::new(RetryPolicy::default_v1());
    let job_id = queue
        .submit_job(JobSpec::new(vec![TaskSpec::new("late".to_string())]), 0)
        .unwrap();
    queue.cancel_job(job_id, 1).unwrap();
    match queue.try_lease(2) {
        LeaseOutcome::Idle { .. } => {}
        LeaseOutcome::Leased(_) => panic!("a cancelled job's task must not be leased"),
    }
    assert_eq!(queue.get_status(job_id).unwrap().state, JobState::Cancelled);
}

#[test]
fn get_result_collects_member_history() {
    let mut queue = InMemoryQueue::new(RetryPolicy::default_v1());
    let job_id = queue
        .submit_job(JobSpec::new(vec![TaskSpec::new("audited".to_string())]), 0)
        .unwrap();
    let lease = lease_now(&mut queue, 1);
    let task_id = lease.task_id();
    queue.ack(lease, 2).unwrap();

    let result = queue.get_result(job_id).unwrap();
    assert_eq!(result.status.state, JobState::Completed);
    assert_eq!(result.task_ids, vec![task_id]);
    assert_eq!(result.attempts.len(), 1);
    assert_eq!(result.attempts[0].task_id, task_id);
    assert!(result.decisions.is_empty());
}

#[test]
fn complete_refuses_retry_past_budget() {
    let policy = RetryPolicy { base_delay_ms: 1, multiplier_milli: 1000 };
    let mut queue = InMemoryQueue::new(policy);
    let mut spec = JobSpec::new(vec![TaskSpec::new("tight".to_string())]);
    spec.budget.max_attempts_per_task = 1;
    queue.submit_job(spec, 0).unwrap();
    let lease = lease_now(&mut queue, 1);
    let decision = weaver::decision::Decision::Retry {
        delay_ms: 5,
        reason: "one more".to_string(),
    };
    let err = queue
        .complete(lease, Outcome::failure("nope".to_string()), decision, 2)
        .unwrap_err();
    assert!(matches!(err, WeaverError::RetryBudgetExhausted(_)));
}

#[test]
fn out_of_range_dependency_is_rejected() {
    let mut queue = InMemoryQueue::new(RetryPolicy::default_v1());
    let mut a = TaskSpec::new("a".to_string());
    a.dependencies = vec![3];
    let err = queue.submit_job(JobSpec::new(vec![a]), 0).unwrap_err();
    assert!(matches!(err, WeaverError::InvalidDependency { .. }));
}

#[test]
fn unknown_ids_give_structured_errors() {
    let mut queue = InMemoryQueue::new(RetryPolicy::default_v1());
    let err = queue.cancel_job(JobId::new(42), 0).unwrap_err();
    assert!(matches!(err, WeaverError::UnknownJob(_)));
    assert_eq!(err.message(), "unknown job");
}
