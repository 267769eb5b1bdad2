use weaver::ids::TaskId;
use weaver::outcome::{Artifact, OutcomeKind};
use weaver::queue::{InMemoryQueue, LeaseOutcome};
use weaver::retry::RetryPolicy;
use weaver::task::{TaskEnvelope, TaskType};

fn lease_now(queue: &mut InMemoryQueue, now: u64) -> weaver::queue::Lease {
    match queue.try_lease(now) {
        LeaseOutcome::Leased(lease) => lease,
        LeaseOutcome::Idle { .. } => panic!("expected a leasable task"),
    }
}

#[test]
fn enqueue_and_counts() {
    let mut queue = InMemoryQueue::new(RetryPolicy::default_v1());
    let env = TaskEnvelope::new(
        TaskId::new(999),
        TaskType::new("test".to_string()),
        "{}".to_string(),
    );

    queue.enqueue(env, 0);

    let counts = queue.counts_by_state();
    assert_eq!(counts.queued, 1);
    assert_eq!(counts.running, 0);
}

#[test]
fn lease_transitions_to_running() {
    let mut queue = InMemoryQueue::new(RetryPolicy::default_v1());
    let env = TaskEnvelope::new(
        TaskId::new(999),
        TaskType::new("test".to_string()),
        "{}".to_string(),
    );

    queue.enqueue(env, 0);

    let lease = lease_now(&mut queue, 1);
    assert_eq!(lease.envelope().task_type().as_str(), "test");

    let counts = queue.counts_by_state();
    assert_eq!(counts.queued, 0);
    assert_eq!(counts.running, 1);
}

#[test]
fn ack_marks_succeeded() {
    let mut queue = InMemoryQueue::new(RetryPolicy::default_v1());
    let env = TaskEnvelope::new(
        TaskId::new(999),
        TaskType::new("test".to_string()),
        "{}".to_string(),
    );

    queue.enqueue(env, 0);
    let lease = lease_now(&mut queue, 1);
    queue.ack(lease, 2).unwrap();

    let counts = queue.counts_by_state();
    assert_eq!(counts.succeeded, 1);
    assert_eq!(counts.running, 0);
}

#[test]
fn test_attempt_record_is_saved_on_ack() {
    let mut queue = InMemoryQueue::new(RetryPolicy::default_v1());
    let task = TaskEnvelope::new(
        TaskId::new(1001), // enqueue allocates a fresh task id
        TaskType::new("test_task".to_string()),
        "{\"key\": \"value\"}".to_string(),
    );
    queue.enqueue(task, 0);
    let lease = lease_now(&mut queue, 1);
    queue.ack(lease, 2).unwrap();
    let attempts = queue.get_all_attempts();
    assert_eq!(attempts.len(), 1);
    let attempt = &attempts[0];
    assert!(attempt.outcome.kind == OutcomeKind::Success);
    assert!(attempt.action == "{\"key\": \"value\"}");
    assert!(attempt.observation.is_empty());
}

#[test]
fn test_decision_record_is_saved_on_retry() {
    let mut queue = InMemoryQueue::new(RetryPolicy::default_v1());
    let task = TaskEnvelope::new(
        TaskId::new(1001),
        TaskType::new("test_task".to_string()),
        "{\"key\": \"value\"}".to_string(),
    );
    queue.enqueue(task, 0);
    let lease = lease_now(&mut queue, 1);
    queue.fail(lease, "test error".to_string(), 2).unwrap();
    let decisions = queue.get_decisions();
    assert_eq!(decisions.len(), 1);
    let decision = &decisions[0];
    assert_eq!(decision.policy, "retry_policy");
    assert_eq!(decision.decision, "schedule_retry");
    assert_eq!(decision.trigger.error.as_deref(), Some("test error"));
    let attempts = queue.get_all_attempts();
    assert_eq!(attempts.len(), 1);
    let attempt = &attempts[0];
    assert!(attempt.outcome.kind == OutcomeKind::Failure);
    assert!(attempt.observation.len() == 1);
    match &attempt.observation[0] {
        Artifact::Stdout(msg) => assert_eq!(msg, "test error"),
        _ => panic!("Expected Artifact::Stdout"),
    }
}

#[test]
fn test_decision_record_is_saved_on_mark_dead() {
    let mut queue = InMemoryQueue::new(RetryPolicy::default_v1());
    // a task whose budget is a single attempt
    let mut spec = weaver::job_spec::JobSpec::new(vec![weaver::job_spec::TaskSpec::new(
        "test_task".to_string(),
    )]);
    spec.budget.max_attempts_per_task = 1;
    queue.submit_job(spec, 0).unwrap();
    let lease = lease_now(&mut queue, 1);
    queue.fail(lease, "err1".to_string(), 2).unwrap();

    let decisions = queue.get_decisions();
    assert_eq!(decisions.len(), 1);
    assert_eq!(decisions[0].decision, "mark_dead");
    assert_eq!(decisions[0].policy, "retry_policy");
    assert_eq!(decisions[0].trigger.attempts, 1);
    assert_eq!(decisions[0].trigger.max_attempts, 1);
}

#[test]
fn promoted_retry_runs_after_its_time() {
    let mut queue = InMemoryQueue::new(RetryPolicy { base_delay_ms: 10, multiplier_milli: 1000 });
    let env = TaskEnvelope::new(
        TaskId::new(0),
        TaskType::new("t".to_string()),
        "{}".to_string(),
    );
    queue.enqueue(env, 0);
    let lease = lease_now(&mut queue, 0);
    queue.fail(lease, "boom".to_string(), 0).unwrap();
    // not due yet
    match queue.try_lease(5) {
        LeaseOutcome::Idle { next_run_at_ms } => assert_eq!(next_run_at_ms, Some(10)),
        LeaseOutcome::Leased(_) => panic!("retry is not due yet"),
    }
    // due now
    let lease = lease_now(&mut queue, 10);
    queue.ack(lease, 11).unwrap();
    assert_eq!(queue.counts_by_state().succeeded, 1);
}
