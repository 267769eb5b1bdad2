use weaver::decision::{Decider, Decision, DefaultDecider};
use weaver::ids::TaskId;
use weaver::job_spec::TaskSpec;
use weaver::outcome::Outcome;
use weaver::record::TaskRecord;
use weaver::retry::RetryPolicy;
use weaver::task::{TaskEnvelope, TaskType};

fn record_with(attempts: u32, max_attempts: u32) -> TaskRecord {
    let env = TaskEnvelope::new(
        TaskId::new(1),
        TaskType::new("t".to_string()),
        "{}".to_string(),
    );
    let mut rec = TaskRecord::new(env, max_attempts, 0);
    rec.attempts = attempts;
    rec
}

#[test]
fn default_decider_retries_within_budget() {
    let decider = DefaultDecider::new(RetryPolicy { base_delay_ms: 10, multiplier_milli: 2000 });
    let rec = record_with(2, 5);
    match decider.decide(&rec, &Outcome::failure("x".to_string())) {
        Decision::Retry { delay_ms, reason } => {
            // base 10ms doubled once for the second attempt
            assert_eq!(delay_ms, 20);
            assert_eq!(reason, "retry 3/5 after 20ms");
        }
        _ => panic!("expected a retry"),
    }
}

#[test]
fn default_decider_marks_dead_at_budget() {
    let decider = DefaultDecider::default_v1();
    let rec = record_with(5, 5);
    match decider.decide(&rec, &Outcome::failure("x".to_string())) {
        Decision::MarkDead { reason } => {
            assert_eq!(reason, "max attempts reached: 5/5");
        }
        _ => panic!("expected mark dead"),
    }
}

#[test]
fn default_decider_prefers_decomposition() {
    let decider = DefaultDecider::default_v1();
    let rec = record_with(5, 5);
    let outcome = Outcome::success().with_decompose_hint(vec![TaskSpec::new("child".to_string())]);
    match decider.decide(&rec, &outcome) {
        Decision::Decompose { child_specs, .. } => {
            assert_eq!(child_specs.len(), 1);
            assert_eq!(child_specs[0].title.as_deref(), Some("child"));
        }
        _ => panic!("expected decomposition"),
    }
}
