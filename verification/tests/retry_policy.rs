use weaver::retry::RetryPolicy;

#[test]
fn default_policy_has_reasonable_values() {
    let policy = RetryPolicy::default_v1();
    assert_eq!(policy.base_delay_ms, 2000);
    assert_eq!(policy.multiplier_milli, 2000);
}

#[test]
fn exponential_backoff_increases() {
    let policy = RetryPolicy::default_v1();

    let d1 = policy.next_delay(1);
    let d2 = policy.next_delay(2);
    let d3 = policy.next_delay(3);

    // Each delay should be larger than the previous
    assert!(d2 > d1);
    assert!(d3 > d2);

    // With base=2s, multiplier=2.0:
    // attempt 1: 2s, attempt 2: 4s, attempt 3: 8s
    assert_eq!(d1, 2000);
    assert_eq!(d2, 4000);
    assert_eq!(d3, 8000);
}

#[test]
fn zero_attempts_gives_base_delay() {
    let policy = RetryPolicy { base_delay_ms: 50, multiplier_milli: 3000 };
    assert_eq!(policy.next_delay(0), 50);
}

#[test]
fn flat_policy_keeps_delay_constant() {
    let policy = RetryPolicy { base_delay_ms: 10, multiplier_milli: 1000 };
    assert_eq!(policy.next_delay(1), 10);
    assert_eq!(policy.next_delay(4), 10);
}
