use weaver::clock::{Clock, FixedClock, SystemClock};
use weaver::id_generator::{IdGenerator, UlidGenerator};

#[test]
fn system_clock_returns_current_time() {
    let clock = SystemClock;
    let before = clock.now_ms();
    let actual = clock.now_ms();
    let after = clock.now_ms();

    assert!(actual >= before);
    assert!(actual <= after);
}

#[test]
fn fixed_clock_returns_fixed_time() {
    let fixed_time: u64 = 1704110400000;
    let clock = FixedClock::new(fixed_time);

    assert_eq!(clock.now_ms(), fixed_time);
    assert_eq!(clock.now_ms(), fixed_time);
    assert_eq!(clock.now_ms(), fixed_time);
}

#[test]
fn fixed_clock_is_deterministic() {
    let time1: u64 = 1704110400000;
    let time2: u64 = 1718476245000;

    let clock1 = FixedClock::new(time1);
    let clock2 = FixedClock::new(time2);

    assert_eq!(clock1.now_ms(), time1);
    assert_eq!(clock2.now_ms(), time2);
    assert_ne!(clock1.now_ms(), clock2.now_ms());
}

#[test]
fn ulid_generator_generates_unique_ids() {
    let id_gen = UlidGenerator::new(SystemClock);

    let id1 = id_gen.generate_job_id();
    let id2 = id_gen.generate_job_id();
    let id3 = id_gen.generate_job_id();

    assert_ne!(id1, id2);
    assert_ne!(id2, id3);
    assert_ne!(id1, id3);
}

#[test]
fn ulid_generator_with_fixed_clock_is_deterministic() {
    let fixed_time: u64 = 1704110400000;
    let clock = FixedClock::new(fixed_time);
    let id_gen = UlidGenerator::new(clock);

    let id1 = id_gen.generate_job_id();
    let id2 = id_gen.generate_job_id();

    // the random tail keeps the ids distinct
    assert_ne!(id1, id2);

    // but the timestamp part is the same
    let timestamp1 = (id1.get() >> 80) as u64;
    let timestamp2 = (id2.get() >> 80) as u64;
    assert_eq!(timestamp1, timestamp2);
    assert_eq!(timestamp1, fixed_time);
}

#[test]
fn different_id_types_are_generated() {
    let id_gen = UlidGenerator::new(SystemClock);

    let job_id = id_gen.generate_job_id();
    let task_id = id_gen.generate_task_id();
    let attempt_id = id_gen.generate_attempt_id();

    assert!(job_id.to_string().starts_with("job-"));
    assert!(task_id.to_string().starts_with("task-"));
    assert!(attempt_id.to_string().starts_with("attempt-"));
}
