use weaver::ids::{AttemptId, JobId, TaskId};

#[test]
fn ids_are_distinct_types() {
    let job = JobId::new(1);
    let task = TaskId::new(1);
    let attempt = AttemptId::new(1);

    assert_eq!(job.get(), 1);
    assert_eq!(task.get(), 1);
    assert_eq!(attempt.get(), 1);

    // Display is stable and human-friendly
    assert_eq!(job.to_string(), "job-1");
    assert_eq!(task.to_string(), "task-1");
    assert_eq!(attempt.to_string(), "attempt-1");

    // The whole point: you can't accidentally mix these types.
    // (This is a compile-time property, so we just keep it as a comment.)
    // let _: JobId = task; // <- does not compile
}

#[test]
fn id_labels_render_larger_numbers() {
    assert_eq!(JobId::new(0).to_string(), "job-0");
    assert_eq!(TaskId::new(905).to_string(), "task-905");
    assert_eq!(AttemptId::new(123456789).to_string(), "attempt-123456789");
}
