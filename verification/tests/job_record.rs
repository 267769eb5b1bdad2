use weaver::ids::{JobId, TaskId};
use weaver::job::JobRecord;
use weaver::job_spec::JobSpec;
use weaver::state::{JobState, TaskState};

#[test]
fn new_job_starts_as_running() {
    let spec = JobSpec::new(vec![]);
    let job = JobRecord::new(JobId::new(1), spec, 0);
    assert_eq!(job.state, JobState::Running);
}

#[test]
fn can_add_tasks() {
    let spec = JobSpec::new(vec![]);
    let mut job = JobRecord::new(JobId::new(1), spec, 0);

    job.add_task(TaskId::new(10), 1);
    job.add_task(TaskId::new(20), 2);

    assert_eq!(job.task_ids.len(), 2);
    assert!(job.task_ids.contains(&TaskId::new(10)));
}

#[test]
fn update_job_state_all_succeeded() {
    let spec = JobSpec::new(vec![]);
    let mut job = JobRecord::new(JobId::new(1), spec, 0);

    let task_states = vec![
        (TaskId::new(1), TaskState::Succeeded),
        (TaskId::new(2), TaskState::Succeeded),
    ];

    job.update_state_from_tasks(&task_states, 5);
    assert_eq!(job.state, JobState::Completed);
}

#[test]
fn update_job_state_includes_dead() {
    let spec = JobSpec::new(vec![]);
    let mut job = JobRecord::new(JobId::new(1), spec, 0);
    let task_states = vec![
        (TaskId::new(1), TaskState::Succeeded),
        (TaskId::new(2), TaskState::Dead),
    ];

    job.update_state_from_tasks(&task_states, 5);
    assert_eq!(job.state, JobState::Failed);
}

#[test]
fn update_job_state_with_empty_tasks() {
    let spec = JobSpec::new(vec![]);
    let mut job = JobRecord::new(JobId::new(1), spec, 0);
    let task_states = vec![];

    job.update_state_from_tasks(&task_states, 5);
    assert_eq!(job.state, JobState::Running);
}

#[test]
fn update_job_state_includes_running() {
    for active in [TaskState::Running, TaskState::Queued, TaskState::RetryScheduled] {
        let spec = JobSpec::new(vec![]);
        let mut job = JobRecord::new(JobId::new(1), spec, 0);
        let task_states = vec![
            (TaskId::new(1), TaskState::Succeeded),
            (TaskId::new(2), active),
        ];
        job.update_state_from_tasks(&task_states, 5);
        assert_eq!(job.state, JobState::Running);
    }
}
