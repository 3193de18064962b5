use nexus::job::{Job, JobStatus};
use nexus::ops::{
    attach_session_name, find_by_id, find_running_by_gpu, kill_target, mark_killed, remove_queued,
};

fn queued(id: &[u8], command: &[u8]) -> Job {
    Job {
        id: id.to_vec(),
        command: command.to_vec(),
        start_time: None,
        gpu_index: None,
        session: None,
        status: JobStatus::Queued,
        log_dir: None,
        env_vars: Vec::new(),
    }
}

fn running(id: &[u8], gpu: usize) -> Job {
    Job {
        id: id.to_vec(),
        command: Vec::new(),
        start_time: Some(1000),
        gpu_index: Some(gpu),
        session: Some([b"nexus_job_".as_slice(), id].concat()),
        status: JobStatus::Running,
        log_dir: None,
        env_vars: Vec::new(),
    }
}

#[test]
fn find_helpers_locate_jobs() {
    let jobs = vec![queued(b"q1", b"A"), running(b"r1", 0)];
    assert_eq!(find_by_id(&jobs, b"r1"), Some(1));
    assert_eq!(find_by_id(&jobs, b"zz"), None);
    assert_eq!(find_running_by_gpu(&jobs, 0), Some(1));
    assert_eq!(find_running_by_gpu(&jobs, 1), None);
}

#[test]
fn numeric_kill_target_matches_device_first() {
    let jobs = vec![queued(b"1", b"A"), running(b"r1", 1)];
    // "1" reads as device index 1 and picks the running job, not the job with id "1"
    assert_eq!(kill_target(&jobs, b"1"), Some(1));
}

#[test]
fn kill_target_falls_back_to_id() {
    let jobs = vec![queued(b"q1", b"A"), running(b"r1", 0)];
    assert_eq!(kill_target(&jobs, b"r1"), Some(1));
    // a queued job names no session, so it cannot be killed
    assert_eq!(kill_target(&jobs, b"q1"), None);
    assert_eq!(kill_target(&jobs, b"zz"), None);
}

#[test]
fn killed_job_is_closed_out_completed() {
    let mut jobs = vec![running(b"r1", 0), queued(b"q1", b"A")];
    mark_killed(&mut jobs, 0);
    assert!(matches!(jobs[0].status, JobStatus::Completed));
    assert!(matches!(jobs[1].status, JobStatus::Queued));
}

#[test]
fn remove_takes_only_the_first_queued_match() {
    let mut jobs = vec![running(b"x1", 0), queued(b"x1", b"A"), queued(b"x1", b"B")];
    assert!(remove_queued(&mut jobs, b"x1"));
    // the running job with the same id is untouched; the first queued one went
    assert_eq!(jobs.len(), 2);
    assert!(matches!(jobs[0].status, JobStatus::Running));
    assert_eq!(jobs[1].command, b"B".to_vec());
    // no queued job with an unknown id
    assert!(!remove_queued(&mut jobs, b"nope"));
    assert_eq!(jobs.len(), 2);
}

#[test]
fn attach_targets_map_to_sessions() {
    assert_eq!(attach_session_name(b"service"), b"nexus".to_vec());
    assert_eq!(attach_session_name(b"3"), b"nexus_job_gpu_3".to_vec());
    assert_eq!(attach_session_name(b"ab12"), b"nexus_job_ab12".to_vec());
}
