use nexus::device::GpuInfo;
use nexus::job::{Job, JobStatus};
use nexus::sched::{
    available_gpus, fail_assigned, gpu_in_use, merge_recovered, plan_assignments,
    reconcile_sessions, should_process, start_assigned,
};

fn queued(id: &[u8], command: &[u8]) -> Job {
    Job {
        id: id.to_vec(),
        command: command.to_vec(),
        start_time: None,
        gpu_index: None,
        session: None,
        status: JobStatus::Queued,
        log_dir: None,
        env_vars: Vec::new(),
    }
}

fn running(id: &[u8], gpu: usize) -> Job {
    Job {
        id: id.to_vec(),
        command: Vec::new(),
        start_time: Some(1000),
        gpu_index: Some(gpu),
        session: Some([b"nexus_job_".as_slice(), id].concat()),
        status: JobStatus::Running,
        log_dir: None,
        env_vars: Vec::new(),
    }
}

fn gpu(index: usize) -> GpuInfo {
    GpuInfo {
        index,
        name: b"GPU".to_vec(),
        memory_total: 8192,
        memory_used: 0,
    }
}

#[test]
fn fifo_pairs_earliest_jobs_with_devices_in_order() {
    // two queued jobs, devices 0 and 1 free: A goes to 0, B goes to 1
    let jobs = vec![queued(b"a", b"job A"), queued(b"b", b"job B")];
    let gpus = vec![gpu(0), gpu(1)];
    let avail = available_gpus(&gpus, &jobs);
    assert_eq!(avail, vec![0, 1]);
    let plan = plan_assignments(&jobs, &avail);
    assert_eq!(plan, vec![(0, 0), (1, 1)]);
}

#[test]
fn plan_skips_non_queued_jobs() {
    let jobs = vec![running(b"r", 0), queued(b"a", b"A"), queued(b"b", b"B")];
    let gpus = vec![gpu(0), gpu(1), gpu(2)];
    let avail = available_gpus(&gpus, &jobs);
    assert_eq!(avail, vec![1, 2]);
    let plan = plan_assignments(&jobs, &avail);
    assert_eq!(plan, vec![(1, 1), (2, 2)]);
}

#[test]
fn at_most_one_job_per_device_per_tick() {
    let jobs = vec![
        queued(b"a", b"A"),
        queued(b"b", b"B"),
        queued(b"c", b"C"),
    ];
    let gpus = vec![gpu(0)];
    let avail = available_gpus(&gpus, &jobs);
    let plan = plan_assignments(&jobs, &avail);
    assert_eq!(plan, vec![(0, 0)]);
}

#[test]
fn running_jobs_never_share_a_device() {
    let mut jobs = vec![queued(b"a", b"A"), queued(b"b", b"B")];
    start_assigned(&mut jobs, 0, 0, b"nexus_job_a".to_vec(), 10, b"/l/a".to_vec(), Vec::new());
    assert!(gpu_in_use(&jobs, 0));
    // device 0 is now held, so a fresh tick only offers device 1
    let gpus = vec![gpu(0), gpu(1)];
    let avail = available_gpus(&gpus, &jobs);
    assert_eq!(avail, vec![1]);
    start_assigned(&mut jobs, 1, 1, b"nexus_job_b".to_vec(), 11, b"/l/b".to_vec(), Vec::new());
    assert_ne!(jobs[0].gpu_index, jobs[1].gpu_index);
    // running count (2) never exceeds the number of reported devices (2)
    let running_count = jobs
        .iter()
        .filter(|j| matches!(j.status, JobStatus::Running))
        .count();
    assert!(running_count <= gpus.len());
    // and with every device held nothing more can be planned
    let avail = available_gpus(&gpus, &jobs);
    assert_eq!(avail, Vec::<usize>::new());
}

#[test]
fn duplicate_probe_rows_count_once() {
    let jobs: Vec<Job> = Vec::new();
    let gpus = vec![gpu(0), gpu(0), gpu(1)];
    let avail = available_gpus(&gpus, &jobs);
    assert_eq!(avail, vec![0, 1]);
}

#[test]
fn start_failure_is_terminal_and_local() {
    let mut jobs = vec![queued(b"a", b"A"), queued(b"b", b"B")];
    fail_assigned(&mut jobs, 0);
    assert!(matches!(jobs[0].status, JobStatus::Failed));
    assert!(matches!(jobs[1].status, JobStatus::Queued));
    // the device stays open for the next tick
    let gpus = vec![gpu(0)];
    let avail = available_gpus(&gpus, &jobs);
    assert_eq!(avail, vec![0]);
    // and the next plan hands it to the next queued job
    let plan = plan_assignments(&jobs, &avail);
    assert_eq!(plan, vec![(1, 0)]);
}

#[test]
fn dead_session_means_completed() {
    let mut jobs = vec![running(b"a", 0), running(b"b", 1), queued(b"c", b"C")];
    // the first session has vanished, the second is alive
    let alive = vec![false, true, false];
    reconcile_sessions(&mut jobs, &alive);
    assert!(matches!(jobs[0].status, JobStatus::Completed));
    assert!(matches!(jobs[1].status, JobStatus::Running));
    assert!(matches!(jobs[2].status, JobStatus::Queued));
    // the completed job's device is free again
    let gpus = vec![gpu(0), gpu(1)];
    let avail = available_gpus(&gpus, &jobs);
    assert_eq!(avail, vec![0]);
}

#[test]
fn paused_ticks_assign_nothing() {
    // while the pause marker exists no tick proceeds, whatever is queued
    assert!(!should_process(true, 100, 5));
    assert!(!should_process(true, 0, 5));
    // removing the marker lets the next due tick assign normally
    assert!(should_process(false, 5, 5));
    assert!(should_process(false, 100, 5));
    // and between refreshes nothing runs either
    assert!(!should_process(false, 4, 5));
}

#[test]
fn recovered_job_excluded_from_availability() {
    let mut jobs: Vec<Job> = Vec::new();
    let rec = vec![running(b"old1", 0)];
    merge_recovered(&mut jobs, rec);
    assert_eq!(jobs.len(), 1);
    assert!(matches!(jobs[0].status, JobStatus::Running));
    // its device is excluded on the very next tick
    let gpus = vec![gpu(0), gpu(1)];
    let avail = available_gpus(&gpus, &jobs);
    assert_eq!(avail, vec![1]);
    // and the recovered job is never planned a second time
    let plan = plan_assignments(&jobs, &avail);
    assert_eq!(plan, Vec::<(usize, usize)>::new());
}

#[test]
fn recovery_is_idempotent() {
    let mut jobs: Vec<Job> = Vec::new();
    merge_recovered(&mut jobs, vec![running(b"old1", 0)]);
    // recovering the same session again adds nothing
    merge_recovered(&mut jobs, vec![running(b"old1", 0)]);
    assert_eq!(jobs.len(), 1);
    // a second claimant of the same device is dropped too
    merge_recovered(&mut jobs, vec![running(b"other", 0)]);
    assert_eq!(jobs.len(), 1);
    // a new session on a free device is taken
    merge_recovered(&mut jobs, vec![running(b"old2", 1)]);
    assert_eq!(jobs.len(), 2);
}

#[test]
fn devices_are_taken_in_ascending_index_order() {
    // the probe reports its rows out of order; assignment still walks
    // the devices by ascending index, so the earliest job gets device 0
    let jobs = vec![queued(b"a", b"job A"), queued(b"b", b"job B")];
    let gpus = vec![gpu(1), gpu(0)];
    let avail = available_gpus(&gpus, &jobs);
    assert_eq!(avail, vec![0, 1]);
    let plan = plan_assignments(&jobs, &avail);
    assert_eq!(plan, vec![(0, 0), (1, 1)]);
}
