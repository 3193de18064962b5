use nexus::job::{Job, JobStatus};
use nexus::store::{jobs_from_commands, parse_queue, render_queue};

fn queued(id: &[u8], command: &[u8]) -> Job {
    Job {
        id: id.to_vec(),
        command: command.to_vec(),
        start_time: None,
        gpu_index: None,
        session: None,
        status: JobStatus::Queued,
        log_dir: None,
        env_vars: Vec::new(),
    }
}

fn running(id: &[u8], command: &[u8], gpu: usize) -> Job {
    Job {
        id: id.to_vec(),
        command: command.to_vec(),
        start_time: Some(1000),
        gpu_index: Some(gpu),
        session: Some([b"nexus_job_".as_slice(), id].concat()),
        status: JobStatus::Running,
        log_dir: None,
        env_vars: Vec::new(),
    }
}

#[test]
fn parse_skips_blank_and_comment_lines() {
    let text = b"python train.py\n\n# a note\n   \n\techo hi\n";
    let cmds = parse_queue(text);
    assert_eq!(cmds, vec![b"python train.py".to_vec(), b"\techo hi".to_vec()]);
}

#[test]
fn parse_handles_missing_final_newline() {
    let cmds = parse_queue(b"one\ntwo");
    assert_eq!(cmds, vec![b"one".to_vec(), b"two".to_vec()]);
}

#[test]
fn render_writes_only_queued_jobs() {
    let jobs = vec![
        queued(b"a1", b"first"),
        running(b"b2", b"second", 0),
        queued(b"c3", b"third"),
    ];
    assert_eq!(render_queue(&jobs), b"first\nthird\n".to_vec());
}

#[test]
fn save_then_load_reproduces_queued_commands() {
    let jobs = vec![
        queued(b"a1", b"python train.py --lr 3e-4"),
        running(b"b2", b"already running", 1),
        queued(b"c3", b"bash eval.sh"),
    ];
    let file = render_queue(&jobs);
    let reloaded = parse_queue(&file);
    assert_eq!(
        reloaded,
        vec![b"python train.py --lr 3e-4".to_vec(), b"bash eval.sh".to_vec()]
    );
}

#[test]
fn failed_job_absent_after_save() {
    let mut jobs = vec![queued(b"a1", b"will fail"), queued(b"b2", b"stays")];
    nexus::sched::fail_assigned(&mut jobs, 0);
    assert!(matches!(jobs[0].status, JobStatus::Failed));
    assert_eq!(render_queue(&jobs), b"stays\n".to_vec());
}

#[test]
fn loaded_commands_become_fresh_queued_jobs() {
    let cmds = vec![b"one".to_vec(), b"two".to_vec()];
    let ids = vec![b"i1".to_vec(), b"i2".to_vec()];
    let jobs = jobs_from_commands(cmds, ids);
    assert_eq!(jobs.len(), 2);
    assert_eq!(jobs[0].command, b"one".to_vec());
    assert_eq!(jobs[0].id, b"i1".to_vec());
    assert!(matches!(jobs[0].status, JobStatus::Queued));
    assert!(jobs[0].gpu_index.is_none());
    assert_eq!(jobs[1].command, b"two".to_vec());
}
