use nexus::job::JobStatus;
use nexus::recover::{first_token_with_prefix, gpu_from_ps, recover_jobs};

#[test]
fn finds_session_token_on_a_line() {
    let line = b"Attached: nexus_job_ab12 (Detached)";
    let tok = first_token_with_prefix(line, b"nexus_job_");
    assert_eq!(tok, Some(b"nexus_job_ab12".to_vec()));
    assert_eq!(first_token_with_prefix(b"no sessions here", b"nexus_job_"), None);
}

#[test]
fn reads_device_from_process_table() {
    let ps = b"root 1 0.0 bash\nroot 2 0.0 SCREEN nexus_job_ab12 CUDA_VISIBLE_DEVICES=1 python\n";
    assert_eq!(gpu_from_ps(ps, b"nexus_job_ab12"), Some(1));
    // session absent from the table
    assert_eq!(gpu_from_ps(ps, b"nexus_job_zz99"), None);
    // session line without the visibility variable
    let ps2 = b"root 2 0.0 SCREEN nexus_job_ab12 python\n";
    assert_eq!(gpu_from_ps(ps2, b"nexus_job_ab12"), None);
    // unparsable value
    let ps3 = b"root 2 SCREEN nexus_job_ab12 CUDA_VISIBLE_DEVICES=abc python\n";
    assert_eq!(gpu_from_ps(ps3, b"nexus_job_ab12"), None);
}

#[test]
fn rebuilds_running_jobs_from_the_two_listings() {
    let screen_ls = b"There are screens on:\n\tnexus_job_ab12 (Detached)\n\tother_session (Detached)\n\tnexus_job_cd34 (Detached)\n";
    let ps = b"root 2 SCREEN nexus_job_ab12 CUDA_VISIBLE_DEVICES=1 python\nroot 3 SCREEN nexus_job_cd34 CUDA_VISIBLE_DEVICES=0 python\n";
    let jobs = recover_jobs(screen_ls, ps);
    assert_eq!(jobs.len(), 2);
    assert_eq!(jobs[0].id, b"ab12".to_vec());
    assert_eq!(jobs[0].gpu_index, Some(1));
    assert_eq!(jobs[0].session, Some(b"nexus_job_ab12".to_vec()));
    assert!(matches!(jobs[0].status, JobStatus::Running));
    // the original command text is unrecoverable by this path
    assert_eq!(jobs[0].command, Vec::<u8>::new());
    assert_eq!(jobs[1].id, b"cd34".to_vec());
    assert_eq!(jobs[1].gpu_index, Some(0));
}

#[test]
fn session_without_device_variable_is_not_recovered() {
    let screen_ls = b"\tnexus_job_ab12 (Detached)\n";
    let ps = b"root 2 SCREEN nexus_job_ab12 python\n";
    assert_eq!(recover_jobs(screen_ls, ps).len(), 0);
}
