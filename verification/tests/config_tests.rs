use nexus::config::{expand_tilde, job_log_dir, resolve_config};

#[test]
fn defaults_live_under_the_home_directory() {
    let c = resolve_config(b"/home/u", None, None, None, None, None);
    assert_eq!(c.log_dir, b"/home/u/.nexus/logs".to_vec());
    assert_eq!(c.jobs_file, b"/home/u/.nexus/jobs.txt".to_vec());
    assert_eq!(c.refresh_rate, 5);
    assert!(c.colors_enabled);
    assert_eq!(c.datetime_format, b"%Y-%m-%d %H:%M:%S".to_vec());
}

#[test]
fn overlay_values_win() {
    let c = resolve_config(
        b"/home/u",
        Some(b"~/logs".to_vec()),
        Some(b"/var/q.txt".to_vec()),
        Some(9),
        Some(false),
        Some(b"%H:%M".to_vec()),
    );
    assert_eq!(c.log_dir, b"/home/u/logs".to_vec());
    assert_eq!(c.jobs_file, b"/var/q.txt".to_vec());
    assert_eq!(c.refresh_rate, 9);
    assert!(!c.colors_enabled);
    assert_eq!(c.datetime_format, b"%H:%M".to_vec());
}

#[test]
fn tilde_expansion_replaces_every_tilde() {
    assert_eq!(expand_tilde(b"~/x", b"/h"), b"/h/x".to_vec());
    assert_eq!(expand_tilde(b"/plain", b"/h"), b"/plain".to_vec());
    assert_eq!(expand_tilde(b"~~", b"/h"), b"/h/h".to_vec());
}

#[test]
fn job_logs_sit_under_the_log_root() {
    assert_eq!(job_log_dir(b"/logs", b"ab12"), b"/logs/ab12".to_vec());
}

#[test]
fn archive_name_carries_timestamp_and_id() {
    assert_eq!(
        nexus::archive::archive_path(b"/logs", 1700000000, b"ab12"),
        b"/logs/archived/1700000000_ab12.tar.gz".to_vec()
    );
}

#[test]
fn event_lines_are_timestamped() {
    assert_eq!(
        nexus::events::event_line(b"2024-01-01 00:00:00", b"Service started"),
        b"[2024-01-01 00:00:00] Service started\n".to_vec()
    );
}
