use nexus::device::{fixture_gpus, parse_gpu_report};

#[test]
fn parses_four_column_rows() {
    let report = b"0, NVIDIA A100, 81920 MiB, 1024 MiB\n1, NVIDIA A100, 81920 MiB, 0 MiB\n";
    let gpus = parse_gpu_report(report);
    assert_eq!(gpus.len(), 2);
    assert_eq!(gpus[0].index, 0);
    assert_eq!(gpus[0].name, b"NVIDIA A100".to_vec());
    assert_eq!(gpus[0].memory_total, 81920);
    assert_eq!(gpus[0].memory_used, 1024);
    assert_eq!(gpus[1].index, 1);
    assert_eq!(gpus[1].memory_used, 0);
}

#[test]
fn unit_suffix_is_stripped_with_or_without_space() {
    let gpus = parse_gpu_report(b"3, T4, 16384MiB, 512 MiB\n");
    assert_eq!(gpus.len(), 1);
    assert_eq!(gpus[0].index, 3);
    assert_eq!(gpus[0].memory_total, 16384);
    assert_eq!(gpus[0].memory_used, 512);
}

#[test]
fn malformed_rows_are_dropped_not_fatal() {
    let report = b"garbage line\n0, OK GPU, 100 MiB, 1 MiB\n1, missing column, 5\nx, BadIndex, 1 MiB, 1 MiB\n2, Fine, 7 MiB, 2 MiB\n";
    let gpus = parse_gpu_report(report);
    assert_eq!(gpus.len(), 2);
    assert_eq!(gpus[0].index, 0);
    assert_eq!(gpus[0].name, b"OK GPU".to_vec());
    assert_eq!(gpus[1].index, 2);
    assert_eq!(gpus[1].name, b"Fine".to_vec());
}

#[test]
fn empty_report_yields_no_devices() {
    assert_eq!(parse_gpu_report(b"").len(), 0);
}

#[test]
fn fixture_reports_two_devices() {
    let gpus = fixture_gpus();
    assert_eq!(gpus.len(), 2);
    assert_eq!(gpus[0].index, 0);
    assert_eq!(gpus[0].name, b"Mock GPU 0".to_vec());
    assert_eq!(gpus[0].memory_total, 8192);
    assert_eq!(gpus[0].memory_used, 2048);
    assert_eq!(gpus[1].index, 1);
    assert_eq!(gpus[1].name, b"Mock GPU 1".to_vec());
    assert_eq!(gpus[1].memory_total, 16384);
    assert_eq!(gpus[1].memory_used, 4096);
}
