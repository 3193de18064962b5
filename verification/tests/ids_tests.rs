use nexus::ids::generate_job_id;

#[test]
fn id_is_base58_of_leading_digest_bytes() {
    // sha-256 of "0" begins 5f ec eb, whose base58 text is "ZDnA"
    assert_eq!(generate_job_id(0), b"ZDnA".to_vec());
    // sha-256 of "1700000000" begins 3f 3b 43, whose base58 text is "NErE"
    assert_eq!(generate_job_id(1700000000), b"NErE".to_vec());
}

#[test]
fn same_second_gives_same_id() {
    assert_eq!(generate_job_id(42), generate_job_id(42));
}
