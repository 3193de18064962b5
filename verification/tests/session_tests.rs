use nexus::session::{
    build_env, launch_command, render_exports, session_listed, session_name_for, wrap_command,
};

#[test]
fn session_name_carries_the_id() {
    assert_eq!(session_name_for(b"ZDnA"), b"nexus_job_ZDnA".to_vec());
}

#[test]
fn listing_membership_is_dotted_substring() {
    let listing = b"There is a screen on:\n\t31337.nexus_job_ab12\t(Detached)\n";
    assert!(session_listed(listing, b"nexus_job_ab12"));
    assert!(!session_listed(listing, b"nexus_job_zz99"));
    // the dot must lead the name, so a bare prefix match does not count
    assert!(!session_listed(b"nexus_job_ab12", b"nexus_job_ab12"));
}

#[test]
fn overlay_leads_with_device_and_ids() {
    let inherited = vec![
        (b"PATH".to_vec(), b"/usr/bin".to_vec()),
        (b"SCREEN_X".to_vec(), b"inner".to_vec()),
        (b"HOME".to_vec(), b"/root".to_vec()),
    ];
    let env = build_env(b"ab12", 3, inherited);
    assert_eq!(env[0], (b"CUDA_VISIBLE_DEVICES".to_vec(), b"3".to_vec()));
    assert_eq!(env[1], (b"NEXUS_JOB_ID".to_vec(), b"ab12".to_vec()));
    assert_eq!(env[2], (b"NEXUS_GPU_ID".to_vec(), b"3".to_vec()));
    // the reserved session-manager variable is dropped, the rest kept in order
    assert_eq!(env[3], (b"PATH".to_vec(), b"/usr/bin".to_vec()));
    assert_eq!(env[4], (b"HOME".to_vec(), b"/root".to_vec()));
    assert_eq!(env.len(), 5);
}

#[test]
fn exports_escape_quotes() {
    let pairs = vec![
        (b"A".to_vec(), b"plain".to_vec()),
        (b"B".to_vec(), b"say \"hi\"".to_vec()),
    ];
    let text = render_exports(&pairs);
    assert_eq!(
        text,
        b"export A=\"plain\"; export B=\"say \\\"hi\\\"\";".to_vec()
    );
}

#[test]
fn wrapped_command_redirects_into_log_dir() {
    let w = wrap_command(b"/logs/ab12", b"python train.py");
    assert_eq!(
        w,
        b"exec 1> /logs/ab12/stdout.log 2> /logs/ab12/stderr.log; python train.py".to_vec()
    );
}

#[test]
fn launch_text_joins_exports_and_command() {
    let t = launch_command(b"export A=\"1\";", b"exec 1> o 2> e; cmd");
    assert_eq!(t, b"export A=\"1\";; exec 1> o 2> e; cmd".to_vec());
}

#[test]
fn inherited_copies_of_overlay_keys_are_dropped() {
    let inherited = vec![
        (b"CUDA_VISIBLE_DEVICES".to_vec(), b"7".to_vec()),
        (b"PATH".to_vec(), b"/bin".to_vec()),
        (b"NEXUS_JOB_ID".to_vec(), b"stale".to_vec()),
        (b"NEXUS_GPU_ID".to_vec(), b"9".to_vec()),
    ];
    let env = build_env(b"ab12", 3, inherited);
    assert_eq!(env[0], (b"CUDA_VISIBLE_DEVICES".to_vec(), b"3".to_vec()));
    assert_eq!(env[1], (b"NEXUS_JOB_ID".to_vec(), b"ab12".to_vec()));
    assert_eq!(env[2], (b"NEXUS_GPU_ID".to_vec(), b"3".to_vec()));
    assert_eq!(env[3], (b"PATH".to_vec(), b"/bin".to_vec()));
    assert_eq!(env.len(), 4);
    // every key appears once, so no later export overrides the device pin
    for i in 0..env.len() {
        for k in (i + 1)..env.len() {
            assert_ne!(env[i].0, env[k].0);
        }
    }
}
