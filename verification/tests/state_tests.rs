use dfm::state::{
    compare_files, compare_files_by_content, compare_files_by_timestamps, format_sync_time,
    get_sync_time, insert_sync, parse_sync_time, remove_sync_state, resolve_state_key, sha256_hex,
    CompareByTimestamp, FileStamps, StateObject, SyncTime,
};

#[test]
fn conflict_table_by_timestamps() {
    assert!(compare_files_by_timestamps(5, 5, Some(5)).unwrap() == CompareByTimestamp::NonModified);
    assert!(compare_files_by_timestamps(5, 9, Some(5)).unwrap() == CompareByTimestamp::SourceModified);
    assert!(compare_files_by_timestamps(9, 5, Some(5)).unwrap() == CompareByTimestamp::TargetModified);
    assert!(compare_files_by_timestamps(9, 8, Some(5)).unwrap() == CompareByTimestamp::BothModified);
    assert!(compare_files_by_timestamps(1, 2, None).unwrap() == CompareByTimestamp::NeverSynchronized);
    assert!(compare_files_by_timestamps(3, 1, Some(5)).unwrap() == CompareByTimestamp::TargetModified);
    assert!(compare_files_by_timestamps(3, 3, Some(5)).is_err());
}

fn sync(secs: u64, nanos: u32, sha: &str) -> SyncTime {
    SyncTime { mtime_secs: secs, mtime_nanos: nanos, sha256: sha.to_string() }
}

#[test]
fn conflicts_by_content() {
    let s = sync(0, 0, "h");
    assert!(compare_files_by_content("h", "h", Some(&s)) == CompareByTimestamp::NonModified);
    assert!(compare_files_by_content("x", "h", Some(&s)) == CompareByTimestamp::TargetModified);
    assert!(compare_files_by_content("h", "y", Some(&s)) == CompareByTimestamp::SourceModified);
    assert!(compare_files_by_content("x", "y", Some(&s)) == CompareByTimestamp::BothModified);
    assert!(compare_files_by_content("x", "y", None) == CompareByTimestamp::NeverSynchronized);
}

#[test]
fn dispatch_on_the_encrypted_postfix() {
    let s = sync(1, 500, "h");
    let stamps = FileStamps {
        target_modified: 1_000_000_500,
        source_modified: 2_000_000_000,
        target_sha256: "h".to_string(),
        source_sha256: "h".to_string(),
    };
    let r = compare_files(".encrypted", "/s/x.encrypted", Some(&s), &stamps).unwrap();
    assert!(r == CompareByTimestamp::SourceModified);
    let r = compare_files(".encrypted", "/s/x", Some(&s), &stamps).unwrap();
    assert!(r == CompareByTimestamp::NonModified);
}

#[test]
fn sync_time_text_roundtrip() {
    assert_eq!(format_sync_time(1700000000, 123456789), "1700000000;123456789");
    assert_eq!(format_sync_time(0, 0), "0;0");
    assert_eq!(parse_sync_time("1700000000;123456789").unwrap(), (1700000000, 123456789));
    assert_eq!(parse_sync_time("+7;+8").unwrap(), (7, 8));
    assert!(parse_sync_time("7").is_err());
    assert!(parse_sync_time("7;x").is_err());
    assert!(parse_sync_time(";1").is_err());
    assert!(parse_sync_time("1;2;3").is_err());
    assert!(parse_sync_time("18446744073709551616;0").is_err());
    assert_eq!(parse_sync_time("18446744073709551615;4294967295").unwrap(), (u64::MAX, u32::MAX));
    assert!(parse_sync_time("1;4294967296").is_err());
    for (s, n) in [(0u64, 0u32), (42, 999_999_999), (u64::MAX, 7)] {
        assert_eq!(parse_sync_time(&format_sync_time(s, n)).unwrap(), (s, n));
    }
}

#[test]
fn sha256_of_known_inputs() {
    assert_eq!(
        sha256_hex(b""),
        "e3b0c44298fc1c149afbf4c8996fb92427ae41e4649b934ca495991b7852b855"
    );
    assert_eq!(
        sha256_hex(b"abc"),
        "ba7816bf8f01cfea414140de5dae2223b00361a396177a9cb410ff61f20015ad"
    );
}

#[test]
fn state_records_by_key() {
    let mut state = StateObject::new("/home/u".to_string(), "/home/u/dots".to_string());
    insert_sync(&mut state, "dot_bashrc".to_string(), sync(1, 2, "h"));
    let found = get_sync_time(&state, "/home/u/dots/./dot_bashrc", "/home/u/dots").unwrap();
    assert_eq!(found.mtime_secs, 1);
    assert_eq!(found.mtime(), 1_000_000_002);
    assert!(get_sync_time(&state, "/home/u/dots/other", "/home/u/dots").is_none());
    insert_sync(&mut state, "dot_ssh/id.encrypted".to_string(), sync(3, 4, "e"));
    assert_eq!(resolve_state_key(&state, "dot_ssh/id", ".encrypted", ".symlink"), Some("dot_ssh/id.encrypted".to_string()));
    assert_eq!(resolve_state_key(&state, "dot_bashrc", ".encrypted", ".symlink"), Some("dot_bashrc".to_string()));
    assert_eq!(resolve_state_key(&state, "nothing", ".encrypted", ".symlink"), None);
    remove_sync_state(&mut state, "/home/u/dots/dot_bashrc", "/home/u/dots");
    assert!(get_sync_time(&state, "/home/u/dots/dot_bashrc", "/home/u/dots").is_none());
}

#[test]
fn removing_a_key_drops_its_record_and_its_place_in_the_order() {
    let mut state = dfm::state::StateObject::new("/t".to_string(), "/s".to_string());
    for k in ["a", "b", "c"] {
        dfm::state::insert_sync(
            &mut state,
            k.to_string(),
            dfm::state::SyncTime { mtime_secs: 1, mtime_nanos: 0, sha256: String::new() },
        );
    }
    dfm::state::remove_key(&mut state, "b");
    assert_eq!(state.keys, vec!["a".to_string(), "c".to_string()]);
    assert!(state.syncs.get("b").is_none());
    assert!(state.syncs.get("a").is_some());
    dfm::state::remove_key(&mut state, "missing");
    assert_eq!(state.keys.len(), 2);
}

#[test]
fn merge_key_takes_a_source_path_as_is_and_a_target_path_through_its_postfixes() {
    let mut state = StateObject::new("/home/u".to_string(), "/home/u/dots".to_string());
    insert_sync(&mut state, "dot_ssh/id.encrypted".to_string(), sync(3, 4, "e"));
    insert_sync(&mut state, "dot_bashrc".to_string(), sync(1, 2, "h"));
    assert_eq!(dfm::state::merge_key(&state, true, "dot_bashrc", ".encrypted", ".symlink"), Some("dot_bashrc".to_string()));
    assert_eq!(dfm::state::merge_key(&state, true, "dot_ssh/id", ".encrypted", ".symlink"), None);
    assert_eq!(
        dfm::state::merge_key(&state, false, "dot_ssh/id", ".encrypted", ".symlink"),
        Some("dot_ssh/id.encrypted".to_string())
    );
    assert_eq!(dfm::state::merge_key(&state, false, "other", ".encrypted", ".symlink"), None);
}
