use arcfs::file_manager::FileManager;
use arcfs::fs_ops::{
    block_count, classify_mkdir_name, parse_control_command, snapshot_name_from_write,
    unique_named_match, ControlCommand, FsError, MkdirRequest,
};

/// A directory of its own under /tmp for each run of each test, named
/// after `path`; the test harness cannot remove directories, so each run
/// starts from an empty one instead.
fn scratch_dir(path: &str) -> String {
    let nanos = std::time::SystemTime::now()
        .duration_since(std::time::UNIX_EPOCH)
        .expect("clock before the epoch")
        .as_nanos();
    format!("/tmp/arcfs_{}_{}", path.trim_start_matches("./"), nanos)
}

fn fresh(path: &str) -> FileManager {
    FileManager::new(&scratch_dir(path)).expect("open failed")
}

#[test]
fn parses_set_commands() {
    match parse_control_command(b"  set docs/a.txt Work  2026\n") {
        Ok(ControlCommand::SetTags { path, tags }) => {
            assert_eq!(path, "docs/a.txt");
            assert_eq!(tags, vec!["Work".to_string(), "2026".to_string()]);
        }
        _ => panic!("not a set command"),
    }
}

#[test]
fn parses_del_commands_ignoring_extra_words() {
    match parse_control_command(b"del a.txt extra") {
        Ok(ControlCommand::DeleteTags { path }) => assert_eq!(path, "a.txt"),
        _ => panic!("not a del command"),
    }
}

#[test]
fn malformed_commands_are_invalid() {
    for bad in [
        &b""[..],
        b"   \n",
        b"set",
        b"set a.txt",
        b"del",
        b"tag a.txt x",
        b"SET a.txt x",
    ] {
        assert!(matches!(parse_control_command(bad), Err(FsError::InvalidArgument)));
    }
}

#[test]
fn control_writes_change_tags() {
    let path = "./test_ops_control";
    let mut fm = fresh(path);
    fm.save_dirent(1, "a.txt", 100).unwrap();
    fm.handle_tagfs_control_write(b"set a.txt Red blue").unwrap();
    assert_eq!(fm.get_file_tags(100).unwrap(), vec!["blue".to_string(), "red".to_string()]);
    assert_eq!(fm.get_files_with_tag("red").unwrap(), vec![100]);
    fm.handle_tagfs_control_write(b"del a.txt").unwrap();
    assert!(fm.get_file_tags(100).unwrap().is_empty());
    assert_eq!(
        fm.handle_tagfs_control_write(b"del missing.txt"),
        Err(FsError::NotFound)
    );
    assert_eq!(
        fm.handle_tagfs_control_write(b"set missing.txt x"),
        Err(FsError::Io)
    );
    assert_eq!(
        fm.handle_tagfs_control_write(b"frobnicate a.txt"),
        Err(FsError::InvalidArgument)
    );
}

#[test]
fn snapshot_names_are_trimmed_and_non_empty() {
    assert_eq!(snapshot_name_from_write(b"  nightly \n").unwrap(), "nightly");
    assert_eq!(snapshot_name_from_write(b" \t\n"), Err(FsError::InvalidArgument));
    assert_eq!(snapshot_name_from_write(b""), Err(FsError::InvalidArgument));
}

#[test]
fn mkdir_names_request_snapshots_and_restores() {
    assert!(matches!(classify_mkdir_name(".restore_monday"), MkdirRequest::Restore(s) if s == "monday"));
    assert!(matches!(classify_mkdir_name(".snap_v1"), MkdirRequest::Snapshot(s) if s == "v1"));
    assert!(matches!(classify_mkdir_name(".snap_"), MkdirRequest::Snapshot(s) if s.is_empty()));
    assert!(matches!(classify_mkdir_name("projects"), MkdirRequest::Plain));
    assert!(matches!(classify_mkdir_name(".restore"), MkdirRequest::Plain));
}

#[test]
fn unique_match_by_live_name() {
    let ids = [10u64, 11, 12];
    let names = [Some("a.txt".to_string()), None, Some("b.txt".to_string())];
    assert_eq!(unique_named_match(&ids, &names, "b.txt"), Ok(12));
    assert_eq!(unique_named_match(&ids, &names, "c.txt"), Err(FsError::NotFound));
    let dup = [Some("a.txt".to_string()), Some("a.txt".to_string()), None];
    assert_eq!(unique_named_match(&ids, &dup, "a.txt"), Err(FsError::InvalidArgument));
    assert_eq!(unique_named_match(&[], &[], "a.txt"), Err(FsError::NotFound));
}

#[test]
fn block_counts_round_up() {
    assert_eq!(block_count(0), 0);
    assert_eq!(block_count(1), 1);
    assert_eq!(block_count(512), 1);
    assert_eq!(block_count(513), 2);
    assert_eq!(block_count(u64::MAX), 36028797018963968);
}
