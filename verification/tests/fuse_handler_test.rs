use arcfs::file_manager::{FileKind, FileManager, FileRecipe};
use arcfs::fs_ops::FsError;
use arcfs::fuse_handler::{ArcFS, MkdirOutcome, ReadTarget, Removal, WriteTarget};
use arcfs::inode_tree::{control_file_attr, dir_attr, AutoTag, NodeKind};
use arcfs::tagfs::{
    FUSE_ROOT_ID, SNAPSHOT_CREATE_ID, SNAPSHOT_DIR_ID, TAGFS_CONTROL_ID, TAGS_DIR_ID, VIRTUAL_INODE_START,
};

/// A directory of its own under /tmp for each run of each test.
fn scratch_dir(path: &str) -> String {
    let nanos = std::time::SystemTime::now()
        .duration_since(std::time::UNIX_EPOCH)
        .expect("clock before the epoch")
        .as_nanos();
    format!("/tmp/arcfs_{}_{}", path, nanos)
}

fn mount(path: &str) -> ArcFS {
    let manager = FileManager::new(&scratch_dir(path)).expect("open failed");
    let (fs, failures, complete) = ArcFS::new(manager, 5);
    assert!(failures.is_empty());
    assert!(complete);
    fs
}

fn names(entries: &[(u64, NodeKind, String)]) -> Vec<String> {
    entries.iter().map(|e| e.2.clone()).collect()
}

#[test]
fn getattr_of_fixed_inodes() {
    let fs = mount("getattr_fixed");
    assert_eq!(fs.getattr(TAGFS_CONTROL_ID, 9), Ok(control_file_attr(TAGFS_CONTROL_ID, 9)));
    assert_eq!(fs.getattr(TAGS_DIR_ID, 9), Ok(dir_attr(TAGS_DIR_ID, 9)));
    assert_eq!(fs.getattr(SNAPSHOT_DIR_ID, 9), Ok(dir_attr(SNAPSHOT_DIR_ID, 9)));
    assert_eq!(fs.getattr(SNAPSHOT_CREATE_ID, 9), Ok(control_file_attr(SNAPSHOT_CREATE_ID, 9)));
    assert_eq!(fs.getattr(FUSE_ROOT_ID, 9), Ok(dir_attr(FUSE_ROOT_ID, 5)));
    assert_eq!(fs.getattr(777, 9), Err(FsError::NotFound));
}

#[test]
fn lookup_special_names() {
    let mut fs = mount("lookup_special");
    assert_eq!(fs.lookup(FUSE_ROOT_ID, ".tagfs_ctl", 9), Ok(control_file_attr(TAGFS_CONTROL_ID, 9)));
    assert_eq!(fs.lookup(FUSE_ROOT_ID, "@tags", 9), Ok(dir_attr(TAGS_DIR_ID, 9)));
    assert_eq!(fs.lookup(FUSE_ROOT_ID, ".snapshots", 9), Ok(dir_attr(SNAPSHOT_DIR_ID, 9)));
    assert_eq!(fs.lookup(SNAPSHOT_DIR_ID, ".create", 9), Ok(control_file_attr(SNAPSHOT_CREATE_ID, 9)));
    assert_eq!(fs.lookup(SNAPSHOT_DIR_ID, "nope", 9), Err(FsError::NotFound));
    assert_eq!(fs.lookup(FUSE_ROOT_ID, "missing", 9), Err(FsError::NotFound));
    assert_eq!(fs.lookup(TAGS_DIR_ID, "untagged", 9), Err(FsError::NotFound));
}

#[test]
fn root_listing_has_special_entries() {
    let mut fs = mount("readdir_root");
    let made = match fs.mkdir(FUSE_ROOT_ID, "docs", 7) {
        Ok(MkdirOutcome::Made(a)) => a,
        _ => panic!("mkdir failed"),
    };
    let entries = fs.readdir(FUSE_ROOT_ID).expect("readdir failed");
    assert_eq!(
        entries,
        vec![
            (FUSE_ROOT_ID, NodeKind::Directory, ".".to_string()),
            (FUSE_ROOT_ID, NodeKind::Directory, "..".to_string()),
            (SNAPSHOT_DIR_ID, NodeKind::Directory, ".snapshots".to_string()),
            (TAGS_DIR_ID, NodeKind::Directory, "@tags".to_string()),
            (TAGFS_CONTROL_ID, NodeKind::RegularFile, ".tagfs_ctl".to_string()),
            (made.ino, NodeKind::Directory, "docs".to_string()),
        ]
    );
    assert_eq!(fs.lookup(FUSE_ROOT_ID, "docs", 9), Ok(made));
    assert_eq!(fs.readdir(4242), Err(FsError::NotFound));
}

#[test]
fn snapshot_through_mkdir() {
    let mut fs = mount("mkdir_snapshot");
    match fs.mkdir(FUSE_ROOT_ID, "work", 7) {
        Ok(MkdirOutcome::Made(_)) => {}
        _ => panic!("mkdir failed"),
    }
    match fs.mkdir(FUSE_ROOT_ID, ".snap_s1", 8) {
        Ok(MkdirOutcome::TakeSnapshot(name)) => assert_eq!(name, "s1"),
        _ => panic!("expected a snapshot request"),
    }
    assert_eq!(fs.take_snapshot("s1", 1000, 8), Ok(()));
    assert!(matches!(fs.mkdir(FUSE_ROOT_ID, ".snap_s1", 9), Err(FsError::AlreadyExists)));
    assert_eq!(fs.take_snapshot("s1", 1001, 9), Err(FsError::AlreadyExists));
    assert!(matches!(fs.mkdir(FUSE_ROOT_ID, ".restore_nope", 9), Err(FsError::NotFound)));
    match fs.mkdir(FUSE_ROOT_ID, ".restore_s1", 9) {
        Ok(MkdirOutcome::RestoreSnapshot(name)) => assert_eq!(name, "s1"),
        _ => panic!("expected a restore request"),
    }
    assert!(matches!(fs.mkdir(SNAPSHOT_DIR_ID, "x", 9), Err(FsError::ReadOnly)));
    let listing = fs.readdir(SNAPSHOT_DIR_ID).expect("readdir failed");
    assert_eq!(names(&listing), vec![".", "..", ".create", "s1"]);
    assert_eq!(listing[2], (SNAPSHOT_CREATE_ID, NodeKind::RegularFile, ".create".to_string()));
    let root = listing[3].0;
    let inside = fs.readdir(root).expect("readdir failed");
    assert_eq!(names(&inside), vec![".", "..", "work"]);
    assert_eq!(inside[1].0, SNAPSHOT_DIR_ID);
    let frozen = fs.lookup(root, "work", 9).expect("lookup failed");
    assert_eq!(frozen.perm, 0o555);
    assert_eq!(fs.getattr(frozen.ino, 9).map(|a| a.perm), Ok(0o555));
    assert!(matches!(fs.mkdir(frozen.ino, "inner", 9), Err(FsError::ReadOnly)));
    assert!(matches!(fs.create(frozen.ino, "f", 9), Err(FsError::ReadOnly)));
    assert_eq!(fs.unlink(root, "work"), Err(FsError::ReadOnly));
}

#[test]
fn restore_through_handler() {
    let mut fs = mount("restore_handler");
    match fs.mkdir(FUSE_ROOT_ID, "keep", 7) {
        Ok(MkdirOutcome::Made(_)) => {}
        _ => panic!("mkdir failed"),
    }
    assert_eq!(fs.take_snapshot("s1", 1000, 8), Ok(()));
    match fs.mkdir(FUSE_ROOT_ID, "later", 9) {
        Ok(MkdirOutcome::Made(_)) => {}
        _ => panic!("mkdir failed"),
    }
    assert_eq!(fs.restore_snapshot("s1", 2000, 10), Ok(()));
    let listing = fs.readdir(SNAPSHOT_DIR_ID).expect("readdir failed");
    assert_eq!(names(&listing), vec![".", "..", ".create", "s1", "before_restore_2000"]);
    assert_eq!(fs.lookup(FUSE_ROOT_ID, "later", 11), Err(FsError::NotFound));
    assert!(fs.lookup(FUSE_ROOT_ID, "keep", 11).is_ok());
    assert_eq!(fs.cache.len(), 0);
}

#[test]
fn tag_directories_and_virtual_files() {
    let mut fs = mount("tag_dirs");
    let tag_dir = match fs.mkdir(TAGS_DIR_ID, "Work", 7) {
        Ok(MkdirOutcome::Made(a)) => a,
        _ => panic!("mkdir failed"),
    };
    assert_eq!(tag_dir.ino, VIRTUAL_INODE_START);
    assert_eq!(tag_dir, dir_attr(VIRTUAL_INODE_START, 7));
    let real = fs.lookup(FUSE_ROOT_ID, "work", 8).expect("real directory missing");
    assert_eq!(real.kind, NodeKind::Directory);
    let file = fs.create(tag_dir.ino, "plan.txt", 9).expect("create failed").0;
    assert!(file.ino > VIRTUAL_INODE_START);
    assert_eq!(file.kind, NodeKind::RegularFile);
    let real_file = fs.lookup(real.ino, "plan.txt", 9).expect("real file missing");
    assert_eq!(fs.manager.get_file_tags(real_file.ino).expect("tags"), vec!["work".to_string()]);
    let listing = fs.readdir(tag_dir.ino).expect("readdir failed");
    assert_eq!(
        listing,
        vec![
            (tag_dir.ino, NodeKind::Directory, ".".to_string()),
            (TAGS_DIR_ID, NodeKind::Directory, "..".to_string()),
            (file.ino, NodeKind::RegularFile, "plan.txt".to_string()),
        ]
    );
    let top = fs.readdir(TAGS_DIR_ID).expect("readdir failed");
    assert_eq!(
        top,
        vec![
            (TAGS_DIR_ID, NodeKind::Directory, ".".to_string()),
            (FUSE_ROOT_ID, NodeKind::Directory, "..".to_string()),
            (tag_dir.ino, NodeKind::Directory, "work".to_string()),
        ]
    );
    assert_eq!(fs.lookup(tag_dir.ino, "plan.txt", 10).map(|a| a.ino), Ok(file.ino));
    assert_eq!(fs.getattr(file.ino, 10).map(|a| a.ino), Ok(file.ino));
    assert_eq!(fs.create(TAGS_DIR_ID, "x", 10), Err(FsError::InvalidArgument));
    assert!(matches!(fs.rmdir(tag_dir.ino, "plan.txt"), Err(FsError::InvalidArgument)));
    assert_eq!(fs.open(tag_dir.ino), Err(FsError::IsDirectory));
    assert_eq!(fs.open(file.ino), Ok(()));
    assert!(matches!(fs.read_target(tag_dir.ino), Err(FsError::IsDirectory)));
    assert_eq!(fs.unlink(tag_dir.ino, "plan.txt"), Ok((real_file.ino, true)));
    assert_eq!(fs.lookup(real.ino, "plan.txt", 11), Err(FsError::NotFound));
}

#[test]
fn write_targets() {
    let mut fs = mount("write_targets");
    let id = fs.create(FUSE_ROOT_ID, "f.txt", 7).expect("create failed").0.ino;
    assert!(matches!(fs.write_target(TAGFS_CONTROL_ID, 1, b"x"), Err(FsError::InvalidArgument)));
    assert!(matches!(fs.write_target(TAGFS_CONTROL_ID, 0, b"x"), Ok(WriteTarget::Control)));
    assert!(matches!(fs.write_target(TAGS_DIR_ID, 0, b"x"), Err(FsError::ReadOnly)));
    match fs.write_target(SNAPSHOT_CREATE_ID, 0, b"  nightly \n") {
        Ok(WriteTarget::Snapshot(name)) => assert_eq!(name, "nightly"),
        _ => panic!("expected a snapshot"),
    }
    assert!(matches!(fs.write_target(SNAPSHOT_CREATE_ID, 0, b" \n"), Err(FsError::InvalidArgument)));
    assert!(matches!(fs.write_target(SNAPSHOT_CREATE_ID, 3, b"n"), Err(FsError::InvalidArgument)));
    match fs.write_target(id, 5, b"abc") {
        Ok(WriteTarget::File(t, start)) => {
            assert_eq!(t, id);
            assert_eq!(start, 5);
        }
        _ => panic!("expected a file"),
    }
    assert_eq!(fs.change_target(id), Ok(id));
    assert_eq!(fs.change_target(TAGS_DIR_ID), Err(FsError::ReadOnly));
    assert_eq!(fs.flush_target(id), Ok(id));
    assert_eq!(fs.flush_target(TAGS_DIR_ID), Err(FsError::ReadOnly));
}

#[test]
fn write_then_read_through_cache() {
    let mut fs = mount("write_read");
    let id = fs.create(FUSE_ROOT_ID, "f.txt", 7).expect("create failed").0.ino;
    fs.cache.insert_clean(id, Vec::new());
    let end = fs.write_cached(id, 2, b"hello");
    assert_eq!(end, 7);
    fs.finish_write(id, end as u64, 20);
    let attr = fs.getattr(id, 21).expect("getattr failed");
    assert_eq!(attr.size, 7);
    assert_eq!(attr.blocks, 1);
    assert_eq!(attr.modified, 20);
    assert!(matches!(fs.read_target(id), Ok(ReadTarget::File(t)) if t == id));
    assert!(matches!(fs.read_target(TAGFS_CONTROL_ID), Ok(ReadTarget::Nothing)));
    assert!(matches!(fs.read_target(9999), Err(FsError::NotFound)));
    assert_eq!(fs.read_cached(id, 0, 100), vec![0, 0, b'h', b'e', b'l', b'l', b'o']);
    assert_eq!(fs.read_cached(id, 3, 2), b"el".to_vec());
    assert_eq!(fs.read_cached(id, 50, 2), Vec::<u8>::new());
    assert_eq!(fs.read_cached(id, -1, 2), Vec::<u8>::new());
    fs.resize_cached(id, 3);
    assert_eq!(fs.read_cached(id, 0, 100), vec![0, 0, b'h']);
    assert!(fs.cache.is_dirty(id));
}

#[test]
fn finish_write_tags_untagged_file() {
    let mut fs = mount("finish_write_tags");
    let dir = match fs.mkdir(FUSE_ROOT_ID, "music", 7) {
        Ok(MkdirOutcome::Made(a)) => a,
        _ => panic!("mkdir failed"),
    };
    let id = fs.create(dir.ino, "song.mp3", 8).expect("create failed").0.ino;
    fs.manager.delete_file_tags(id).expect("untag failed");
    assert_eq!(fs.manager.get_file_tags(id).expect("tags"), Vec::<String>::new());
    assert_eq!(fs.finish_write(id, 4, 9), AutoTag::Stored);
    assert_eq!(fs.manager.get_file_tags(id).expect("tags"), vec!["music".to_string()]);
    assert_eq!(fs.finish_write(id, 4, 10), AutoTag::NotNeeded);
}

#[test]
fn finish_write_in_root_needs_no_tags() {
    let mut fs = mount("finish_write_root");
    let id = fs.create(FUSE_ROOT_ID, "top.txt", 8).expect("create failed").0.ino;
    assert_eq!(fs.finish_write(id, 4, 9), AutoTag::NotNeeded);
    assert_eq!(fs.manager.get_file_tags(id).expect("tags"), Vec::<String>::new());
}

#[test]
fn mount_of_a_fresh_store_has_an_empty_root() {
    let mut fs = mount("fresh_mount");
    assert_eq!(fs.tree.live_dir_entries(FUSE_ROOT_ID), Some(Vec::new()));
    assert_eq!(fs.tree.get_mutable_inode("docs"), Err(FsError::NotFound));
    assert_eq!(fs.tree.get_mutable_inode("docs/a.txt"), Err(FsError::NotFound));
}

#[test]
fn mkdir_stores_record_and_entry() {
    let mut fs = mount("mkdir_store");
    let dir = match fs.mkdir(FUSE_ROOT_ID, "music", 7) {
        Ok(MkdirOutcome::Made(a)) => a,
        _ => panic!("mkdir failed"),
    };
    let meta = fs.manager.load_inode(dir.ino).expect("read failed").expect("no record");
    assert_eq!(meta.parent_id, FUSE_ROOT_ID);
    assert_eq!(meta.name, "music");
    assert!(meta.is_dir);
    assert_eq!(fs.manager.resolve_inode_by_path("music").expect("read failed"), Some(dir.ino));
}

#[test]
fn commit_flush_keeps_buffer_clean() {
    let mut fs = mount("commit_flush");
    let id = fs.create(FUSE_ROOT_ID, "f.txt", 7).expect("create failed").0.ino;
    fs.cache.insert_clean(id, Vec::new());
    fs.write_cached(id, 0, b"data");
    assert!(fs.cache.is_dirty(id));
    let buffer = fs.cache.dirty_data(id).expect("no dirty buffer");
    let (recipe, _chunks) = FileManager::create_recipe_from_data(&buffer);
    fs.commit_flush(id, &recipe, buffer).expect("flush failed");
    assert!(!fs.cache.is_dirty(id));
    assert_eq!(fs.cache.dirty_data(id), None);
    let stored: FileRecipe = fs.manager.load_recipe(id).expect("read failed").expect("no recipe");
    assert_eq!(stored.file_size, 4);
    assert_eq!(stored.chunks, recipe.chunks);
    assert!(matches!(stored.kind, FileKind::File));
}

#[test]
fn unlink_and_rmdir() {
    let mut fs = mount("unlink_rmdir");
    let id = fs.create(FUSE_ROOT_ID, "gone.txt", 7).expect("create failed").0.ino;
    fs.cache.insert_clean(id, b"x".to_vec());
    assert_eq!(fs.unlink(SNAPSHOT_DIR_ID, "gone.txt"), Err(FsError::ReadOnly));
    assert_eq!(fs.unlink(FUSE_ROOT_ID, "gone.txt"), Ok((id, true)));
    assert!(!fs.cache.contains(id));
    assert_eq!(fs.unlink(FUSE_ROOT_ID, "gone.txt"), Err(FsError::NotFound));
    let dir = match fs.mkdir(FUSE_ROOT_ID, "d", 8) {
        Ok(MkdirOutcome::Made(a)) => a,
        _ => panic!("mkdir failed"),
    };
    assert!(matches!(fs.rmdir(FUSE_ROOT_ID, "d"), Ok(Removal::Entry(i)) if i == dir.ino));
    assert!(matches!(fs.rmdir(TAGS_DIR_ID, "x"), Err(FsError::InvalidArgument)));
    assert!(matches!(fs.rmdir(SNAPSHOT_DIR_ID, "none"), Err(FsError::NotFound)));
    assert_eq!(fs.take_snapshot("s1", 1000, 9), Ok(()));
    assert!(matches!(fs.rmdir(SNAPSHOT_DIR_ID, "s1"), Ok(Removal::Snapshot(Ok(())))));
    assert_eq!(names(&fs.readdir(SNAPSHOT_DIR_ID).expect("readdir")), vec![".", "..", ".create"]);
}

#[test]
fn snapshot_isolated_from_live_changes() {
    let mut fs = mount("snapshot_isolation");
    let file = fs.create(FUSE_ROOT_ID, "file.txt", 7).expect("create failed").0;
    match fs.mkdir(FUSE_ROOT_ID, "docs", 7) {
        Ok(MkdirOutcome::Made(_)) => {}
        _ => panic!("mkdir failed"),
    }
    assert_eq!(fs.take_snapshot("v1", 1000, 8), Ok(()));
    let root = fs.readdir(SNAPSHOT_DIR_ID).expect("readdir failed")[3].0;
    let before = fs.readdir(root).expect("readdir failed");
    fs.create(FUSE_ROOT_ID, "newfile.txt", 9).expect("create failed");
    assert_eq!(fs.unlink(FUSE_ROOT_ID, "file.txt"), Ok((file.ino, true)));
    fs.finish_write(file.ino, 10, 10);
    let after = fs.readdir(root).expect("readdir failed");
    assert_eq!(after, before);
    let mut snap_names = names(&after);
    snap_names.sort();
    assert_eq!(snap_names, vec![".", "..", "docs", "file.txt"]);
    assert!(fs.lookup(root, "newfile.txt", 11).is_err());
    assert!(fs.lookup(FUSE_ROOT_ID, "newfile.txt", 11).is_ok());
}

#[test]
fn writing_into_a_snapshot_is_denied() {
    let mut fs = mount("snapshot_write_denied");
    fs.create(FUSE_ROOT_ID, "file.txt", 7).expect("create failed");
    assert_eq!(fs.take_snapshot("v1", 1000, 8), Ok(()));
    let root = fs.readdir(SNAPSHOT_DIR_ID).expect("readdir failed")[3].0;
    let frozen = fs.lookup(root, "file.txt", 9).expect("lookup failed");
    assert!(matches!(fs.write_target(frozen.ino, 0, b"hack"), Err(FsError::PermissionDenied)));
    assert_eq!(fs.change_target(frozen.ino), Err(FsError::PermissionDenied));
}

#[test]
fn restoring_a_missing_snapshot_changes_nothing() {
    let mut fs = mount("restore_missing");
    fs.create(FUSE_ROOT_ID, "file.txt", 7).expect("create failed");
    assert_eq!(fs.restore_snapshot("nope", 2000, 10), Err(FsError::NotFound));
    assert!(fs.lookup(FUSE_ROOT_ID, "file.txt", 11).is_ok());
    let listing = fs.readdir(SNAPSHOT_DIR_ID).expect("readdir failed");
    assert_eq!(names(&listing), vec![".", "..", ".create"]);
}
