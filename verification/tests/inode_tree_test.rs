use arcfs::file_manager::FileManager;
use arcfs::fs_ops::FsError;
use arcfs::inode_tree::{dir_attr, AutoTag, InodeTree, NodeKind};
use arcfs::tagfs::{TagRegistry, FUSE_ROOT_ID, SNAPSHOT_DIR_ID};

/// A directory of its own under /tmp for each run of each test.
fn scratch_dir(path: &str) -> String {
    let nanos = std::time::SystemTime::now()
        .duration_since(std::time::UNIX_EPOCH)
        .expect("clock before the epoch")
        .as_nanos();
    format!("/tmp/arcfs_{}_{}", path, nanos)
}

fn mounted(path: &str) -> (FileManager, InodeTree) {
    let mut fm = FileManager::new(&scratch_dir(path)).expect("open failed");
    let (tree, failures, complete) = InodeTree::load(&mut fm, 5);
    assert!(failures.is_empty());
    assert!(complete);
    (fm, tree)
}

#[test]
fn new_tree_holds_only_the_root() {
    let tree = InodeTree::new(5);
    assert!(tree.is_live(FUSE_ROOT_ID));
    assert!(!tree.is_live(100));
    assert_eq!(tree.lookup_live_inode_attr(FUSE_ROOT_ID), Some(dir_attr(FUSE_ROOT_ID, 5)));
    assert_eq!(tree.lookup_live_inode_name(FUSE_ROOT_ID), Some(String::new()));
    assert_eq!(tree.lookup_live_inode_parent(FUSE_ROOT_ID), Some(0));
    assert_eq!(tree.live_dir_entries(FUSE_ROOT_ID), Some(vec![]));
    assert_eq!(tree.live_dir_entries(7), None);
    assert!(tree.snapshot_list().is_empty());
    assert!(!tree.has_snapshot("s1"));
    assert_eq!(tree.get_path_from_inode(FUSE_ROOT_ID), Some(String::new()));
}

#[test]
fn mkdir_joins_live_tree_and_store() {
    let (mut fm, mut tree) = mounted("mkdir_live");
    let attr = tree.mkdir_live(&mut fm, FUSE_ROOT_ID, "docs", 7).expect("mkdir failed");
    assert_eq!(attr, dir_attr(100, 7));
    assert_eq!(tree.lookup_live_child(FUSE_ROOT_ID, "docs"), Some(attr));
    assert_eq!(tree.lookup_live_child(FUSE_ROOT_ID, "other"), None);
    assert_eq!(
        tree.live_dir_entries(FUSE_ROOT_ID),
        Some(vec![(100, NodeKind::Directory, "docs".to_string())])
    );
    assert_eq!(tree.lookup_live_inode_parent(100), Some(FUSE_ROOT_ID));
    let stored = fm.load_inode(100).expect("read failed").expect("no record");
    assert_eq!(stored.name, "docs");
    assert!(stored.is_dir);
    let dirents = fm.list_dirents(FUSE_ROOT_ID).expect("read failed");
    assert_eq!(dirents.len(), 1);
    assert_eq!(dirents[0].name, "docs");
    assert_eq!(dirents[0].child_inode_id, 100);
}

#[test]
fn mkdir_under_missing_parent_is_not_found() {
    let (mut fm, mut tree) = mounted("mkdir_missing");
    assert_eq!(tree.mkdir_live(&mut fm, 4242, "x", 7), Err(FsError::NotFound));
    assert_eq!(tree.live_dir_entries(FUSE_ROOT_ID), Some(vec![]));
}

#[test]
fn new_file_is_tagged_with_its_directories() {
    let (mut fm, mut tree) = mounted("create_file");
    tree.mkdir_live(&mut fm, FUSE_ROOT_ID, "work", 7).expect("mkdir failed");
    let (id, tagged) = tree
        .create_live_file_under_parent(&mut fm, 100, "a.txt", 8)
        .expect("create failed");
    assert_eq!(id, 101);
    assert_eq!(tagged, AutoTag::Stored);
    let meta = fm.load_inode(id).expect("read failed").expect("no record");
    assert_eq!((meta.parent_id, meta.name.as_str(), meta.is_dir), (100, "a.txt", false));
    assert_eq!(tree.lookup_live_inode_parent(id), Some(100));
    assert_eq!(tree.lookup_live_inode_name(id), Some("a.txt".to_string()));
    assert_eq!(tree.lookup_live_inode_attr(id).map(|a| a.kind), Some(NodeKind::RegularFile));
    assert_eq!(fm.get_file_tags(id).expect("tags"), vec!["work".to_string()]);
    assert_eq!(tree.derive_tags_from_parent_ancestry(&fm, 100), vec!["work".to_string()]);
    assert_eq!(tree.derive_tags_from_parent_ancestry(&fm, FUSE_ROOT_ID), Vec::<String>::new());
    let recipe = fm.load_recipe(id).expect("read failed").expect("no recipe");
    assert_eq!(recipe.file_size, 0);
    assert!(recipe.chunks.is_empty());
}

#[test]
fn file_in_root_gets_no_tags() {
    let (mut fm, mut tree) = mounted("create_root_file");
    let (id, tagged) = tree
        .create_live_file_under_parent(&mut fm, FUSE_ROOT_ID, "plain.txt", 8)
        .expect("create failed");
    assert_eq!(tagged, AutoTag::NotNeeded);
    assert_eq!(fm.get_file_tags(id).expect("tags"), Vec::<String>::new());
    assert_eq!(fm.resolve_inode_by_path("plain.txt").expect("read failed"), Some(id));
    assert_eq!(
        tree.create_live_file_under_parent(&mut fm, 999, "x", 8),
        Err(FsError::NotFound)
    );
}

#[test]
fn unlink_takes_entry_out() {
    let (mut fm, mut tree) = mounted("unlink");
    tree.mkdir_live(&mut fm, FUSE_ROOT_ID, "work", 7).expect("mkdir failed");
    let id = tree
        .create_live_file_under_parent(&mut fm, 100, "a.txt", 8)
        .expect("create failed")
        .0;
    assert_eq!(tree.unlink_live(&mut fm, 100, "a.txt"), Ok((id, true)));
    assert_eq!(tree.lookup_live_child(100, "a.txt"), None);
    assert!(fm.list_dirents(100).expect("read failed").is_empty());
    assert_eq!(fm.get_file_tags(id).expect("tags"), Vec::<String>::new());
    assert_eq!(tree.unlink_live(&mut fm, 100, "a.txt"), Err(FsError::NotFound));
    assert_eq!(tree.unlink_live(&mut fm, 555, "a.txt"), Err(FsError::NotFound));
}

#[test]
fn unlink_real_uses_the_created_name() {
    let (mut fm, mut tree) = mounted("unlink_real");
    tree.mkdir_live(&mut fm, FUSE_ROOT_ID, "work", 7).expect("mkdir failed");
    let id = tree
        .create_live_file_under_parent(&mut fm, 100, "b.txt", 8)
        .expect("create failed")
        .0;
    assert_eq!(tree.unlink_real(&mut fm, id), Ok((id, true)));
    assert_eq!(tree.lookup_live_child(100, "b.txt"), None);
    assert_eq!(tree.unlink_real(&mut fm, 9999), Err(FsError::NotFound));
}

#[test]
fn tag_path_directories_are_made_once() {
    let (mut fm, mut tree) = mounted("tag_path");
    let tags = vec!["Work".to_string(), "2026".to_string()];
    let last = tree.ensure_real_path_for_tags(&mut fm, &tags, 9).expect("path failed");
    // canonical order: "2026" then "work"
    assert_eq!(tree.lookup_live_child(FUSE_ROOT_ID, "2026").map(|a| a.ino), Some(100));
    assert_eq!(tree.lookup_live_child(100, "work").map(|a| a.ino), Some(last));
    assert_eq!(tree.get_path_from_inode(last), Some("2026/work".to_string()));
    let again = tree.ensure_real_path_for_tags(&mut fm, &tags, 10).expect("path failed");
    assert_eq!(again, last);
}

#[test]
fn tag_path_through_a_file_is_invalid() {
    let (mut fm, mut tree) = mounted("tag_path_file");
    tree.create_live_file_under_parent(&mut fm, FUSE_ROOT_ID, "work", 8)
        .expect("create failed");
    let tags = vec!["work".to_string()];
    assert_eq!(
        tree.ensure_real_path_for_tags(&mut fm, &tags, 9),
        Err(FsError::InvalidArgument)
    );
}

#[test]
fn get_mutable_inode_walks_the_path() {
    let path = scratch_dir("mutable_inode");
    {
        let mut fm = FileManager::new(&path).expect("open failed");
        let (mut tree, _, _) = InodeTree::load(&mut fm, 5);
        tree.mkdir_live(&mut fm, FUSE_ROOT_ID, "docs", 7).expect("mkdir failed");
        fm.flush().expect("flush failed");
    }
    let mut fm = FileManager::new(&path).expect("reopen failed");
    let (mut tree, _, _) = InodeTree::load(&mut fm, 20);
    assert_eq!(tree.get_path_from_inode(100), Some("docs".to_string()));
    assert!(tree.get_mutable_inode("docs").is_ok());
    assert!(tree.get_mutable_inode("/docs/").is_ok());
    assert!(tree.get_mutable_inode("").is_ok());
    assert_eq!(tree.get_mutable_inode("docs/missing"), Err(FsError::NotFound));
    assert_eq!(tree.get_mutable_inode("nothing"), Err(FsError::NotFound));
}

#[test]
fn snapshot_freezes_stored_tree() {
    let (mut fm, mut tree) = mounted("snapshot");
    tree.mkdir_live(&mut fm, FUSE_ROOT_ID, "work", 7).expect("mkdir failed");
    tree.create_snapshot_named(&mut fm, "s1", 1000, 11).expect("snapshot failed");
    assert!(tree.has_snapshot("s1"));
    let list = tree.snapshot_list();
    assert_eq!(list.len(), 1);
    assert_eq!(list[0].1, "s1");
    let snap_root = list[0].0;
    let root_attr = tree.snapshot_root_attr("s1").expect("no root");
    assert_eq!(root_attr.ino, snap_root);
    assert_eq!(root_attr.perm, 0o555);
    let work = tree.snapshot_lookup(snap_root, "work").expect("root not found").expect("no work");
    assert_eq!(work.kind, NodeKind::Directory);
    assert_eq!(work.perm, 0o555);
    assert_eq!(tree.snapshot_lookup(snap_root, "nope"), Some(None));
    assert_eq!(tree.snapshot_lookup(4242, "work"), None);
    assert!(tree.inode_in_snapshot(work.ino));
    assert_eq!(tree.snapshot_attr(work.ino).map(|a| a.perm), Some(0o555));
    let (parent, entries) = tree.snapshot_dir_entries(snap_root).expect("no listing");
    assert_eq!(parent, SNAPSHOT_DIR_ID);
    assert_eq!(entries, vec![(work.ino, NodeKind::Directory, "work".to_string())]);
    assert_eq!(
        tree.create_snapshot_named(&mut fm, "s1", 1001, 12),
        Err("Snapshot 's1' already exists".to_string())
    );
}

#[test]
fn restore_brings_back_snapshot_contents() {
    let (mut fm, mut tree) = mounted("restore");
    tree.mkdir_live(&mut fm, FUSE_ROOT_ID, "work", 7).expect("mkdir failed");
    tree.create_snapshot_named(&mut fm, "s1", 1000, 11).expect("snapshot failed");
    tree.mkdir_live(&mut fm, FUSE_ROOT_ID, "later", 12).expect("mkdir failed");
    assert!(tree.lookup_live_child(FUSE_ROOT_ID, "later").is_some());
    tree.restore_live_from_snapshot(&mut fm, "s1", 13).expect("restore failed");
    assert_eq!(tree.lookup_live_child(FUSE_ROOT_ID, "later"), None);
    let entries = tree.live_dir_entries(FUSE_ROOT_ID).expect("no root");
    assert_eq!(entries.len(), 1);
    assert_eq!(entries[0].1, NodeKind::Directory);
    assert_eq!(entries[0].2, "work");
    assert!(tree.is_live(entries[0].0));
    let names: Vec<String> = fm
        .list_dirents(FUSE_ROOT_ID)
        .expect("read failed")
        .into_iter()
        .map(|d| d.name)
        .collect();
    assert_eq!(names, vec!["work".to_string()]);
    assert!(tree.restore_live_from_snapshot(&mut fm, "missing", 14).is_err());
}

#[test]
fn remove_snapshot_drops_it() {
    let (mut fm, mut tree) = mounted("remove_snapshot");
    tree.create_snapshot_named(&mut fm, "s1", 1000, 11).expect("snapshot failed");
    assert_eq!(tree.remove_snapshot(&mut fm, "s1"), Some(Ok(())));
    assert!(!tree.has_snapshot("s1"));
    assert!(fm.load_snapshots().is_empty());
    assert_eq!(tree.remove_snapshot(&mut fm, "s1"), None);
}

#[test]
fn load_rebuilds_live_tree_and_snapshots() {
    let path = scratch_dir("load");
    let file_id;
    {
        let mut fm = FileManager::new(&path).expect("open failed");
        let (mut tree, _, _) = InodeTree::load(&mut fm, 5);
        tree.mkdir_live(&mut fm, FUSE_ROOT_ID, "docs", 7).expect("mkdir failed");
        file_id = tree
            .create_live_file_under_parent(&mut fm, 100, "n.txt", 8)
            .expect("create failed")
            .0;
        tree.create_snapshot_named(&mut fm, "s1", 1000, 11).expect("snapshot failed");
        fm.flush().expect("flush failed");
    }
    let mut fm = FileManager::new(&path).expect("reopen failed");
    let (tree, failures, complete) = InodeTree::load(&mut fm, 20);
    assert!(failures.is_empty());
    assert!(complete);
    assert_eq!(
        tree.live_dir_entries(FUSE_ROOT_ID),
        Some(vec![(100, NodeKind::Directory, "docs".to_string())])
    );
    assert_eq!(tree.lookup_live_child(100, "n.txt").map(|a| a.ino), Some(file_id));
    assert!(tree.has_snapshot("s1"));
}

#[test]
fn tag_dir_name_resolves_to_live_file() {
    let (mut fm, mut tree) = mounted("resolve_tag_dir");
    tree.mkdir_live(&mut fm, FUSE_ROOT_ID, "work", 7).expect("mkdir failed");
    let id = tree
        .create_live_file_under_parent(&mut fm, 100, "a.txt", 8)
        .expect("create failed")
        .0;
    let mut tags = TagRegistry::new();
    let dir = tags
        .get_or_create_tag_virtual_dir(&["work".to_string()])
        .expect("registry full");
    assert_eq!(tree.resolve_real_file_in_tag_dir(&fm, &tags, dir, "a.txt"), Ok(id));
    assert_eq!(
        tree.resolve_real_file_in_tag_dir(&fm, &tags, dir, "b.txt"),
        Err(FsError::NotFound)
    );
    assert_eq!(
        tree.resolve_real_file_in_tag_dir(&fm, &tags, 12345, "a.txt"),
        Err(FsError::NotFound)
    );
}

#[test]
fn paths_and_snapshot_nodes_are_found_below_the_top() {
    let (mut fm, mut tree) = mounted("deep_paths");
    let tags = vec!["a".to_string(), "b".to_string()];
    let b = tree.ensure_real_path_for_tags(&mut fm, &tags, 7).expect("path failed");
    assert_eq!(tree.get_path_from_inode(b), Some("a/b".to_string()));
    assert_eq!(tree.get_path_from_inode(4242), None);
    assert!(!tree.inode_in_snapshot(b));
    assert_eq!(tree.snapshot_attr(b), None);
    assert_eq!(tree.snapshot_dir_entries(b), None);
    tree.create_snapshot_named(&mut fm, "s1", 1000, 11).expect("snapshot failed");
    let snap_root = tree.snapshot_list()[0].0;
    let sa = tree.snapshot_lookup(snap_root, "a").expect("root not found").expect("no a");
    let sb = tree.snapshot_lookup(sa.ino, "b").expect("a not found").expect("no b");
    assert!(tree.inode_in_snapshot(sb.ino));
    assert_eq!(tree.snapshot_dir_entries(sa.ino), Some((sa.ino, vec![(sb.ino, NodeKind::Directory, "b".to_string())])));
    assert_eq!(tree.snapshot_dir_entries(sb.ino), Some((sb.ino, vec![])));
}
