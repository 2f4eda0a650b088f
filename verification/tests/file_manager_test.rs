use arcfs::file_manager::{FileKind, FileManager, FileRecipe, InodeAttr, InodeMetadata};

/// A directory of its own under /tmp for each run of each test, named
/// after `path`; the test harness cannot remove directories, so each run
/// starts from an empty one instead.
fn scratch_dir(path: &str) -> String {
    let nanos = std::time::SystemTime::now()
        .duration_since(std::time::UNIX_EPOCH)
        .expect("clock before the epoch")
        .as_nanos();
    format!("/tmp/arcfs_{}_{}", path.trim_start_matches("./"), nanos)
}

fn fresh(path: &str) -> FileManager {
    FileManager::new(&scratch_dir(path)).expect("open failed")
}

#[test]
fn metadata_schema_roundtrip() {
    let path = &scratch_dir("./test_file_manager_schema");

    let mut fm = FileManager::new(path).expect("open failed");

    let recipe = FileRecipe {
        file_size: 5,
        chunks: vec!["abc".to_string()],
        kind: FileKind::File,
    };

    fm.save_recipe(42, &recipe).expect("save recipe failed");
    let loaded = fm
        .load_recipe(42)
        .expect("load recipe failed")
        .expect("missing recipe");
    assert_eq!(loaded.file_size, 5);

    fm.save_dirent(1, "hello.txt", 42)
        .expect("save dirent failed");
    let dirents = fm.list_dirents(1).expect("list dirents failed");
    assert_eq!(dirents.len(), 1);
    assert_eq!(dirents[0].name, "hello.txt");
    assert_eq!(dirents[0].child_inode_id, 42);

    fm.delete_dirent(1, "hello.txt")
        .expect("delete dirent failed");
    let dirents_after = fm.list_dirents(1).expect("list dirents failed");
    assert!(dirents_after.is_empty());

}

#[test]
fn record_keys_have_their_prefixes() {
    assert_eq!(FileManager::inode_key(7), "ino_meta:7");
    assert_eq!(FileManager::recipe_key(42), "ino_recipe:42");
    assert_eq!(FileManager::dirent_prefix(1), "dirent:1:");
    assert_eq!(FileManager::dirent_key(3, "a.txt"), "dirent:3:a.txt");
    assert_eq!(FileManager::ino_tags_key(18446744073709551615), "ino_tags:18446744073709551615");
    assert_eq!(FileManager::tag_index_key("work"), "tag_index:work");
    assert_eq!(FileManager::snapshot_key("s1"), "snapshot:s1");
    assert_eq!(FileManager::get_legacy_key("f"), "legacy_name:f");
    assert_eq!(FileManager::inode_key(0), "ino_meta:0");
}

#[test]
fn normalize_tags_trims_lowercases_dedups_and_sorts() {
    let out = FileManager::normalize_tags(vec![
        " Work ".into(),
        "".into(),
        "   ".into(),
        "b".into(),
        "WORK".into(),
        "a".into(),
    ]);
    assert_eq!(out, vec!["a".to_string(), "b".to_string(), "work".to_string()]);
}

#[test]
fn inode_roundtrip_and_listing() {
    let path = "./test_fm_inodes";
    let mut fm = fresh(path);
    let meta = InodeMetadata {
        id: 100,
        parent_id: 1,
        name: "notes".into(),
        is_dir: true,
        attr: InodeAttr { size: 0 },
    };
    fm.save_inode(&meta).expect("save inode failed");
    let back = fm.load_inode(100).expect("load failed").expect("missing inode");
    assert_eq!(back.id, 100);
    assert_eq!(back.parent_id, 1);
    assert_eq!(back.name, "notes");
    assert!(back.is_dir);
    assert!(fm.load_inode(101).expect("load failed").is_none());
    let all = fm.load_all_inodes();
    assert_eq!(all.len(), 1);
    assert_eq!(all[0].name, "notes");
}

#[test]
fn dirents_list_in_key_order_and_only_their_parent() {
    let path = "./test_fm_dirents";
    let mut fm = fresh(path);
    fm.save_dirent(1, "b", 11).unwrap();
    fm.save_dirent(1, "a", 10).unwrap();
    fm.save_dirent(2, "c", 12).unwrap();
    fm.save_dirent(11, "x", 13).unwrap();
    let d = fm.list_dirents(1).unwrap();
    let names: Vec<&str> = d.iter().map(|e| e.name.as_str()).collect();
    assert_eq!(names, vec!["a", "b"]);
    assert!(d.iter().all(|e| e.parent_id == 1));
    assert_eq!(d[0].child_inode_id, 10);
}

#[test]
fn resolve_paths_through_dirents() {
    let path = "./test_fm_resolve";
    let mut fm = fresh(path);
    fm.save_dirent(1, "docs", 100).unwrap();
    fm.save_dirent(100, "a.txt", 101).unwrap();
    assert_eq!(fm.resolve_inode_by_path("docs/a.txt").unwrap(), Some(101));
    assert_eq!(fm.resolve_inode_by_path("/docs//a.txt/").unwrap(), Some(101));
    assert_eq!(fm.resolve_inode_by_path("").unwrap(), Some(1));
    assert_eq!(fm.resolve_inode_by_path("docs/b.txt").unwrap(), None);
    let id = fm
        .set_file_tags_by_path("docs/a.txt", vec!["Alpha".into()])
        .unwrap();
    assert_eq!(id, 101);
    assert_eq!(fm.get_file_tags(101).unwrap(), vec!["alpha".to_string()]);
    assert_eq!(
        fm.set_file_tags_by_path("docs/missing", vec!["x".into()]),
        Err("Path not found: docs/missing".to_string())
    );
}

#[test]
fn emptied_tag_leaves_the_index() {
    let mut fm = fresh("./test_fm_emptied_tag");
    fm.set_file_tags(7, "f", vec!["solo".into(), "shared".into()]).unwrap();
    fm.set_file_tags(8, "g", vec!["shared".into()]).unwrap();
    fm.delete_file_tags(7).unwrap();
    assert_eq!(fm.get_next_level_tags(&[]).unwrap(), vec!["shared".to_string()]);
    fm.set_file_tags(8, "g", vec!["other".into()]).unwrap();
    assert_eq!(fm.get_next_level_tags(&[]).unwrap(), vec!["other".to_string()]);
}

#[test]
fn add_and_remove_single_tags() {
    let path = "./test_fm_addremove";
    let mut fm = fresh(path);
    fm.add_tag_to_file(7, "f", " Red ").unwrap();
    fm.add_tag_to_file(7, "f", "blue").unwrap();
    fm.add_tag_to_file(7, "f", "   ").unwrap();
    assert_eq!(fm.get_file_tags(7).unwrap(), vec!["blue".to_string(), "red".to_string()]);
    fm.remove_tag_from_file(7, "f", "RED").unwrap();
    assert_eq!(fm.get_file_tags(7).unwrap(), vec!["blue".to_string()]);
    assert_eq!(fm.get_files_with_tag("red").unwrap(), Vec::<u64>::new());
    assert_eq!(fm.get_files_with_tag("Blue").unwrap(), vec![7]);
    fm.remove_tag_from_file(7, "f", "blue").unwrap();
    assert!(fm.get_file_tags(7).unwrap().is_empty());
    assert!(fm.get_files_with_tag("blue").unwrap().is_empty());
}

#[test]
fn retagging_moves_index_entries() {
    let path = "./test_fm_retag";
    let mut fm = fresh(path);
    fm.set_file_tags(1, "a", vec!["x".into(), "y".into()]).unwrap();
    fm.set_file_tags(2, "b", vec!["y".into()]).unwrap();
    fm.set_file_tags(1, "a", vec!["z".into()]).unwrap();
    assert!(fm.get_files_with_tag("x").unwrap().is_empty());
    assert_eq!(fm.get_files_with_tag("y").unwrap(), vec![2]);
    assert_eq!(fm.get_files_with_tag("z").unwrap(), vec![1]);
    assert!(fm.get_files_by_tags(&[]).unwrap().is_empty());
    assert!(fm.get_files_by_tags(&["  ".into()]).unwrap().is_empty());
    let top = fm.get_next_level_tags(&[]).unwrap();
    assert_eq!(top, vec!["y".to_string(), "z".to_string()]);
}

#[test]
fn snapshots_roundtrip_and_delete() {
    let path = "./test_fm_snapshots";
    let mut fm = fresh(path);
    fm.save_snapshot("first", 1700000000, 100).unwrap();
    fm.save_snapshot("second", 1700000100, 200).unwrap();
    let snaps = fm.load_snapshots();
    assert_eq!(snaps.len(), 2);
    assert_eq!(snaps[0].name, "first");
    assert_eq!(snaps[0].timestamp, 1700000000);
    assert_eq!(snaps[0].root_id, 100);
    fm.delete_snapshot("first").unwrap();
    let snaps = fm.load_snapshots();
    assert_eq!(snaps.len(), 1);
    assert_eq!(snaps[0].name, "second");
}

#[test]
fn legacy_names_get_consecutive_inodes() {
    let path = "./test_fm_legacy";
    let mut fm = fresh(path);
    let a = fm.assign_legacy_inode("a.txt").unwrap();
    let b = fm.assign_legacy_inode("b.txt").unwrap();
    let a_again = fm.assign_legacy_inode("a.txt").unwrap();
    assert_eq!(a, 1_000_000);
    assert_eq!(b, 1_000_001);
    assert_eq!(a_again, a);
    assert_eq!(fm.legacy_inode("b.txt").unwrap(), b);
    assert!(fm.legacy_inode("missing").is_err());
    assert_eq!(fm.list_files(), vec!["a.txt".to_string(), "b.txt".to_string()]);
    fm.create_directory("dir").unwrap();
    assert_eq!(fm.get_file_metadata("dir"), Some((0, FileKind::Directory)));
    assert_eq!(fm.get_file_metadata("a.txt"), None);
    fm.rename_file("a.txt", "c.txt").unwrap();
    assert_eq!(fm.legacy_inode("c.txt").unwrap(), a);
    assert!(fm.rename_file("nope", "x").is_err());
    fm.delete_file("c.txt").unwrap();
    assert_eq!(
        fm.list_files(),
        vec!["b.txt".to_string(), "dir".to_string()]
    );
}

#[test]
fn recipe_chunks_for_files_and_directories() {
    let path = "./test_fm_recipe_chunks";
    let mut fm = fresh(path);
    let r = FileRecipe {
        file_size: 3,
        chunks: vec!["h1".into(), "h2".into()],
        kind: FileKind::File,
    };
    fm.save_recipe(5, &r).unwrap();
    assert_eq!(fm.recipe_chunks(5).unwrap(), vec!["h1".to_string(), "h2".to_string()]);
    let d = FileRecipe { file_size: 0, chunks: vec!["zz".into()], kind: FileKind::Directory };
    fm.save_recipe(6, &d).unwrap();
    assert!(fm.recipe_chunks(6).unwrap().is_empty());
    assert!(fm.recipe_chunks(7).is_err());
    let active = fm.active_chunk_hashes().unwrap();
    assert_eq!(active, vec!["h1".to_string(), "h2".to_string(), "zz".to_string()]);
    let orphans = FileManager::orphaned_chunks(
        &vec!["h0".into(), "h1".into(), "h3".into()],
        &active,
    );
    assert_eq!(orphans, vec!["h0".to_string(), "h3".to_string()]);
    let records = fm.inspect_records();
    assert_eq!(records.len(), 2);
    assert_eq!(records[0].0, "ino_recipe:5");
    assert_eq!(records[0].1.as_ref().unwrap().file_size, 3);
}

#[test]
fn dirents_from_entries_decodes_each_target() {
    let five = bincode::serialize(&5u64).expect("encode failed");
    let seven = bincode::serialize(&7u64).expect("encode failed");
    let entries = vec![("a".to_string(), five), ("b".to_string(), seven)];
    let v = FileManager::dirents_from_entries(3, entries).expect("decode failed");
    assert_eq!(v.len(), 2);
    assert_eq!((v[0].parent_id, v[0].name.as_str(), v[0].child_inode_id), (3, "a", 5));
    assert_eq!((v[1].parent_id, v[1].name.as_str(), v[1].child_inode_id), (3, "b", 7));
    let bad = vec![("a".to_string(), vec![1u8, 2])];
    let e = FileManager::dirents_from_entries(3, bad).expect_err("short bytes decoded");
    assert!(e.starts_with("Dirent deserialization error: "));
    assert!(FileManager::dirents_from_entries(3, Vec::new()).expect("empty failed").is_empty());
}

#[test]
fn removing_a_tag_just_added_restores_the_tags() {
    let mut fm = fresh("remove_undoes_add");
    fm.set_file_tags(9, "song.mp3", vec!["a".to_string(), "b".to_string()]).unwrap();
    fm.add_tag_to_file(9, "song.mp3", " Music ").unwrap();
    assert_eq!(fm.get_file_tags(9).unwrap(), vec!["a".to_string(), "b".to_string(), "music".to_string()]);
    assert_eq!(fm.get_files_with_tag("music").unwrap(), vec![9]);
    fm.remove_tag_from_file(9, "song.mp3", "MUSIC").unwrap();
    assert_eq!(fm.get_file_tags(9).unwrap(), vec!["a".to_string(), "b".to_string()]);
    assert!(!fm.get_files_with_tag("music").unwrap().contains(&9));
}
