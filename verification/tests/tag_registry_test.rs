use arcfs::file_manager::FileManager;
use arcfs::tagfs::{
    canonicalize_tags, tag_file_key, tag_key, TagEntry, TagRegistry, FUSE_ROOT_ID, TAGS_DIR_ID,
    VIRTUAL_INODE_START,
};

/// A directory of its own under /tmp for each run of each test, named
/// after `path`; the test harness cannot remove directories, so each run
/// starts from an empty one instead.
fn scratch_dir(path: &str) -> String {
    let nanos = std::time::SystemTime::now()
        .duration_since(std::time::UNIX_EPOCH)
        .expect("clock before the epoch")
        .as_nanos();
    format!("/tmp/arcfs_{}_{}", path.trim_start_matches("./"), nanos)
}

fn fresh(path: &str) -> FileManager {
    FileManager::new(&scratch_dir(path)).expect("open failed")
}

fn strings(v: &[&str]) -> Vec<String> {
    v.iter().map(|s| s.to_string()).collect()
}

#[test]
fn canonical_tags_and_keys() {
    let c = canonicalize_tags(&strings(&[" B", "a", "b ", "", "A"]));
    assert_eq!(c, strings(&["a", "b"]));
    assert_eq!(tag_key(&c), "a/b");
    assert_eq!(tag_key(&[]), "");
    assert_eq!(tag_file_key(&c, 42), "a/b|42");
}

#[test]
fn virtual_directories_are_stable() {
    let mut r = TagRegistry::new();
    let a = r.get_or_create_tag_virtual_dir(&strings(&["work", "2026"])).unwrap();
    let b = r.get_or_create_tag_virtual_dir(&strings(&["2026", " Work "])).unwrap();
    assert_eq!(a, VIRTUAL_INODE_START);
    assert_eq!(a, b);
    let c = r.get_or_create_tag_virtual_dir(&strings(&["work"])).unwrap();
    assert_eq!(c, VIRTUAL_INODE_START + 1);
    assert_eq!(r.existing_tag_virtual_dir(&strings(&["WORK"])), Some(c));
    assert_eq!(r.existing_tag_virtual_dir(&strings(&["home"])), None);
    assert_eq!(r.get_virtual_dir_tags(a), Some(strings(&["2026", "work"])));
    assert!(r.is_tag_virtual_dir_inode(a));
    assert!(r.is_tag_virtual_dir_inode(TAGS_DIR_ID));
    assert!(!r.is_tag_virtual_file_inode(a));
}

#[test]
fn virtual_files_stand_for_live_inodes() {
    let mut r = TagRegistry::new();
    let d = r.get_or_create_tag_virtual_dir(&strings(&["x"])).unwrap();
    let f = r.get_or_create_tag_virtual_file(&strings(&["x"]), 77).unwrap();
    let g = r.get_or_create_tag_virtual_file(&strings(&["X "]), 77).unwrap();
    let h = r.get_or_create_tag_virtual_file(&strings(&["x"]), 78).unwrap();
    assert_eq!(f, g);
    assert_ne!(f, h);
    assert_ne!(f, d);
    assert_eq!(r.real_inode_for_virtual_file(f), Some(77));
    assert_eq!(r.real_inode_for_virtual_file(h), Some(78));
    assert_eq!(r.real_inode_for_virtual_file(d), None);
    assert!(r.is_tag_virtual_file_inode(f));
    assert!(!r.is_tag_virtual_dir_inode(f));
    assert_eq!(r.get_virtual_dir_tags(f), None);
    assert_eq!(r.real_inode_for_virtual_file(5), None);
}

#[test]
fn lookups_under_tags() {
    let path = "./test_registry_lookup";
    let mut fm = fresh(path);
    fm.set_file_tags(100, "a.txt", strings(&["work", "2026"])).unwrap();
    fm.set_file_tags(101, "b.txt", strings(&["work"])).unwrap();
    let mut r = TagRegistry::new();

    match r.resolve_tag_lookup(&fm, FUSE_ROOT_ID, "@tags").unwrap() {
        Some(TagEntry::Dir(v)) => assert_eq!(v, TAGS_DIR_ID),
        _ => panic!("@tags not found"),
    }
    assert!(r.resolve_tag_lookup(&fm, TAGS_DIR_ID, "home").unwrap().is_none());
    let work = match r.resolve_tag_lookup(&fm, TAGS_DIR_ID, "Work").unwrap() {
        Some(TagEntry::Dir(v)) => v,
        _ => panic!("work not found"),
    };
    assert_eq!(r.get_virtual_dir_tags(work), Some(strings(&["work"])));
    let both = match r.resolve_tag_lookup(&fm, work, "2026").unwrap() {
        Some(TagEntry::Dir(v)) => v,
        _ => panic!("work/2026 not found"),
    };
    assert_eq!(r.get_virtual_dir_tags(both), Some(strings(&["2026", "work"])));
    match r.resolve_tag_lookup(&fm, work, "b.txt").unwrap() {
        Some(TagEntry::Files(tags, ids)) => {
            assert_eq!(tags, strings(&["work"]));
            assert_eq!(ids, vec![100, 101]);
            let names = [Some("a.txt".to_string()), Some("b.txt".to_string())];
            let (v, live) = r.pick_virtual_file(&tags, &ids, &names, "b.txt").unwrap().unwrap();
            assert_eq!(live, 101);
            assert_eq!(r.real_inode_for_virtual_file(v), Some(101));
            assert_eq!(r.pick_virtual_file(&tags, &ids, &names, "c.txt").unwrap(), None);
        }
        _ => panic!("files not offered"),
    }
    assert!(r.resolve_tag_lookup(&fm, 12345, "x").unwrap().is_none());
}

#[test]
fn tag_listings_merge_store_and_registry() {
    let path = "./test_registry_listing";
    let mut fm = fresh(path);
    fm.set_file_tags(1, "a", strings(&["work", "2026"])).unwrap();
    fm.set_file_tags(2, "b", strings(&["home"])).unwrap();
    let mut r = TagRegistry::new();
    r.get_or_create_tag_virtual_dir(&strings(&["ideas"])).unwrap();
    r.get_or_create_tag_virtual_dir(&strings(&["work", "later"])).unwrap();
    assert_eq!(r.top_level_tags(&fm), strings(&["2026", "home", "ideas", "work"]));
    assert_eq!(r.child_tags(&fm, &strings(&["work"])), strings(&["2026", "later"]));
    assert_eq!(r.child_tags(&fm, &strings(&["home"])), Vec::<String>::new());
}

#[test]
fn directory_entries_register_virtual_directories() {
    let path = "./test_registry_entries";
    let mut fm = fresh(path);
    fm.set_file_tags(1, "a", strings(&["work", "2026"])).unwrap();
    fm.set_file_tags(2, "b", strings(&["home"])).unwrap();
    let mut r = TagRegistry::new();
    let top = r.tags_dir_entries(&fm).unwrap();
    let names: Vec<&str> = top.iter().map(|(_, n)| n.as_str()).collect();
    assert_eq!(names, vec!["2026", "home", "work"]);
    for (v, n) in &top {
        assert_eq!(r.existing_tag_virtual_dir(&[n.clone()]), Some(*v));
    }
    // Listing again finds the same directories.
    let again = r.tags_dir_entries(&fm).unwrap();
    assert_eq!(top, again);

    let work = r.existing_tag_virtual_dir(&strings(&["work"])).unwrap();
    let current = r.get_virtual_dir_tags(work).unwrap();
    let below = r.child_dir_entries(&fm, &current).unwrap();
    assert_eq!(below.len(), 1);
    assert_eq!(below[0].1, "2026");
    assert_eq!(r.get_virtual_dir_tags(below[0].0), Some(strings(&["2026", "work"])));

    let ids = vec![1u64, 7];
    let live = vec![Some("a".to_string()), None];
    let files = r.file_entries(&current, &ids, &live).unwrap();
    assert_eq!(files.len(), 1);
    assert_eq!(files[0].1, "a");
    assert_eq!(r.real_inode_for_virtual_file(files[0].0), Some(1));
}
