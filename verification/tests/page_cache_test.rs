use arcfs::page_cache::{PageCache, PAGE_CACHE_CAPACITY};

#[test]
fn read_after_write_gives_the_bytes_back() {
    let mut c = PageCache::new();
    let end = c.write_at(7, 3, b"hello");
    assert_eq!(end, 8);
    assert_eq!(c.read_range(7, 3, 5), b"hello".to_vec());
    // The gap before the write reads as zeros.
    assert_eq!(c.read_range(7, 0, 8), b"\0\0\0hello".to_vec());
    assert!(c.is_dirty(7));
}

#[test]
fn write_overlays_existing_data() {
    let mut c = PageCache::new();
    c.insert_clean(1, b"abcdefgh".to_vec());
    assert!(!c.is_dirty(1));
    c.write_at(1, 2, b"XY");
    assert_eq!(c.read_range(1, 0, 100), b"abXYefgh".to_vec());
    c.write_at(1, 6, b"1234");
    assert_eq!(c.read_range(1, 0, 100), b"abXYef1234".to_vec());
    assert!(c.is_dirty(1));
}

#[test]
fn reads_past_the_end_are_empty_or_short() {
    let mut c = PageCache::new();
    c.insert_clean(2, b"abc".to_vec());
    assert_eq!(c.read_range(2, 3, 10), Vec::<u8>::new());
    assert_eq!(c.read_range(2, 100, 10), Vec::<u8>::new());
    assert_eq!(c.read_range(2, 1, 10), b"bc".to_vec());
    assert_eq!(c.read_range(2, 1, 0), Vec::<u8>::new());
    assert_eq!(c.read_range(3, 0, 10), Vec::<u8>::new());
    assert_eq!(c.read_range(2, 0, usize::MAX), b"abc".to_vec());
}

#[test]
fn resize_truncates_and_extends_with_zeros() {
    let mut c = PageCache::new();
    c.insert_clean(4, b"abcdef".to_vec());
    c.resize_to(4, 2);
    assert_eq!(c.read_range(4, 0, 100), b"ab".to_vec());
    assert!(c.is_dirty(4));
    c.resize_to(4, 5);
    assert_eq!(c.read_range(4, 0, 100), b"ab\0\0\0".to_vec());
    c.resize_to(9, 2);
    assert_eq!(c.read_range(9, 0, 100), vec![0u8, 0u8]);
}

#[test]
fn dirty_data_only_for_dirty_buffers() {
    let mut c = PageCache::new();
    c.insert_clean(1, b"clean".to_vec());
    assert_eq!(c.dirty_data(1), None);
    c.write_at(1, 0, b"D");
    assert_eq!(c.dirty_data(1), Some(b"Dlean".to_vec()));
    c.insert_clean(1, b"Dlean".to_vec());
    assert_eq!(c.dirty_data(1), None);
    assert_eq!(c.dirty_data(99), None);
}

#[test]
fn keys_list_every_buffer_once() {
    let mut c = PageCache::new();
    for ino in [5u64, 3, 9] {
        c.insert_clean(ino, vec![1]);
    }
    c.insert_clean(3, vec![2]);
    let mut ks = c.keys();
    ks.sort();
    assert_eq!(ks, vec![3, 5, 9]);
    assert_eq!(c.len(), 3);
    assert!(c.contains(9));
    c.remove(9);
    assert!(!c.contains(9));
    assert_eq!(c.len(), 2);
}

#[test]
fn no_victim_within_capacity() {
    let mut c = PageCache::new();
    c.insert_clean(1, vec![]);
    c.touch(1);
    assert_eq!(c.next_victim(), None);
    assert!(c.contains(1));
}

#[test]
fn victims_are_least_recently_used_first() {
    let mut c = PageCache::new();
    let n = PAGE_CACHE_CAPACITY as u64 + 2;
    for ino in 1..=n {
        c.insert_clean(ino, vec![ino as u8]);
        c.touch(ino);
    }
    // Using inode 1 again makes inode 2 the least recently used.
    c.touch(1);
    assert_eq!(c.next_victim(), Some(2));
    c.remove(2);
    assert_eq!(c.next_victim(), Some(3));
    c.remove(3);
    assert_eq!(c.len(), PAGE_CACHE_CAPACITY);
    assert_eq!(c.next_victim(), None);
}

#[test]
fn victims_skip_inodes_without_buffers() {
    let mut c = PageCache::new();
    let n = PAGE_CACHE_CAPACITY as u64 + 1;
    c.touch(500_000);
    for ino in 1..=n {
        c.insert_clean(ino, vec![]);
        c.touch(ino);
    }
    assert_eq!(c.next_victim(), Some(1));
}

#[test]
fn evicting_an_inode_forgets_it() {
    let mut c = PageCache::new();
    c.write_at(8, 0, b"x");
    c.touch(8);
    c.evict_inode(8);
    assert!(!c.contains(8));
    assert_eq!(c.read_range(8, 0, 1), Vec::<u8>::new());
    c.clear();
    assert_eq!(c.len(), 0);
}
