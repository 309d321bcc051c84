use dupscan::index::{DuplicateIndex, FileEntry, ScanError};
use dupscan::scan::build_index;

fn visited(path: &str, content: &str) -> (String, u64, Vec<u8>) {
    (path.to_string(), content.len() as u64, content.as_bytes().to_vec())
}

fn sorted_paths(index: &DuplicateIndex, digest: &str) -> Vec<String> {
    let mut files = index.entry(&digest.to_string()).unwrap().files.clone();
    files.sort();
    files
}

const HELLO: &str = "5d41402abc4b2a76b9719d911017c592";
const WORLD: &str = "7d793037a0760186574b0282f2f435e7";

#[test]
fn new_entry_is_empty() {
    let e = FileEntry::new();
    assert_eq!(e.size, 0);
    assert!(e.files.is_empty());
}

#[test]
fn copy_keeps_size_and_files() {
    let mut e = FileEntry::new();
    e.size = 9;
    e.files.push("x".to_string());
    e.files.push("y".to_string());
    let c = e.copy();
    assert_eq!(c.size, 9);
    assert_eq!(c.files, vec!["x".to_string(), "y".to_string()]);
}

#[test]
fn scenario_duplicates_only() {
    let files = vec![visited("a.txt", "hello"), visited("b.txt", "hello"), visited("c.txt", "world")];
    let index = build_index(&files);
    assert_eq!(index.total_groups(), 2);
    let shown = index.select_groups(false);
    assert_eq!(shown.total_groups(), 1);
    let e = shown.entry(&HELLO.to_string()).unwrap();
    assert_eq!(e.size, 5);
    assert_eq!(e.files, vec!["a.txt".to_string(), "b.txt".to_string()]);
    assert!(shown.entry(&WORLD.to_string()).is_none());
}

#[test]
fn scenario_include_all() {
    let files = vec![visited("a.txt", "hello"), visited("b.txt", "hello"), visited("c.txt", "world")];
    let index = build_index(&files);
    let shown = index.select_groups(true);
    assert_eq!(shown.total_groups(), 2);
    assert_eq!(shown.entry(&WORLD.to_string()).unwrap().files, vec!["c.txt".to_string()]);
    assert_eq!(shown.entry(&HELLO.to_string()).unwrap().files.len(), 2);
    let mut digests = shown.digests();
    digests.sort();
    assert_eq!(digests, vec![HELLO.to_string(), WORLD.to_string()]);
}

#[test]
fn selecting_leaves_the_index_as_it_is() {
    let files = vec![visited("a.txt", "hello"), visited("c.txt", "world")];
    let index = build_index(&files);
    let _ = index.select_groups(false);
    assert_eq!(index.total_groups(), 2);
}

#[test]
fn empty_scan_gives_empty_index() {
    let index = build_index(&Vec::new());
    assert_eq!(index.total_groups(), 0);
    assert!(index.digests().is_empty());
    assert_eq!(index.select_groups(true).total_groups(), 0);
}

#[test]
fn unique_files_give_no_duplicate_groups() {
    let files = vec![visited("a", "one"), visited("b", "two"), visited("c", "three")];
    let index = build_index(&files);
    assert_eq!(index.total_groups(), 3);
    assert_eq!(index.select_groups(false).total_groups(), 0);
}

#[test]
fn every_group_has_files() {
    let files = vec![visited("a", "x"), visited("b", "y"), visited("c", "x")];
    let index = build_index(&files);
    for d in index.digests() {
        assert!(!index.entry(&d).unwrap().files.is_empty());
    }
}

#[test]
fn size_is_taken_from_latest_file() {
    let mut index = DuplicateIndex::new();
    index.insert_digest("d".to_string(), "first".to_string(), 3);
    index.insert_digest("d".to_string(), "second".to_string(), 7);
    let e = index.entry(&"d".to_string()).unwrap();
    assert_eq!(e.size, 7);
    assert_eq!(e.files, vec!["first".to_string(), "second".to_string()]);
    assert_eq!(index.total_groups(), 1);
}

#[test]
fn add_file_groups_by_content_digest() {
    let mut index = DuplicateIndex::new();
    index.add_file("one".to_string(), 5, b"hello");
    index.add_file("two".to_string(), 5, b"world");
    assert_eq!(index.entry(&HELLO.to_string()).unwrap().files, vec!["one".to_string()]);
    assert_eq!(index.entry(&WORLD.to_string()).unwrap().files, vec!["two".to_string()]);
    assert!(index.entry(&"hello".to_string()).is_none());
}

#[test]
fn rescan_in_another_order_gives_same_groups() {
    let first = build_index(&vec![visited("a", "hello"), visited("b", "world"), visited("c", "hello")]);
    let second = build_index(&vec![visited("c", "hello"), visited("a", "hello"), visited("b", "world")]);
    let mut d1 = first.digests();
    let mut d2 = second.digests();
    d1.sort();
    d2.sort();
    assert_eq!(d1, d2);
    for d in d1 {
        assert_eq!(sorted_paths(&first, &d), sorted_paths(&second, &d));
    }
}

#[test]
fn unreadable_file_ends_scan_with_hash_error() {
    let mut index = DuplicateIndex::new();
    assert!(index.ingest("a.txt".to_string(), Ok((5, b"hello".to_vec()))).is_ok());
    let r = index.ingest("locked.txt".to_string(), Err("permission denied".to_string()));
    match r {
        Err(ScanError::Hash { path, cause }) => {
            assert_eq!(path, "locked.txt");
            assert_eq!(cause, "permission denied");
        },
        _ => panic!("expected a hash error"),
    }
    assert_eq!(index.total_groups(), 1);
    assert!(index.entry(&HELLO.to_string()).is_some());
}
