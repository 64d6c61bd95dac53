use roadtrip_cache::error::Error;
use roadtrip_cache::lru::LruIndex;
use roadtrip_cache::scan::{lock_file_name, recover, ScanItem, Stamp};

fn dir(parts: &[&str]) -> ScanItem {
    ScanItem {
        path: format!("/root/{}", parts.join("/")),
        parts: parts.iter().map(|p| p.to_string()).collect(),
        is_dir: true,
        modified: Stamp { seconds: 0, nanos: 0 },
        len: 0,
    }
}

fn file(parts: &[&str], seconds: i64, len: u64) -> ScanItem {
    ScanItem {
        path: format!("/root/{}", parts.join("/")),
        parts: parts.iter().map(|p| p.to_string()).collect(),
        is_dir: false,
        modified: Stamp { seconds, nanos: 0 },
        len,
    }
}

fn populated() -> Vec<ScanItem> {
    vec![
        dir(&[]),
        file(&[".lock"], 9, 0),
        dir(&["entry0"]),
        dir(&["entry1"]),
        dir(&["entry2"]),
        file(&["entry0", "f0"], 1, 11),
        file(&["entry0", "f1"], 2, 11),
        file(&["entry1", "f2"], 3, 11),
        file(&["entry2", "f3"], 4, 11),
    ]
}

fn recovered(items: &Vec<ScanItem>, capacity: u64) -> LruIndex {
    match recover(items, capacity) {
        Ok(index) => index,
        Err(e) => panic!("recovery failed: {:?}", e),
    }
}

#[test]
fn read_from_fs() {
    let index = recovered(&populated(), 50);
    assert_eq!(index.len(), 3);
    assert_eq!(index.size(), 44);
    assert_eq!(index.keys(), vec!["entry0", "entry1", "entry2"]);
}

#[test]
fn evict_one() {
    let mut index = recovered(&populated(), 50);
    assert_eq!(index.len(), 3);
    let gone = index.insert(&"entry3".to_string(), 13);
    assert_eq!(gone, vec!["entry0"]);
    assert_eq!(index.len(), 3);
    assert_eq!(index.size(), 35);
    assert_eq!(index.keys(), vec!["entry1", "entry2", "entry3"]);
}

#[test]
fn order_follows_newest_file_of_each_entry() {
    // The walk meets the entries out of order; "b" has the oldest newest file.
    let items = vec![
        file(&["c", "x"], 30, 1),
        file(&["a", "x"], 5, 1),
        file(&["b", "x"], 10, 1),
        file(&["a", "y"], 20, 1),
        file(&["c", "y"], 1, 1),
    ];
    let mut index = recovered(&items, 100);
    assert_eq!(index.keys(), vec!["b", "a", "c"]);
    assert_eq!(index.size(), 5);
    let mut small = recovered(&items, 5);
    assert_eq!(small.insert(&"d".to_string(), 1), vec!["b"]);
    assert_eq!(index.insert(&"d".to_string(), 1), Vec::<String>::new());
}

#[test]
fn restart_keeps_recency() {
    let items = vec![
        file(&["C", "f"], 300, 4),
        file(&["A", "f"], 100, 4),
        file(&["B", "f"], 200, 4),
    ];
    let mut index = recovered(&items, 12);
    assert_eq!(index.keys(), vec!["A", "B", "C"]);
    assert_eq!(index.insert(&"D".to_string(), 4), vec!["A"]);
    assert_eq!(index.insert(&"E".to_string(), 4), vec!["B"]);
    assert_eq!(index.insert(&"F".to_string(), 4), vec!["C"]);
}

#[test]
fn nanoseconds_break_ties_of_seconds() {
    let mut later = file(&["a", "x"], 7, 1);
    later.modified.nanos = 5;
    let items = vec![later, file(&["b", "x"], 7, 1)];
    let index = recovered(&items, 10);
    assert_eq!(index.keys(), vec!["b", "a"]);
}

#[test]
fn times_before_the_epoch_count_as_the_epoch() {
    let items = vec![file(&["a", "x"], -50, 1), file(&["b", "x"], 0, 1)];
    let index = recovered(&items, 10);
    assert_eq!(index.keys(), vec!["a", "b"]);
}

#[test]
fn deep_file_is_a_structure_error() {
    let items = vec![
        file(&["a", "x"], 1, 1),
        file(&["a", "b", "c"], 1, 1),
        file(&["top"], 1, 1),
    ];
    match recover(&items, 10) {
        Err(Error::Structure { path }) => assert_eq!(path, "/root/a/b/c"),
        other => panic!("unexpected {:?}", other.map(|i| i.len())),
    }
}

#[test]
fn top_level_file_is_a_structure_error() {
    let items = vec![file(&["stray"], 1, 1)];
    assert!(matches!(recover(&items, 10), Err(Error::Structure { .. })));
}

#[test]
fn empty_root_gives_empty_index() {
    let index = recovered(&vec![dir(&[]), file(&[".lock"], 1, 0)], 10);
    assert_eq!(index.len(), 0);
    assert_eq!(index.capacity(), 10);
}

#[test]
fn lock_file_name_is_dot_lock() {
    assert_eq!(lock_file_name(), ".lock");
}
