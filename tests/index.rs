use roadtrip_cache::error::EntryError;
use roadtrip_cache::lru::LruIndex;

fn key(s: &str) -> String {
    s.to_string()
}

fn keys(index: &LruIndex) -> Vec<String> {
    index.keys()
}

#[test]
fn insert_two() {
    let mut index = LruIndex::new(100);
    assert!(index.insert(&key("one"), 11).is_empty());
    assert!(index.insert(&key("one"), 10).is_empty());
    assert_eq!(index.len(), 1);
    assert_eq!(index.size(), 21);
    assert_eq!(keys(&index), vec![key("one")]);
}

#[test]
fn insert_one_at_capacity() {
    let mut index = LruIndex::new(10);
    assert!(index.insert(&key("one"), 10).is_empty());
    assert_eq!(index.len(), 1);
    assert_eq!(index.size(), 10);
}

#[test]
fn insert_one_over_capacity() {
    let mut index = LruIndex::new(1);
    assert!(index.insert(&key("one"), 10).is_empty());
    assert_eq!(index.len(), 1);
    assert_eq!(index.size(), 10);
    assert_eq!(index.capacity(), 1);
}

#[test]
fn insert_many_over_capacity() {
    let mut index = LruIndex::new(1);
    assert!(index.insert(&key("one"), 10).is_empty());
    assert!(index.insert(&key("one"), 10).is_empty());
    assert_eq!(index.len(), 1);
    assert_eq!(index.size(), 20);
}

#[test]
fn insert_evict() {
    let mut index = LruIndex::new(1);
    assert!(index.insert(&key("one"), 10).is_empty());
    assert_eq!(index.insert(&key("two"), 10), vec![key("one")]);
    assert_eq!(keys(&index), vec![key("two")]);
    assert_eq!(index.size(), 10);
}

#[test]
fn insert_evict_multiple() {
    let mut index = LruIndex::new(10);
    for idx in 0..10 {
        assert!(index.insert(&format!("entry{}", idx), 1).is_empty());
    }
    assert_eq!(index.len(), 10);
    assert_eq!(index.size(), 10);
    let gone = index.insert(&key("two"), 2);
    assert_eq!(gone, vec![key("entry0"), key("entry1")]);
    assert_eq!(index.len(), 9);
    assert_eq!(index.size(), 10);
    let mut expected: Vec<String> = (2..10).map(|i| format!("entry{}", i)).collect();
    expected.push(key("two"));
    assert_eq!(keys(&index), expected);
}

#[test]
fn insert_evict_multiple_parts() {
    let mut index = LruIndex::new(10);
    for idx in 0..9 {
        assert!(index.insert(&format!("entry{}", idx), 1).is_empty());
    }
    assert_eq!(index.len(), 9);
    assert_eq!(index.size(), 9);
    assert!(index.insert(&key("two"), 1).is_empty());
    assert_eq!(index.insert(&key("two"), 1), vec![key("entry0")]);
    assert_eq!(index.len(), 9);
    assert_eq!(index.size(), 10);
}

#[test]
fn own_entry_is_never_evicted() {
    let mut index = LruIndex::new(5);
    assert!(index.insert(&key("a"), 4).is_empty());
    assert!(index.insert(&key("b"), 1).is_empty());
    // "a" is the oldest, but it is the entry being written.
    assert_eq!(index.insert(&key("a"), 3), vec![key("b")]);
    assert_eq!(keys(&index), vec![key("a")]);
    assert_eq!(index.size(), 7);
}

#[test]
fn growing_entry_keeps_its_place() {
    let mut index = LruIndex::new(100);
    index.insert(&key("a"), 1);
    index.insert(&key("b"), 1);
    index.insert(&key("a"), 1);
    assert_eq!(keys(&index), vec![key("a"), key("b")]);
}

#[test]
fn eviction_stops_once_enough_is_freed() {
    let mut index = LruIndex::new(10);
    index.insert(&key("a"), 3);
    index.insert(&key("b"), 3);
    index.insert(&key("c"), 3);
    // 1 byte free, 3 missing: "a" alone frees enough.
    assert_eq!(index.insert(&key("d"), 4), vec![key("a")]);
    assert_eq!(index.size(), 10);
    assert_eq!(keys(&index), vec![key("b"), key("c"), key("d")]);
}

#[test]
fn empty_insert_into_full_index_evicts_nothing() {
    let mut index = LruIndex::new(2);
    index.insert(&key("a"), 2);
    assert!(index.insert(&key("b"), 0).is_empty());
    assert_eq!(index.len(), 2);
}

#[test]
fn touch_moves_entry_to_newest() {
    let mut index = LruIndex::new(3);
    index.insert(&key("a"), 1);
    index.insert(&key("b"), 1);
    index.insert(&key("c"), 1);
    assert!(index.touch(&key("a")).is_ok());
    assert_eq!(keys(&index), vec![key("b"), key("c"), key("a")]);
    assert_eq!(index.insert(&key("d"), 1), vec![key("b")]);
}

#[test]
fn touch_unknown_key_is_reported() {
    let mut index = LruIndex::new(3);
    index.insert(&key("a"), 1);
    match index.touch(&key("zz")) {
        Err(EntryError::Unexpected { key: k }) => assert_eq!(k, "zz"),
        other => panic!("unexpected result {:?}", other),
    }
    assert_eq!(keys(&index), vec![key("a")]);
}

#[test]
fn new_index_is_empty() {
    let index = LruIndex::new(7);
    assert_eq!(index.len(), 0);
    assert_eq!(index.size(), 0);
    assert_eq!(index.capacity(), 7);
}
