use roadtrip_cache::error::WalkError;
use roadtrip_cache::walk::{Kind, Visit, WalkDir};

#[test]
fn walk_starts_at_root() {
    let mut w = WalkDir::new("/r".to_string());
    match w.next_unvisited() {
        Some((p, k)) => {
            assert_eq!(p, "/r");
            assert_eq!(k, Kind::Unknown);
        }
        None => panic!("root missing"),
    }
    assert!(w.next_unvisited().is_none());
}

#[test]
fn visiting_twice_is_detected() {
    let mut w = WalkDir::new("/r".to_string());
    assert!(w.mark_visited("/r".to_string()));
    assert!(!w.mark_visited("/r".to_string()));
    assert!(w.mark_visited("/r/a".to_string()));
}

#[test]
fn directory_queues_known_children() {
    let mut w = WalkDir::new("/r".to_string());
    w.next_unvisited();
    let e = w.step_dir(
        "/r".to_string(),
        vec![
            ("/r/a".to_string(), Kind::File),
            ("/r/b".to_string(), Kind::Dir),
            ("/r/c".to_string(), Kind::Unknown),
        ],
    );
    assert!(e.file_type().is_dir());
    assert_eq!(e.path(), "/r");
    assert_eq!(w.next_unvisited(), Some(("/r/b".to_string(), Kind::Dir)));
    assert_eq!(w.next_unvisited(), Some(("/r/a".to_string(), Kind::File)));
    assert_eq!(w.next_unvisited(), None);
}

#[test]
fn queueing_a_path_again_keeps_one() {
    let mut w = WalkDir::new("/r".to_string());
    w.insert("/r".to_string());
    w.insert("/s".to_string());
    assert_eq!(w.next_unvisited(), Some(("/s".to_string(), Kind::Unknown)));
    assert_eq!(w.next_unvisited(), Some(("/r".to_string(), Kind::Unknown)));
    assert_eq!(w.next_unvisited(), None);
}

#[test]
fn file_entry() {
    let w = WalkDir::new("/r".to_string());
    let e = w.step_file("/r/f".to_string());
    assert!(!e.file_type().is_dir());
    assert_eq!(e.into_path(), "/r/f");
}

#[test]
fn kind_from_metadata() {
    assert_eq!(Kind::from_metadata(true, false), Kind::Dir);
    assert_eq!(Kind::from_metadata(false, true), Kind::File);
    assert_eq!(Kind::from_metadata(false, false), Kind::Unknown);
}

#[test]
fn walk_error_path() {
    let e = WalkError::Metadata {
        source: std::io::Error::new(std::io::ErrorKind::Other, "x"),
        path: "/r/q".to_string(),
    };
    assert_eq!(e.path(), "/r/q");
}

#[test]
fn visit_decides_by_kind() {
    let mut w = WalkDir::new("/r".to_string());
    assert!(matches!(w.visit("/r".to_string(), Kind::Unknown), Visit::Stat(p) if p == "/r"));
    assert!(matches!(w.visit("/r".to_string(), Kind::Dir), Visit::Skip));
    assert!(matches!(w.visit("/r/d".to_string(), Kind::Dir), Visit::List(p) if p == "/r/d"));
    match w.visit("/r/f".to_string(), Kind::File) {
        Visit::Yield(e) => {
            assert!(!e.file_type().is_dir());
            assert_eq!(e.path(), "/r/f");
        }
        other => panic!("unexpected {:?}", other),
    }
}

#[test]
fn resolve_after_metadata() {
    let w = WalkDir::new("/r".to_string());
    assert!(matches!(w.resolve("/r/x".to_string(), Kind::Unknown), Visit::Skip));
    assert!(matches!(w.resolve("/r/x".to_string(), Kind::Dir), Visit::List(p) if p == "/r/x"));
    assert!(matches!(w.resolve("/r/x".to_string(), Kind::File), Visit::Yield(_)));
}
