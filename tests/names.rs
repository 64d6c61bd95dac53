use roadtrip_cache::error::{EntryError, InsertError};
use roadtrip_cache::name::{check_key, check_name, check_path, check_path_with};

#[test]
fn accepts_plain_names() {
    assert!(check_path("one"));
    assert!(check_path("file0"));
    assert!(check_path("entry9"));
    assert!(check_path("a.b.c"));
    assert!(check_path("a."));
    assert!(check_path("Ünïcode"));
}

#[test]
fn rejects_bad_names() {
    assert!(!check_path(""));
    assert!(!check_path("."));
    assert!(!check_path(".lock"));
    assert!(!check_path(".."));
    assert!(!check_path("a/b"));
    assert!(!check_path("a-b"));
    assert!(!check_path("a b"));
    assert!(!check_path("-a"));
    assert!(!check_path("a\\b"));
}

#[test]
fn check_with_given_classification() {
    assert!(check_path_with("ab", &[true, true]));
    assert!(check_path_with("a.", &[true, false]));
    assert!(!check_path_with("a-", &[true, false]));
    assert!(!check_path_with(".a", &[true, true]));
    assert!(!check_path_with("ba", &[false, true]));
    assert!(!check_path_with("", &[]));
}

#[test]
fn key_errors() {
    assert!(check_key("entry0").is_ok());
    assert!(matches!(check_key(".hidden"), Err(EntryError::InvalidKey)));
    assert!(matches!(check_key(""), Err(EntryError::InvalidKey)));
}

#[test]
fn name_errors() {
    assert!(check_name("file1").is_ok());
    assert!(matches!(check_name("../x"), Err(InsertError::InvalidName)));
    assert!(matches!(check_name("x y"), Err(InsertError::InvalidName)));
}
