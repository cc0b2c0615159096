use marker_cli::store::MarkerStore;

#[test]
fn new_store_is_empty() {
    let s = MarkerStore::new();
    assert_eq!(s.len(), 0);
    assert_eq!(s.retrieve("anything"), None);
    assert!(!s.contains("anything"));
}

#[test]
fn set_then_retrieve() {
    let mut s = MarkerStore::new();
    s.set("proj".to_string(), "/home/u/proj".to_string());
    assert_eq!(s.retrieve("proj"), Some("/home/u/proj".to_string()));
    assert!(s.contains("proj"));
    assert_eq!(s.len(), 1);
}

#[test]
fn overwrite_keeps_one_entry() {
    let mut s = MarkerStore::new();
    s.set("a".to_string(), "/x".to_string());
    s.set("a".to_string(), "/y".to_string());
    assert_eq!(s.len(), 1);
    assert_eq!(s.retrieve("a"), Some("/y".to_string()));
}

#[test]
fn flags_are_case_sensitive() {
    let mut s = MarkerStore::new();
    s.set("a".to_string(), "/x".to_string());
    s.set("A".to_string(), "/y".to_string());
    assert_eq!(s.len(), 2);
    assert_eq!(s.retrieve("a"), Some("/x".to_string()));
    assert_eq!(s.retrieve("A"), Some("/y".to_string()));
}

#[test]
fn delete_existing_flag() {
    let mut s = MarkerStore::new();
    s.set("a".to_string(), "/x".to_string());
    assert!(s.delete_one("a"));
    assert_eq!(s.len(), 0);
    assert_eq!(s.retrieve("a"), None);
}

#[test]
fn delete_absent_flag_is_idempotent() {
    let mut s = MarkerStore::new();
    s.set("keep".to_string(), "/k".to_string());
    let before = s.clone();
    assert!(!s.delete_one("missing"));
    assert_eq!(s, before);
    assert!(!s.delete_one("missing"));
    assert_eq!(s, before);
}

#[test]
fn clear_empties_any_store() {
    let mut s = MarkerStore::new();
    s.set("a".to_string(), "/x".to_string());
    s.set("b".to_string(), "/y".to_string());
    s.set("c".to_string(), "/z".to_string());
    s.clear();
    assert_eq!(s.len(), 0);
    assert_eq!(s.retrieve("a"), None);
    assert_eq!(s, MarkerStore::new());
}

#[test]
fn pair_at_reports_insertion_order() {
    let mut s = MarkerStore::new();
    s.set("first".to_string(), "/1".to_string());
    s.set("second".to_string(), "/2".to_string());
    let p0 = s.pair_at(0);
    assert_eq!((p0.0.as_str(), p0.1.as_str()), ("first", "/1"));
    let p1 = s.pair_at(1);
    assert_eq!((p1.0.as_str(), p1.1.as_str()), ("second", "/2"));
}
