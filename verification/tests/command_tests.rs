use marker_cli::command::{run, run_delete, run_list, run_retrieve, run_set, Request};
use marker_cli::store::MarkerStore;

#[test]
fn set_confirms_and_retrieve_prints_path() {
    let mut s = MarkerStore::new();
    let o = run_set(&mut s, "proj".to_string(), "/home/u/proj".to_string());
    assert_eq!(o.out, vec!["Set marker: proj -> /home/u/proj".to_string()]);
    assert!(o.err.is_empty());
    assert_eq!(o.exit_code, 0);
    assert!(o.save_needed);

    let o2 = run_retrieve(&s, "proj".to_string());
    assert_eq!(o2.out, vec!["/home/u/proj".to_string()]);
    assert!(o2.err.is_empty());
    assert_eq!(o2.exit_code, 0);
    assert!(!o2.save_needed);
}

#[test]
fn retrieve_missing_flag_fails() {
    let s = MarkerStore::new();
    let o = run_retrieve(&s, "missing".to_string());
    assert!(o.out.is_empty());
    assert_eq!(o.err, vec!["Marker 'missing' does not exist".to_string()]);
    assert_ne!(o.exit_code, 0);
}

#[test]
fn delete_without_flag_or_recursive_fails() {
    let mut s = MarkerStore::new();
    s.set("keep".to_string(), "/k".to_string());
    let before = s.clone();
    let o = run_delete(&mut s, None, false);
    assert!(o.out.is_empty());
    assert_eq!(o.err, vec!["Either a flag or recursive must be specified".to_string()]);
    assert_ne!(o.exit_code, 0);
    assert!(!o.save_needed);
    assert_eq!(s, before);
}

#[test]
fn list_on_empty_store() {
    let s = MarkerStore::new();
    let o = run_list(&s);
    assert_eq!(o.out, vec!["No markers set.".to_string()]);
    assert!(o.err.is_empty());
    assert_eq!(o.exit_code, 0);
}

#[test]
fn list_prints_every_marker() {
    let mut s = MarkerStore::new();
    s.set("a".to_string(), "/x".to_string());
    s.set("b".to_string(), "/y".to_string());
    let o = run_list(&s);
    assert_eq!(o.out, vec!["a -> /x".to_string(), "b -> /y".to_string()]);
    assert_eq!(o.exit_code, 0);
}

#[test]
fn delete_existing_flag_confirms() {
    let mut s = MarkerStore::new();
    s.set("a".to_string(), "/x".to_string());
    let o = run_delete(&mut s, Some("a".to_string()), false);
    assert_eq!(o.out, vec!["Deleted marker 'a'".to_string()]);
    assert_eq!(o.exit_code, 0);
    assert!(o.save_needed);
    assert_eq!(s.len(), 0);
}

#[test]
fn delete_absent_flag_reports_twice_the_same() {
    let mut s = MarkerStore::new();
    let o1 = run_delete(&mut s, Some("gone".to_string()), false);
    let o2 = run_delete(&mut s, Some("gone".to_string()), false);
    assert_eq!(o1.out, vec!["Marker 'gone' does not exist".to_string()]);
    assert_eq!(o2.out, o1.out);
    assert_eq!(o1.exit_code, 0);
    assert_eq!(o2.exit_code, 0);
    assert!(o1.err.is_empty() && o2.err.is_empty());
}

#[test]
fn recursive_delete_clears_everything() {
    let mut s = MarkerStore::new();
    s.set("a".to_string(), "/x".to_string());
    s.set("b".to_string(), "/y".to_string());
    s.set("c".to_string(), "/z".to_string());
    let o = run_delete(&mut s, None, true);
    assert_eq!(o.out, vec!["Deleted all markers".to_string()]);
    assert_eq!(o.exit_code, 0);
    assert!(o.save_needed);
    assert_eq!(s, MarkerStore::new());
}

#[test]
fn recursive_delete_ignores_flag() {
    let mut s = MarkerStore::new();
    s.set("a".to_string(), "/x".to_string());
    s.set("b".to_string(), "/y".to_string());
    let o = run_delete(&mut s, Some("a".to_string()), true);
    assert_eq!(o.out, vec!["Deleted all markers".to_string()]);
    assert_eq!(s.len(), 0);
}

#[test]
fn set_with_empty_flag_fails() {
    let mut s = MarkerStore::new();
    let o = run_set(&mut s, "".to_string(), "/x".to_string());
    assert!(o.out.is_empty());
    assert_eq!(o.err, vec!["Error: A non-empty flag is required to set a marker".to_string()]);
    assert_ne!(o.exit_code, 0);
    assert!(!o.save_needed);
    assert_eq!(s.len(), 0);
}

#[test]
fn run_dispatches_each_request() {
    let mut s = MarkerStore::new();
    let o = run(&mut s, Request::SetMarker {
        flag: "a".to_string(),
        directory: "/x".to_string(),
    });
    assert_eq!(o.out, vec!["Set marker: a -> /x".to_string()]);

    let o = run(&mut s, Request::RetrieveMarker { flag: "a".to_string() });
    assert_eq!(o.out, vec!["/x".to_string()]);

    let o = run(&mut s, Request::ListMarkers);
    assert_eq!(o.out, vec!["a -> /x".to_string()]);

    let o = run(&mut s, Request::DeleteMarker { flag: Some("a".to_string()), recursive: false });
    assert_eq!(o.out, vec!["Deleted marker 'a'".to_string()]);
    assert_eq!(s.len(), 0);
}

#[test]
fn save_and_load_across_invocations() {
    let mut s = MarkerStore::new();
    run_set(&mut s, "proj".to_string(), "/home/u/proj".to_string());
    let persisted = s.to_json();

    let loaded = MarkerStore::from_json(&persisted);
    let o = run_retrieve(&loaded, "proj".to_string());
    assert_eq!(o.out, vec!["/home/u/proj".to_string()]);
    assert_eq!(o.exit_code, 0);
}
