use marker_cli::store::MarkerStore;

#[test]
fn empty_store_document() {
    let s = MarkerStore::new();
    assert_eq!(s.to_json(), "{\"map\":{}}");
}

#[test]
fn one_entry_document() {
    let mut s = MarkerStore::new();
    s.set("a".to_string(), "/x".to_string());
    assert_eq!(s.to_json(), "{\"map\":{\"a\":\"/x\"}}");
}

#[test]
fn two_entry_document() {
    let mut s = MarkerStore::new();
    s.set("a".to_string(), "/x".to_string());
    s.set("b".to_string(), "/y z".to_string());
    assert_eq!(s.to_json(), "{\"map\":{\"a\":\"/x\",\"b\":\"/y z\"}}");
}

#[test]
fn quotes_and_backslashes_are_escaped() {
    let mut s = MarkerStore::new();
    s.set("q\"f".to_string(), "C:\\dir".to_string());
    assert_eq!(s.to_json(), "{\"map\":{\"q\\\"f\":\"C:\\\\dir\"}}");
}

#[test]
fn control_characters_are_escaped() {
    let mut s = MarkerStore::new();
    s.set("n".to_string(), "/a\nb\tc\u{1f}".to_string());
    assert_eq!(s.to_json(), "{\"map\":{\"n\":\"/a\\u000ab\\u0009c\\u001f\"}}");
}

#[test]
fn round_trip_basic() {
    let mut s = MarkerStore::new();
    s.set("proj".to_string(), "/home/u/proj".to_string());
    s.set("docs".to_string(), "/home/u/docs".to_string());
    let loaded = MarkerStore::from_json(&s.to_json());
    assert_eq!(loaded, s);
}

#[test]
fn round_trip_empty_store() {
    let s = MarkerStore::new();
    assert_eq!(MarkerStore::from_json(&s.to_json()), s);
}

#[test]
fn round_trip_special_characters() {
    let mut s = MarkerStore::new();
    s.set("q\"uote".to_string(), "/with \"quotes\"".to_string());
    s.set("back\\slash".to_string(), "C:\\Users\\u".to_string());
    s.set("ctrl".to_string(), "/line\none\ttab\r\u{0}nul".to_string());
    s.set("unicode".to_string(), "/données/日本語/🦀".to_string());
    s.set("empty-path".to_string(), "".to_string());
    let loaded = MarkerStore::from_json(&s.to_json());
    assert_eq!(loaded, s);
}

#[test]
fn load_missing_shape_yields_empty_store() {
    assert_eq!(MarkerStore::from_json("{\"other\":{}}"), MarkerStore::new());
    assert_eq!(MarkerStore::from_json("{}"), MarkerStore::new());
    assert_eq!(MarkerStore::from_json("[]"), MarkerStore::new());
}

#[test]
fn load_invalid_json_yields_empty_store() {
    assert_eq!(MarkerStore::from_json("this is not json"), MarkerStore::new());
    assert_eq!(MarkerStore::from_json(""), MarkerStore::new());
    assert_eq!(MarkerStore::from_json("{\"map\":{\"a\":\"/x\""), MarkerStore::new());
    assert_eq!(MarkerStore::from_json("{\"map\":{\"a\":\"/x\"}}}"), MarkerStore::new());
    assert_eq!(MarkerStore::from_json("{\"map\":{\"a\":1}}"), MarkerStore::new());
    assert_eq!(MarkerStore::from_json("{\"map\":{\"a\" \"/x\"}}"), MarkerStore::new());
    assert_eq!(MarkerStore::from_json("{\"map\":{\"a\":\"\\q\"}}"), MarkerStore::new());
    assert_eq!(MarkerStore::from_json("{\"map\":{\"a\":\"\\uDC00\"}}"), MarkerStore::new());
}

#[test]
fn load_accepts_any_whitespace() {
    let doc = " {\"map\":{\"a\":\"/x\"}} ";
    let s = MarkerStore::from_json(doc);
    assert_eq!(s.retrieve("a"), Some("/x".to_string()));

    let pretty = "{\n  \"map\": {\n    \"a\": \"/x\",\n    \"b\": \"/y\"\n  }\n}";
    let s = MarkerStore::from_json(pretty);
    assert_eq!(s.len(), 2);
    assert_eq!(s.retrieve("a"), Some("/x".to_string()));
    assert_eq!(s.retrieve("b"), Some("/y".to_string()));

    let empty = "\t{ \"map\" : { } }\r\n";
    assert_eq!(MarkerStore::from_json(empty), MarkerStore::new());
}

#[test]
fn load_accepts_standard_escapes() {
    let doc = "{\"map\":{\"a\":\"\\n\\t\\r\\b\\f\\/\\\\\"}}";
    let s = MarkerStore::from_json(doc);
    assert_eq!(s.retrieve("a"), Some("\n\t\r\u{8}\u{c}/\\".to_string()));

    let doc = "{\"map\":{\"a\":\"\\u0041\\u00e9\\u00E9\"}}";
    let s = MarkerStore::from_json(doc);
    assert_eq!(s.retrieve("a"), Some("A\u{e9}\u{e9}".to_string()));

    let doc = "{\"map\":{\"a\":\"\\uD83E\\uDD80\"}}";
    let s = MarkerStore::from_json(doc);
    assert_eq!(s.retrieve("a"), Some("\u{1F980}".to_string()));

    let doc = "{\"\\u006dap\":{\"a\":\"/x\"}}";
    let s = MarkerStore::from_json(doc);
    assert_eq!(s.retrieve("a"), Some("/x".to_string()));
}

#[test]
fn load_duplicate_flags_keeps_last_binding() {
    let doc = "{\"map\":{\"a\":\"/x\",\"a\":\"/y\"}}";
    let s = MarkerStore::from_json(doc);
    assert_eq!(s.len(), 1);
    assert_eq!(s.retrieve("a"), Some("/y".to_string()));
}

#[test]
fn load_empty_flag_yields_empty_store() {
    let doc = "{\"map\":{\"\":\"/x\"}}";
    assert_eq!(MarkerStore::from_json(doc), MarkerStore::new());
}

#[test]
fn load_reads_escapes_back() {
    let doc = "{\"map\":{\"a\\\"b\":\"/x\\\\y\\u000a\"}}";
    let s = MarkerStore::from_json(doc);
    assert_eq!(s.len(), 1);
    assert_eq!(s.retrieve("a\"b"), Some("/x\\y\n".to_string()));
}

#[test]
fn document_is_valid_json_for_serde() {
    let mut s = MarkerStore::new();
    s.set("a".to_string(), "/x".to_string());
    s.set("weird \"flag\"".to_string(), "/p\\q\u{1}r".to_string());
    let doc = s.to_json();
    let v: serde_json::Value = serde_json::from_str(&doc).unwrap();
    assert_eq!(v["map"]["a"].as_str(), Some("/x"));
    assert_eq!(v["map"]["weird \"flag\""].as_str(), Some("/p\\q\u{1}r"));
    assert_eq!(v["map"].as_object().unwrap().len(), 2);
}
