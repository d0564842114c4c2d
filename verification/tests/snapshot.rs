use rustdb::{RustDb, RustDbError};
use std::collections::BTreeMap;

fn pair(key: &str, value: &str) -> (String, String) {
    (key.to_string(), value.to_string())
}

fn sorted(db: &RustDb) -> Vec<(String, String)> {
    let mut all = db.list_all();
    all.sort();
    all
}

fn start(
    snapshot: Result<String, std::io::Error>,
    log: Result<String, std::io::Error>,
) -> Result<RustDb, RustDbError> {
    RustDb::new(snapshot, log).map(|(db, _)| db)
}

fn store_of(pairs: &[(&str, &str)]) -> RustDb {
    let mut db = RustDb::from_pairs(Vec::new());
    for (key, value) in pairs {
        db.insert(key.to_string(), value.to_string());
    }
    db
}

#[test]
fn save_of_an_empty_store_is_an_empty_object() {
    assert_eq!(store_of(&[]).save().expect("a snapshot"), "{}");
}

#[test]
fn save_writes_one_member_for_each_key_in_the_order_of_the_keys() {
    let db = store_of(&[("b", "2"), ("a", "1"), ("c", "3")]);
    assert_eq!(
        db.save().expect("a snapshot"),
        "{\n  \"a\": \"1\",\n  \"b\": \"2\",\n  \"c\": \"3\"\n}"
    );
}

#[test]
fn save_does_not_depend_on_the_order_of_insertion() {
    let one = store_of(&[("b", "2"), ("a", "1"), ("c", "3")]);
    let mut other = store_of(&[("c", "0"), ("x", "9"), ("a", "1"), ("b", "2")]);
    other.insert("c".to_string(), "3".to_string());
    assert!(other.delete("x").is_ok());
    assert_eq!(one.save().expect("a snapshot"), other.save().expect("a snapshot"));
}

#[test]
fn save_escapes_what_json_escapes() {
    let db = store_of(&[("quote\"key", "line\nfeed\\ and \"quotes\"")]);
    assert_eq!(
        db.save().expect("a snapshot"),
        "{\n  \"quote\\\"key\": \"line\\nfeed\\\\ and \\\"quotes\\\"\"\n}"
    );
}

#[test]
fn save_is_json_that_holds_the_content() {
    let db = store_of(&[("a", "1"), ("é", "ü 𝄞"), ("", "")]);
    let text = db.save().expect("a snapshot");
    let read: BTreeMap<String, String> = serde_json::from_str(&text).expect("an object");
    assert_eq!(read.into_iter().collect::<Vec<_>>(), sorted(&db));
}

#[test]
fn load_of_the_empty_text_empties_the_store() {
    let mut db = store_of(&[("a", "1")]);
    assert!(db.load("").is_ok());
    assert!(db.list_all().is_empty());
}

#[test]
fn load_of_white_space_is_a_deserialization_error() {
    for content in [" ", "\n", " \n", "\t \r\n", "\u{a0}\u{3000}"] {
        let mut db = store_of(&[("a", "1")]);
        assert!(
            matches!(db.load(content), Err(RustDbError::DeserializationError(_))),
            "{:?}",
            content
        );
        assert_eq!(db.list_all(), vec![pair("a", "1")], "{:?}", content);
    }
}

#[test]
fn load_reads_the_members_of_the_object() {
    let mut db = store_of(&[("old", "gone")]);
    assert!(db.load("{\"b\": \"2\", \"a\": \"1\"}").is_ok());
    assert_eq!(db.list_all(), vec![pair("a", "1"), pair("b", "2")]);
    assert_eq!(db.get("old"), None);
    assert!(db.load(" {} ").is_ok());
    assert!(db.list_all().is_empty());
}

#[test]
fn load_keeps_the_later_of_two_members_with_one_name() {
    let mut db = store_of(&[]);
    assert!(db.load("{\"a\": \"1\", \"b\": \"2\", \"a\": \"3\"}").is_ok());
    assert_eq!(db.list_all(), vec![pair("a", "3"), pair("b", "2")]);
}

#[test]
fn load_reads_escapes() {
    let mut db = store_of(&[]);
    assert!(db.load("{\"k\\u0065y\": \"a\\tb\\n\\\"c\\\" \\ud834\\udd1e\"}").is_ok());
    assert_eq!(db.list_all(), vec![pair("key", "a\tb\n\"c\" 𝄞")]);
}

#[test]
fn load_of_a_text_that_ends_early_is_a_deserialization_error() {
    for content in ["{", "{\"a\"", "{\"a\": ", "{\"a\": \"1", "{\"a\": \"1\"", "{\"a\": \"1\","] {
        let mut db = store_of(&[("a", "1")]);
        assert!(
            matches!(db.load(content), Err(RustDbError::DeserializationError(_))),
            "{:?}",
            content
        );
        assert_eq!(db.list_all(), vec![pair("a", "1")], "{:?}", content);
    }
}

#[test]
fn load_of_any_other_bad_text_is_a_deserialization_error() {
    for content in [
        "nonsense",
        "{not json",
        "}",
        "{\"a\": 1}",
        "{\"a\": null}",
        "{\"a\": [\"1\"]}",
        "{\"a\": {\"b\": \"1\"}}",
        "[\"a\", \"1\"]",
        "\"a\"",
        "1",
        "{\"a\": \"1\"} x",
        "{\"a\": \"1\",}",
        "{a: \"1\"}",
        "{\"a\": \"\u{1}\"}",
    ] {
        let mut db = store_of(&[("a", "1")]);
        assert!(
            matches!(db.load(content), Err(RustDbError::DeserializationError(_))),
            "{:?}",
            content
        );
        assert_eq!(db.list_all(), vec![pair("a", "1")], "{:?}", content);
    }
}

#[test]
fn load_of_a_saved_snapshot_gives_the_content_back() {
    let stores = [
        store_of(&[]),
        store_of(&[("a", "1")]),
        store_of(&[("b", "2"), ("a", "1"), ("", ""), (" ", " ")]),
        store_of(&[("key with spaces", "{\"name\":\"Alice\",\"age\":30}")]),
        store_of(&[("quote\"", "back\\slash"), ("line\nfeed", "tab\there"), ("\r", "\r\n")]),
        store_of(&[("é", "ü"), ("𝄞", "\u{2028}\u{2029}"), ("\u{0}", "\u{1f}\u{7f}\u{80}")]),
        store_of(&[("{}", "[]"), ("null", "true"), ("1", "1e5"), ("\\u0041", "/\\/")]),
    ];
    for db in &stores {
        let text = db.save().expect("a snapshot");
        let mut read = store_of(&[("stale", "value")]);
        assert!(read.load(&text).is_ok(), "{:?}", text);
        assert_eq!(sorted(&read), sorted(db), "{:?}", text);
        assert_eq!(read.save().expect("a snapshot"), text);

        let started = start(Ok(text.clone()), Ok(String::new())).expect("a store");
        assert_eq!(sorted(&started), sorted(db), "{:?}", text);
    }
}
