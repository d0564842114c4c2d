use rustdb::log::{format_delete, format_insert, parse_line, parse_log};
use rustdb::{LogRecord, RustDb};
use std::collections::BTreeMap;

fn inserted(record: Option<LogRecord>) -> (String, String) {
    match record {
        Some(LogRecord::Insert { key, value }) => (key, value),
        other => panic!("not an insertion: {:?}", other),
    }
}

fn deleted(record: Option<LogRecord>) -> String {
    match record {
        Some(LogRecord::Delete { key }) => key,
        other => panic!("not a deletion: {:?}", other),
    }
}

fn pair(key: &str, value: &str) -> (String, String) {
    (key.to_string(), value.to_string())
}

fn sorted(db: &RustDb) -> Vec<(String, String)> {
    let mut all = db.list_all();
    all.sort();
    all
}

/// The content that the lines of a log text give, read with the line and
/// field splitting of the standard library.
fn replayed_by_std(content: &str) -> Vec<(String, String)> {
    let mut data: BTreeMap<String, String> = BTreeMap::new();
    for line in content.lines() {
        let parts: Vec<&str> = line.splitn(3, ' ').collect();
        match parts.as_slice() {
            ["insert", key, value] => {
                data.insert(key.to_string(), value.to_string());
            }
            ["delete", key] => {
                data.remove(*key);
            }
            _ => {}
        }
    }
    data.into_iter().collect()
}

#[test]
fn format_insert_joins_the_fields_with_single_spaces() {
    assert_eq!(format_insert("k1", "v1"), "insert k1 v1\n");
    assert_eq!(format_insert("k", ""), "insert k \n");
    assert_eq!(format_insert("", "v"), "insert  v\n");
    assert_eq!(format_insert("clé", "a b  c"), "insert clé a b  c\n");
}

#[test]
fn format_delete_joins_the_word_and_the_key() {
    assert_eq!(format_delete("k1"), "delete k1\n");
    assert_eq!(format_delete(""), "delete \n");
}

#[test]
fn parse_line_reads_an_insertion() {
    assert_eq!(inserted(parse_line("insert k1 v1")), pair("k1", "v1"));
    assert_eq!(inserted(parse_line("insert k a b  c ")), pair("k", "a b  c "));
    assert_eq!(inserted(parse_line("insert k ")), pair("k", ""));
    assert_eq!(inserted(parse_line("insert  v")), pair("", "v"));
    assert_eq!(inserted(parse_line("insert  ")), pair("", ""));
    assert_eq!(inserted(parse_line("insert   ")), pair("", " "));
    assert_eq!(inserted(parse_line("insert clé värde 𝄞")), pair("clé", "värde 𝄞"));
    assert_eq!(inserted(parse_line("insert k v\r")), pair("k", "v\r"));
}

#[test]
fn parse_line_reads_a_deletion() {
    assert_eq!(deleted(parse_line("delete k1")), "k1");
    assert_eq!(deleted(parse_line("delete ")), "");
    assert_eq!(deleted(parse_line("delete clé")), "clé");
}

#[test]
fn parse_line_passes_over_other_lines() {
    for line in [
        "",
        " ",
        "insert",
        "delete",
        "insert k",
        "delete k v",
        "delete  ",
        "update k v",
        "INSERT k v",
        "Delete k",
        " insert k v",
        " delete k",
        "inserts k v",
        "inser k v",
        "insert\tk\tv",
        "deleted k",
        "get k",
    ] {
        assert!(parse_line(line).is_none(), "{:?}", line);
    }
}

#[test]
fn the_log_gives_back_what_the_formatters_wrote() {
    for (key, value) in [("k", "v"), ("", ""), ("clé", " several  words "), ("a\tb", "x\ry")] {
        let mut records = parse_log(&format_insert(key, value)).into_iter();
        assert_eq!(inserted(records.next()), pair(key, value));
        assert!(records.next().is_none());
        let mut records = parse_log(&format_delete(key)).into_iter();
        assert_eq!(deleted(records.next()), key);
        assert!(records.next().is_none());
    }
}

#[test]
fn what_the_log_cannot_hold_does_not_come_back() {
    let mut records = parse_log(&format_insert("a b", "c")).into_iter();
    assert_eq!(inserted(records.next()), pair("a", "b c"));
    assert!(parse_log(&format_delete("a b")).is_empty());
    let mut records = parse_log(&format_insert("k", "v\r")).into_iter();
    assert_eq!(inserted(records.next()), pair("k", "v"));
    let mut records = parse_log(&format_insert("k", "a\nb")).into_iter();
    assert_eq!(inserted(records.next()), pair("k", "a"));
}

#[test]
fn replay_log_carries_out_the_lines_in_order() {
    let mut db = RustDb::from_pairs(Vec::new());
    db.replay_log("insert a 1\ninsert b 2\ninsert a 3\ndelete b\ninsert c 4\n");
    assert_eq!(db.list_all(), vec![pair("a", "3"), pair("c", "4")]);
}

#[test]
fn replay_log_passes_over_lines_that_record_nothing() {
    let mut db = RustDb::from_pairs(Vec::new());
    db.replay_log("insert a 1\nnonsense\n\ninsert\ndelete a b\ninsert b 2\ndelete zzz\ninse");
    assert_eq!(db.list_all(), vec![pair("a", "1"), pair("b", "2")]);
}

#[test]
fn replay_log_takes_a_last_line_without_its_end() {
    let mut db = RustDb::from_pairs(Vec::new());
    db.replay_log("insert a 1\ninsert b 2");
    assert_eq!(db.list_all(), vec![pair("a", "1"), pair("b", "2")]);
}

#[test]
fn replay_log_takes_carriage_return_and_line_feed_as_one_line_end() {
    let mut db = RustDb::from_pairs(Vec::new());
    db.replay_log("insert a 1\r\ninsert b 2\r\r\ndelete a\r\ninsert c 3\r");
    assert_eq!(db.list_all(), vec![pair("b", "2\r"), pair("c", "3\r")]);
}

#[test]
fn replay_log_of_an_empty_text_changes_nothing() {
    let mut db = RustDb::from_pairs(vec![pair("a", "1")]);
    db.replay_log("");
    assert_eq!(db.list_all(), vec![pair("a", "1")]);
    db.replay_log("\n\n\n");
    assert_eq!(db.list_all(), vec![pair("a", "1")]);
}

#[test]
fn replay_log_agrees_with_the_standard_line_splitting() {
    for content in [
        "",
        "\n",
        "\r\n",
        "\r",
        "insert a 1",
        "insert a 1\n",
        "insert a 1\r\n",
        "insert a 1\r",
        "insert a 1\n\r",
        "insert a 1\r\r\n",
        "insert a 1\n\ninsert b 2\n",
        "insert a 1\ndelete a\ninsert a 2\n",
        "insert a 1\ndelete a \ninsert b  \n",
        "insert  \ndelete \n",
        "insert  x\ninsert  y\ndelete \ninsert  z",
        "delete a\ninsert a b c d\ndelete a b\n",
        "insert é ü\ninsert 𝄞 \u{2028}\ndelete é\n",
        "insert a 1\u{85}insert b 2\n",
        "insert a 1\u{2028}delete a\n",
        "insert a 1\x0cdelete a\n",
        "insert a\t1\ninsert\ta 1\n",
        "insert a 1\ninsert b 2\ninse",
        "insert a 1\ninsert b 2\ninsert c",
        "xinsert a 1\ninsert a 1x\n\0\n",
    ] {
        let mut db = RustDb::from_pairs(Vec::new());
        db.replay_log(content);
        assert_eq!(sorted(&db), replayed_by_std(content), "{:?}", content);
    }
}

#[test]
fn apply_of_the_same_record_twice_changes_nothing_more() {
    let mut db = RustDb::from_pairs(vec![pair("a", "1"), pair("b", "2")]);
    db.apply(LogRecord::Insert { key: "a".to_string(), value: "3".to_string() });
    let once = db.list_all();
    db.apply(LogRecord::Insert { key: "a".to_string(), value: "3".to_string() });
    assert_eq!(db.list_all(), once);
    db.apply(LogRecord::Delete { key: "b".to_string() });
    let once = db.list_all();
    db.apply(LogRecord::Delete { key: "b".to_string() });
    assert_eq!(db.list_all(), once);
    assert_eq!(once, vec![pair("a", "3")]);
}

#[test]
fn apply_carries_out_one_record() {
    let mut db = RustDb::from_pairs(Vec::new());
    db.apply(LogRecord::Insert { key: "a".to_string(), value: "1".to_string() });
    db.apply(LogRecord::Delete { key: "b".to_string() });
    assert_eq!(db.list_all(), vec![pair("a", "1")]);
    db.apply(LogRecord::Delete { key: "a".to_string() });
    assert!(db.list_all().is_empty());
}

#[test]
fn parse_log_gives_the_records_top_to_bottom() {
    let records = parse_log("insert a 1\nnonsense\ndelete a\r\n\ninsert b two words");
    assert_eq!(records.len(), 3);
    let mut records = records.into_iter();
    assert_eq!(inserted(records.next()), pair("a", "1"));
    assert_eq!(deleted(records.next()), "a");
    assert_eq!(inserted(records.next()), pair("b", "two words"));
    assert!(parse_log("").is_empty());
    assert!(parse_log("\n\r\n").is_empty());
}

#[test]
fn can_be_logged_holds_of_what_the_log_gives_back() {
    let insert = |key: &str, value: &str| LogRecord::Insert {
        key: key.to_string(),
        value: value.to_string(),
    };
    let delete = |key: &str| LogRecord::Delete { key: key.to_string() };

    for record in [
        insert("k", "v"),
        insert("", ""),
        insert("k", " several  words "),
        insert("a\tb", "x\ry"),
        insert("k\r", ""),
        insert("clé", "värde 𝄞"),
        delete("k"),
        delete(""),
        delete("a\rb"),
    ] {
        assert!(record.can_be_logged(), "{:?}", record);
    }
    for record in [
        insert("a b", "c"),
        insert(" ", "c"),
        insert("a\nb", "c"),
        insert("k", "a\nb"),
        insert("k", "v\r"),
        insert("k", "\r"),
        insert("k", "v\n"),
        delete("a b"),
        delete("a\n"),
        delete("k\r"),
        delete("\r"),
    ] {
        assert!(!record.can_be_logged(), "{:?}", record);
    }
}

#[test]
fn can_be_logged_tells_whether_the_entry_replays_as_written() {
    let keys = ["k", "", "a b", "a\nb", "k\r", "\r", "a\rb", " "];
    let values = ["v", "", "two words", "a\nb", "v\r", "\r", "a\rb", "\n"];
    for key in keys {
        for value in values {
            let record = LogRecord::Insert { key: key.to_string(), value: value.to_string() };
            let read = parse_log(&format_insert(key, value));
            let same = match read.as_slice() {
                [LogRecord::Insert { key: k, value: v }] => k == key && v == value,
                _ => false,
            };
            assert_eq!(record.can_be_logged(), same, "{:?}", record);
        }
        let record = LogRecord::Delete { key: key.to_string() };
        let read = parse_log(&format_delete(key));
        let same = match read.as_slice() {
            [LogRecord::Delete { key: k }] => k == key,
            _ => false,
        };
        assert_eq!(record.can_be_logged(), same, "{:?}", record);
    }
}
