//! The write-ahead log: one line of text for each mutation.
//!
//! A line is cut at its first two spaces. `insert`, a key and the rest of
//! the line set the key to that rest; `delete` and a key, with no further
//! space, take the key out. Any other line records nothing. Lines end with a
//! line feed; a carriage return just before the line feed belongs to the
//! line end. The last line may lack its end.

use crate::model::{
    law_replay_on_snapshot, lemma_replay_written, replay, written, Content, Record, Text,
};
use crate::text::{
    contains_char, ends_in_char, find, first_index, has_char, lemma_first_index,
    lemma_first_index_is, string_from, to_chars,
};
use vstd::prelude::*;
use vstd::string::StringExecFns;

verus! {

/// A mutation read from the log.
#[derive(Debug)]
pub enum LogRecord {
    /// Set `key` to `value`.
    Insert { key: String, value: String },
    /// Take `key` out.
    Delete { key: String },
}

impl View for LogRecord {
    type V = Record;

    open spec fn view(&self) -> Record {
        match self {
            LogRecord::Insert { key, value } => Record::Insert { key: key@, value: value@ },
            LogRecord::Delete { key } => Record::Delete { key: key@ },
        }
    }
}

/// The mutations that the records stand for.
pub open spec fn views(records: Seq<LogRecord>) -> Seq<Record> {
    records.map_values(|record: LogRecord| record@)
}

/// The word that starts the line of an insertion.
pub open spec fn insert_word() -> Text {
    seq!['i', 'n', 's', 'e', 'r', 't']
}

/// The word that starts the line of a deletion.
pub open spec fn delete_word() -> Text {
    seq!['d', 'e', 'l', 'e', 't', 'e']
}

/// The line that records a mutation, without its line end.
pub open spec fn line_of_record(record: Record) -> Text {
    match record {
        Record::Insert { key, value } => insert_word() + seq![' '] + key + seq![' '] + value,
        Record::Delete { key } => delete_word() + seq![' '] + key,
    }
}

/// The entry that a mutation makes in the log: its line, with the line feed
/// that ends it.
pub open spec fn entry_of_record(record: Record) -> Text {
    line_of_record(record) + seq!['\n']
}

/// The mutation that a line records, if it records one.
pub open spec fn record_of_line(line: Text) -> Option<Record> {
    let i = first_index(line, ' ') as int;
    if i >= line.len() {
        None
    } else {
        let word = line.take(i);
        let rest = line.skip(i + 1);
        let j = first_index(rest, ' ') as int;
        if j >= rest.len() {
            if word == delete_word() {
                Some(Record::Delete { key: rest })
            } else {
                None
            }
        } else {
            if word == insert_word() {
                Some(Record::Insert { key: rest.take(j), value: rest.skip(j + 1) })
            } else {
                None
            }
        }
    }
}

/// A line without the carriage return at its end, if it has one there.
pub open spec fn without_cr(line: Text) -> Text {
    if line.len() > 0 && line.last() == '\r' {
        line.drop_last()
    } else {
        line
    }
}

/// The lines of a text, without their line ends.
pub open spec fn lines_of(text: Text) -> Seq<Text>
    decreases text.len(),
{
    if text.len() == 0 {
        Seq::empty()
    } else {
        let i = first_index(text, '\n') as int;
        if i >= text.len() {
            seq![text]
        } else {
            seq![without_cr(text.take(i))] + lines_of(text.skip(i + 1))
        }
    }
}

/// The mutations that the lines record, in order; a line that records none
/// is passed over.
pub open spec fn records_of(lines: Seq<Text>) -> Seq<Record>
    decreases lines.len(),
{
    if lines.len() == 0 {
        Seq::empty()
    } else {
        let before = records_of(lines.drop_last());
        match record_of_line(lines.last()) {
            Some(record) => before.push(record),
            None => before,
        }
    }
}

/// The mutations that a log text records, top to bottom.
pub open spec fn records_of_text(text: Text) -> Seq<Record> {
    records_of(lines_of(text))
}

/// The log text that holds the entry of each mutation, in order.
pub open spec fn text_of_records(records: Seq<Record>) -> Text
    decreases records.len(),
{
    if records.len() == 0 {
        Seq::empty()
    } else {
        text_of_records(records.drop_last()) + entry_of_record(records.last())
    }
}

/// Whether the log can hold a mutation and give it back: the key has no
/// space and no line feed, the value has no line feed, and the line does not
/// end in a carriage return.
pub open spec fn loggable(record: Record) -> bool {
    match record {
        Record::Insert { key, value } => {
            &&& !has_char(key, ' ')
            &&& !has_char(key, '\n')
            &&& !has_char(value, '\n')
            &&& value.len() > 0 ==> value.last() != '\r'
        },
        Record::Delete { key } => {
            &&& !has_char(key, ' ')
            &&& !has_char(key, '\n')
            &&& key.len() > 0 ==> key.last() != '\r'
        },
    }
}

impl LogRecord {
    /// Whether the log can hold the mutation and give it back. An entry for
    /// any other mutation replays as another mutation, or as none.
    pub fn can_be_logged(&self) -> (can: bool)
        ensures
            can == loggable(self@),
    {
        match self {
            LogRecord::Insert { key, value } => {
                !contains_char(key.as_str(), ' ') && !contains_char(key.as_str(), '\n')
                    && !contains_char(value.as_str(), '\n') && !ends_in_char(value.as_str(), '\r')
            },
            LogRecord::Delete { key } => {
                !contains_char(key.as_str(), ' ') && !contains_char(key.as_str(), '\n')
                    && !ends_in_char(key.as_str(), '\r')
            },
        }
    }
}

/// The log entry that records setting `key` to `value`, line feed and all.
pub fn format_insert(key: &str, value: &str) -> (entry: String)
    ensures
        entry@ == entry_of_record(Record::Insert { key: key@, value: value@ }),
{
    let mut entry = String::from_str("insert ");
    entry.append(key);
    entry.append(" ");
    entry.append(value);
    entry.append("\n");
    proof {
        reveal_strlit("insert ");
        reveal_strlit(" ");
        reveal_strlit("\n");
        assert("insert "@ =~= insert_word() + seq![' ']);
        assert(" "@ =~= seq![' ']);
        assert("\n"@ =~= seq!['\n']);
    }
    entry
}

/// The log entry that records taking `key` out, line feed and all.
pub fn format_delete(key: &str) -> (entry: String)
    ensures
        entry@ == entry_of_record(Record::Delete { key: key@ }),
{
    let mut entry = String::from_str("delete ");
    entry.append(key);
    entry.append("\n");
    proof {
        reveal_strlit("delete ");
        reveal_strlit("\n");
        assert("delete "@ =~= delete_word() + seq![' ']);
        assert("\n"@ =~= seq!['\n']);
    }
    entry
}

/// Whether the characters from `from` up to `to` spell `insert`.
fn is_insert(chars: &Vec<char>, from: usize, to: usize) -> (same: bool)
    requires
        from <= to <= chars.len(),
    ensures
        same == (chars@.subrange(from as int, to as int) == insert_word()),
{
    let same = to - from == 6 && chars[from] == 'i' && chars[from + 1] == 'n' && chars[from + 2]
        == 's' && chars[from + 3] == 'e' && chars[from + 4] == 'r' && chars[from + 5] == 't';
    proof {
        let word = chars@.subrange(from as int, to as int);
        if same {
            assert(word =~= insert_word());
        } else if word == insert_word() {
            assert(word.len() == 6);
            assert(word[0] == 'i' && word[1] == 'n' && word[2] == 's' && word[3] == 'e' && word[4]
                == 'r' && word[5] == 't');
        }
    }
    same
}

/// Whether the characters from `from` up to `to` spell `delete`.
fn is_delete(chars: &Vec<char>, from: usize, to: usize) -> (same: bool)
    requires
        from <= to <= chars.len(),
    ensures
        same == (chars@.subrange(from as int, to as int) == delete_word()),
{
    let same = to - from == 6 && chars[from] == 'd' && chars[from + 1] == 'e' && chars[from + 2]
        == 'l' && chars[from + 3] == 'e' && chars[from + 4] == 't' && chars[from + 5] == 'e';
    proof {
        let word = chars@.subrange(from as int, to as int);
        if same {
            assert(word =~= delete_word());
        } else if word == delete_word() {
            assert(word.len() == 6);
            assert(word[0] == 'd' && word[1] == 'e' && word[2] == 'l' && word[3] == 'e' && word[4]
                == 't' && word[5] == 'e');
        }
    }
    same
}

/// The mutation that the characters from `from` up to `to` record, if they
/// record one.
fn parse_range(chars: &Vec<char>, from: usize, to: usize) -> (record: Option<LogRecord>)
    requires
        from <= to <= chars.len(),
    ensures
        match record_of_line(chars@.subrange(from as int, to as int)) {
            Some(r) => record matches Some(x) && x@ == r,
            None => record is None,
        },
{
    let ghost line = chars@.subrange(from as int, to as int);
    let i = find(chars, from, to, ' ');
    if i >= to {
        return None;
    }
    let ghost word = line.take(i - from);
    let ghost rest = line.skip(i - from + 1);
    assert(word =~= chars@.subrange(from as int, i as int));
    assert(rest =~= chars@.subrange(i + 1, to as int));
    let j = find(chars, i + 1, to, ' ');
    if j >= to {
        if is_delete(chars, from, i) {
            let key = string_from(chars, i + 1, to);
            Some(LogRecord::Delete { key })
        } else {
            None
        }
    } else {
        assert(rest.take(j - i - 1) =~= chars@.subrange(i + 1, j as int));
        assert(rest.skip(j - i) =~= chars@.subrange(j + 1, to as int));
        if is_insert(chars, from, i) {
            let key = string_from(chars, i + 1, j);
            let value = string_from(chars, j + 1, to);
            Some(LogRecord::Insert { key, value })
        } else {
            None
        }
    }
}

/// The mutation that a line records, if it records one. The line comes
/// without its line end.
pub fn parse_line(line: &str) -> (record: Option<LogRecord>)
    ensures
        match record_of_line(line@) {
            Some(r) => record matches Some(x) && x@ == r,
            None => record is None,
        },
{
    let chars = to_chars(line);
    assert(chars@.subrange(0, chars.len() as int) =~= line@);
    parse_range(&chars, 0, chars.len())
}

/// The mutations that a log text records, top to bottom. A line that
/// records no mutation is passed over.
pub fn parse_log(content: &str) -> (records: Vec<LogRecord>)
    ensures
        views(records@) == records_of_text(content@),
{
    let chars = to_chars(content);
    let mut records: Vec<LogRecord> = Vec::new();
    let ghost mut done: Seq<Text> = Seq::empty();
    let mut pos: usize = 0;
    proof {
        assert(chars@.skip(0) =~= content@);
        assert(done + lines_of(content@) =~= lines_of(content@));
        assert(views(records@) =~= records_of(done));
    }
    while pos < chars.len()
        invariant
            pos <= chars.len(),
            chars@ == content@,
            lines_of(content@) == done + lines_of(chars@.skip(pos as int)),
            views(records@) == records_of(done),
        decreases chars.len() - pos,
    {
        let ghost rest = chars@.skip(pos as int);
        assert(rest =~= chars@.subrange(pos as int, chars.len() as int));
        let end = find(&chars, pos, chars.len(), '\n');
        let mut stop = end;
        let mut next = end;
        if end < chars.len() {
            next = end + 1;
            if end > pos && chars[end - 1] == '\r' {
                stop = end - 1;
            }
        }
        let ghost line = chars@.subrange(pos as int, stop as int);
        proof {
            if end < chars.len() {
                assert(rest.take(end - pos) =~= chars@.subrange(pos as int, end as int));
                assert(without_cr(rest.take(end - pos)) =~= line);
                assert(rest.skip(end - pos + 1) =~= chars@.skip(next as int));
                assert(lines_of(rest) == seq![line] + lines_of(chars@.skip(next as int)));
            } else {
                assert(line =~= rest);
                assert(lines_of(chars@.skip(next as int)) =~= Seq::<Text>::empty());
                assert(lines_of(rest) =~= seq![line] + lines_of(chars@.skip(next as int)));
            }
            assert(done + (seq![line] + lines_of(chars@.skip(next as int))) =~= done.push(line)
                + lines_of(chars@.skip(next as int)));
            assert(done.push(line).drop_last() =~= done);
        }
        let ghost before = records@;
        match parse_range(&chars, pos, stop) {
            Some(record) => {
                records.push(record);
                assert(views(records@) =~= views(before).push(record@));
            },
            None => {},
        }
        proof {
            done = done.push(line);
        }
        pos = next;
    }
    proof {
        assert(lines_of(chars@.skip(pos as int)) =~= Seq::<Text>::empty());
        assert(done + Seq::<Text>::empty() =~= done);
    }
    records
}

/// Whether a log text is whole: it is empty, or its last line has its line
/// feed.
pub open spec fn complete(text: Text) -> bool {
    text.len() == 0 || text.last() == '\n'
}

/// The line of a mutation that the log can hold gives the mutation back.
pub proof fn lemma_line_round_trip(record: Record)
    requires
        loggable(record),
    ensures
        record_of_line(line_of_record(record)) == Some(record),
        !has_char(line_of_record(record), '\n'),
        without_cr(line_of_record(record)) == line_of_record(record),
{
    let line = line_of_record(record);
    let word = match record {
        Record::Insert { .. } => insert_word(),
        Record::Delete { .. } => delete_word(),
    };
    assert(!has_char(word, ' ') && !has_char(word, '\n')) by {
        assert(word.len() == 6);
    }
    assert(line.take(6) =~= word);
    assert(line[6] == ' ');
    lemma_first_index_is(line, ' ', 6);
    let rest = line.skip(7);
    match record {
        Record::Insert { key, value } => {
            assert(rest =~= key + seq![' '] + value);
            assert(rest[key.len() as int] == ' ');
            assert forall|j: int| 0 <= j < key.len() implies rest[j] != ' ' by {
                assert(rest[j] == key[j]);
            }
            lemma_first_index_is(rest, ' ', key.len() as int);
            assert(rest.take(key.len() as int) =~= key);
            assert(rest.skip(key.len() as int + 1) =~= value);
            assert forall|j: int| 0 <= j < line.len() implies line[j] != '\n' by {
                if j < 6 {
                    assert(line[j] == word[j]);
                } else if 7 <= j < 7 + key.len() {
                    assert(line[j] == key[j - 7]);
                } else if j >= 8 + key.len() {
                    assert(line[j] == value[j - 8 - key.len()]);
                }
            }
            if value.len() > 0 {
                assert(line.last() == value.last());
            }
        },
        Record::Delete { key } => {
            assert(rest =~= key);
            assert forall|j: int| 0 <= j < key.len() implies rest[j] != ' ' by {
                assert(rest[j] == key[j]);
            }
            lemma_first_index_is(rest, ' ', key.len() as int);
            assert forall|j: int| 0 <= j < line.len() implies line[j] != '\n' by {
                if j < 6 {
                    assert(line[j] == word[j]);
                } else if j >= 7 {
                    assert(line[j] == key[j - 7]);
                }
            }
            if key.len() > 0 {
                assert(line.last() == key.last());
            }
        },
    }
}

/// A line added to a whole log text, with its line feed, is one more line
/// after the lines that the text had.
pub proof fn lemma_lines_append(text: Text, line: Text)
    requires
        complete(text),
        !has_char(line, '\n'),
    ensures
        lines_of(text + line + seq!['\n']) == lines_of(text).push(without_cr(line)),
    decreases text.len(),
{
    let all = text + line + seq!['\n'];
    if text.len() == 0 {
        assert forall|j: int| 0 <= j < line.len() implies all[j] != '\n' by {
            assert(all[j] == line[j]);
        }
        lemma_first_index_is(all, '\n', line.len() as int);
        assert(all.take(line.len() as int) =~= line);
        assert(all.skip(line.len() as int + 1) =~= Seq::<char>::empty());
        assert(lines_of(all.skip(line.len() as int + 1)) =~= Seq::<Text>::empty());
        assert(lines_of(all) =~= seq![without_cr(line)]);
        assert(lines_of(text).push(without_cr(line)) =~= seq![without_cr(line)]);
    } else {
        lemma_first_index(text, '\n');
        let i = first_index(text, '\n') as int;
        if i >= text.len() {
            assert(text[text.len() - 1] != '\n');
        }
        assert forall|j: int| 0 <= j < i implies all[j] != '\n' by {
            assert(all[j] == text[j]);
        }
        assert(all[i] == text[i]);
        lemma_first_index_is(all, '\n', i);
        let rest = text.skip(i + 1);
        assert(all.take(i) =~= text.take(i));
        assert(all.skip(i + 1) =~= rest + line + seq!['\n']);
        assert(complete(rest)) by {
            if rest.len() > 0 {
                assert(rest.last() == text.last());
            }
        }
        lemma_lines_append(rest, line);
        assert(lines_of(all) =~= lines_of(text).push(without_cr(line)));
    }
}

/// One more entry in the log is one more mutation on record: a whole log
/// text with the entry of a mutation that the log can hold added to it
/// records what it recorded before and then that mutation.
pub proof fn law_append_entry(text: Text, record: Record)
    requires
        complete(text),
        loggable(record),
    ensures
        complete(text + entry_of_record(record)),
        records_of_text(text + entry_of_record(record)) == records_of_text(text).push(record),
{
    lemma_line_round_trip(record);
    lemma_lines_append(text, line_of_record(record));
    assert(text + entry_of_record(record) =~= text + line_of_record(record) + seq!['\n']);
    let lines = lines_of(text).push(line_of_record(record));
    assert(lines.drop_last() =~= lines_of(text));
}

/// The log text of a sequence of mutations is whole.
pub proof fn lemma_text_of_records_complete(records: Seq<Record>)
    ensures
        complete(text_of_records(records)),
{
}

/// What the log holds is what was written to it: the log text of mutations
/// that the log can hold records these mutations, in their order.
pub proof fn law_log_round_trip(records: Seq<Record>)
    requires
        forall|i: int| 0 <= i < records.len() ==> loggable(#[trigger] records[i]),
    ensures
        records_of_text(text_of_records(records)) == records,
    decreases records.len(),
{
    if records.len() > 0 {
        let before = records.drop_last();
        let last = records.last();
        assert forall|i: int| 0 <= i < before.len() implies loggable(#[trigger] before[i]) by {
            assert(before[i] == records[i]);
        }
        law_log_round_trip(before);
        assert(loggable(records[records.len() - 1]));
        lemma_text_of_records_complete(before);
        law_append_entry(text_of_records(before), last);
        assert(before.push(last) =~= records);
    } else {
        assert(records_of_text(text_of_records(records)) =~= records);
    }
}

/// Replaying the log gives what the store holds in memory. Take a store
/// that carries mutations out first to last, each one written to the log
/// before it is carried out, a refused deletion not written at all. Where
/// the log can hold what is written, replaying the log text on the content
/// that the store started from gives the content that the store ends with.
pub proof fn law_replay_of_log(content: Content, records: Seq<Record>)
    requires
        forall|i: int|
            0 <= i < written(content, records).len() ==> loggable(
                #[trigger] written(content, records)[i],
            ),
    ensures
        replay(content, records_of_text(text_of_records(written(content, records)))) == replay(
            content,
            records,
        ),
{
    law_log_round_trip(written(content, records));
    lemma_replay_written(content, records);
}

/// A start after a crash gives what the store held in memory. Take a store
/// as in `law_replay_of_log`, and the content that it held at any point on
/// the way, such as its last snapshot holds. Replaying the whole log text on
/// that content gives the content that the store ends with.
pub proof fn law_replay_after_crash(content: Content, records: Seq<Record>, saved: int)
    requires
        forall|i: int|
            0 <= i < written(content, records).len() ==> loggable(
                #[trigger] written(content, records)[i],
            ),
        0 <= saved <= written(content, records).len(),
    ensures
        replay(
            replay(content, written(content, records).take(saved)),
            records_of_text(text_of_records(written(content, records))),
        ) == replay(content, records),
{
    law_log_round_trip(written(content, records));
    law_replay_on_snapshot(content, written(content, records), saved);
    lemma_replay_written(content, records);
}

} // verus!
