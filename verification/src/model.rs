//! The mathematical model of the store: a map from keys to values, the
//! ordered pairs that hold it, and the mutations that a log records.

use vstd::prelude::*;

verus! {

/// A key or a value, as the sequence of its characters.
pub type Text = Seq<char>;

/// The content of a store: each key with its value.
pub type Content = Map<Text, Text>;

/// Keys with their values in the order in which the store lists them.
pub type Pairs = Seq<(Text, Text)>;

/// A mutation of the store, as the log records it.
pub enum Record {
    /// Set `key` to `value`, whether or not the key had a value.
    Insert { key: Text, value: Text },
    /// Take `key` out, if it is there.
    Delete { key: Text },
}

impl Record {
    /// The key that the mutation is about.
    pub open spec fn key(self) -> Text {
        match self {
            Record::Insert { key, .. } => key,
            Record::Delete { key } => key,
        }
    }
}

/// The pairs that `data` holds, each key and value as its characters.
pub open spec fn pairs_of(data: Seq<(String, String)>) -> Pairs {
    data.map_values(|pair: (String, String)| (pair.0@, pair.1@))
}

/// No key occurs twice in `pairs`.
pub open spec fn distinct_keys(pairs: Pairs) -> bool {
    forall|i: int, j: int| 0 <= i < j < pairs.len() ==> pairs[i].0 != pairs[j].0
}

/// Whether `key` occurs in `pairs`.
pub open spec fn has_key(pairs: Pairs, key: Text) -> bool {
    exists|i: int| 0 <= i < pairs.len() && pairs[i].0 == key
}

/// The index of the first pair of `pairs` with the key `key`, or the length
/// of `pairs` where no pair has it.
pub open spec fn key_index(pairs: Pairs, key: Text) -> nat
    decreases pairs.len(),
{
    if pairs.len() == 0 {
        0
    } else if pairs[0].0 == key {
        0
    } else {
        1 + key_index(pairs.drop_first(), key)
    }
}

/// The map that `pairs` holds: each key with the value of the last pair
/// that has it.
pub open spec fn map_of(pairs: Pairs) -> Content
    decreases pairs.len(),
{
    if pairs.len() == 0 {
        Map::empty()
    } else {
        map_of(pairs.drop_last()).insert(pairs.last().0, pairs.last().1)
    }
}

/// `pairs` with `key` set to `value`: in place where the key occurs, at the
/// end where it does not.
pub open spec fn put(pairs: Pairs, key: Text, value: Text) -> Pairs {
    let i = key_index(pairs, key) as int;
    if i < pairs.len() {
        pairs.update(i, (key, value))
    } else {
        pairs.push((key, value))
    }
}

/// `pairs` without the pair of `key`; `pairs` itself where the key does not
/// occur.
pub open spec fn without(pairs: Pairs, key: Text) -> Pairs {
    let i = key_index(pairs, key) as int;
    if i < pairs.len() {
        pairs.remove(i)
    } else {
        pairs
    }
}

/// The pairs after one mutation.
pub open spec fn apply_pairs(pairs: Pairs, record: Record) -> Pairs {
    match record {
        Record::Insert { key, value } => put(pairs, key, value),
        Record::Delete { key } => without(pairs, key),
    }
}

/// The pairs after the mutations of `records`, first to last.
pub open spec fn replay_pairs(pairs: Pairs, records: Seq<Record>) -> Pairs
    decreases records.len(),
{
    if records.len() == 0 {
        pairs
    } else {
        apply_pairs(replay_pairs(pairs, records.drop_last()), records.last())
    }
}

/// The pairs with each key once: every pair of `pairs` set in turn, first
/// to last, starting from none.
pub open spec fn collect(pairs: Pairs) -> Pairs
    decreases pairs.len(),
{
    if pairs.len() == 0 {
        Seq::empty()
    } else {
        put(collect(pairs.drop_last()), pairs.last().0, pairs.last().1)
    }
}

/// The content after one mutation.
pub open spec fn apply(content: Content, record: Record) -> Content {
    match record {
        Record::Insert { key, value } => content.insert(key, value),
        Record::Delete { key } => content.remove(key),
    }
}

/// The content after the mutations of `records`, first to last.
pub open spec fn replay(content: Content, records: Seq<Record>) -> Content
    decreases records.len(),
{
    if records.len() == 0 {
        content
    } else {
        apply(replay(content, records.drop_last()), records.last())
    }
}

/// Whether the store carries a mutation out: an insertion always, a deletion
/// where it holds the key.
pub open spec fn accepted(content: Content, record: Record) -> bool {
    match record {
        Record::Insert { .. } => true,
        Record::Delete { key } => content.contains_key(key),
    }
}

/// The mutations of `records` that the store carries out when they reach it
/// first to last, starting from `content`. These are the ones that are
/// written to the log.
pub open spec fn written(content: Content, records: Seq<Record>) -> Seq<Record>
    decreases records.len(),
{
    if records.len() == 0 {
        Seq::empty()
    } else {
        let before = records.drop_last();
        if accepted(replay(content, before), records.last()) {
            written(content, before).push(records.last())
        } else {
            written(content, before)
        }
    }
}

/// Whether a mutation of `records` is about `key`.
pub open spec fn touches(records: Seq<Record>, key: Text) -> bool {
    exists|i: int| 0 <= i < records.len() && records[i].key() == key
}

/// Whether two contents say the same of `key`.
pub open spec fn same_at(a: Content, b: Content, key: Text) -> bool {
    a.contains_key(key) == b.contains_key(key) && (a.contains_key(key) ==> a[key] == b[key])
}

/// `key_index` stays within `pairs`, no pair before it has the key, and the
/// pair at it has the key unless it is the length of `pairs`.
pub proof fn lemma_key_index(pairs: Pairs, key: Text)
    ensures
        key_index(pairs, key) <= pairs.len(),
        forall|j: int| 0 <= j < key_index(pairs, key) ==> pairs[j].0 != key,
        key_index(pairs, key) < pairs.len() ==> pairs[key_index(pairs, key) as int].0 == key,
        key_index(pairs, key) < pairs.len() <==> has_key(pairs, key),
    decreases pairs.len(),
{
    if pairs.len() > 0 && pairs[0].0 != key {
        let rest = pairs.drop_first();
        lemma_key_index(rest, key);
        assert forall|j: int| 0 <= j < key_index(pairs, key) implies pairs[j].0 != key by {
            if j > 0 {
                assert(pairs[j] == rest[j - 1]);
            }
        }
        if has_key(pairs, key) {
            let i = choose|i: int| 0 <= i < pairs.len() && pairs[i].0 == key;
            assert(rest[i - 1] == pairs[i]);
            assert(has_key(rest, key));
        }
        if key_index(rest, key) < rest.len() {
            let i = key_index(rest, key) as int;
            assert(pairs[i + 1] == rest[i]);
        }
    }
}

/// An index that no pair with the key stands before, and whose pair has the
/// key unless it is the length of `pairs`, is `key_index`.
pub proof fn lemma_key_index_is(pairs: Pairs, key: Text, i: int)
    requires
        0 <= i <= pairs.len(),
        forall|j: int| 0 <= j < i ==> pairs[j].0 != key,
        i < pairs.len() ==> pairs[i].0 == key,
    ensures
        key_index(pairs, key) == i,
{
    lemma_key_index(pairs, key);
    let f = key_index(pairs, key) as int;
    if f < i {
        assert(pairs[f].0 == key);
    } else if i < f {
        assert(pairs[i].0 == key);
    }
}

/// The keys of `map_of(pairs)` are the keys that occur in `pairs`, and
/// where no key occurs twice each pair's value is the value of its key.
pub proof fn lemma_map_of(pairs: Pairs)
    ensures
        forall|key: Text| #[trigger] map_of(pairs).contains_key(key) <==> has_key(pairs, key),
        distinct_keys(pairs) ==> forall|i: int|
            0 <= i < pairs.len() ==> map_of(pairs)[#[trigger] pairs[i].0] == pairs[i].1,
    decreases pairs.len(),
{
    if pairs.len() > 0 {
        let front = pairs.drop_last();
        let last = pairs.last();
        lemma_map_of(front);
        assert forall|key: Text| #[trigger]
            map_of(pairs).contains_key(key) <==> has_key(pairs, key) by {
            assert(map_of(pairs).contains_key(key) <==> (key == last.0 || map_of(
                front,
            ).contains_key(key)));
            assert(map_of(front).contains_key(key) <==> has_key(front, key));
            if has_key(pairs, key) {
                let i = choose|i: int| 0 <= i < pairs.len() && pairs[i].0 == key;
                if i < front.len() {
                    assert(front[i] == pairs[i]);
                    assert(has_key(front, key));
                } else {
                    assert(key == last.0);
                }
            }
            if has_key(front, key) {
                let i = choose|i: int| 0 <= i < front.len() && front[i].0 == key;
                assert(pairs[i] == front[i]);
                assert(has_key(pairs, key));
            }
            if key == last.0 {
                assert(pairs[pairs.len() - 1].0 == key);
                assert(has_key(pairs, key));
            }
        }
        if distinct_keys(pairs) {
            assert(distinct_keys(front)) by {
                assert forall|i: int, j: int| 0 <= i < j < front.len() implies front[i].0
                    != front[j].0 by {
                    assert(front[i] == pairs[i] && front[j] == pairs[j]);
                }
            }
            assert forall|i: int| 0 <= i < pairs.len() implies map_of(pairs)[#[trigger] pairs[i].0]
                == pairs[i].1 by {
                if i < front.len() {
                    assert(front[i] == pairs[i]);
                    assert(pairs[i].0 != pairs[pairs.len() - 1].0);
                }
            }
        }
    }
}

/// Setting a key in the pairs sets it in the map, and keeps the keys
/// distinct.
pub proof fn lemma_put(pairs: Pairs, key: Text, value: Text)
    requires
        distinct_keys(pairs),
    ensures
        distinct_keys(put(pairs, key, value)),
        map_of(put(pairs, key, value)) == map_of(pairs).insert(key, value),
{
    let after = put(pairs, key, value);
    let i = key_index(pairs, key) as int;
    lemma_key_index(pairs, key);
    assert(distinct_keys(after)) by {
        assert forall|a: int, b: int| 0 <= a < b < after.len() implies after[a].0 != after[b].0 by {
            if i < pairs.len() {
                assert(after[a].0 == pairs[a].0 && after[b].0 == pairs[b].0);
            } else if b < pairs.len() {
                assert(after[a] == pairs[a] && after[b] == pairs[b]);
            } else {
                assert(after[a] == pairs[a]);
            }
        }
    }
    lemma_map_of(pairs);
    lemma_map_of(after);
    let want = map_of(pairs).insert(key, value);
    assert forall|k: Text| #[trigger] map_of(after).contains_key(k) <==> want.contains_key(k) by {
        if has_key(after, k) {
            let a = choose|a: int| 0 <= a < after.len() && after[a].0 == k;
            if k != key {
                assert(pairs[a].0 == k);
            }
        }
        if has_key(pairs, k) {
            let a = choose|a: int| 0 <= a < pairs.len() && pairs[a].0 == k;
            assert(after[a].0 == k);
        }
        if k == key {
            let a = if i < pairs.len() { i } else { pairs.len() as int };
            assert(after[a].0 == key);
        }
    }
    assert forall|k: Text| #[trigger] want.contains_key(k) implies map_of(after)[k] == want[k] by {
        assert(map_of(after).contains_key(k));
        assert(has_key(after, k));
        let a = choose|a: int| 0 <= a < after.len() && after[a].0 == k;
        assert(map_of(after)[after[a].0] == after[a].1);
        if k != key {
            assert(after[a] == pairs[a]);
            assert(map_of(pairs)[pairs[a].0] == pairs[a].1);
        }
    }
    assert(map_of(after) =~= want);
}

/// Taking a key out of the pairs takes it out of the map, and keeps the
/// keys distinct.
pub proof fn lemma_without(pairs: Pairs, key: Text)
    requires
        distinct_keys(pairs),
    ensures
        distinct_keys(without(pairs, key)),
        map_of(without(pairs, key)) == map_of(pairs).remove(key),
{
    let after = without(pairs, key);
    let i = key_index(pairs, key) as int;
    lemma_key_index(pairs, key);
    lemma_map_of(pairs);
    lemma_map_of(after);
    let want = map_of(pairs).remove(key);
    if i < pairs.len() {
        assert forall|a: int| 0 <= a < after.len() implies after[a] == pairs[if a < i {
            a
        } else {
            a + 1
        }] by {}
        assert(distinct_keys(after)) by {
            assert forall|a: int, b: int| 0 <= a < b < after.len() implies after[a].0
                != after[b].0 by {
                let a0 = if a < i { a } else { a + 1 };
                let b0 = if b < i { b } else { b + 1 };
                assert(after[a] == pairs[a0] && after[b] == pairs[b0]);
            }
        }
        assert forall|k: Text| #[trigger]
            map_of(after).contains_key(k) <==> want.contains_key(k) by {
            if has_key(after, k) {
                let a = choose|a: int| 0 <= a < after.len() && after[a].0 == k;
                let a0 = if a < i { a } else { a + 1 };
                assert(after[a] == pairs[a0]);
                assert(pairs[a0].0 == k);
                assert(a0 != i);
                if a0 < i {
                    assert(pairs[a0].0 != pairs[i].0);
                } else {
                    assert(pairs[i].0 != pairs[a0].0);
                }
            }
            if has_key(pairs, k) && k != key {
                let a = choose|a: int| 0 <= a < pairs.len() && pairs[a].0 == k;
                let a1 = if a < i { a } else { a - 1 };
                assert(after[a1] == pairs[a]);
                assert(after[a1].0 == k);
            }
        }
        assert forall|k: Text| #[trigger] want.contains_key(k) implies map_of(after)[k]
            == want[k] by {
            assert(map_of(after).contains_key(k));
            assert(has_key(after, k));
            let a = choose|a: int| 0 <= a < after.len() && after[a].0 == k;
            let a0 = if a < i { a } else { a + 1 };
            assert(after[a] == pairs[a0]);
            assert(map_of(after)[after[a].0] == after[a].1);
            assert(map_of(pairs)[pairs[a0].0] == pairs[a0].1);
        }
        assert(map_of(after) =~= want);
    } else {
        assert(!map_of(pairs).contains_key(key));
        assert(map_of(after) =~= want);
    }
}

/// A mutation that follows others is applied to what they leave.
pub proof fn lemma_replay_push(content: Content, records: Seq<Record>, record: Record)
    ensures
        replay(content, records.push(record)) == apply(replay(content, records), record),
{
    assert(records.push(record).drop_last() =~= records);
}

/// Of a key that no mutation is about, the content says afterwards what it
/// said before.
pub proof fn lemma_replay_untouched(content: Content, records: Seq<Record>, key: Text)
    requires
        !touches(records, key),
    ensures
        same_at(replay(content, records), content, key),
    decreases records.len(),
{
    if records.len() > 0 {
        let before = records.drop_last();
        assert(records[records.len() - 1].key() != key);
        assert(!touches(before, key)) by {
            if touches(before, key) {
                let i = choose|i: int| 0 <= i < before.len() && before[i].key() == key;
                assert(records[i].key() == key);
            }
        }
        lemma_replay_untouched(content, before, key);
    }
}

/// Of a key that a mutation is about, the content says afterwards the same
/// whatever it was before.
pub proof fn lemma_replay_touched(a: Content, b: Content, records: Seq<Record>, key: Text)
    requires
        touches(records, key),
    ensures
        same_at(replay(a, records), replay(b, records), key),
    decreases records.len(),
{
    if records.len() > 0 {
        let before = records.drop_last();
        let last = records.last();
        if last.key() != key {
            let i = choose|i: int| 0 <= i < records.len() && records[i].key() == key;
            assert(before[i].key() == key);
            lemma_replay_touched(a, b, before, key);
        }
    }
}

/// A mutation carried out a second time changes nothing: after an
/// insertion the key has the value already, after a deletion it is gone.
pub proof fn law_apply_twice(content: Content, record: Record)
    ensures
        apply(apply(content, record), record) == apply(content, record),
{
    assert(apply(apply(content, record), record) =~= apply(content, record));
}

/// Replaying the whole log on an earlier state changes nothing in the end.
/// Take the content that a run of mutations leaves, and any content that
/// the first few of them left on the way, such as the last snapshot holds:
/// all the mutations replayed on that earlier content give the content at
/// the end.
pub proof fn law_replay_on_snapshot(content: Content, records: Seq<Record>, saved: int)
    requires
        0 <= saved <= records.len(),
    ensures
        replay(replay(content, records.take(saved)), records) == replay(content, records),
{
    let early = replay(content, records.take(saved));
    let again = replay(early, records);
    let end = replay(content, records);
    assert forall|key: Text| same_at(again, end, key) by {
        if touches(records, key) {
            lemma_replay_touched(early, content, records, key);
        } else {
            assert(!touches(records.take(saved), key)) by {
                if touches(records.take(saved), key) {
                    let i = choose|i: int|
                        0 <= i < records.take(saved).len() && records.take(saved)[i].key() == key;
                    assert(records[i].key() == key);
                }
            }
            lemma_replay_untouched(content, records.take(saved), key);
            lemma_replay_untouched(early, records, key);
            lemma_replay_untouched(content, records, key);
        }
    }
    assert(again =~= end) by {
        assert forall|key: Text| again.contains_key(key) == end.contains_key(key) by {
            assert(same_at(again, end, key));
        }
        assert forall|key: Text| again.contains_key(key) implies again[key] == end[key] by {
            assert(same_at(again, end, key));
        }
    }
}

/// Replaying a log a second time changes nothing: the content after two
/// replays of the same mutations is the content after one.
pub proof fn law_replay_twice(content: Content, records: Seq<Record>)
    ensures
        replay(replay(content, records), records) == replay(content, records),
{
    assert(records.take(records.len() as int) =~= records);
    law_replay_on_snapshot(content, records, records.len() as int);
}

/// The mutations that the store carries out leave what all of them would
/// leave: one that it refuses, a deletion of a key that it does not hold,
/// would change nothing.
pub proof fn lemma_replay_written(content: Content, records: Seq<Record>)
    ensures
        replay(content, written(content, records)) == replay(content, records),
    decreases records.len(),
{
    if records.len() > 0 {
        let before = records.drop_last();
        let last = records.last();
        lemma_replay_written(content, before);
        if accepted(replay(content, before), last) {
            lemma_replay_push(content, written(content, before), last);
        } else {
            assert(replay(content, before).remove(last.key()) =~= replay(content, before));
        }
    }
}

/// A key that is set holds the value it was set to; once it is taken out
/// again, the content holds it no longer.
pub proof fn law_insert_then_delete(content: Content, key: Text, value: Text)
    ensures
        apply(content, Record::Insert { key, value }).contains_key(key),
        apply(content, Record::Insert { key, value })[key] == value,
        !apply(apply(content, Record::Insert { key, value }), Record::Delete { key }).contains_key(
            key,
        ),
{
}

/// A store that starts empty never holds a key that was not inserted, so
/// that a deletion of such a key is refused.
pub proof fn law_never_inserted(records: Seq<Record>, key: Text)
    requires
        forall|i: int|
            0 <= i < records.len() ==> !(#[trigger] records[i] is Insert && records[i].key()
                == key),
    ensures
        !replay(Map::empty(), records).contains_key(key),
        !accepted(replay(Map::empty(), records), Record::Delete { key }),
    decreases records.len(),
{
    if records.len() > 0 {
        let before = records.drop_last();
        assert forall|i: int| 0 <= i < before.len() implies !(#[trigger] before[i] is Insert
            && before[i].key() == key) by {
            assert(before[i] == records[i]);
        }
        law_never_inserted(before, key);
        assert(!(records[records.len() - 1] is Insert && records[records.len() - 1].key() == key));
    }
}

/// Replaying mutations on the pairs replays them on the map, and keeps the
/// keys distinct.
pub proof fn lemma_replay_pairs(pairs: Pairs, records: Seq<Record>)
    requires
        distinct_keys(pairs),
    ensures
        distinct_keys(replay_pairs(pairs, records)),
        map_of(replay_pairs(pairs, records)) == replay(map_of(pairs), records),
    decreases records.len(),
{
    if records.len() > 0 {
        let before = replay_pairs(pairs, records.drop_last());
        lemma_replay_pairs(pairs, records.drop_last());
        match records.last() {
            Record::Insert { key, value } => lemma_put(before, key, value),
            Record::Delete { key } => lemma_without(before, key),
        }
    }
}

/// Collecting pairs keeps their map, and leaves each key once.
pub proof fn lemma_collect(pairs: Pairs)
    ensures
        distinct_keys(collect(pairs)),
        map_of(collect(pairs)) == map_of(pairs),
    decreases pairs.len(),
{
    if pairs.len() > 0 {
        lemma_collect(pairs.drop_last());
        lemma_put(collect(pairs.drop_last()), pairs.last().0, pairs.last().1);
    }
}

} // verus!
