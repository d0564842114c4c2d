//! The store: its keys and values in memory.

use crate::error::RustDbError;
use crate::log::{parse_log, records_of_text, views, LogRecord};
use crate::model::{
    apply_pairs, collect, distinct_keys, key_index, lemma_collect, lemma_key_index,
    lemma_key_index_is, lemma_map_of, lemma_put, lemma_replay_pairs, lemma_without, map_of,
    pairs_of, put, replay, replay_pairs, without, Content, Pairs, Text,
};
use crate::snapshot::{from_json, json_of_content, pairs_of_snapshot, to_json};
use crate::text::str_eq;
use vstd::prelude::*;

verus! {

/// A key-value store in memory. It holds each key once, and lists its keys
/// in the order in which they came in.
#[derive(Debug)]
pub struct RustDb {
    data: Vec<(String, String)>,
}

impl View for RustDb {
    type V = Content;

    /// The content of the store: each key with its value.
    open spec fn view(&self) -> Content {
        map_of(self.entries())
    }
}

impl RustDb {
    #[verifier::type_invariant]
    spec fn keys_are_distinct(&self) -> bool {
        distinct_keys(pairs_of(self.data@))
    }

    /// The keys with their values, in the order in which `list_all` gives
    /// them.
    pub closed spec fn entries(&self) -> Pairs {
        pairs_of(self.data@)
    }

    /// The index of `key` in the store, or the number of its pairs where the
    /// key is not in it.
    fn position(&self, key: &str) -> (i: usize)
        ensures
            i <= self.data.len(),
            i == key_index(self.entries(), key@),
    {
        let mut i: usize = 0;
        while i < self.data.len() && !str_eq(self.data[i].0.as_str(), key)
            invariant
                i <= self.data.len(),
                forall|j: int| 0 <= j < i ==> self.data@[j].0@ != key@,
            decreases self.data.len() - i,
        {
            i += 1;
        }
        proof {
            lemma_key_index_is(self.entries(), key@, i as int);
        }
        i
    }

    /// Moves the pairs out of the store, which is left empty.
    fn take_data(&mut self) -> (data: Vec<(String, String)>)
        ensures
            data@ == old(self).data@,
            final(self).data@ == Seq::<(String, String)>::empty(),
    {
        let mut data: Vec<(String, String)> = Vec::new();
        std::mem::swap(&mut self.data, &mut data);
        data
    }

    /// The value of `key`, if the store holds the key.
    pub fn get(&self, key: &str) -> (value: Option<&String>)
        ensures
            match value {
                Some(v) => self@.contains_key(key@) && v@ == self@[key@],
                None => !self@.contains_key(key@),
            },
    {
        let i = self.position(key);
        proof {
            use_type_invariant(self);
            lemma_key_index(self.entries(), key@);
            lemma_map_of(self.entries());
        }
        if i < self.data.len() {
            Some(&self.data[i].1)
        } else {
            None
        }
    }

    /// Sets `key` to `value`, in memory. A key that the store holds keeps its
    /// place; a new key goes to the end.
    pub fn insert(&mut self, key: String, value: String)
        ensures
            final(self).entries() == put(old(self).entries(), key@, value@),
            final(self)@ == old(self)@.insert(key@, value@),
    {
        let i = self.position(key.as_str());
        proof {
            use_type_invariant(&*self);
            lemma_put(self.entries(), key@, value@);
        }
        let mut data = self.take_data();
        if i < data.len() {
            assert(pairs_of(data@.update(i as int, (key, value))) =~= put(
                pairs_of(data@),
                key@,
                value@,
            ));
            data.set(i, (key, value));
        } else {
            assert(pairs_of(data@.push((key, value))) =~= put(pairs_of(data@), key@, value@));
            data.push((key, value));
        }
        self.data = data;
    }

    /// Takes `key` out of the store, in memory. The other keys keep their
    /// order. Where the store does not hold the key, nothing changes.
    pub fn delete(&mut self, key: &str) -> (done: Result<(), RustDbError>)
        ensures
            old(self)@.contains_key(key@) ==> done is Ok,
            !old(self)@.contains_key(key@) ==> done == Err::<(), RustDbError>(
                RustDbError::KeyNotFound,
            ),
            final(self).entries() == without(old(self).entries(), key@),
            final(self)@ == old(self)@.remove(key@),
    {
        let i = self.position(key);
        proof {
            use_type_invariant(&*self);
            lemma_key_index(self.entries(), key@);
            lemma_map_of(self.entries());
            lemma_without(self.entries(), key@);
        }
        if i < self.data.len() {
            let mut data = self.take_data();
            assert(pairs_of(data@.remove(i as int)) =~= without(pairs_of(data@), key@));
            data.remove(i);
            self.data = data;
            Ok(())
        } else {
            Err(RustDbError::KeyNotFound)
        }
    }

    /// Every key with its value, in the order of `entries`.
    pub fn list_all(&self) -> (all: Vec<(String, String)>)
        ensures
            pairs_of(all@) == self.entries(),
            distinct_keys(self.entries()),
    {
        proof {
            use_type_invariant(self);
        }
        let mut all: Vec<(String, String)> = Vec::new();
        let mut i: usize = 0;
        while i < self.data.len()
            invariant
                i <= self.data.len(),
                all.len() == i,
                pairs_of(all@) == pairs_of(self.data@).take(i as int),
            decreases self.data.len() - i,
        {
            let ghost before = all@;
            let pair = (self.data[i].0.clone(), self.data[i].1.clone());
            all.push(pair);
            assert(pairs_of(all@) =~= pairs_of(self.data@).take(i + 1)) by {
                assert forall|j: int| 0 <= j < i implies pairs_of(all@)[j] == pairs_of(
                    self.data@,
                )[j] by {
                    assert(pairs_of(before)[j] == pairs_of(self.data@).take(i as int)[j]);
                }
            }
            i += 1;
        }
        all
    }

    /// Takes every key out of the store, in memory.
    pub fn clear(&mut self)
        ensures
            final(self).entries() == Seq::<(Text, Text)>::empty(),
            final(self)@ == Map::<Text, Text>::empty(),
    {
        self.take_data();
    }

    /// A store without keys.
    fn empty() -> (db: RustDb)
        ensures
            db.entries() == Seq::<(Text, Text)>::empty(),
    {
        let data: Vec<(String, String)> = Vec::new();
        RustDb { data }
    }

    /// A store that holds the given pairs, set in turn, first to last: of
    /// two pairs with one key the later one stays, in the place of the
    /// earlier.
    pub fn from_pairs(pairs: Vec<(String, String)>) -> (db: RustDb)
        ensures
            db.entries() == collect(pairs_of(pairs@)),
            db@ == map_of(pairs_of(pairs@)),
    {
        let ghost all = pairs_of(pairs@);
        let mut db = RustDb::empty();
        for pair in it: pairs.into_iter()
            invariant
                pairs_of(it.seq()) == all,
                db.entries() == collect(all.take(it.index() as int)),
        {
            assert(all.take(it.index() + 1).drop_last() =~= all.take(it.index() as int));
            db.insert(pair.0, pair.1);
        }
        proof {
            assert(all.take(all.len() as int) =~= all);
            lemma_collect(all);
        }
        db
    }

    /// The snapshot of the store: its content as a JSON text.
    pub fn save(&self) -> (snapshot: Result<String, RustDbError>)
        ensures
            match json_of_content(self@) {
                Ok(text) => snapshot matches Ok(s) && s@ == text,
                Err(err) => snapshot == Err::<String, RustDbError>(
                    RustDbError::SerializationError(err),
                ),
            },
    {
        proof {
            use_type_invariant(self);
        }
        match to_json(&self.data) {
            Ok(text) => Ok(text),
            Err(err) => Err(RustDbError::SerializationError(err)),
        }
    }

    /// Replaces the content of the store by what a snapshot text holds. A
    /// text that cannot be read leaves the store as it is.
    pub fn load(&mut self, content: &str) -> (done: Result<(), RustDbError>)
        ensures
            match pairs_of_snapshot(content@) {
                Ok(pairs) => done is Ok && final(self).entries() == collect(pairs) && final(self)@
                    == map_of(pairs),
                Err(err) => done == Err::<(), RustDbError>(RustDbError::DeserializationError(err))
                    && *final(self) == *old(self),
            },
    {
        if content.is_empty() {
            self.clear();
            Ok(())
        } else {
            match from_json(content) {
                Ok(pairs) => {
                    *self = RustDb::from_pairs(pairs);
                    Ok(())
                },
                Err(err) => Err(RustDbError::from(err)),
            }
        }
    }

    /// Carries out one mutation read from the log. A deletion of a key that
    /// the store does not hold changes nothing.
    pub fn apply(&mut self, record: LogRecord)
        ensures
            final(self).entries() == apply_pairs(old(self).entries(), record@),
            final(self)@ == crate::model::apply(old(self)@, record@),
    {
        match record {
            LogRecord::Insert { key, value } => {
                self.insert(key, value);
            },
            LogRecord::Delete { key } => {
                let _ = self.delete(key.as_str());
            },
        }
    }

    /// Carries out the mutations that a log text records, top to bottom. A
    /// line that records no mutation is passed over.
    pub fn replay_log(&mut self, content: &str)
        ensures
            final(self).entries() == replay_pairs(old(self).entries(), records_of_text(content@)),
            final(self)@ == replay(old(self)@, records_of_text(content@)),
    {
        let ghost start = self.entries();
        proof {
            use_type_invariant(&*self);
        }
        let records = parse_log(content);
        let ghost all = views(records@);
        for record in it: records.into_iter()
            invariant
                views(it.seq()) == all,
                self.entries() == replay_pairs(start, all.take(it.index() as int)),
        {
            assert(all.take(it.index() + 1).drop_last() =~= all.take(it.index() as int));
            self.apply(record);
        }
        proof {
            assert(all.take(all.len() as int) =~= all);
            lemma_replay_pairs(start, all);
        }
    }
}

} // verus!
