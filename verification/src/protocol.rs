//! Mutations of a store that is kept on disk, step by step.
//!
//! The store does not touch its files. For each request it tells its caller
//! what to do next, a [`Step`], and the caller reports how that went. A
//! mutation is carried out in memory only once its entry is in the log; a
//! snapshot that cannot be written does not undo it, since the log holds it
//! and a later snapshot will. A start ends with the log emptied.

use crate::db::RustDb;
use crate::error::RustDbError;
use crate::log::{entry_of_record, format_delete, format_insert, records_of_text, LogRecord};
use crate::model::{
    accepted, apply, apply_pairs, collect, lemma_collect, lemma_replay_pairs, map_of, replay,
    replay_pairs, Content, Pairs, Record, Text,
};
use crate::read::{is_not_found, text_read};
use crate::snapshot::{json_of_content, pairs_of_snapshot};
use vstd::prelude::*;

verus! {

/// What the caller of a store on disk does next for a request.
#[derive(Debug)]
#[must_use]
pub enum Step {
    /// Append `entry` to the log as it is, and report the outcome. The entry
    /// is one line with its line feed; `record` is the mutation that it
    /// stands for.
    Append { entry: String, record: LogRecord },
    /// Put `snapshot` in the place of the last snapshot, and report the
    /// outcome.
    Write { snapshot: String },
    /// Empty the log, and report the outcome.
    Truncate,
    /// Nothing: the request has ended, with `outcome`.
    Finish { outcome: Result<(), RustDbError> },
}

/// A step as contracts speak of it: each text as its characters, the
/// record as the mutation it stands for.
pub enum StepView {
    Append { entry: Text, record: Record },
    Write { snapshot: Text },
    Truncate,
    Finish { outcome: Result<(), RustDbError> },
}

impl View for Step {
    type V = StepView;

    open spec fn view(&self) -> StepView {
        match self {
            Step::Append { entry, record } => StepView::Append { entry: entry@, record: record@ },
            Step::Write { snapshot } => StepView::Write { snapshot: snapshot@ },
            Step::Truncate => StepView::Truncate,
            Step::Finish { outcome } => StepView::Finish { outcome: *outcome },
        }
    }
}

/// The step that asks for the entry of `record` in the log.
pub open spec fn log_step(record: Record) -> StepView {
    StepView::Append { entry: entry_of_record(record), record }
}

/// The step that asks for a snapshot of `content`; where no snapshot can be
/// made of it, the end of the request with the error.
pub open spec fn save_step(content: Content) -> StepView {
    match json_of_content(content) {
        Ok(snapshot) => StepView::Write { snapshot },
        Err(err) => StepView::Finish { outcome: Err(RustDbError::SerializationError(err)) },
    }
}

/// The step with which a mutation starts: its entry for the log where the
/// store carries the mutation out, the end of the request where it does
/// not, which is where it is to take out a key that the store does not
/// hold.
pub open spec fn first_step(content: Content, record: Record) -> StepView {
    if accepted(content, record) {
        log_step(record)
    } else {
        StepView::Finish { outcome: Err(RustDbError::KeyNotFound) }
    }
}

/// The content after the caller has reported on a step: a mutation is
/// carried out once its entry is in the log, and nothing else changes the
/// content.
pub open spec fn content_after(
    content: Content,
    step: StepView,
    done: Result<(), std::io::Error>,
) -> Content {
    match (step, done) {
        (StepView::Append { record, .. }, Ok(_)) => apply(content, record),
        _ => content,
    }
}

/// The step after the caller has reported on a step. A failure ends the
/// request. After the entry is in the log the snapshot is due; after the
/// snapshot is written, or the log emptied, the request has ended well.
pub open spec fn step_after(
    content: Content,
    step: StepView,
    done: Result<(), std::io::Error>,
) -> StepView {
    match step {
        StepView::Append { record, .. } => match done {
            Ok(_) => save_step(apply(content, record)),
            Err(err) => StepView::Finish { outcome: Err(RustDbError::IoError(err)) },
        },
        StepView::Write { .. } | StepView::Truncate => match done {
            Ok(_) => StepView::Finish { outcome: Ok(()) },
            Err(err) => StepView::Finish { outcome: Err(RustDbError::IoError(err)) },
        },
        StepView::Finish { outcome } => StepView::Finish { outcome },
    }
}

impl RustDb {
    /// The step that asks for a snapshot of the store as it is.
    fn snapshot_step(&self) -> (step: Step)
        ensures
            step@ == save_step(self@),
    {
        match self.save() {
            Ok(snapshot) => Step::Write { snapshot },
            Err(err) => Step::Finish { outcome: Err(err) },
        }
    }

    /// Starts the request to set `key` to `value`: the entry goes to the
    /// log first.
    pub fn begin_insert(&self, key: String, value: String) -> (step: Step)
        ensures
            step@ == first_step(self@, Record::Insert { key: key@, value: value@ }),
    {
        let entry = format_insert(key.as_str(), value.as_str());
        Step::Append { entry, record: LogRecord::Insert { key, value } }
    }

    /// Starts the request to take `key` out. Where the store does not hold
    /// the key the request ends at once, and nothing goes to the log.
    pub fn begin_delete(&self, key: String) -> (step: Step)
        ensures
            step@ == first_step(self@, Record::Delete { key: key@ }),
    {
        match self.get(key.as_str()) {
            Some(_) => {
                let entry = format_delete(key.as_str());
                Step::Append { entry, record: LogRecord::Delete { key } }
            },
            None => Step::Finish { outcome: Err(RustDbError::KeyNotFound) },
        }
    }

    /// Starts the request to take every key out, and carries it out in
    /// memory: the log gets no entry, and the snapshot is due at once. The
    /// log keeps its entries until the next start empties it; a start from
    /// this snapshot and that log carries them out again.
    pub fn begin_clear(&mut self) -> (step: Step)
        ensures
            final(self).entries() == Seq::<(Text, Text)>::empty(),
            step@ == save_step(Map::<Text, Text>::empty()),
    {
        self.clear();
        self.snapshot_step()
    }

    /// Goes on with a request: `step` is what the caller was asked to do,
    /// `done` how that went.
    pub fn proceed(&mut self, step: Step, done: Result<(), std::io::Error>) -> (next: Step)
        ensures
            final(self)@ == content_after(old(self)@, step@, done),
            final(self).entries() == match (step@, done) {
                (StepView::Append { record, .. }, Ok(_)) => apply_pairs(
                    old(self).entries(),
                    record,
                ),
                _ => old(self).entries(),
            },
            next@ == step_after(old(self)@, step@, done),
    {
        match step {
            Step::Append { entry, record } => match done {
                Ok(_) => {
                    self.apply(record);
                    self.snapshot_step()
                },
                Err(err) => Step::Finish { outcome: Err(RustDbError::IoError(err)) },
            },
            Step::Write { .. } | Step::Truncate => match done {
                Ok(_) => Step::Finish { outcome: Ok(()) },
                Err(err) => Step::Finish { outcome: Err(RustDbError::IoError(err)) },
            },
            Step::Finish { outcome } => Step::Finish { outcome },
        }
    }

    /// The store as it stands after a start, and the one step that is left
    /// of the start: to empty the log. `snapshot` and `log` are what reading
    /// the two files gave. The store begins with what the snapshot holds and
    /// carries out the mutations of the log on it; a file that is missing
    /// counts as empty. A file that could not be read for another reason, or
    /// a snapshot that holds no content, ends the start with the error; the
    /// snapshot is looked at first.
    pub fn new(
        snapshot: Result<String, std::io::Error>,
        log: Result<String, std::io::Error>,
    ) -> (started: Result<(RustDb, Step), RustDbError>)
        ensures
            match start(text_read(snapshot), text_read(log)) {
                Ok(pairs) => started matches Ok((db, step)) && db.entries() == pairs && step@
                    == StepView::Truncate,
                Err(err) => started == Err::<(RustDb, Step), RustDbError>(err),
            },
    {
        let mut db = RustDb::from_pairs(Vec::new());
        match snapshot {
            Ok(content) => {
                match db.load(content.as_str()) {
                    Ok(_) => {},
                    Err(err) => {
                        return Err(err);
                    },
                }
            },
            Err(err) => {
                if !is_not_found(&err) {
                    return Err(RustDbError::IoError(err));
                }
            },
        }
        match log {
            Ok(content) => {
                db.replay_log(content.as_str());
            },
            Err(err) => {
                if !is_not_found(&err) {
                    return Err(RustDbError::IoError(err));
                }
            },
        }
        Ok((db, Step::Truncate))
    }
}

/// The pairs that a store holds after a start, or the error that ends the
/// start: the pairs of the snapshot, each key once, with the mutations of
/// the log carried out on them.
pub open spec fn start(
    snapshot: Result<Text, std::io::Error>,
    log: Result<Text, std::io::Error>,
) -> Result<Pairs, RustDbError> {
    match snapshot {
        Err(err) => Err(RustDbError::IoError(err)),
        Ok(content) => match pairs_of_snapshot(content) {
            Err(err) => Err(RustDbError::DeserializationError(err)),
            Ok(pairs) => match log {
                Err(err) => Err(RustDbError::IoError(err)),
                Ok(entries) => Ok(replay_pairs(collect(pairs), records_of_text(entries))),
            },
        },
    }
}

/// A start replays the log on the snapshot: where it goes well, the store
/// has the content of the snapshot with the mutations of the log carried
/// out on it, and it goes well where the snapshot holds a content.
pub proof fn law_start(snapshot: Text, log: Text)
    ensures
        match pairs_of_snapshot(snapshot) {
            Ok(pairs) => start(Ok(snapshot), Ok(log)) matches Ok(after) && map_of(after) == replay(
                map_of(pairs),
                records_of_text(log),
            ),
            Err(err) => start(Ok(snapshot), Ok(log)) is Err,
        },
{
    match pairs_of_snapshot(snapshot) {
        Ok(pairs) => {
            lemma_collect(pairs);
            lemma_replay_pairs(collect(pairs), records_of_text(log));
        },
        Err(_) => {},
    }
}

} // verus!
