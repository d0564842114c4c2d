//! A small key-value store that survives a crash.
//!
//! The store lives in memory, in a [`RustDb`]. Two texts keep it across
//! restarts: a snapshot, which holds the whole content as one JSON object,
//! and a write-ahead log, which holds one line for each mutation since the
//! last start. This library computes both texts and reads them back; its
//! caller owns the files.
//!
//! A caller that wants the store to last lets the store lead: it starts a
//! request ([`RustDb::begin_insert`], [`RustDb::begin_delete`],
//! [`RustDb::begin_clear`]), does what the [`Step`] it gets asks for, and
//! reports the outcome to [`RustDb::proceed`], until the request has ended.
//! The entry of a mutation goes to the log before the mutation is carried
//! out in memory, and the snapshot is written after it. At a start the
//! caller hands what it read of the snapshot and of the log to
//! [`RustDb::new`], and gets the store with the one step that is left: to
//! empty the log. [`paths`] says under which names the files stand beside
//! the snapshot.
//!
//! The log is not emptied when a snapshot is written, so that a start may
//! replay mutations that the snapshot already holds. The laws in [`model`]
//! and [`log`] show that this does no harm: replaying the whole log on any
//! state that the store went through gives the state it reached.

pub mod db;
pub mod error;
pub mod log;
pub mod model;
pub mod paths;
pub mod protocol;
pub mod read;
pub mod snapshot;
pub mod text;

pub use db::RustDb;
pub use error::RustDbError;
pub use log::LogRecord;
pub use protocol::Step;
