//! The errors that the store reports.

use vstd::prelude::*;
use vstd::std_specs::convert::FromSpecImpl;

verus! {

/// `std::io::Error`, carried through as an opaque value.
#[verifier::external_type_specification]
#[verifier::external_body]
pub struct ExIoError(std::io::Error);

/// `serde_json::Error`, carried through as an opaque value.
#[verifier::external_type_specification]
#[verifier::external_body]
pub struct ExJsonError(serde_json::Error);

/// What can go wrong in a store.
#[derive(Debug)]
pub enum RustDbError {
    /// The key is not in the store.
    KeyNotFound,
    /// Reading or writing a file failed.
    IoError(std::io::Error),
    /// The content could not be written as a snapshot.
    SerializationError(serde_json::Error),
    /// A snapshot does not hold a content: its text is not empty and is not
    /// the JSON object of strings that a snapshot is.
    DeserializationError(serde_json::Error),
}

impl From<std::io::Error> for RustDbError {
    fn from(err: std::io::Error) -> (e: RustDbError) {
        RustDbError::IoError(err)
    }
}

impl FromSpecImpl<std::io::Error> for RustDbError {
    open spec fn obeys_from_spec() -> bool {
        true
    }

    open spec fn from_spec(err: std::io::Error) -> RustDbError {
        RustDbError::IoError(err)
    }
}

/// An error of the JSON reader: the text that it read is no snapshot.
impl From<serde_json::Error> for RustDbError {
    fn from(err: serde_json::Error) -> (e: RustDbError) {
        RustDbError::DeserializationError(err)
    }
}

impl FromSpecImpl<serde_json::Error> for RustDbError {
    open spec fn obeys_from_spec() -> bool {
        true
    }

    open spec fn from_spec(err: serde_json::Error) -> RustDbError {
        RustDbError::DeserializationError(err)
    }
}

} // verus!
