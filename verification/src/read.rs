//! What reading a file gave.

use vstd::prelude::*;

verus! {

/// Whether an I/O error reports that a file was not found.
pub uninterp spec fn io_error_is_not_found(err: std::io::Error) -> bool;

/// `std::io::Error::kind`: whether the kind of the error is
/// `ErrorKind::NotFound`. The answer depends on the error alone.
#[verifier::external_body]
pub(crate) fn is_not_found(err: &std::io::Error) -> (missing: bool)
    ensures
        missing == io_error_is_not_found(*err),
{
    matches!(err.kind(), std::io::ErrorKind::NotFound)
}

/// What reading a file gave, as a start takes it: the text of the file,
/// the empty text where the file is missing, or the error.
pub open spec fn text_read(read: Result<String, std::io::Error>) -> Result<
    Seq<char>,
    std::io::Error,
> {
    match read {
        Ok(text) => Ok(text@),
        Err(err) => if io_error_is_not_found(err) {
            Ok(Seq::empty())
        } else {
            Err(err)
        },
    }
}

} // verus!
