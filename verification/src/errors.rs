//! The error taxonomy of the object layer.

use vstd::prelude::*;

verus! {

/// Every failure an object-layer operation can report.
///
/// Parsing and storage operations return one of these variants instead of
/// terminating the process; callers decide whether to abort or report.
#[derive(Clone, Copy, Debug, PartialEq, Eq, Structural)]
pub enum GitError {
    /// An identifier string is not exactly 40 lowercase hex characters.
    ShaLengthError,
    /// An object header is malformed: unknown kind token, bad decimal
    /// length, missing NUL terminator, or a declared length that does not
    /// match the payload.
    FormatError,
    /// A tree entry carries a mode outside the four legal codes.
    InvalidMode,
    /// A tree body ends in the middle of an entry.
    TruncatedEntry,
    /// No object is stored under the requested identifier.
    NotFound,
    /// Stored bytes fail to decompress back into canonical bytes.
    CorruptObject,
    /// An underlying filesystem failure, distinct from object-format errors.
    IoError,
}

} // verus!
