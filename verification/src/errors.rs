//! The single flat error channel of the library.
//!
//! Every fallible operation returns one of these kinds; callers surface the
//! kind to the user and exit nonzero.
use vstd::prelude::*;

verus! {

/// The error taxonomy of the library.
///
/// - `Io`: a byte source ended before the requested bytes were read, or the
///   surrounding binary reports a filesystem or network failure through the
///   same channel.
/// - `Decode`: malformed header, non-UTF-8 bytes where text was expected,
///   a non-numeric size or mode, a hash prefix shorter than two digits, or a
///   malformed pkt-line length.
/// - `NotFound`: no stored object or ref matches.
/// - `Ambiguous`: an abbreviated hash matches more than one stored object.
/// - `WrongType`: an operation required an object of another kind.
/// - `Integrity`: a bad pack magic, a trailing checksum mismatch, an inflated
///   length different from the declared one, or a delta length mismatch.
/// - `Unsupported`: a pack record kind the decoder does not handle.
#[derive(Clone, Copy, Debug, PartialEq, Eq, Structural)]
pub enum GitError {
    Io,
    Decode,
    NotFound,
    Ambiguous,
    WrongType,
    Integrity,
    Unsupported,
}

impl GitError {
    /// A short human-readable description, one per kind.
    pub fn describe(&self) -> (r: &'static str)
        ensures
            r@ == match *self {
                GitError::Io => "read or write failed"@,
                GitError::Decode => "malformed data"@,
                GitError::NotFound => "object or ref not found"@,
                GitError::Ambiguous => "hash prefix is ambiguous"@,
                GitError::WrongType => "object has the wrong type"@,
                GitError::Integrity => "integrity check failed"@,
                GitError::Unsupported => "unsupported operation"@,
            },
    {
        match *self {
            GitError::Io => "read or write failed",
            GitError::Decode => "malformed data",
            GitError::NotFound => "object or ref not found",
            GitError::Ambiguous => "hash prefix is ambiguous",
            GitError::WrongType => "object has the wrong type",
            GitError::Integrity => "integrity check failed",
            GitError::Unsupported => "unsupported operation",
        }
    }
}

} // verus!
