//! The error kinds the store surfaces, as a tagged union.

use vstd::prelude::*;

verus! {

/// What went wrong, as seen by a caller.
#[derive(Clone, Copy, Debug, PartialEq, Eq, Structural)]
pub enum ErrorKind {
    /// The subject is absent from the store.
    NotFound,
    /// An authorization check failed.
    Unauthorized,
    /// A commit signature did not verify.
    InvalidSignature,
    /// A commit timestamp is out of window or not monotonic.
    InvalidTimestamp,
    /// An optimistic-concurrency conflict on `previous_commit`.
    PreviousCommitMismatch,
    /// A value fails its datatype, or a required property is missing.
    SchemaViolation,
    /// A malformed commit, URL or value.
    ParseError,
    /// Pagination past the member count.
    OutOfBounds,
    /// Everything else.
    Other,
}

/// An error with its kind and a human-readable message.
#[derive(Clone, Debug)]
pub struct AtomicError {
    pub kind: ErrorKind,
    pub message: String,
}

impl AtomicError {
    /// Makes an error of the given kind.
    pub fn new(kind: ErrorKind, message: &str) -> (e: AtomicError)
        ensures
            e.kind == kind,
    {
        AtomicError { kind, message: String::from_str(message) }
    }

    /// The message, for callers that report errors.
    pub fn describe(&self) -> String {
        self.message.clone()
    }
}

/// The result type of every fallible store operation.
pub type AtomicResult<T> = Result<T, AtomicError>;

} // verus!
