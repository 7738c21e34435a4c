//! Errors reported by block sources.

use vstd::prelude::*;

verus! {

/// The kind of a [`BlockSourceError`], either persistent or transient.
#[derive(Clone, Copy, Debug, PartialEq, Eq, Structural)]
pub enum BlockSourceErrorKind {
    /// An error that won't resolve when retrying a request (e.g., invalid data).
    Persistent,
    /// An error that may resolve when retrying a request (e.g., unresponsive).
    Transient,
}

/// Error type for block source requests.
///
/// Transient errors may be resolved when re-polling, but no attempt will be made to re-poll on
/// persistent errors. The underlying cause is kept as its message.
#[derive(Debug)]
pub struct BlockSourceError {
    kind: BlockSourceErrorKind,
    error: String,
}

impl BlockSourceError {
    /// The kind of the error, as a specification.
    pub closed spec fn spec_kind(&self) -> BlockSourceErrorKind {
        self.kind
    }

    /// The message of the underlying cause.
    pub closed spec fn message(&self) -> Seq<char> {
        self.error@
    }

    /// Creates a new persistent error originated from the given cause.
    pub fn persistent(error: &str) -> (e: Self)
        ensures
            e.kind() == BlockSourceErrorKind::Persistent,
            e.message() == error@,
    {
        Self { kind: BlockSourceErrorKind::Persistent, error: error.to_string() }
    }

    /// Creates a new transient error originated from the given cause.
    pub fn transient(error: &str) -> (e: Self)
        ensures
            e.kind() == BlockSourceErrorKind::Transient,
            e.message() == error@,
    {
        Self { kind: BlockSourceErrorKind::Transient, error: error.to_string() }
    }

    /// Returns the kind of error.
    #[verifier::when_used_as_spec(spec_kind)]
    pub fn kind(&self) -> (kind: BlockSourceErrorKind)
        ensures
            kind == self.spec_kind(),
    {
        self.kind
    }

    /// Converts the error into the message of the underlying cause.
    pub fn into_inner(self) -> (error: String)
        ensures
            error@ == self.message(),
    {
        self.error
    }
}

} // verus!
