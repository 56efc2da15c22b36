use vstd::prelude::*;

verus! {

/// The ways an operation on a [`crate::CharBuffer`] can fail.
#[derive(Clone, Copy, Debug, PartialEq, Eq, Structural)]
pub enum BufferError {
    /// The source is exhausted and every loaded byte has been consumed.
    /// Transient: the buffer stays usable, and rewinding may still succeed.
    EndOfInput,
    /// The consumed byte is not ASCII. The byte still counts as consumed;
    /// a caller that wants it back must rewind explicitly.
    InvalidInput,
    /// A rewind asks for more than one chunk of history, or more than has
    /// been consumed, or more than the live withdrawn budget allows.
    PermissionDenied,
    /// A chunk size of zero was given at construction.
    ConfigurationError,
}

} // verus!
