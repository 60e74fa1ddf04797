//! Error type shared by every reader of the decoder.

use vstd::prelude::*;

verus! {

/// Why a decode failed. Every failure is fatal to the current parse.
#[derive(Clone, Copy, Debug, PartialEq, Eq, Structural)]
pub enum RdbError {
    /// The input ended in the middle of a field.
    ShortRead,
    /// The magic tag at the start of the stream is wrong.
    InvalidMagic,
    /// The four version digits decode to a version outside the supported range.
    UnsupportedVersion(u32),
    /// An unknown encoding code, an unknown value-type tag, or a structural
    /// violation inside a packed sub-container.
    Corrupt,
    /// An event-sink callback failed.
    SinkFailed,
}

/// Shorthand for results of the decoder.
pub type RdbResult<T> = Result<T, RdbError>;

/// Shorthand for results that carry no value.
pub type RdbOk = Result<(), RdbError>;

} // verus!
