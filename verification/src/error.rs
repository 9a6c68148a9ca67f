//! The ways in which an operation can fail.

use vstd::prelude::*;

verus! {

/// Why a text is no segment.
#[derive(Debug, Clone, Copy, PartialEq, Eq, Structural)]
pub enum ParseSegmentError {
    /// The text is empty.
    Empty,
    /// The text starts or ends with whitespace.
    SurroundingWhitespace,
    /// The text contains the separator of scopes.
    ContainsSeparator,
}

/// An error of the store or of the queue kept in it.
#[derive(Debug, PartialEq, Eq)]
pub enum Error {
    /// A key does not have the form of a task key.
    InvalidKey,
    /// A part of a key is no segment.
    Segment(ParseSegmentError),
    /// The store has no entry under the key.
    UnknownKey,
    /// A point in time before the Unix epoch, which no timestamp can name.
    BeforeEpoch,
    /// Any other failure, in words.
    Other(String),
}

} // verus!
