use vstd::prelude::*;

verus! {

/// Errors surfaced while loading a vector or cluster file.
///
/// I/O failures of an underlying stream are the caller's concern: this
/// library only ever sees fully materialized bytes.
#[derive(Debug, Clone, Copy, PartialEq, Eq, Structural)]
pub enum Word2VecError {
    /// The first line of a vector file did not hold exactly two
    /// whitespace-separated non-negative integers.
    WrongHeader,
    /// A word in a cluster file was not valid UTF-8.
    InvalidUtf8,
}

} // verus!
