//! The ways in which an operation of the engine can fail.

use vstd::prelude::*;

verus! {

#[derive(Debug, Clone, Copy, PartialEq, Eq, Structural)]
pub enum Error {
    /// A key string is malformed; the caller's input is rejected.
    KeyParseError,
    /// Stored bytes do not have the shape that was written.
    DecodeError,
    /// The records of the requested height have been pruned.
    PrunedHeightError,
    /// The requested height is above the last committed one.
    NotYetCommittedError,
    /// The byte store failed.
    IoError,
    /// The block lifecycle was not respected by the caller.
    ContractViolationError,
}

impl Error {
    /// A short description of the error.
    pub fn message(&self) -> (r: &'static str)
        ensures
            r@ == error_text(*self),
    {
        match self {
            Error::KeyParseError => "malformed storage key",
            Error::DecodeError => "stored bytes cannot be decoded",
            Error::PrunedHeightError => "the requested height has been pruned",
            Error::NotYetCommittedError => "the requested height is not committed yet",
            Error::IoError => "the byte store failed",
            Error::ContractViolationError => "the block lifecycle was violated",
        }
    }
}

pub open spec fn error_text(e: Error) -> Seq<char> {
    match e {
        Error::KeyParseError => "malformed storage key"@,
        Error::DecodeError => "stored bytes cannot be decoded"@,
        Error::PrunedHeightError => "the requested height has been pruned"@,
        Error::NotYetCommittedError => "the requested height is not committed yet"@,
        Error::IoError => "the byte store failed"@,
        Error::ContractViolationError => "the block lifecycle was violated"@,
    }
}

} // verus!
