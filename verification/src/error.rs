//! The ways in which an operation on the store can fail.

use vstd::prelude::*;

verus! {

/// Why an operation was refused. Nothing is written when one is returned,
/// unless the operation's own description says otherwise.
#[derive(Debug, Clone, Copy, PartialEq, Eq, Structural)]
pub enum ErrorType {
    /// The block to be written overlaps a block of the day's record.
    OverlapConflict,
    /// No block of the day's record has the start and end that were named.
    NotFound,
    /// A block would be left without a strictly positive duration.
    InvalidInterval,
    /// A point in time lies outside what a timestamp can hold.
    Chrono,
    /// Two neighbouring entries of the category catalog are the same.
    IdenticalBlockType,
}

/// The error that the operations of this crate return.
#[derive(Debug, Clone, Copy, PartialEq, Eq, Structural)]
pub struct Error {
    pub error_type: ErrorType,
}

impl Error {
    /// The error of the given kind.
    pub fn new(error_type: ErrorType) -> (e: Error)
        ensures
            e.error_type == error_type,
    {
        Error { error_type }
    }

    /// A short description of the error.
    pub fn message(&self) -> (text: &'static str)
        ensures
            text@ == Self::message_of(self.error_type),
    {
        match self.error_type {
            ErrorType::OverlapConflict => "Time block overlaps an existing block",
            ErrorType::NotFound => "Time block not found",
            ErrorType::InvalidInterval => "Time block without a positive duration",
            ErrorType::Chrono => "Chrono error",
            ErrorType::IdenticalBlockType => "Blocktypes Identical",
        }
    }

    /// The text that `message` returns for each kind of error.
    pub open spec fn message_of(error_type: ErrorType) -> Seq<char> {
        match error_type {
            ErrorType::OverlapConflict => "Time block overlaps an existing block"@,
            ErrorType::NotFound => "Time block not found"@,
            ErrorType::InvalidInterval => "Time block without a positive duration"@,
            ErrorType::Chrono => "Chrono error"@,
            ErrorType::IdenticalBlockType => "Blocktypes Identical"@,
        }
    }
}

} // verus!
