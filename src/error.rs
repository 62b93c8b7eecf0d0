//! Errors of reading and merging records.
use crate::record::{ParseRecordError, RecordKind};
use vstd::prelude::*;

verus! {

/// Why a record could not be read.
#[derive(Debug, Clone, PartialEq, Eq)]
pub enum ReadError {
    /// The underlying reader failed; holds its message.
    Io(String),
    /// The line at the given number (counted from 1) is no valid record.
    ParseRecord(u32, ParseRecordError),
}

/// Why records or reports could not be merged.
#[derive(Debug, Clone, PartialEq, Eq)]
pub enum MergeError {
    /// Reading a record failed.
    Read(ReadError),
    /// A record of this kind stands where another kind is required.
    UnexpectedRecord(RecordKind),
    /// The records end inside a section.
    UnexpectedEof,
    /// One function is given two different start lines.
    UnmatchedFunctionLine,
    /// One line is given two different checksums.
    UnmatchedChecksum,
}

} // verus!
