//! Parsing, merging and filtering of LCOV coverage tracefiles.
//!
//! A tracefile is a sequence of records, one per line, grouped into
//! sections: the coverage of one source file under one test. A [`Report`]
//! gathers sections from any number of record streams, merging the coverage
//! of equal sections; a [`Filter`] narrows a report down to chosen lines of
//! chosen files; and a report is written back out as records with summary
//! counts computed afresh.
pub mod assoc;
pub mod codec;
pub mod combine;
pub mod error;
pub mod filter;
pub mod laws;
pub mod line_set;
pub mod number;
pub mod output;
pub mod range;
pub mod reader;
pub mod replay;
pub mod record;
pub mod report;
pub mod section;
pub mod text;

pub use error::{MergeError, ReadError};
pub use filter::Filter;
pub use line_set::LineNum;
pub use range::Range;
pub use reader::Reader;
pub use record::{ParseRecordError, ParseRecordKindError, Record, RecordKind};
pub use report::Report;
