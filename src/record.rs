//! LCOV records: one line of a tracefile each.
use vstd::prelude::*;

verus! {

/// One record of an LCOV tracefile.
#[derive(Debug, Clone, PartialEq, Eq)]
pub enum Record {
    /// `TN:<name>`
    TestName { name: String },
    /// `SF:<path>`
    SourceFile { path: String },
    /// `FN:<start_line>,<name>`
    FunctionName { name: String, start_line: u32 },
    /// `FNDA:<count>,<name>`
    FunctionData { name: String, count: u64 },
    /// `FNF:<found>`
    FunctionsFound { found: u32 },
    /// `FNH:<hit>`
    FunctionsHit { hit: u32 },
    /// `BRDA:<line>,<block>,<branch>,<taken>`, with `-` for a branch never taken.
    BranchData { line: u32, block: u32, branch: u32, taken: Option<u64> },
    /// `BRF:<found>`
    BranchesFound { found: u32 },
    /// `BRH:<hit>`
    BranchesHit { hit: u32 },
    /// `DA:<line>,<count>[,<checksum>]`
    LineData { line: u32, count: u64, checksum: Option<String> },
    /// `LF:<found>`
    LinesFound { found: u32 },
    /// `LH:<hit>`
    LinesHit { hit: u32 },
    /// `end_of_record`
    EndOfRecord,
}

/// Why a line could not be read as a record.
#[derive(Debug, Clone, Copy, PartialEq, Eq)]
pub enum ParseRecordError {
    /// A field that the record kind requires is missing; names the field.
    FieldNotFound(&'static str),
    /// The record has more fields than its kind takes.
    TooManyFields,
    /// A numeric field does not hold a number that fits; names the field.
    ParseIntError(&'static str),
    /// The tag before the colon names no record kind.
    UnknownRecord,
}

/// The text names no record kind.
#[derive(Debug, Clone, Copy, PartialEq, Eq, Structural)]
pub struct ParseRecordKindError;

/// The kinds of LCOV records.
#[derive(Debug, Clone, Copy, PartialEq, Eq, Structural)]
pub enum RecordKind {
    TestName,
    SourceFile,
    FunctionName,
    FunctionData,
    FunctionsFound,
    FunctionsHit,
    BranchData,
    BranchesFound,
    BranchesHit,
    LineData,
    LinesFound,
    LinesHit,
    EndOfRecord,
}

/// The kind of a record.
pub open spec fn kind_of(r: Record) -> RecordKind {
    match r {
        Record::TestName { .. } => RecordKind::TestName,
        Record::SourceFile { .. } => RecordKind::SourceFile,
        Record::FunctionName { .. } => RecordKind::FunctionName,
        Record::FunctionData { .. } => RecordKind::FunctionData,
        Record::FunctionsFound { .. } => RecordKind::FunctionsFound,
        Record::FunctionsHit { .. } => RecordKind::FunctionsHit,
        Record::BranchData { .. } => RecordKind::BranchData,
        Record::BranchesFound { .. } => RecordKind::BranchesFound,
        Record::BranchesHit { .. } => RecordKind::BranchesHit,
        Record::LineData { .. } => RecordKind::LineData,
        Record::LinesFound { .. } => RecordKind::LinesFound,
        Record::LinesHit { .. } => RecordKind::LinesHit,
        Record::EndOfRecord => RecordKind::EndOfRecord,
    }
}

/// The tag that starts a record of the given kind.
pub open spec fn tag_of(k: RecordKind) -> Seq<char> {
    match k {
        RecordKind::TestName => seq!['T', 'N'],
        RecordKind::SourceFile => seq!['S', 'F'],
        RecordKind::FunctionName => seq!['F', 'N'],
        RecordKind::FunctionData => seq!['F', 'N', 'D', 'A'],
        RecordKind::FunctionsFound => seq!['F', 'N', 'F'],
        RecordKind::FunctionsHit => seq!['F', 'N', 'H'],
        RecordKind::BranchData => seq!['B', 'R', 'D', 'A'],
        RecordKind::BranchesFound => seq!['B', 'R', 'F'],
        RecordKind::BranchesHit => seq!['B', 'R', 'H'],
        RecordKind::LineData => seq!['D', 'A'],
        RecordKind::LinesFound => seq!['L', 'F'],
        RecordKind::LinesHit => seq!['L', 'H'],
        RecordKind::EndOfRecord => seq![
            'e',
            'n',
            'd',
            '_',
            'o',
            'f',
            '_',
            'r',
            'e',
            'c',
            'o',
            'r',
            'd',
        ],
    }
}

impl Record {
    /// Returns the kind of this record.
    pub fn kind(&self) -> (k: RecordKind)
        ensures
            k == kind_of(*self),
    {
        match self {
            Record::TestName { .. } => RecordKind::TestName,
            Record::SourceFile { .. } => RecordKind::SourceFile,
            Record::FunctionName { .. } => RecordKind::FunctionName,
            Record::FunctionData { .. } => RecordKind::FunctionData,
            Record::FunctionsFound { .. } => RecordKind::FunctionsFound,
            Record::FunctionsHit { .. } => RecordKind::FunctionsHit,
            Record::BranchData { .. } => RecordKind::BranchData,
            Record::BranchesFound { .. } => RecordKind::BranchesFound,
            Record::BranchesHit { .. } => RecordKind::BranchesHit,
            Record::LineData { .. } => RecordKind::LineData,
            Record::LinesFound { .. } => RecordKind::LinesFound,
            Record::LinesHit { .. } => RecordKind::LinesHit,
            Record::EndOfRecord => RecordKind::EndOfRecord,
        }
    }
}

impl RecordKind {
    /// Returns the tag of the record kind, as it stands before the colon.
    pub fn as_str(&self) -> (s: &'static str)
        ensures
            s@ == tag_of(*self),
    {
        match self {
            RecordKind::TestName => {
                proof {
                    reveal_strlit("TN");
                }
                "TN"
            },
            RecordKind::SourceFile => {
                proof {
                    reveal_strlit("SF");
                }
                "SF"
            },
            RecordKind::FunctionName => {
                proof {
                    reveal_strlit("FN");
                }
                "FN"
            },
            RecordKind::FunctionData => {
                proof {
                    reveal_strlit("FNDA");
                }
                "FNDA"
            },
            RecordKind::FunctionsFound => {
                proof {
                    reveal_strlit("FNF");
                }
                "FNF"
            },
            RecordKind::FunctionsHit => {
                proof {
                    reveal_strlit("FNH");
                }
                "FNH"
            },
            RecordKind::BranchData => {
                proof {
                    reveal_strlit("BRDA");
                }
                "BRDA"
            },
            RecordKind::BranchesFound => {
                proof {
                    reveal_strlit("BRF");
                }
                "BRF"
            },
            RecordKind::BranchesHit => {
                proof {
                    reveal_strlit("BRH");
                }
                "BRH"
            },
            RecordKind::LineData => {
                proof {
                    reveal_strlit("DA");
                }
                "DA"
            },
            RecordKind::LinesFound => {
                proof {
                    reveal_strlit("LF");
                }
                "LF"
            },
            RecordKind::LinesHit => {
                proof {
                    reveal_strlit("LH");
                }
                "LH"
            },
            RecordKind::EndOfRecord => {
                proof {
                    reveal_strlit("end_of_record");
                }
                "end_of_record"
            },
        }
    }
}


/// A record as plain data, with the characters of its text fields.
pub enum RecordView {
    TestName { name: Seq<char> },
    SourceFile { path: Seq<char> },
    FunctionName { name: Seq<char>, start_line: u32 },
    FunctionData { name: Seq<char>, count: u64 },
    FunctionsFound { found: u32 },
    FunctionsHit { hit: u32 },
    BranchData { line: u32, block: u32, branch: u32, taken: Option<u64> },
    BranchesFound { found: u32 },
    BranchesHit { hit: u32 },
    LineData { line: u32, count: u64, checksum: Option<Seq<char>> },
    LinesFound { found: u32 },
    LinesHit { hit: u32 },
    EndOfRecord,
}

impl View for Record {
    type V = RecordView;

    open spec fn view(&self) -> RecordView {
        match *self {
            Record::TestName { name } => RecordView::TestName { name: name@ },
            Record::SourceFile { path } => RecordView::SourceFile { path: path@ },
            Record::FunctionName { name, start_line } => RecordView::FunctionName { name: name@, start_line },
            Record::FunctionData { name, count } => RecordView::FunctionData { name: name@, count },
            Record::FunctionsFound { found } => RecordView::FunctionsFound { found },
            Record::FunctionsHit { hit } => RecordView::FunctionsHit { hit },
            Record::BranchData { line, block, branch, taken } => RecordView::BranchData { line, block, branch, taken },
            Record::BranchesFound { found } => RecordView::BranchesFound { found },
            Record::BranchesHit { hit } => RecordView::BranchesHit { hit },
            Record::LineData { line, count, checksum } => RecordView::LineData {
                line,
                count,
                checksum: match checksum {
                    Some(c) => Some(c@),
                    None => None,
                },
            },
            Record::LinesFound { found } => RecordView::LinesFound { found },
            Record::LinesHit { hit } => RecordView::LinesHit { hit },
            Record::EndOfRecord => RecordView::EndOfRecord,
        }
    }
}

/// The kind of a record, as plain data.
pub open spec fn kind_of_view(r: RecordView) -> RecordKind {
    match r {
        RecordView::TestName { .. } => RecordKind::TestName,
        RecordView::SourceFile { .. } => RecordKind::SourceFile,
        RecordView::FunctionName { .. } => RecordKind::FunctionName,
        RecordView::FunctionData { .. } => RecordKind::FunctionData,
        RecordView::FunctionsFound { .. } => RecordKind::FunctionsFound,
        RecordView::FunctionsHit { .. } => RecordKind::FunctionsHit,
        RecordView::BranchData { .. } => RecordKind::BranchData,
        RecordView::BranchesFound { .. } => RecordKind::BranchesFound,
        RecordView::BranchesHit { .. } => RecordKind::BranchesHit,
        RecordView::LineData { .. } => RecordKind::LineData,
        RecordView::LinesFound { .. } => RecordKind::LinesFound,
        RecordView::LinesHit { .. } => RecordKind::LinesHit,
        RecordView::EndOfRecord => RecordKind::EndOfRecord,
    }
}

/// The views of a sequence of records.
pub open spec fn views_of(s: Seq<Record>) -> Seq<RecordView> {
    s.map_values(|r: Record| r@)
}
} // verus!
