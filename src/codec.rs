//! The text form of records: `KIND:field,field,...`, one record per line.
use crate::number::{decimal, parse_decimal, parse_number, push_decimal};
use crate::record::{tag_of, ParseRecordError, ParseRecordKindError, Record, RecordKind, RecordView};
use crate::text::chars_of;
use vstd::prelude::*;
use vstd::string::StrSliceExecFns;

verus! {

broadcast use vstd::string::group_string_axioms;

/// The text of a record, without a line ending.
pub open spec fn encode(r: RecordView) -> Seq<char> {
    match r {
        RecordView::TestName { name } => tag_of(RecordKind::TestName) + seq![':'] + name,
        RecordView::SourceFile { path } => tag_of(RecordKind::SourceFile) + seq![':'] + path,
        RecordView::FunctionName { name, start_line } => tag_of(RecordKind::FunctionName) + seq![':']
            + decimal(start_line as nat) + seq![','] + name,
        RecordView::FunctionData { name, count } => tag_of(RecordKind::FunctionData) + seq![':']
            + decimal(count as nat) + seq![','] + name,
        RecordView::FunctionsFound { found } => tag_of(RecordKind::FunctionsFound) + seq![':']
            + decimal(found as nat),
        RecordView::FunctionsHit { hit } => tag_of(RecordKind::FunctionsHit) + seq![':'] + decimal(
            hit as nat,
        ),
        RecordView::BranchData { line, block, branch, taken } => tag_of(RecordKind::BranchData)
            + seq![':'] + decimal(line as nat) + seq![','] + decimal(block as nat) + seq![',']
            + decimal(branch as nat) + seq![','] + match taken {
            Some(t) => decimal(t as nat),
            None => seq!['-'],
        },
        RecordView::BranchesFound { found } => tag_of(RecordKind::BranchesFound) + seq![':']
            + decimal(found as nat),
        RecordView::BranchesHit { hit } => tag_of(RecordKind::BranchesHit) + seq![':'] + decimal(
            hit as nat,
        ),
        RecordView::LineData { line, count, checksum } => tag_of(RecordKind::LineData) + seq![':']
            + decimal(line as nat) + seq![','] + decimal(count as nat) + match checksum {
            Some(c) => seq![','] + c,
            None => Seq::empty(),
        },
        RecordView::LinesFound { found } => tag_of(RecordKind::LinesFound) + seq![':'] + decimal(
            found as nat,
        ),
        RecordView::LinesHit { hit } => tag_of(RecordKind::LinesHit) + seq![':'] + decimal(hit as nat),
        RecordView::EndOfRecord => tag_of(RecordKind::EndOfRecord),
    }
}

fn push_colon(out: &mut String)
    ensures
        final(out)@ == old(out)@ + seq![':'],
{
    proof {
        reveal_strlit(":");
    }
    out.append(":");
}

fn push_comma(out: &mut String)
    ensures
        final(out)@ == old(out)@ + seq![','],
{
    proof {
        reveal_strlit(",");
    }
    out.append(",");
}

impl Record {
    /// The text of the record, without a line ending.
    pub fn to_string(&self) -> (s: String)
        ensures
            s@ == encode(self@),
    {
        let mut out = String::new();
        out.append(self.kind().as_str());
        match self {
            Record::TestName { name } => {
                push_colon(&mut out);
                out.append(name.as_str());
            },
            Record::SourceFile { path } => {
                push_colon(&mut out);
                out.append(path.as_str());
            },
            Record::FunctionName { name, start_line } => {
                push_colon(&mut out);
                push_decimal(&mut out, *start_line as u64);
                push_comma(&mut out);
                out.append(name.as_str());
            },
            Record::FunctionData { name, count } => {
                push_colon(&mut out);
                push_decimal(&mut out, *count);
                push_comma(&mut out);
                out.append(name.as_str());
            },
            Record::FunctionsFound { found } => {
                push_colon(&mut out);
                push_decimal(&mut out, *found as u64);
            },
            Record::FunctionsHit { hit } => {
                push_colon(&mut out);
                push_decimal(&mut out, *hit as u64);
            },
            Record::BranchData { line, block, branch, taken } => {
                push_colon(&mut out);
                push_decimal(&mut out, *line as u64);
                push_comma(&mut out);
                push_decimal(&mut out, *block as u64);
                push_comma(&mut out);
                push_decimal(&mut out, *branch as u64);
                push_comma(&mut out);
                match taken {
                    Some(t) => push_decimal(&mut out, *t),
                    None => {
                        proof {
                            reveal_strlit("-");
                        }
                        out.append("-");
                    },
                }
            },
            Record::BranchesFound { found } => {
                push_colon(&mut out);
                push_decimal(&mut out, *found as u64);
            },
            Record::BranchesHit { hit } => {
                push_colon(&mut out);
                push_decimal(&mut out, *hit as u64);
            },
            Record::LineData { line, count, checksum } => {
                push_colon(&mut out);
                push_decimal(&mut out, *line as u64);
                push_comma(&mut out);
                push_decimal(&mut out, *count);
                match checksum {
                    Some(c) => {
                        push_comma(&mut out);
                        out.append(c.as_str());
                    },
                    None => {},
                }
            },
            Record::LinesFound { found } => {
                push_colon(&mut out);
                push_decimal(&mut out, *found as u64);
            },
            Record::LinesHit { hit } => {
                push_colon(&mut out);
                push_decimal(&mut out, *hit as u64);
            },
            Record::EndOfRecord => {},
        }
        assert(out@ =~= encode(self@));
        out
    }
}

/// The line without the line-ending characters at its end.
pub open spec fn strip_eol(s: Seq<char>) -> Seq<char>
    decreases s.len(),
{
    if s.len() > 0 && (s.last() == '\n' || s.last() == '\r') {
        strip_eol(s.drop_last())
    } else {
        s
    }
}

/// Where the first `c` stands, or the length if there is none.
pub open spec fn first_index(s: Seq<char>, c: char) -> int
    decreases s.len(),
{
    if s.len() == 0 {
        0
    } else if s[0] == c {
        0
    } else {
        1 + first_index(s.drop_first(), c)
    }
}

/// The text before the first `c`.
pub open spec fn field(s: Seq<char>, c: char) -> Seq<char> {
    s.take(first_index(s, c))
}

/// The text after the first `c`, if there is one.
pub open spec fn rest(s: Seq<char>, c: char) -> Option<Seq<char>> {
    if first_index(s, c) < s.len() {
        Some(s.skip(first_index(s, c) + 1))
    } else {
        None
    }
}

/// The record kind that a tag names.
pub open spec fn kind_of_tag(t: Seq<char>) -> Option<RecordKind> {
    if t == tag_of(RecordKind::TestName) {
        Some(RecordKind::TestName)
    } else if t == tag_of(RecordKind::SourceFile) {
        Some(RecordKind::SourceFile)
    } else if t == tag_of(RecordKind::FunctionName) {
        Some(RecordKind::FunctionName)
    } else if t == tag_of(RecordKind::FunctionData) {
        Some(RecordKind::FunctionData)
    } else if t == tag_of(RecordKind::FunctionsFound) {
        Some(RecordKind::FunctionsFound)
    } else if t == tag_of(RecordKind::FunctionsHit) {
        Some(RecordKind::FunctionsHit)
    } else if t == tag_of(RecordKind::BranchData) {
        Some(RecordKind::BranchData)
    } else if t == tag_of(RecordKind::BranchesFound) {
        Some(RecordKind::BranchesFound)
    } else if t == tag_of(RecordKind::BranchesHit) {
        Some(RecordKind::BranchesHit)
    } else if t == tag_of(RecordKind::LineData) {
        Some(RecordKind::LineData)
    } else if t == tag_of(RecordKind::LinesFound) {
        Some(RecordKind::LinesFound)
    } else if t == tag_of(RecordKind::LinesHit) {
        Some(RecordKind::LinesHit)
    } else if t == tag_of(RecordKind::EndOfRecord) {
        Some(RecordKind::EndOfRecord)
    } else {
        None
    }
}

/// A `u32` field named `name`.
pub open spec fn number32(s: Seq<char>, name: &'static str) -> Result<u32, ParseRecordError> {
    match parse_number(s, u32::MAX as nat) {
        Some(v) => Ok(v as u32),
        None => Err(ParseRecordError::ParseIntError(name)),
    }
}

/// A `u64` field named `name`.
pub open spec fn number64(s: Seq<char>, name: &'static str) -> Result<u64, ParseRecordError> {
    match parse_number(s, u64::MAX as nat) {
        Some(v) => Ok(v as u64),
        None => Err(ParseRecordError::ParseIntError(name)),
    }
}

/// A body of exactly one `u32` field named `name`.
pub open spec fn single32(body: Seq<char>, name: &'static str) -> Result<u32, ParseRecordError> {
    match number32(field(body, ','), name) {
        Err(e) => Err(e),
        Ok(v) => if rest(body, ',') is Some {
            Err(ParseRecordError::TooManyFields)
        } else {
            Ok(v)
        },
    }
}

/// The `taken` field of a branch: `-` for never taken, else a count.
pub open spec fn taken_field(s: Seq<char>) -> Result<Option<u64>, ParseRecordError> {
    if s == seq!['-'] {
        Ok(None)
    } else {
        match parse_number(s, u64::MAX as nat) {
            Some(v) => Ok(Some(v as u64)),
            None => Err(ParseRecordError::ParseIntError("taken")),
        }
    }
}

/// The body of a `BRDA` record: line, block, branch and taken.
pub open spec fn decode_branch(body: Seq<char>) -> Result<RecordView, ParseRecordError> {
    match number32(field(body, ','), "line") {
        Err(e) => Err(e),
        Ok(line) => match rest(body, ',') {
            None => Err(ParseRecordError::FieldNotFound("block")),
            Some(b1) => match number32(field(b1, ','), "block") {
                Err(e) => Err(e),
                Ok(block) => match rest(b1, ',') {
                    None => Err(ParseRecordError::FieldNotFound("branch")),
                    Some(b2) => match number32(field(b2, ','), "branch") {
                        Err(e) => Err(e),
                        Ok(branch) => match rest(b2, ',') {
                            None => Err(ParseRecordError::FieldNotFound("taken")),
                            Some(b3) => match taken_field(field(b3, ',')) {
                                Err(e) => Err(e),
                                Ok(taken) => if rest(b3, ',') is Some {
                                    Err(ParseRecordError::TooManyFields)
                                } else {
                                    Ok(RecordView::BranchData { line, block, branch, taken })
                                },
                            },
                        },
                    },
                },
            },
        },
    }
}

/// The body of a `DA` record: line, count, and the optional checksum, which
/// is the rest of the text; a checksum of `-` counts as none.
pub open spec fn decode_line(body: Seq<char>) -> Result<RecordView, ParseRecordError> {
    match number32(field(body, ','), "line") {
        Err(e) => Err(e),
        Ok(line) => match rest(body, ',') {
            None => Err(ParseRecordError::FieldNotFound("count")),
            Some(b1) => match number64(field(b1, ','), "count") {
                Err(e) => Err(e),
                Ok(count) => Ok(
                    RecordView::LineData {
                        line,
                        count,
                        checksum: match rest(b1, ',') {
                            None => None,
                            Some(c) => if c == seq!['-'] {
                                None
                            } else {
                                Some(c)
                            },
                        },
                    },
                ),
            },
        },
    }
}

/// The record that the body of a record of kind `k` holds.
pub open spec fn decode_body(k: RecordKind, body: Seq<char>) -> Result<RecordView, ParseRecordError> {
    match k {
        RecordKind::TestName => Ok(RecordView::TestName { name: body }),
        RecordKind::SourceFile => Ok(RecordView::SourceFile { path: body }),
        RecordKind::FunctionName => match number32(field(body, ','), "start_line") {
            Err(e) => Err(e),
            Ok(l) => match rest(body, ',') {
                Some(n) => Ok(RecordView::FunctionName { name: n, start_line: l }),
                None => Err(ParseRecordError::FieldNotFound("name")),
            },
        },
        RecordKind::FunctionData => match number64(field(body, ','), "count") {
            Err(e) => Err(e),
            Ok(c) => match rest(body, ',') {
                Some(n) => Ok(RecordView::FunctionData { name: n, count: c }),
                None => Err(ParseRecordError::FieldNotFound("name")),
            },
        },
        RecordKind::FunctionsFound => match single32(body, "found") {
            Err(e) => Err(e),
            Ok(v) => Ok(RecordView::FunctionsFound { found: v }),
        },
        RecordKind::FunctionsHit => match single32(body, "hit") {
            Err(e) => Err(e),
            Ok(v) => Ok(RecordView::FunctionsHit { hit: v }),
        },
        RecordKind::BranchData => decode_branch(body),
        RecordKind::BranchesFound => match single32(body, "found") {
            Err(e) => Err(e),
            Ok(v) => Ok(RecordView::BranchesFound { found: v }),
        },
        RecordKind::BranchesHit => match single32(body, "hit") {
            Err(e) => Err(e),
            Ok(v) => Ok(RecordView::BranchesHit { hit: v }),
        },
        RecordKind::LineData => decode_line(body),
        RecordKind::LinesFound => match single32(body, "found") {
            Err(e) => Err(e),
            Ok(v) => Ok(RecordView::LinesFound { found: v }),
        },
        RecordKind::LinesHit => match single32(body, "hit") {
            Err(e) => Err(e),
            Ok(v) => Ok(RecordView::LinesHit { hit: v }),
        },
        RecordKind::EndOfRecord => Ok(RecordView::EndOfRecord),
    }
}

/// The record that a line holds: line endings at its end are dropped, the
/// tag before the first colon names the kind, and the rest is its body.
pub open spec fn decode(line: Seq<char>) -> Result<RecordView, ParseRecordError> {
    let s = strip_eol(line);
    let body = match rest(s, ':') {
        Some(b) => b,
        None => Seq::empty(),
    };
    match kind_of_tag(field(s, ':')) {
        None => Err(ParseRecordError::UnknownRecord),
        Some(k) => decode_body(k, body),
    }
}

/// Finds the first `c` in `cs[a..b]`, or `b`.
fn find_char(cs: &Vec<char>, a: usize, b: usize, c: char) -> (r: usize)
    requires
        a <= b <= cs@.len(),
    ensures
        a <= r <= b,
        r - a == first_index(cs@.subrange(a as int, b as int), c),
        field(cs@.subrange(a as int, b as int), c) == cs@.subrange(a as int, r as int),
        rest(cs@.subrange(a as int, b as int), c) == if r < b {
            Some(cs@.subrange(r + 1, b as int))
        } else {
            None::<Seq<char>>
        },
{
    let mut i = a;
    while i < b && cs[i] != c
        invariant
            a <= i <= b <= cs@.len(),
            first_index(cs@.subrange(a as int, b as int), c) == (i - a) + first_index(cs@.subrange(i as int, b as int), c),
        decreases b - i,
    {
        proof {
            assert(cs@.subrange(i as int, b as int).drop_first() =~= cs@.subrange(i + 1, b as int));
        }
        i = i + 1;
    }
    proof {
        let s = cs@.subrange(a as int, b as int);
        assert(s.take(i - a) =~= cs@.subrange(a as int, i as int));
        if i < b {
            assert(s.skip(i - a + 1) =~= cs@.subrange(i + 1, b as int));
        }
    }
    i
}

/// Is `cs[a..b]` the given text?
fn same_text(cs: &Vec<char>, a: usize, b: usize, t: &Vec<char>) -> (r: bool)
    requires
        a <= b <= cs@.len(),
    ensures
        r == (cs@.subrange(a as int, b as int) == t@),
{
    if b - a != t.len() {
        return false;
    }
    let mut i: usize = 0;
    while i < t.len()
        invariant
            a <= b <= cs@.len(),
            b - a == t@.len(),
            0 <= i <= t@.len(),
            forall|j: int| 0 <= j < i ==> cs@[a + j] == t@[j],
        decreases t@.len() - i,
    {
        if cs[a + i] != t[i] {
            proof {
                assert(cs@.subrange(a as int, b as int)[i as int] != t@[i as int]);
            }
            return false;
        }
        i = i + 1;
    }
    assert(cs@.subrange(a as int, b as int) =~= t@);
    true
}

/// Is `cs[a..b]` the tag of kind `k`?
fn is_tag(cs: &Vec<char>, a: usize, b: usize, k: RecordKind) -> (r: bool)
    requires
        a <= b <= cs@.len(),
    ensures
        r == (cs@.subrange(a as int, b as int) == tag_of(k)),
{
    let t = chars_of(k.as_str());
    same_text(cs, a, b, &t)
}

/// The record kind that the tag `cs[a..b]` names.
fn kind_at(cs: &Vec<char>, a: usize, b: usize) -> (r: Option<RecordKind>)
    requires
        a <= b <= cs@.len(),
    ensures
        r == kind_of_tag(cs@.subrange(a as int, b as int)),
{
    if is_tag(cs, a, b, RecordKind::TestName) {
        Some(RecordKind::TestName)
    } else if is_tag(cs, a, b, RecordKind::SourceFile) {
        Some(RecordKind::SourceFile)
    } else if is_tag(cs, a, b, RecordKind::FunctionName) {
        Some(RecordKind::FunctionName)
    } else if is_tag(cs, a, b, RecordKind::FunctionData) {
        Some(RecordKind::FunctionData)
    } else if is_tag(cs, a, b, RecordKind::FunctionsFound) {
        Some(RecordKind::FunctionsFound)
    } else if is_tag(cs, a, b, RecordKind::FunctionsHit) {
        Some(RecordKind::FunctionsHit)
    } else if is_tag(cs, a, b, RecordKind::BranchData) {
        Some(RecordKind::BranchData)
    } else if is_tag(cs, a, b, RecordKind::BranchesFound) {
        Some(RecordKind::BranchesFound)
    } else if is_tag(cs, a, b, RecordKind::BranchesHit) {
        Some(RecordKind::BranchesHit)
    } else if is_tag(cs, a, b, RecordKind::LineData) {
        Some(RecordKind::LineData)
    } else if is_tag(cs, a, b, RecordKind::LinesFound) {
        Some(RecordKind::LinesFound)
    } else if is_tag(cs, a, b, RecordKind::LinesHit) {
        Some(RecordKind::LinesHit)
    } else if is_tag(cs, a, b, RecordKind::EndOfRecord) {
        Some(RecordKind::EndOfRecord)
    } else {
        None
    }
}

impl RecordKind {
    /// The record kind that a tag names.
    pub fn from_tag(s: &str) -> (r: Result<RecordKind, ParseRecordKindError>)
        ensures
            match kind_of_tag(s@) {
                Some(k) => r == Ok::<RecordKind, ParseRecordKindError>(k),
                None => r is Err,
            },
    {
        let cs = chars_of(s);
        proof {
            assert(cs@.subrange(0, cs@.len() as int) =~= cs@);
        }
        match kind_at(&cs, 0, cs.len()) {
            Some(k) => Ok(k),
            None => Err(ParseRecordKindError),
        }
    }
}

/// The text `s[a..b]` as a string.
fn substring(s: &str, a: usize, b: usize) -> (r: String)
    requires
        a <= b <= s@.len(),
    ensures
        r@ == s@.subrange(a as int, b as int),
{
    s.substring_char(a, b).to_string()
}

fn number32_at(cs: &Vec<char>, a: usize, b: usize, name: &'static str) -> (r: Result<u32, ParseRecordError>)
    requires
        a <= b <= cs@.len(),
    ensures
        r == number32(cs@.subrange(a as int, b as int), name),
{
    match parse_decimal(cs, a, b, u32::MAX as u64) {
        Some(v) => Ok(v as u32),
        None => Err(ParseRecordError::ParseIntError(name)),
    }
}

fn number64_at(cs: &Vec<char>, a: usize, b: usize, name: &'static str) -> (r: Result<u64, ParseRecordError>)
    requires
        a <= b <= cs@.len(),
    ensures
        r == number64(cs@.subrange(a as int, b as int), name),
{
    match parse_decimal(cs, a, b, u64::MAX) {
        Some(v) => Ok(v),
        None => Err(ParseRecordError::ParseIntError(name)),
    }
}

fn single32_at(cs: &Vec<char>, a: usize, b: usize, name: &'static str) -> (r: Result<u32, ParseRecordError>)
    requires
        a <= b <= cs@.len(),
    ensures
        r == single32(cs@.subrange(a as int, b as int), name),
{
    let c = find_char(cs, a, b, ',');
    match number32_at(cs, a, c, name) {
        Err(e) => Err(e),
        Ok(v) => if c < b {
            Err(ParseRecordError::TooManyFields)
        } else {
            Ok(v)
        },
    }
}

fn is_dash(cs: &Vec<char>, a: usize, b: usize) -> (r: bool)
    requires
        a <= b <= cs@.len(),
    ensures
        r == (cs@.subrange(a as int, b as int) == seq!['-']),
{
    if b - a == 1 && cs[a] == '-' {
        assert(cs@.subrange(a as int, b as int) =~= seq!['-']);
        true
    } else {
        proof {
            let t = seq!['-'];
            assert(t.len() == 1 && t[0] == '-');
            if b - a == 1 {
                assert(cs@.subrange(a as int, b as int)[0] == cs@[a as int]);
            } else {
                assert(cs@.subrange(a as int, b as int).len() != t.len());
            }
        }
        false
    }
}

fn taken_at(cs: &Vec<char>, a: usize, b: usize) -> (r: Result<Option<u64>, ParseRecordError>)
    requires
        a <= b <= cs@.len(),
    ensures
        r == taken_field(cs@.subrange(a as int, b as int)),
{
    if is_dash(cs, a, b) {
        return Ok(None);
    }
    match parse_decimal(cs, a, b, u64::MAX) {
        Some(v) => Ok(Some(v)),
        None => Err(ParseRecordError::ParseIntError("taken")),
    }
}

/// The result of a parse, as plain data.
pub open spec fn parsed_view(r: Result<Record, ParseRecordError>) -> Result<RecordView, ParseRecordError> {
    match r {
        Ok(rec) => Ok(rec@),
        Err(e) => Err(e),
    }
}

fn parse_branch(cs: &Vec<char>, a: usize, b: usize) -> (r: Result<Record, ParseRecordError>)
    requires
        a <= b <= cs@.len(),
    ensures
        parsed_view(r) == decode_branch(cs@.subrange(a as int, b as int)),
{
    let c1 = find_char(cs, a, b, ',');
    let line = match number32_at(cs, a, c1, "line") {
        Ok(v) => v,
        Err(e) => return Err(e),
    };
    if c1 == b {
        return Err(ParseRecordError::FieldNotFound("block"));
    }
    let c2 = find_char(cs, c1 + 1, b, ',');
    let block = match number32_at(cs, c1 + 1, c2, "block") {
        Ok(v) => v,
        Err(e) => return Err(e),
    };
    if c2 == b {
        return Err(ParseRecordError::FieldNotFound("branch"));
    }
    let c3 = find_char(cs, c2 + 1, b, ',');
    let branch = match number32_at(cs, c2 + 1, c3, "branch") {
        Ok(v) => v,
        Err(e) => return Err(e),
    };
    if c3 == b {
        return Err(ParseRecordError::FieldNotFound("taken"));
    }
    let c4 = find_char(cs, c3 + 1, b, ',');
    let taken = match taken_at(cs, c3 + 1, c4) {
        Ok(v) => v,
        Err(e) => return Err(e),
    };
    if c4 < b {
        return Err(ParseRecordError::TooManyFields);
    }
    Ok(Record::BranchData { line, block, branch, taken })
}

fn parse_line_data(text: &str, cs: &Vec<char>, a: usize, b: usize) -> (r: Result<Record, ParseRecordError>)
    requires
        a <= b <= cs@.len(),
        cs@ == text@,
    ensures
        parsed_view(r) == decode_line(cs@.subrange(a as int, b as int)),
{
    let c1 = find_char(cs, a, b, ',');
    let line = match number32_at(cs, a, c1, "line") {
        Ok(v) => v,
        Err(e) => return Err(e),
    };
    if c1 == b {
        return Err(ParseRecordError::FieldNotFound("count"));
    }
    let c2 = find_char(cs, c1 + 1, b, ',');
    let count = match number64_at(cs, c1 + 1, c2, "count") {
        Ok(v) => v,
        Err(e) => return Err(e),
    };
    let checksum = if c2 < b {
        if is_dash(cs, c2 + 1, b) {
            None
        } else {
            Some(substring(text, c2 + 1, b))
        }
    } else {
        None
    };
    Ok(Record::LineData { line, count, checksum })
}

fn parse_body(text: &str, cs: &Vec<char>, a: usize, b: usize, k: RecordKind) -> (r: Result<Record, ParseRecordError>)
    requires
        a <= b <= cs@.len(),
        cs@ == text@,
    ensures
        parsed_view(r) == decode_body(k, cs@.subrange(a as int, b as int)),
{
    match k {
        RecordKind::TestName => Ok(Record::TestName { name: substring(text, a, b) }),
        RecordKind::SourceFile => Ok(Record::SourceFile { path: substring(text, a, b) }),
        RecordKind::FunctionName => {
            let c = find_char(cs, a, b, ',');
            match number32_at(cs, a, c, "start_line") {
                Err(e) => Err(e),
                Ok(l) => if c < b {
                    Ok(Record::FunctionName { name: substring(text, c + 1, b), start_line: l })
                } else {
                    Err(ParseRecordError::FieldNotFound("name"))
                },
            }
        },
        RecordKind::FunctionData => {
            let c = find_char(cs, a, b, ',');
            match number64_at(cs, a, c, "count") {
                Err(e) => Err(e),
                Ok(n) => if c < b {
                    Ok(Record::FunctionData { name: substring(text, c + 1, b), count: n })
                } else {
                    Err(ParseRecordError::FieldNotFound("name"))
                },
            }
        },
        RecordKind::FunctionsFound => match single32_at(cs, a, b, "found") {
            Err(e) => Err(e),
            Ok(v) => Ok(Record::FunctionsFound { found: v }),
        },
        RecordKind::FunctionsHit => match single32_at(cs, a, b, "hit") {
            Err(e) => Err(e),
            Ok(v) => Ok(Record::FunctionsHit { hit: v }),
        },
        RecordKind::BranchData => parse_branch(cs, a, b),
        RecordKind::BranchesFound => match single32_at(cs, a, b, "found") {
            Err(e) => Err(e),
            Ok(v) => Ok(Record::BranchesFound { found: v }),
        },
        RecordKind::BranchesHit => match single32_at(cs, a, b, "hit") {
            Err(e) => Err(e),
            Ok(v) => Ok(Record::BranchesHit { hit: v }),
        },
        RecordKind::LineData => parse_line_data(text, cs, a, b),
        RecordKind::LinesFound => match single32_at(cs, a, b, "found") {
            Err(e) => Err(e),
            Ok(v) => Ok(Record::LinesFound { found: v }),
        },
        RecordKind::LinesHit => match single32_at(cs, a, b, "hit") {
            Err(e) => Err(e),
            Ok(v) => Ok(Record::LinesHit { hit: v }),
        },
        RecordKind::EndOfRecord => Ok(Record::EndOfRecord),
    }
}

impl Record {
    /// Reads one record from a line of a tracefile.
    ///
    /// Line-ending characters at the end are ignored. Fields that may hold
    /// commas (names, paths, checksums) take the rest of the line.
    pub fn parse(line: &str) -> (r: Result<Record, ParseRecordError>)
        ensures
            parsed_view(r) == decode(line@),
    {
        let cs = chars_of(line);
        let mut end = cs.len();
        proof {
            assert(cs@.take(cs@.len() as int) =~= cs@);
        }
        while end > 0 && (cs[end - 1] == '\n' || cs[end - 1] == '\r')
            invariant
                end <= cs@.len(),
                strip_eol(cs@.take(end as int)) == strip_eol(cs@),
            decreases end,
        {
            proof {
                assert(cs@.take(end as int).drop_last() =~= cs@.take(end - 1));
            }
            end = end - 1;
        }
        proof {
            assert(cs@.take(cs@.len() as int) =~= cs@);
            assert(cs@.take(end as int) =~= cs@.subrange(0, end as int));
        }
        let colon = find_char(&cs, 0, end, ':');
        let (ba, bb) = if colon < end {
            (colon + 1, end)
        } else {
            (end, end)
        };
        proof {
            if colon == end {
                assert(cs@.subrange(end as int, end as int) =~= Seq::<char>::empty());
            }
        }
        match kind_at(&cs, 0, colon) {
            None => Err(ParseRecordError::UnknownRecord),
            Some(k) => parse_body(line, &cs, ba, bb, k),
        }
    }
}

impl std::str::FromStr for Record {
    type Err = ParseRecordError;

    fn from_str(s: &str) -> Result<Record, ParseRecordError> {
        Record::parse(s)
    }
}

impl std::str::FromStr for RecordKind {
    type Err = ParseRecordKindError;

    fn from_str(s: &str) -> Result<RecordKind, ParseRecordKindError> {
        RecordKind::from_tag(s)
    }
}

/// A text field that survives being written as the last field of a line:
/// it does not end in a line-ending character.
pub open spec fn last_field_ok(x: Seq<char>) -> bool {
    x.len() == 0 || (x.last() != '\n' && x.last() != '\r')
}

/// The record reads back as itself from its text: its last text field does
/// not end in a line-ending character, and a checksum is not `-`, which
/// reads as none.
pub open spec fn encodable(r: RecordView) -> bool {
    match r {
        RecordView::TestName { name } => last_field_ok(name),
        RecordView::SourceFile { path } => last_field_ok(path),
        RecordView::FunctionName { name, .. } => last_field_ok(name),
        RecordView::FunctionData { name, .. } => last_field_ok(name),
        RecordView::LineData { checksum, .. } => match checksum {
            Some(c) => last_field_ok(c) && c != seq!['-'],
            None => true,
        },
        _ => true,
    }
}

proof fn lemma_first_index_past(x: Seq<char>, y: Seq<char>, c: char)
    requires
        forall|i: int| 0 <= i < x.len() ==> x[i] != c,
    ensures
        first_index(x + y, c) == x.len() + first_index(y, c),
    decreases x.len(),
{
    if x.len() > 0 {
        assert((x + y)[0] == x[0]);
        assert((x + y).drop_first() =~= x.drop_first() + y);
        lemma_first_index_past(x.drop_first(), y, c);
    } else {
        assert(x + y =~= y);
    }
}

proof fn lemma_split_at(x: Seq<char>, c: char, y: Seq<char>)
    requires
        forall|i: int| 0 <= i < x.len() ==> x[i] != c,
    ensures
        field(x + seq![c] + y, c) == x,
        rest(x + seq![c] + y, c) == Some(y),
{
    let s = x + seq![c] + y;
    assert(s =~= x + (seq![c] + y));
    lemma_first_index_past(x, seq![c] + y, c);
    assert((seq![c] + y)[0] == c);
    assert(s.take(x.len() as int) =~= x);
    assert(s.skip(x.len() as int + 1) =~= y);
}

proof fn lemma_split_none(x: Seq<char>, c: char)
    requires
        forall|i: int| 0 <= i < x.len() ==> x[i] != c,
    ensures
        field(x, c) == x,
        rest(x, c) is None,
{
    lemma_first_index_past(x, Seq::empty(), c);
    assert(x + Seq::<char>::empty() =~= x);
    assert(x.take(x.len() as int) =~= x);
}

proof fn lemma_decimal_facts(n: nat, max: nat)
    requires
        n <= max,
    ensures
        parse_number(decimal(n), max) == Some(n),
        forall|i: int| 0 <= i < decimal(n).len() ==> crate::number::is_digit(#[trigger] decimal(n)[i]),
        decimal(n).len() > 0,
        decimal(n).last() != '\n' && decimal(n).last() != '\r',
{
    crate::number::lemma_decimal_round_trip(n);
}

proof fn lemma_tag(k: RecordKind)
    ensures
        forall|i: int| 0 <= i < tag_of(k).len() ==> tag_of(k)[i] != ':' && tag_of(k)[i] != ',',
        kind_of_tag(tag_of(k)) == Some(k),
        tag_of(k).len() > 0,
        tag_of(k).last() != '\n' && tag_of(k).last() != '\r',
{
    let t = tag_of(k);
    assert(tag_of(RecordKind::TestName) =~= seq!['T', 'N']);
    assert(tag_of(RecordKind::SourceFile) =~= seq!['S', 'F']);
    assert(tag_of(RecordKind::FunctionName) =~= seq!['F', 'N']);
    assert(tag_of(RecordKind::FunctionData).len() == 4);
    assert(tag_of(RecordKind::FunctionsFound).len() == 3);
    assert(tag_of(RecordKind::FunctionsHit).len() == 3);
    assert(tag_of(RecordKind::BranchData).len() == 4);
    assert(tag_of(RecordKind::BranchesFound).len() == 3);
    assert(tag_of(RecordKind::BranchesHit).len() == 3);
    assert(tag_of(RecordKind::LineData).len() == 2);
    assert(tag_of(RecordKind::LinesFound).len() == 2);
    assert(tag_of(RecordKind::LinesHit).len() == 2);
    assert(tag_of(RecordKind::EndOfRecord).len() == 13);
    match k {
        RecordKind::TestName => {},
        RecordKind::SourceFile => {
            assert(t[0] != tag_of(RecordKind::TestName)[0]);
        },
        RecordKind::FunctionName => {
            assert(t[0] != tag_of(RecordKind::TestName)[0]);
            assert(t[0] != tag_of(RecordKind::SourceFile)[0]);
        },
        RecordKind::FunctionData => {},
        RecordKind::FunctionsFound => {},
        RecordKind::FunctionsHit => {
            assert(t[2] != tag_of(RecordKind::FunctionsFound)[2]);
        },
        RecordKind::BranchData => {
            assert(t[0] != tag_of(RecordKind::FunctionData)[0]);
        },
        RecordKind::BranchesFound => {
            assert(t[0] != tag_of(RecordKind::FunctionsFound)[0]);
            assert(t[0] != tag_of(RecordKind::FunctionsHit)[0]);
        },
        RecordKind::BranchesHit => {
            assert(t[0] != tag_of(RecordKind::FunctionsFound)[0]);
            assert(t[0] != tag_of(RecordKind::FunctionsHit)[0]);
            assert(t[2] != tag_of(RecordKind::BranchesFound)[2]);
        },
        RecordKind::LineData => {
            assert(t[0] != tag_of(RecordKind::TestName)[0]);
            assert(t[0] != tag_of(RecordKind::SourceFile)[0]);
            assert(t[0] != tag_of(RecordKind::FunctionName)[0]);
        },
        RecordKind::LinesFound => {
            assert(t[0] != tag_of(RecordKind::TestName)[0]);
            assert(t[0] != tag_of(RecordKind::SourceFile)[0]);
            assert(t[0] != tag_of(RecordKind::FunctionName)[0]);
            assert(t[0] != tag_of(RecordKind::LineData)[0]);
        },
        RecordKind::LinesHit => {
            assert(t[0] != tag_of(RecordKind::TestName)[0]);
            assert(t[0] != tag_of(RecordKind::SourceFile)[0]);
            assert(t[0] != tag_of(RecordKind::FunctionName)[0]);
            assert(t[0] != tag_of(RecordKind::LineData)[0]);
            assert(t[1] != tag_of(RecordKind::LinesFound)[1]);
        },
        RecordKind::EndOfRecord => {},
    }
}

proof fn lemma_digits_avoid(n: nat)
    ensures
        forall|i: int| 0 <= i < decimal(n).len() ==> decimal(n)[i] != ',' && decimal(n)[i] != ':' && decimal(n)[i] != '-',
        decimal(n) != seq!['-'],
{
    crate::number::lemma_decimal_round_trip(n);
    assert(crate::number::is_digit(decimal(n)[0]));
}

proof fn lemma_head(k: RecordKind, body: Seq<char>)
    ensures
        field(tag_of(k) + seq![':'] + body, ':') == tag_of(k),
        rest(tag_of(k) + seq![':'] + body, ':') == Some(body),
        kind_of_tag(tag_of(k)) == Some(k),
        body.len() == 0 ==> strip_eol(tag_of(k) + seq![':'] + body) == tag_of(k) + seq![':'] + body,
        body.len() > 0 && body.last() != '\n' && body.last() != '\r' ==> strip_eol(tag_of(k) + seq![':'] + body)
            == tag_of(k) + seq![':'] + body,
{
    lemma_tag(k);
    lemma_split_at(tag_of(k), ':', body);
    let s = tag_of(k) + seq![':'] + body;
    if body.len() == 0 {
        assert(s.last() == ':');
    } else {
        assert(s.last() == body.last());
    }
}

proof fn lemma_rt_function_name(name: Seq<char>, start_line: u32)
    requires
        last_field_ok(name),
    ensures
        decode(encode(RecordView::FunctionName { name, start_line })) == Ok::<RecordView, ParseRecordError>(
            RecordView::FunctionName { name, start_line },
        ),
{
    let r = RecordView::FunctionName { name, start_line };
    let d = decimal(start_line as nat);
    let body = d + seq![','] + name;
    assert(encode(r) =~= tag_of(RecordKind::FunctionName) + seq![':'] + body);
    lemma_decimal_facts(start_line as nat, u32::MAX as nat);
    lemma_digits_avoid(start_line as nat);
    lemma_split_at(d, ',', name);
    lemma_head(RecordKind::FunctionName, body);
    assert(body.last() == if name.len() > 0 { name.last() } else { ',' });
}

proof fn lemma_rt_function_data(name: Seq<char>, count: u64)
    requires
        last_field_ok(name),
    ensures
        decode(encode(RecordView::FunctionData { name, count })) == Ok::<RecordView, ParseRecordError>(
            RecordView::FunctionData { name, count },
        ),
{
    let r = RecordView::FunctionData { name, count };
    let d = decimal(count as nat);
    let body = d + seq![','] + name;
    assert(encode(r) =~= tag_of(RecordKind::FunctionData) + seq![':'] + body);
    lemma_decimal_facts(count as nat, u64::MAX as nat);
    lemma_digits_avoid(count as nat);
    lemma_split_at(d, ',', name);
    lemma_head(RecordKind::FunctionData, body);
    assert(body.last() == if name.len() > 0 { name.last() } else { ',' });
}

proof fn lemma_rt_taken(taken: Option<u64>)
    ensures
        ({
            let t = match taken {
                Some(x) => decimal(x as nat),
                None => seq!['-'],
            };
            &&& taken_field(t) == Ok::<Option<u64>, ParseRecordError>(taken)
            &&& field(t, ',') == t
            &&& rest(t, ',') is None
            &&& t.len() > 0
            &&& t.last() != '\n' && t.last() != '\r'
        }),
{
    match taken {
        Some(x) => {
            lemma_decimal_facts(x as nat, u64::MAX as nat);
            lemma_digits_avoid(x as nat);
            lemma_split_none(decimal(x as nat), ',');
        },
        None => {
            let t = seq!['-'];
            assert(forall|i: int| 0 <= i < t.len() ==> t[i] == '-');
            lemma_split_none(t, ',');
        },
    }
}

proof fn lemma_rt_branch(line: u32, block: u32, branch: u32, taken: Option<u64>)
    ensures
        decode(encode(RecordView::BranchData { line, block, branch, taken })) == Ok::<RecordView, ParseRecordError>(
            RecordView::BranchData { line, block, branch, taken },
        ),
{
    let r = RecordView::BranchData { line, block, branch, taken };
    let d1 = decimal(line as nat);
    let d2 = decimal(block as nat);
    let d3 = decimal(branch as nat);
    let t = match taken {
        Some(x) => decimal(x as nat),
        None => seq!['-'],
    };
    let b2 = d3 + seq![','] + t;
    let b1 = d2 + seq![','] + b2;
    let body = d1 + seq![','] + b1;
    assert(encode(r) =~= tag_of(RecordKind::BranchData) + seq![':'] + body);
    lemma_decimal_facts(line as nat, u32::MAX as nat);
    lemma_decimal_facts(block as nat, u32::MAX as nat);
    lemma_decimal_facts(branch as nat, u32::MAX as nat);
    lemma_digits_avoid(line as nat);
    lemma_digits_avoid(block as nat);
    lemma_digits_avoid(branch as nat);
    lemma_split_at(d1, ',', b1);
    lemma_split_at(d2, ',', b2);
    lemma_split_at(d3, ',', t);
    lemma_rt_taken(taken);
    assert(body.last() == t.last());
    lemma_head(RecordKind::BranchData, body);
    assert(decode_branch(body) == Ok::<RecordView, ParseRecordError>(r));
}

proof fn lemma_rt_line(line: u32, count: u64, checksum: Option<Seq<char>>)
    requires
        match checksum {
            Some(c) => last_field_ok(c) && c != seq!['-'],
            None => true,
        },
    ensures
        decode(encode(RecordView::LineData { line, count, checksum })) == Ok::<RecordView, ParseRecordError>(
            RecordView::LineData { line, count, checksum },
        ),
{
    let r = RecordView::LineData { line, count, checksum };
    let d1 = decimal(line as nat);
    let d2 = decimal(count as nat);
    let tail = match checksum {
        Some(c) => seq![','] + c,
        None => Seq::<char>::empty(),
    };
    let b1 = d2 + tail;
    let body = d1 + seq![','] + b1;
    assert(encode(r) =~= tag_of(RecordKind::LineData) + seq![':'] + body);
    lemma_decimal_facts(line as nat, u32::MAX as nat);
    lemma_decimal_facts(count as nat, u64::MAX as nat);
    lemma_digits_avoid(line as nat);
    lemma_digits_avoid(count as nat);
    lemma_split_at(d1, ',', b1);
    match checksum {
        Some(c) => {
            assert(b1 =~= d2 + seq![','] + c);
            lemma_split_at(d2, ',', c);
            assert(body.last() == if c.len() > 0 { c.last() } else { ',' });
        },
        None => {
            assert(b1 =~= d2);
            lemma_split_none(d2, ',');
            assert(body.last() == d2.last());
        },
    }
    lemma_head(RecordKind::LineData, body);
    assert(decode_line(body) == Ok::<RecordView, ParseRecordError>(r));
}

/// Reading back the text of a record gives the record, for every record
/// whose text fields can be written out as they are.
pub proof fn law_text_round_trip(r: RecordView)
    requires
        encodable(r),
    ensures
        decode(encode(r)) == Ok::<RecordView, ParseRecordError>(r),
{
    match r {
        RecordView::TestName { name } => {
            lemma_head(RecordKind::TestName, name);
        },
        RecordView::SourceFile { path } => {
            lemma_head(RecordKind::SourceFile, path);
        },
        RecordView::FunctionName { name, start_line } => lemma_rt_function_name(name, start_line),
        RecordView::FunctionData { name, count } => lemma_rt_function_data(name, count),
        RecordView::FunctionsFound { found } => lemma_single(RecordKind::FunctionsFound, found),
        RecordView::FunctionsHit { hit } => lemma_single(RecordKind::FunctionsHit, hit),
        RecordView::BranchesFound { found } => lemma_single(RecordKind::BranchesFound, found),
        RecordView::BranchesHit { hit } => lemma_single(RecordKind::BranchesHit, hit),
        RecordView::LinesFound { found } => lemma_single(RecordKind::LinesFound, found),
        RecordView::LinesHit { hit } => lemma_single(RecordKind::LinesHit, hit),
        RecordView::BranchData { line, block, branch, taken } => lemma_rt_branch(line, block, branch, taken),
        RecordView::LineData { line, count, checksum } => lemma_rt_line(line, count, checksum),
        RecordView::EndOfRecord => {
            lemma_tag(RecordKind::EndOfRecord);
            lemma_split_none(tag_of(RecordKind::EndOfRecord), ':');
        },
    }
}

proof fn lemma_single(k: RecordKind, v: u32)
    requires
        k == RecordKind::FunctionsFound || k == RecordKind::FunctionsHit || k == RecordKind::BranchesFound || k
            == RecordKind::BranchesHit || k == RecordKind::LinesFound || k == RecordKind::LinesHit,
    ensures
        ({
            let body = decimal(v as nat);
            &&& decode(tag_of(k) + seq![':'] + body) == decode_body(k, body)
            &&& single32(body, "found") == Ok::<u32, ParseRecordError>(v)
            &&& single32(body, "hit") == Ok::<u32, ParseRecordError>(v)
        }),
        decode(encode(
            match k {
                RecordKind::FunctionsFound => RecordView::FunctionsFound { found: v },
                RecordKind::FunctionsHit => RecordView::FunctionsHit { hit: v },
                RecordKind::BranchesFound => RecordView::BranchesFound { found: v },
                RecordKind::BranchesHit => RecordView::BranchesHit { hit: v },
                RecordKind::LinesFound => RecordView::LinesFound { found: v },
                _ => RecordView::LinesHit { hit: v },
            },
        )) == Ok::<RecordView, ParseRecordError>(
            match k {
                RecordKind::FunctionsFound => RecordView::FunctionsFound { found: v },
                RecordKind::FunctionsHit => RecordView::FunctionsHit { hit: v },
                RecordKind::BranchesFound => RecordView::BranchesFound { found: v },
                RecordKind::BranchesHit => RecordView::BranchesHit { hit: v },
                RecordKind::LinesFound => RecordView::LinesFound { found: v },
                _ => RecordView::LinesHit { hit: v },
            },
        ),
{
    let body = decimal(v as nat);
    lemma_decimal_facts(v as nat, u32::MAX as nat);
    lemma_digits_avoid(v as nat);
    lemma_split_none(body, ',');
    lemma_head(k, body);
}

} // verus!
