//! Reading the records of a tracefile's text.
use crate::codec::{decode, first_index};
use crate::error::ReadError;
use crate::report::item_view;
use crate::record::{Record, RecordView};
use crate::text::chars_of;
use vstd::prelude::*;
use vstd::string::StrSliceExecFns;

verus! {

broadcast use vstd::string::group_string_axioms;

/// The lines of a text: split at each `\n`; a final `\n` ends the last line
/// rather than starting an empty one.
pub open spec fn split_lines(s: Seq<char>) -> Seq<Seq<char>>
    decreases s.len(),
{
    if s.len() == 0 {
        Seq::empty()
    } else {
        let i = first_index(s, '\n');
        if 0 <= i && i < s.len() {
            seq![s.take(i)] + split_lines(s.skip(i + 1))
        } else {
            seq![s]
        }
    }
}

/// The number of a line, counted from 1; the largest `u32` stands for any
/// line beyond it.
pub open spec fn line_number(i: int) -> u32 {
    if i + 1 > u32::MAX as int {
        u32::MAX
    } else {
        (i + 1) as u32
    }
}

/// What reading line `i` (counted from 0) gives.
pub open spec fn read_line(line: Seq<char>, i: int) -> Result<RecordView, ReadError> {
    match decode(line) {
        Ok(r) => Ok(r),
        Err(e) => Err(ReadError::ParseRecord(line_number(i), e)),
    }
}

proof fn lemma_first_index_bounds(s: Seq<char>, c: char)
    ensures
        0 <= first_index(s, c) <= s.len(),
        first_index(s, c) < s.len() ==> s[first_index(s, c)] == c,
    decreases s.len(),
{
    if s.len() > 0 && s[0] != c {
        lemma_first_index_bounds(s.drop_first(), c);
    }
}

/// A reader of the records of a tracefile's text.
#[derive(Debug, Clone, PartialEq, Eq)]
pub struct Reader {
    text: String,
}

impl Reader {
    /// Creates a reader of the given text.
    pub fn new(text: String) -> (r: Reader)
        ensures
            r.text_view() == text@,
    {
        Reader { text }
    }

    /// The text being read.
    pub fn text(&self) -> (r: &String)
        ensures
            r@ == self.text_view(),
    {
        &self.text
    }

    /// The text being read, as plain data.
    pub closed spec fn text_view(&self) -> Seq<char> {
        self.text@
    }

    /// Reads every line as a record; a line that is no record gives an
    /// error with its line number.
    pub fn read_all(&self) -> (r: Vec<Result<Record, ReadError>>)
        ensures
            r@.len() == split_lines(self.text_view()).len(),
            forall|i: int| 0 <= i < r@.len() ==> item_view(#[trigger] r@[i]) == read_line(split_lines(self.text_view())[i], i),
    {
        let text = self.text.as_str();
        let cs = chars_of(text);
        let n = cs.len();
        let mut out: Vec<Result<Record, ReadError>> = Vec::new();
        let mut start: usize = 0;
        let mut count: u32 = 0;
        let ghost whole = cs@;
        proof {
            assert(whole.skip(0) =~= whole);
        }
        while start < n
            invariant
                cs@ == text@,
                whole == cs@,
                n == cs@.len(),
                0 <= start <= n,
                count as int == if out@.len() > u32::MAX as int {
                    u32::MAX as int
                } else {
                    out@.len() as int
                },
                out@.len() <= split_lines(whole).len(),
                split_lines(whole) == split_lines(whole).take(out@.len() as int) + split_lines(whole.skip(start as int)),
                forall|i: int| 0 <= i < out@.len() ==> item_view(#[trigger] out@[i]) == read_line(split_lines(whole)[i], i),
            decreases n - start,
        {
            let ghost rest = whole.skip(start as int);
            let stop = find_newline(&cs, start, n);
            proof {
                assert(cs@.subrange(start as int, n as int) =~= rest);
                lemma_first_index_bounds(rest, '\n');
            }
            let line = text.substring_char(start, stop);
            let item = match Record::parse(line) {
                Ok(rec) => Ok(rec),
                Err(e) => Err(ReadError::ParseRecord(if count == u32::MAX { u32::MAX } else { count + 1 }, e)),
            };
            let ghost k = out@.len() as int;
            proof {
                assert(line@ =~= rest.take(stop - start));
                let next = if stop < n { whole.skip(stop + 1) } else { Seq::<char>::empty() };
                if stop < n {
                    assert(rest.skip(stop - start + 1) =~= whole.skip(stop + 1));
                    assert(split_lines(rest) == seq![rest.take(stop - start)] + split_lines(next));
                } else {
                    assert(rest.take(stop - start) =~= rest);
                    assert(split_lines(rest) == seq![rest]);
                    assert(split_lines(next) =~= Seq::<Seq<char>>::empty());
                    assert(split_lines(rest) =~= seq![rest.take(stop - start)] + split_lines(next));
                }
                let sl = split_lines(whole);
                let x = rest.take(stop - start);
                assert(sl == sl.take(k) + (seq![x] + split_lines(next)));
                assert(sl[k] == x);
                assert(sl.take(k + 1) =~= sl.take(k).push(x));
                assert(sl =~= sl.take(k + 1) + split_lines(next));
            }
            out.push(item);
            count = if count == u32::MAX { u32::MAX } else { count + 1 };
            start = if stop < n { stop + 1 } else { n };
        }
        proof {
            assert(whole.skip(n as int) =~= Seq::<char>::empty());
            assert(split_lines(whole).take(out@.len() as int) =~= split_lines(whole));
        }
        out
    }
}

/// Finds the first newline in `cs[a..b]`, or `b`.
fn find_newline(cs: &Vec<char>, a: usize, b: usize) -> (r: usize)
    requires
        a <= b <= cs@.len(),
    ensures
        a <= r <= b,
        r - a == first_index(cs@.subrange(a as int, b as int), '\n'),
{
    let mut i = a;
    while i < b && cs[i] != '\n'
        invariant
            a <= i <= b <= cs@.len(),
            first_index(cs@.subrange(a as int, b as int), '\n') == (i - a) + first_index(cs@.subrange(i as int, b as int), '\n'),
        decreases b - i,
    {
        proof {
            assert(cs@.subrange(i as int, b as int).drop_first() =~= cs@.subrange(i + 1, b as int));
        }
        i = i + 1;
    }
    i
}

} // verus!
