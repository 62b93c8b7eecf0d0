//! Writing a report out as records, with summary counts computed afresh.
use crate::assoc::{keys_unique, lemma_same_map_same_elements, lemma_sorted_same_elements, map_of};
use crate::record::{views_of, Record, RecordView};
use crate::section::line::LineView;
use crate::section::{self, branch, branches_sorted, function, line, line_pairs, lines_sorted, SectionView};
use crate::text::{chars_of, compare_chars, lemma_seq_lt_asymmetric, lemma_seq_lt_irreflexive, lemma_seq_lt_total, lemma_seq_lt_transitive, seq_lt};
use crate::assoc::{has_key, lemma_map_of_insert, lemma_map_of_push};
use crate::section::function_pairs;
use vstd::prelude::*;

verus! {

/// A count as it is written out: the largest `u32` stands for any count
/// beyond it.
pub open spec fn count_u32(n: nat) -> u32 {
    if n > u32::MAX as nat {
        u32::MAX
    } else {
        n as u32
    }
}

/// How many functions were executed at least once.
pub open spec fn function_hits(s: Seq<(Seq<char>, function::Value)>) -> nat
    decreases s.len(),
{
    if s.len() == 0 {
        0
    } else {
        function_hits(s.drop_last()) + if s.last().1.count > 0 {
            1nat
        } else {
            0nat
        }
    }
}

/// How many branches were taken at least once.
pub open spec fn branch_hits(s: Seq<(branch::Key, branch::Value)>) -> nat
    decreases s.len(),
{
    if s.len() == 0 {
        0
    } else {
        branch_hits(s.drop_last()) + match s.last().1.taken {
            Some(t) => if t > 0 {
                1nat
            } else {
                0nat
            },
            None => 0nat,
        }
    }
}

/// How many lines were executed at least once.
pub open spec fn line_hits(s: Seq<(u32, LineView)>) -> nat
    decreases s.len(),
{
    if s.len() == 0 {
        0
    } else {
        line_hits(s.drop_last()) + if s.last().1.0 > 0 {
            1nat
        } else {
            0nat
        }
    }
}

/// `FN` records for the functions whose start line is known, in order.
pub open spec fn function_name_records(s: Seq<(Seq<char>, function::Value)>) -> Seq<RecordView>
    decreases s.len(),
{
    if s.len() == 0 {
        Seq::empty()
    } else {
        let rest = function_name_records(s.drop_last());
        match s.last().1.start_line {
            Some(l) => rest.push(RecordView::FunctionName { name: s.last().0, start_line: l }),
            None => rest,
        }
    }
}

/// `FNDA` records for all functions, in order.
pub open spec fn function_data_records(s: Seq<(Seq<char>, function::Value)>) -> Seq<RecordView> {
    s.map_values(|p: (Seq<char>, function::Value)| RecordView::FunctionData { name: p.0, count: p.1.count })
}

/// The function records of a section: names, then counts, then the
/// summary; nothing at all when there are no functions.
pub open spec fn function_output(s: Seq<(Seq<char>, function::Value)>) -> Seq<RecordView> {
    if s.len() == 0 {
        Seq::empty()
    } else {
        function_name_records(s) + function_data_records(s) + seq![
            RecordView::FunctionsFound { found: count_u32(s.len()) },
            RecordView::FunctionsHit { hit: count_u32(function_hits(s)) },
        ]
    }
}

/// `BRDA` records for the branches, in order.
pub open spec fn branch_data_records(s: Seq<(branch::Key, branch::Value)>) -> Seq<RecordView> {
    s.map_values(
        |p: (branch::Key, branch::Value)|
            RecordView::BranchData { line: p.0.line, block: p.0.block, branch: p.0.branch, taken: p.1.taken },
    )
}

/// `DA` records for the lines, in order.
pub open spec fn line_data_records(s: Seq<(u32, LineView)>) -> Seq<RecordView> {
    s.map_values(|p: (u32, LineView)| RecordView::LineData { line: p.0, count: p.1.0, checksum: p.1.1 })
}

/// The branch records of a section, then the summary; nothing when there
/// are no branches.
pub open spec fn branch_output(s: Seq<(branch::Key, branch::Value)>) -> Seq<RecordView> {
    if s.len() == 0 {
        Seq::empty()
    } else {
        branch_data_records(s) + seq![
            RecordView::BranchesFound { found: count_u32(s.len()) },
            RecordView::BranchesHit { hit: count_u32(branch_hits(s)) },
        ]
    }
}

/// The line records of a section, then the summary; nothing when there are
/// no lines.
pub open spec fn line_output(s: Seq<(u32, LineView)>) -> Seq<RecordView> {
    if s.len() == 0 {
        Seq::empty()
    } else {
        line_data_records(s) + seq![
            RecordView::LinesFound { found: count_u32(s.len()) },
            RecordView::LinesHit { hit: count_u32(line_hits(s)) },
        ]
    }
}

/// Output order of functions: by start line, functions without one first,
/// then by name.
pub open spec fn function_before(a: (Seq<char>, function::Value), b: (Seq<char>, function::Value)) -> bool {
    match (a.1.start_line, b.1.start_line) {
        (None, Some(_)) => true,
        (Some(_), None) => false,
        (Some(x), Some(y)) => x < y || (x == y && seq_lt(a.0, b.0)),
        (None, None) => seq_lt(a.0, b.0),
    }
}

/// Functions listed once each, in output order.
pub open spec fn functions_ordered(s: Seq<(Seq<char>, function::Value)>) -> bool {
    keys_unique(s) && forall|i: int, j: int| 0 <= i < j < s.len() ==> function_before(#[trigger] s[i], #[trigger] s[j])
}

/// Lines in increasing order.
pub open spec fn lines_ordered(s: Seq<(u32, LineView)>) -> bool {
    forall|i: int, j: int| 0 <= i < j < s.len() ==> #[trigger] s[i].0 < #[trigger] s[j].0
}

/// The functions of a map, in output order.
pub open spec fn ordered_functions(m: Map<Seq<char>, function::Value>) -> Seq<(Seq<char>, function::Value)> {
    choose|s: Seq<(Seq<char>, function::Value)>| functions_ordered(s) && map_of(s) == m
}

/// The branches of a map, in key order.
pub open spec fn ordered_branches(m: Map<branch::Key, branch::Value>) -> Seq<(branch::Key, branch::Value)> {
    choose|s: Seq<(branch::Key, branch::Value)>| branches_sorted(s) && map_of(s) == m
}

/// The lines of a map, in increasing order.
pub open spec fn ordered_lines(m: Map<u32, LineView>) -> Seq<(u32, LineView)> {
    choose|s: Seq<(u32, LineView)>| lines_ordered(s) && map_of(s) == m
}

/// The records of one section: test name, source file, functions, branches,
/// lines, and the end marker.
pub open spec fn section_output(k: (Seq<char>, Seq<char>), s: SectionView) -> Seq<RecordView> {
    seq![RecordView::TestName { name: k.0 }, RecordView::SourceFile { path: k.1 }] + function_output(
        ordered_functions(s.functions),
    ) + branch_output(ordered_branches(s.branches)) + line_output(ordered_lines(s.lines)) + seq![
        RecordView::EndOfRecord,
    ]
}

fn cap_u32(n: usize) -> (r: u32)
    ensures
        r == count_u32(n as nat),
{
    if n > u32::MAX as usize {
        u32::MAX
    } else {
        n as u32
    }
}

pub proof fn lemma_ordered_branches(s: Seq<(branch::Key, branch::Value)>)
    requires
        branches_sorted(s),
    ensures
        ordered_branches(map_of(s)) == s,
{
    let t = ordered_branches(map_of(s));
    let lt = |a: (branch::Key, branch::Value), b: (branch::Key, branch::Value)| branch::key_lt(a.0, b.0);
    assert(branches_sorted(t) && map_of(t) == map_of(s));
    assert forall|i: int, j: int| 0 <= i < j < s.len() implies #[trigger] s[i].0 != #[trigger] s[j].0 by {
        assert(branch::key_lt(s[i].0, s[j].0));
    }
    assert forall|i: int, j: int| 0 <= i < j < t.len() implies #[trigger] t[i].0 != #[trigger] t[j].0 by {
        assert(branch::key_lt(t[i].0, t[j].0));
    }
    lemma_same_map_same_elements(s, t);
    assert forall|i: int, j: int| 0 <= i < j < s.len() implies lt(#[trigger] s[i], #[trigger] s[j]) by {
        assert(branch::key_lt(s[i].0, s[j].0));
    }
    assert forall|i: int, j: int| 0 <= i < j < t.len() implies lt(#[trigger] t[i], #[trigger] t[j]) by {
        assert(branch::key_lt(t[i].0, t[j].0));
    }
    lemma_sorted_same_elements(s, t, lt);
}

pub proof fn lemma_ordered_lines(s: Seq<(u32, LineView)>)
    requires
        lines_ordered(s),
    ensures
        ordered_lines(map_of(s)) == s,
{
    let t = ordered_lines(map_of(s));
    let lt = |a: (u32, LineView), b: (u32, LineView)| a.0 < b.0;
    assert(lines_ordered(t) && map_of(t) == map_of(s));
    assert forall|i: int, j: int| 0 <= i < j < s.len() implies #[trigger] s[i].0 != #[trigger] s[j].0 by {
        assert(s[i].0 < s[j].0);
    }
    assert forall|i: int, j: int| 0 <= i < j < t.len() implies #[trigger] t[i].0 != #[trigger] t[j].0 by {
        assert(t[i].0 < t[j].0);
    }
    lemma_same_map_same_elements(s, t);
    assert forall|i: int, j: int| 0 <= i < j < s.len() implies lt(#[trigger] s[i], #[trigger] s[j]) by {
        assert(s[i].0 < s[j].0);
    }
    assert forall|i: int, j: int| 0 <= i < j < t.len() implies lt(#[trigger] t[i], #[trigger] t[j]) by {
        assert(t[i].0 < t[j].0);
    }
    lemma_sorted_same_elements(s, t, lt);
}

/// Writes the branch records of a section.
fn write_branches(branches: Vec<(branch::Key, branch::Value)>, out: &mut Vec<Record>)
    requires
        branches_sorted(branches@),
    ensures
        views_of(final(out)@) == views_of(old(out)@) + branch_output(ordered_branches(map_of(branches@))),
{
    proof {
        lemma_ordered_branches(branches@);
    }
    let ghost s = branches@;
    let ghost base = views_of(out@);
    let n = branches.len();
    if n == 0 {
        proof {
            assert(views_of(out@) =~= base + branch_output(s));
        }
        return;
    }
    let mut hits: usize = 0;
    let ghost data = branch_data_records(s);
    for p in iter: branches
        invariant
            iter.seq() == s,
            n == s.len(),
            data == branch_data_records(s),
            hits <= iter.index(),
            hits == branch_hits(s.take(iter.index() as int)),
            views_of(out@) == base + data.take(iter.index() as int),
    {
        let ghost k = iter.index() as int;
        proof {
            assert(s.take(k + 1).drop_last() =~= s.take(k));
        }
        assert(p == s[k]);
        let (key, value) = p;
        if let Some(t) = value.taken {
            if t > 0 {
                hits = hits + 1;
            }
        }
        let ghost prev = out@;
        let rec = Record::BranchData { line: key.line, block: key.block, branch: key.branch, taken: value.taken };
        assert(rec@ == data[k]);
        out.push(rec);
        proof {
            assert(views_of(out@) =~= views_of(prev).push(data[k]));
            assert(data.take(k + 1) =~= data.take(k).push(data[k]));
            assert(views_of(out@) =~= base + data.take(k + 1));
        }
    }
    proof {
        assert(s.take(n as int) =~= s);
        assert(data.take(n as int) =~= data);
    }
    let ghost mid = out@;
    out.push(Record::BranchesFound { found: cap_u32(n) });
    out.push(Record::BranchesHit { hit: cap_u32(hits) });
    proof {
        assert(views_of(out@) =~= views_of(mid) + seq![
            RecordView::BranchesFound { found: count_u32(s.len()) },
            RecordView::BranchesHit { hit: count_u32(branch_hits(s)) },
        ]);
        assert(views_of(out@) =~= base + branch_output(s));
    }
}

/// Writes the line records of a section.
fn write_lines(lines: Vec<(line::Key, line::Value)>, out: &mut Vec<Record>)
    requires
        lines_sorted(lines@),
    ensures
        views_of(final(out)@) == views_of(old(out)@) + line_output(ordered_lines(map_of(line_pairs(lines@)))),
{
    let ghost s = line_pairs(lines@);
    proof {
        assert forall|i: int, j: int| 0 <= i < j < s.len() implies #[trigger] s[i].0 < #[trigger] s[j].0 by {
            assert(lines@[i].0.line < lines@[j].0.line);
        }
        lemma_ordered_lines(s);
    }
    let ghost orig = lines@;
    let ghost base = views_of(out@);
    let n = lines.len();
    if n == 0 {
        proof {
            assert(views_of(out@) =~= base + line_output(s));
        }
        return;
    }
    let mut hits: usize = 0;
    let ghost data = line_data_records(s);
    for p in iter: lines
        invariant
            iter.seq() == orig,
            s == line_pairs(orig),
            n == s.len(),
            data == line_data_records(s),
            hits <= iter.index(),
            hits == line_hits(s.take(iter.index() as int)),
            views_of(out@) == base + data.take(iter.index() as int),
    {
        let ghost k = iter.index() as int;
        proof {
            assert(s.take(k + 1).drop_last() =~= s.take(k));
        }
        assert(p == orig[k]);
        let (key, value) = p;
        if value.count > 0 {
            hits = hits + 1;
        }
        let ghost prev = out@;
        let rec = Record::LineData { line: key.line, count: value.count, checksum: value.checksum };
        assert(rec@ == data[k]);
        out.push(rec);
        proof {
            assert(views_of(out@) =~= views_of(prev).push(data[k]));
            assert(data.take(k + 1) =~= data.take(k).push(data[k]));
            assert(views_of(out@) =~= base + data.take(k + 1));
        }
    }
    proof {
        assert(s.take(n as int) =~= s);
        assert(data.take(n as int) =~= data);
    }
    let ghost mid = out@;
    out.push(Record::LinesFound { found: cap_u32(n) });
    out.push(Record::LinesHit { hit: cap_u32(hits) });
    proof {
        assert(views_of(out@) =~= views_of(mid) + seq![
            RecordView::LinesFound { found: count_u32(s.len()) },
            RecordView::LinesHit { hit: count_u32(line_hits(s)) },
        ]);
        assert(views_of(out@) =~= base + line_output(s));
    }
}


pub proof fn lemma_before_irreflexive(a: (Seq<char>, function::Value))
    ensures
        !function_before(a, a),
{
    lemma_seq_lt_irreflexive(a.0);
}

proof fn lemma_before_asymmetric(a: (Seq<char>, function::Value), b: (Seq<char>, function::Value))
    requires
        function_before(a, b),
    ensures
        !function_before(b, a),
{
    if seq_lt(a.0, b.0) {
        lemma_seq_lt_asymmetric(a.0, b.0);
    }
}

pub proof fn lemma_before_transitive(
    a: (Seq<char>, function::Value),
    b: (Seq<char>, function::Value),
    c: (Seq<char>, function::Value),
)
    requires
        function_before(a, b),
        function_before(b, c),
    ensures
        function_before(a, c),
{
    if seq_lt(a.0, b.0) && seq_lt(b.0, c.0) {
        lemma_seq_lt_transitive(a.0, b.0, c.0);
    }
}

pub proof fn lemma_before_total(a: (Seq<char>, function::Value), b: (Seq<char>, function::Value))
    requires
        a.0 != b.0,
    ensures
        function_before(a, b) || function_before(b, a),
{
    lemma_seq_lt_total(a.0, b.0);
}

pub proof fn lemma_ordered_functions(s: Seq<(Seq<char>, function::Value)>)
    requires
        functions_ordered(s),
    ensures
        ordered_functions(map_of(s)) == s,
{
    let t = ordered_functions(map_of(s));
    assert(functions_ordered(t) && map_of(t) == map_of(s));
    lemma_same_map_same_elements(s, t);
    let lt = |a: (Seq<char>, function::Value), b: (Seq<char>, function::Value)| function_before(a, b);
    assert forall|x: (Seq<char>, function::Value)| !#[trigger] lt(x, x) by {
        lemma_before_irreflexive(x);
    }
    assert forall|x: (Seq<char>, function::Value), y: (Seq<char>, function::Value)| #[trigger] lt(x, y) implies !lt(y, x) by {
        lemma_before_asymmetric(x, y);
    }
    assert forall|i: int, j: int| 0 <= i < j < s.len() implies lt(#[trigger] s[i], #[trigger] s[j]) by {
        assert(function_before(s[i], s[j]));
    }
    assert forall|i: int, j: int| 0 <= i < j < t.len() implies lt(#[trigger] t[i], #[trigger] t[j]) by {
        assert(function_before(t[i], t[j]));
    }
    lemma_sorted_same_elements(s, t, lt);
}

/// Names and values of functions with names as text.
pub open spec fn named_pairs(s: Seq<(String, function::Value)>) -> Seq<(Seq<char>, function::Value)> {
    s.map_values(|p: (String, function::Value)| (p.0@, p.1))
}

/// Decides the output order of two functions.
fn before(a_name: &Vec<char>, a: function::Value, b_name: &Vec<char>, b: function::Value) -> (r: bool)
    ensures
        r == function_before((a_name@, a), (b_name@, b)),
{
    match (a.start_line, b.start_line) {
        (None, Some(_)) => true,
        (Some(_), None) => false,
        (Some(x), Some(y)) => {
            if x != y {
                x < y
            } else {
                compare_chars(a_name, b_name) < 0
            }
        },
        (None, None) => compare_chars(a_name, b_name) < 0,
    }
}

/// Puts the functions in output order.
pub(crate) fn order_functions(functions: Vec<(function::Key, function::Value)>) -> (r: Vec<(String, function::Value)>)
    requires
        keys_unique(function_pairs(functions@)),
    ensures
        functions_ordered(named_pairs(r@)),
        map_of(named_pairs(r@)) == map_of(function_pairs(functions@)),
{
    let ghost orig = functions@;
    let ghost fp = function_pairs(orig);
    let mut fs: Vec<(String, function::Value)> = Vec::new();
    let mut names: Vec<Vec<char>> = Vec::new();
    proof {
        assert(named_pairs(fs@) =~= fp.take(0));
    }
    for p in iter: functions
        invariant
            iter.seq() == orig,
            fp == function_pairs(orig),
            keys_unique(fp),
            names@.len() == fs@.len(),
            forall|i: int| 0 <= i < fs@.len() ==> (#[trigger] names@[i])@ == fs@[i].0@,
            functions_ordered(named_pairs(fs@)),
            map_of(named_pairs(fs@)) == map_of(fp.take(iter.index() as int)),
            keys_unique(fp.take(iter.index() as int)),
    {
        let ghost k = iter.index() as int;
        let ghost np = named_pairs(fs@);
        assert(p == orig[k]);
        let (key, value) = p;
        let cs = chars_of(key.name.as_str());
        let ghost x = (cs@, value);
        assert(x == fp[k]);
        let n = fs.len();
        let mut lo: usize = 0;
        let mut hi: usize = n;
        while lo < hi
            invariant
                n == fs@.len(),
                np == named_pairs(fs@),
                names@.len() == fs@.len(),
                forall|i: int| 0 <= i < fs@.len() ==> (#[trigger] names@[i])@ == fs@[i].0@,
                functions_ordered(np),
                x == (cs@, value),
                0 <= lo <= hi <= n,
                forall|i: int| 0 <= i < lo ==> function_before(#[trigger] np[i], x),
                forall|i: int| hi <= i < n ==> !function_before(#[trigger] np[i], x),
            decreases hi - lo,
        {
            let mid = lo + (hi - lo) / 2;
            let b = before(&names[mid], fs[mid].1, &cs, value);
            proof {
                assert(np[mid as int] == (names@[mid as int]@, fs@[mid as int].1));
            }
            if b {
                proof {
                    assert forall|i: int| 0 <= i <= mid implies function_before(#[trigger] np[i], x) by {
                        if i < mid {
                            lemma_before_transitive(np[i], np[mid as int], x);
                        }
                    }
                }
                lo = mid + 1;
            } else {
                proof {
                    assert forall|i: int| mid <= i < n implies !function_before(#[trigger] np[i], x) by {
                        if i > mid && function_before(np[i], x) {
                            lemma_before_transitive(np[mid as int], np[i], x);
                        }
                    }
                }
                hi = mid;
            }
        }
        proof {
            assert(fp.take(k + 1) =~= fp.take(k).push(x));
            assert(!has_key(fp.take(k), x.0)) by {
                if has_key(fp.take(k), x.0) {
                    let j = choose|j: int| 0 <= j < fp.take(k).len() && #[trigger] fp.take(k)[j].0 == x.0;
                    assert(fp[j].0 == fp[k].0);
                }
            }
            lemma_map_of_push(fp.take(k), x.0, x.1);
            assert(!map_of(np).contains_key(x.0));
            assert(!has_key(np, x.0));
            lemma_map_of_insert(np, lo as int, x.0, x.1);
        }
        let ghost fs0 = fs@;
        let ghost names0 = names@;
        fs.insert(lo, (key.name, value));
        names.insert(lo, cs);
        proof {
            let t = named_pairs(fs@);
            assert(t =~= np.insert(lo as int, x));
            assert forall|i: int, j: int| 0 <= i < j < t.len() implies function_before(#[trigger] t[i], #[trigger] t[j]) by {
                if j < lo {
                    assert(function_before(np[i], np[j]));
                } else if j == lo {
                } else if i < lo {
                    assert(function_before(np[i], x));
                    assert(np[j - 1].0 != x.0);
                    lemma_before_total(np[j - 1], x);
                    lemma_before_transitive(np[i], x, np[j - 1]);
                } else if i == lo {
                    assert(np[j - 1].0 != x.0);
                    lemma_before_total(np[j - 1], x);
                } else {
                    assert(function_before(np[i - 1], np[j - 1]));
                }
            }
            assert forall|i: int| 0 <= i < fs@.len() implies (#[trigger] names@[i])@ == fs@[i].0@ by {
                if i < lo {
                    assert(names@[i] == names0[i] && fs@[i] == fs0[i]);
                } else if i > lo {
                    assert(names@[i] == names0[i - 1] && fs@[i] == fs0[i - 1]);
                }
            }
        }
    }
    proof {
        assert(fp.take(orig.len() as int) =~= fp);
    }
    fs
}

/// Writes the function records of a section.
fn write_functions(functions: Vec<(function::Key, function::Value)>, out: &mut Vec<Record>)
    requires
        keys_unique(function_pairs(functions@)),
    ensures
        views_of(final(out)@) == views_of(old(out)@) + function_output(
            ordered_functions(map_of(function_pairs(functions@))),
        ),
{
    let fs = order_functions(functions);
    let ghost s = named_pairs(fs@);
    proof {
        lemma_ordered_functions(s);
    }
    let ghost base = views_of(out@);
    let n = fs.len();
    if n == 0 {
        proof {
            assert(views_of(out@) =~= base + function_output(s));
        }
        return;
    }
    let mut i: usize = 0;
    while i < n
        invariant
            n == fs@.len(),
            s == named_pairs(fs@),
            0 <= i <= n,
            views_of(out@) == base + function_name_records(s.take(i as int)),
        decreases n - i,
    {
        proof {
            assert(s.take(i + 1).drop_last() =~= s.take(i as int));
        }
        if let Some(l) = fs[i].1.start_line {
            let ghost prev = out@;
            let rec = Record::FunctionName { name: fs[i].0.clone(), start_line: l };
            out.push(rec);
            proof {
                assert(views_of(out@) =~= views_of(prev).push(rec@));
            }
        }
        i = i + 1;
    }
    proof {
        assert(s.take(n as int) =~= s);
    }
    let ghost names_part = views_of(out@);
    let ghost data = function_data_records(s);
    let mut hits: usize = 0;
    let ghost orig = fs@;
    for p in iter: fs
        invariant
            iter.seq() == orig,
            s == named_pairs(orig),
            n == s.len(),
            data == function_data_records(s),
            hits <= iter.index(),
            hits == function_hits(s.take(iter.index() as int)),
            views_of(out@) == names_part + data.take(iter.index() as int),
    {
        let ghost k = iter.index() as int;
        proof {
            assert(s.take(k + 1).drop_last() =~= s.take(k));
        }
        assert(p == orig[k]);
        let (name, value) = p;
        if value.count > 0 {
            hits = hits + 1;
        }
        let ghost prev = out@;
        let rec = Record::FunctionData { name, count: value.count };
        assert(rec@ == data[k]);
        out.push(rec);
        proof {
            assert(views_of(out@) =~= views_of(prev).push(data[k]));
            assert(data.take(k + 1) =~= data.take(k).push(data[k]));
        }
    }
    proof {
        assert(s.take(n as int) =~= s);
        assert(data.take(n as int) =~= data);
    }
    let ghost mid = out@;
    out.push(Record::FunctionsFound { found: cap_u32(n) });
    out.push(Record::FunctionsHit { hit: cap_u32(hits) });
    proof {
        assert(views_of(out@) =~= views_of(mid) + seq![
            RecordView::FunctionsFound { found: count_u32(s.len()) },
            RecordView::FunctionsHit { hit: count_u32(function_hits(s)) },
        ]);
        assert(views_of(out@) =~= base + function_output(s));
    }
}

/// Writes the records of one section.
pub fn write_section(key: section::Key, value: section::Value, out: &mut Vec<Record>)
    requires
        value.wf(),
    ensures
        views_of(final(out)@) == views_of(old(out)@) + section_output((key.test_name@, key.source_file@), value@),
{
    let ghost base = views_of(out@);
    let ghost v = value@;
    let ghost k = (key.test_name@, key.source_file@);
    let (functions, branches, lines) = value.into_parts();
    out.push(Record::TestName { name: key.test_name });
    out.push(Record::SourceFile { path: key.source_file });
    proof {
        assert(views_of(out@) =~= base + seq![RecordView::TestName { name: k.0 }, RecordView::SourceFile { path: k.1 }]);
    }
    write_functions(functions, out);
    write_branches(branches, out);
    write_lines(lines, out);
    let ghost before_end = out@;
    out.push(Record::EndOfRecord);
    proof {
        assert(views_of(out@) =~= views_of(before_end).push(RecordView::EndOfRecord));
        assert(views_of(out@) =~= base + section_output(k, v));
    }
}

/// Sections in key order.
pub open spec fn sections_ordered(s: Seq<((Seq<char>, Seq<char>), SectionView)>) -> bool {
    forall|i: int, j: int| 0 <= i < j < s.len() ==> crate::report::key_lt(#[trigger] s[i].0, #[trigger] s[j].0)
}

/// The sections of a report, in key order.
pub open spec fn ordered_sections(m: crate::report::ReportView) -> Seq<((Seq<char>, Seq<char>), SectionView)> {
    choose|s: Seq<((Seq<char>, Seq<char>), SectionView)>| sections_ordered(s) && map_of(s) == m
}

/// The records of a list of sections, one after the other.
pub open spec fn sections_output(s: Seq<((Seq<char>, Seq<char>), SectionView)>) -> Seq<RecordView>
    decreases s.len(),
{
    if s.len() == 0 {
        Seq::empty()
    } else {
        sections_output(s.drop_last()) + section_output(s.last().0, s.last().1)
    }
}

/// The records that a report is written out as: its sections in key order.
pub open spec fn report_output(m: crate::report::ReportView) -> Seq<RecordView> {
    sections_output(ordered_sections(m))
}
} // verus!
