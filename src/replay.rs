//! What merging the records that a report is written out as does.
use crate::assoc::{has_key, keys_unique, lemma_map_of_index, lemma_map_of_push, map_of};
use crate::error::ReadError;
use crate::output::{
    branch_data_records, branch_output, line_data_records, function_data_records, function_name_records, function_output, functions_ordered,
    line_output, lines_ordered, ordered_branches, ordered_functions, ordered_lines, ordered_sections, report_output,
    section_output, sections_ordered, sections_output,
};
use crate::record::RecordView;
use crate::report::{apply_data, key_lt, run, section_at, step, KeyView, Phase, ReportView};
use crate::section::{self, branch, branch_at, branches_sorted, function, function_at, line, line_at, view_is_empty, with_branch, with_function, with_line, SectionView};
use vstd::prelude::*;

verus! {

/// The records as items of a stream, each read successfully.
pub open spec fn oks(s: Seq<RecordView>) -> Seq<Result<RecordView, ReadError>> {
    s.map_values(|r: RecordView| Ok::<RecordView, ReadError>(r))
}

/// A record that stands inside a section.
pub open spec fn is_body(r: RecordView) -> bool {
    !(r is TestName || r is SourceFile || r is EndOfRecord)
}

/// What one record inside a section does to it; `None` on a conflict.
pub open spec fn section_apply(t: SectionView, rec: RecordView, lossy: bool) -> Option<SectionView> {
    match rec {
        RecordView::FunctionName { name, start_line } => with_function(
            t,
            name,
            function::Value { start_line: Some(start_line), count: 0 },
            lossy,
        ),
        RecordView::FunctionData { name, count } => with_function(
            t,
            name,
            function::Value { start_line: None, count },
            lossy,
        ),
        RecordView::BranchData { line, block, branch, taken } => Some(
            with_branch(t, branch::Key { line, block, branch }, branch::Value { taken }),
        ),
        RecordView::LineData { line, count, checksum } => with_line(t, line, (count, checksum), lossy),
        _ => Some(t),
    }
}

/// What a sequence of records inside a section does to it.
pub open spec fn section_fold(t: SectionView, recs: Seq<RecordView>, lossy: bool) -> Option<SectionView>
    decreases recs.len(),
{
    if recs.len() == 0 {
        Some(t)
    } else {
        match section_apply(t, recs[0], lossy) {
            Some(t2) => section_fold(t2, recs.drop_first(), lossy),
            None => None,
        }
    }
}

/// The section with nothing in it.
pub open spec fn empty_section() -> SectionView {
    SectionView { functions: Map::empty(), branches: Map::empty(), lines: Map::empty() }
}

/// The report `m0` with the section `t` at `k`, unless `t` is empty.
pub open spec fn placed(m0: ReportView, k: KeyView, t: SectionView) -> ReportView {
    if view_is_empty(t) {
        m0
    } else {
        m0.insert(k, t)
    }
}

pub proof fn lemma_oks_concat(x: Seq<RecordView>, y: Seq<RecordView>)
    ensures
        oks(x + y) == oks(x) + oks(y),
{
    assert(oks(x + y) =~= oks(x) + oks(y));
}

/// Running over two sequences one after the other is running over the
/// first, then over the second from where the first ended.
pub proof fn lemma_run_concat(
    m: ReportView,
    ph: Phase,
    x: Seq<Result<RecordView, ReadError>>,
    y: Seq<Result<RecordView, ReadError>>,
    lossy: bool,
)
    requires
        run(m, ph, x, lossy) is Ok,
    ensures
        run(m, ph, x + y, lossy) == run(run(m, ph, x, lossy)->Ok_0.0, run(m, ph, x, lossy)->Ok_0.1, y, lossy),
    decreases x.len(),
{
    if x.len() == 0 {
        assert(x + y =~= y);
    } else {
        assert((x + y)[0] == x[0]);
        assert((x + y).drop_first() =~= x.drop_first() + y);
        match step(m, ph, x[0], lossy) {
            Ok((m2, ph2)) => {
                lemma_run_concat(m2, ph2, x.drop_first(), y, lossy);
            },
            Err(_) => {},
        }
    }
}

pub proof fn lemma_fold_concat(t: SectionView, x: Seq<RecordView>, y: Seq<RecordView>, lossy: bool)
    ensures
        section_fold(t, x + y, lossy) == match section_fold(t, x, lossy) {
            Some(t1) => section_fold(t1, y, lossy),
            None => None,
        },
    decreases x.len(),
{
    if x.len() == 0 {
        assert(x + y =~= y);
    } else {
        assert((x + y)[0] == x[0]);
        assert((x + y).drop_first() =~= x.drop_first() + y);
        match section_apply(t, x[0], lossy) {
            Some(t2) => {
                lemma_fold_concat(t2, x.drop_first(), y, lossy);
            },
            None => {},
        }
    }
}

pub proof fn lemma_fold_one(t: SectionView, r: RecordView, lossy: bool)
    ensures
        section_fold(t, seq![r], lossy) == section_apply(t, r, lossy),
{
    let e = seq![r].drop_first();
    assert(e =~= Seq::<RecordView>::empty());
    match section_apply(t, r, lossy) {
        Some(t2) => {
            assert(section_fold(t2, e, lossy) == Some(t2));
        },
        None => {},
    }
}

/// Running over records inside a section folds them into it.
pub proof fn lemma_run_body(m0: ReportView, k: KeyView, t: SectionView, recs: Seq<RecordView>, lossy: bool)
    requires
        !m0.contains_key(k),
        forall|i: int| 0 <= i < recs.len() ==> is_body(#[trigger] recs[i]),
        section_fold(t, recs, lossy) is Some,
        view_is_empty(t) ==> t == empty_section(),
    ensures
        run(placed(m0, k, t), Phase::Inside(k), oks(recs), lossy) == Ok::<(ReportView, Phase), (ReportView, crate::error::MergeError)>(
            (placed(m0, k, section_fold(t, recs, lossy)->0), Phase::Inside(k)),
        ),
        view_is_empty(section_fold(t, recs, lossy)->0) ==> section_fold(t, recs, lossy)->0 == empty_section(),
    decreases recs.len(),
{
    if recs.len() > 0 {
        let r = recs[0];
        let m = placed(m0, k, t);
        assert(section_at(m, k) == t) by {
            if view_is_empty(t) {
            } else {
                assert(m.contains_key(k));
            }
        }
        let t2 = section_apply(t, r, lossy)->0;
        assert(is_body(r));
        assert(oks(recs)[0] == Ok::<RecordView, ReadError>(r));
        assert(oks(recs).drop_first() =~= oks(recs.drop_first()));
        match r {
            RecordView::FunctionName { name, .. } => {
                assert(t2.functions.contains_key(name));
                assert(apply_data(m, k, r, lossy) == Some(placed(m0, k, t2)));
            },
            RecordView::FunctionData { name, .. } => {
                assert(t2.functions.contains_key(name));
                assert(apply_data(m, k, r, lossy) == Some(placed(m0, k, t2)));
            },
            RecordView::BranchData { line, block, branch, .. } => {
                assert(t2.branches.contains_key(branch::Key { line, block, branch }));
                assert(apply_data(m, k, r, lossy) == Some(placed(m0, k, t2)));
            },
            RecordView::LineData { line, .. } => {
                assert(t2.lines.contains_key(line));
                assert(apply_data(m, k, r, lossy) == Some(placed(m0, k, t2)));
            },
            _ => {
                assert(t2 == t);
            },
        }
        assert forall|i: int| 0 <= i < recs.drop_first().len() implies is_body(#[trigger] recs.drop_first()[i]) by {
            assert(recs.drop_first()[i] == recs[i + 1]);
        }
        lemma_run_body(m0, k, t2, recs.drop_first(), lossy);
    } else {
        assert(oks(recs) =~= Seq::<Result<RecordView, ReadError>>::empty());
    }
}

pub proof fn lemma_take_push<K, V>(s: Seq<(K, V)>, i: int)
    requires
        keys_unique(s),
        0 <= i < s.len(),
    ensures
        keys_unique(s.take(i)),
        !has_key(s.take(i), s[i].0),
        s.take(i + 1) == s.take(i).push(s[i]),
        map_of(s.take(i + 1)) == map_of(s.take(i)).insert(s[i].0, s[i].1),
{
    let t = s.take(i);
    assert forall|a: int, b: int| 0 <= a < b < t.len() implies #[trigger] t[a].0 != #[trigger] t[b].0 by {
        assert(s[a].0 != s[b].0);
    }
    if has_key(t, s[i].0) {
        let j = choose|j: int| 0 <= j < t.len() && #[trigger] t[j].0 == s[i].0;
        assert(s[j].0 == s[i].0);
    }
    assert(s.take(i + 1) =~= t.push(s[i]));
    lemma_map_of_push(t, s[i].0, s[i].1);
}

pub proof fn lemma_fold_summary(t: SectionView, a: RecordView, b: RecordView, lossy: bool)
    requires
        !(a is FunctionName || a is FunctionData || a is BranchData || a is LineData),
        !(b is FunctionName || b is FunctionData || b is BranchData || b is LineData),
    ensures
        section_fold(t, seq![a, b], lossy) == Some(t),
{
    assert(seq![a, b] =~= seq![a] + seq![b]);
    lemma_fold_concat(t, seq![a], seq![b], lossy);
    lemma_fold_one(t, a, lossy);
    lemma_fold_one(t, b, lossy);
}

proof fn lemma_fold_branch_prefix(t: SectionView, bs: Seq<(branch::Key, branch::Value)>, i: int, lossy: bool)
    requires
        t.branches == Map::<branch::Key, branch::Value>::empty(),
        keys_unique(bs),
        0 <= i <= bs.len(),
    ensures
        section_fold(t, branch_data_records(bs.take(i)), lossy) == Some(SectionView { branches: map_of(bs.take(i)), ..t }),
    decreases i,
{
    if i == 0 {
        assert(branch_data_records(bs.take(0)) =~= Seq::<RecordView>::empty());
        assert(map_of(bs.take(0)) =~= Map::<branch::Key, branch::Value>::empty()) by {
            assert(bs.take(0) =~= Seq::<(branch::Key, branch::Value)>::empty());
            crate::assoc::lemma_map_of_empty::<branch::Key, branch::Value>();
        }
    } else {
        let j = i - 1;
        lemma_fold_branch_prefix(t, bs, j, lossy);
        lemma_take_push(bs, j);
        let p = bs[j];
        let r = RecordView::BranchData { line: p.0.line, block: p.0.block, branch: p.0.branch, taken: p.1.taken };
        assert(branch_data_records(bs.take(i)) =~= branch_data_records(bs.take(j)) + seq![r]);
        lemma_fold_concat(t, branch_data_records(bs.take(j)), seq![r], lossy);
        let tj = SectionView { branches: map_of(bs.take(j)), ..t };
        lemma_fold_one(tj, r, lossy);
        assert(!map_of(bs.take(j)).contains_key(p.0));
        assert(branch::Key { line: p.0.line, block: p.0.block, branch: p.0.branch } == p.0);
        assert(branch::merge_spec(branch_at(tj.branches, p.0), branch::Value { taken: p.1.taken }) == p.1) by {
            if p.1.taken is Some {
                assert(section::sat_add(0, p.1.taken->0) == p.1.taken->0);
            }
        }
    }
}

proof fn lemma_fold_line_prefix(t: SectionView, ls: Seq<(u32, line::LineView)>, i: int, lossy: bool)
    requires
        t.lines == Map::<u32, line::LineView>::empty(),
        keys_unique(ls),
        0 <= i <= ls.len(),
    ensures
        section_fold(t, line_data_records(ls.take(i)), lossy) == Some(SectionView { lines: map_of(ls.take(i)), ..t }),
    decreases i,
{
    if i == 0 {
        assert(line_data_records(ls.take(0)) =~= Seq::<RecordView>::empty());
        assert(map_of(ls.take(0)) =~= Map::<u32, line::LineView>::empty()) by {
            assert(ls.take(0) =~= Seq::<(u32, line::LineView)>::empty());
            crate::assoc::lemma_map_of_empty::<u32, line::LineView>();
        }
    } else {
        let j = i - 1;
        lemma_fold_line_prefix(t, ls, j, lossy);
        lemma_take_push(ls, j);
        let p = ls[j];
        let r = RecordView::LineData { line: p.0, count: p.1.0, checksum: p.1.1 };
        assert(line_data_records(ls.take(i)) =~= line_data_records(ls.take(j)) + seq![r]);
        lemma_fold_concat(t, line_data_records(ls.take(j)), seq![r], lossy);
        let tj = SectionView { lines: map_of(ls.take(j)), ..t };
        lemma_fold_one(tj, r, lossy);
        assert(!map_of(ls.take(j)).contains_key(p.0));
        assert(section::sat_add(0, p.1.0) == p.1.0);
        assert(line::merge_spec(line_at(tj.lines, p.0), (p.1.0, p.1.1), lossy) == Some(p.1));
    }
}

proof fn lemma_fold_branches(t: SectionView, bs: Seq<(branch::Key, branch::Value)>, lossy: bool)
    requires
        t.branches == Map::<branch::Key, branch::Value>::empty(),
        keys_unique(bs),
    ensures
        section_fold(t, branch_output(bs), lossy) == Some(SectionView { branches: map_of(bs), ..t }),
{
    lemma_fold_branch_prefix(t, bs, bs.len() as int, lossy);
    assert(bs.take(bs.len() as int) =~= bs);
    if bs.len() == 0 {
        assert(branch_output(bs) =~= Seq::<RecordView>::empty());
    } else {
        let sum = seq![
            RecordView::BranchesFound { found: crate::output::count_u32(bs.len()) },
            RecordView::BranchesHit { hit: crate::output::count_u32(crate::output::branch_hits(bs)) },
        ];
        assert(branch_output(bs) == branch_data_records(bs) + sum);
        lemma_fold_concat(t, branch_data_records(bs), sum, lossy);
        lemma_fold_summary(SectionView { branches: map_of(bs), ..t }, sum[0], sum[1], lossy);
        assert(sum =~= seq![sum[0], sum[1]]);
    }
}

proof fn lemma_fold_lines(t: SectionView, ls: Seq<(u32, line::LineView)>, lossy: bool)
    requires
        t.lines == Map::<u32, line::LineView>::empty(),
        keys_unique(ls),
    ensures
        section_fold(t, line_output(ls), lossy) == Some(SectionView { lines: map_of(ls), ..t }),
{
    lemma_fold_line_prefix(t, ls, ls.len() as int, lossy);
    assert(ls.take(ls.len() as int) =~= ls);
    if ls.len() == 0 {
        assert(line_output(ls) =~= Seq::<RecordView>::empty());
    } else {
        let sum = seq![
            RecordView::LinesFound { found: crate::output::count_u32(ls.len()) },
            RecordView::LinesHit { hit: crate::output::count_u32(crate::output::line_hits(ls)) },
        ];
        assert(line_output(ls) == line_data_records(ls) + sum);
        lemma_fold_concat(t, line_data_records(ls), sum, lossy);
        lemma_fold_summary(SectionView { lines: map_of(ls), ..t }, sum[0], sum[1], lossy);
        assert(sum =~= seq![sum[0], sum[1]]);
    }
}

/// The functions as the `FN` records of a list leave them: each function
/// with a start line, at count zero.
pub open spec fn start_lines_map(s: Seq<(Seq<char>, function::Value)>) -> Map<Seq<char>, function::Value>
    decreases s.len(),
{
    if s.len() == 0 {
        Map::empty()
    } else {
        let m = start_lines_map(s.drop_last());
        match s.last().1.start_line {
            Some(l) => m.insert(s.last().0, function::Value { start_line: Some(l), count: 0 }),
            None => m,
        }
    }
}

pub proof fn lemma_start_lines_dom(s: Seq<(Seq<char>, function::Value)>, n: Seq<char>)
    requires
        start_lines_map(s).contains_key(n),
    ensures
        has_key(s, n),
    decreases s.len(),
{
    let p = s.drop_last();
    if start_lines_map(p).contains_key(n) {
        lemma_start_lines_dom(p, n);
        let j = choose|j: int| 0 <= j < p.len() && #[trigger] p[j].0 == n;
        assert(s[j].0 == n);
    } else {
        assert(s[s.len() - 1].0 == n);
    }
}

pub proof fn lemma_start_lines_at(s: Seq<(Seq<char>, function::Value)>, j: int)
    requires
        keys_unique(s),
        0 <= j < s.len(),
    ensures
        s[j].1.start_line is Some ==> start_lines_map(s).contains_key(s[j].0) && start_lines_map(s)[s[j].0]
            == (function::Value { start_line: s[j].1.start_line, count: 0 }),
        s[j].1.start_line is None ==> !start_lines_map(s).contains_key(s[j].0),
    decreases s.len(),
{
    let p = s.drop_last();
    assert forall|a: int, b: int| 0 <= a < b < p.len() implies #[trigger] p[a].0 != #[trigger] p[b].0 by {
        assert(s[a].0 != s[b].0);
    }
    if j == s.len() - 1 {
        if s[j].1.start_line is None {
            if start_lines_map(p).contains_key(s[j].0) {
                lemma_start_lines_dom(p, s[j].0);
                let k = choose|k: int| 0 <= k < p.len() && #[trigger] p[k].0 == s[j].0;
                assert(s[k].0 == s[j].0);
            }
        }
    } else {
        assert(p[j] == s[j]);
        lemma_start_lines_at(p, j);
        assert(s.last().0 != s[j].0);
    }
}

proof fn lemma_fold_names(t: SectionView, fs: Seq<(Seq<char>, function::Value)>, i: int, lossy: bool)
    requires
        t.functions == Map::<Seq<char>, function::Value>::empty(),
        keys_unique(fs),
        0 <= i <= fs.len(),
    ensures
        section_fold(t, function_name_records(fs.take(i)), lossy) == Some(
            SectionView { functions: start_lines_map(fs.take(i)), ..t },
        ),
    decreases i,
{
    if i == 0 {
        assert(fs.take(0) =~= Seq::<(Seq<char>, function::Value)>::empty());
        assert(function_name_records(fs.take(0)) =~= Seq::<RecordView>::empty());
        assert(start_lines_map(fs.take(0)) =~= Map::<Seq<char>, function::Value>::empty());
    } else {
        let j = i - 1;
        lemma_fold_names(t, fs, j, lossy);
        lemma_take_push(fs, j);
        let s = fs.take(i);
        assert(s.drop_last() =~= fs.take(j));
        assert(s.last() == fs[j]);
        let p = fs[j];
        let tj = SectionView { functions: start_lines_map(fs.take(j)), ..t };
        match p.1.start_line {
            Some(l) => {
                let r = RecordView::FunctionName { name: p.0, start_line: l };
                assert(function_name_records(s) == function_name_records(fs.take(j)).push(r));
                assert(function_name_records(s) =~= function_name_records(fs.take(j)) + seq![r]);
                lemma_fold_concat(t, function_name_records(fs.take(j)), seq![r], lossy);
                lemma_fold_one(tj, r, lossy);
                if start_lines_map(fs.take(j)).contains_key(p.0) {
                    lemma_start_lines_dom(fs.take(j), p.0);
                }
                assert(section::sat_add(0, 0) == 0);
            },
            None => {
                assert(function_name_records(s) == function_name_records(fs.take(j)));
            },
        }
    }
}

/// The functions after the `FN` records of a list and the `FNDA` records of
/// its first `i` entries.
pub open spec fn counted_map(fs: Seq<(Seq<char>, function::Value)>, i: int) -> Map<Seq<char>, function::Value> {
    Map::new(
        |n: Seq<char>| map_of(fs.take(i)).contains_key(n) || start_lines_map(fs).contains_key(n),
        |n: Seq<char>| if map_of(fs.take(i)).contains_key(n) {
            map_of(fs.take(i))[n]
        } else {
            start_lines_map(fs)[n]
        },
    )
}

proof fn lemma_fold_counts(t: SectionView, fs: Seq<(Seq<char>, function::Value)>, i: int, lossy: bool)
    requires
        t.functions == start_lines_map(fs),
        keys_unique(fs),
        0 <= i <= fs.len(),
    ensures
        section_fold(t, function_data_records(fs.take(i)), lossy) == Some(SectionView { functions: counted_map(fs, i), ..t }),
    decreases i,
{
    if i == 0 {
        assert(fs.take(0) =~= Seq::<(Seq<char>, function::Value)>::empty());
        assert(function_data_records(fs.take(0)) =~= Seq::<RecordView>::empty());
        crate::assoc::lemma_map_of_empty::<Seq<char>, function::Value>();
        assert(counted_map(fs, 0) =~= start_lines_map(fs));
    } else {
        let j = i - 1;
        lemma_fold_counts(t, fs, j, lossy);
        lemma_take_push(fs, j);
        let p = fs[j];
        let r = RecordView::FunctionData { name: p.0, count: p.1.count };
        assert(function_data_records(fs.take(i)) =~= function_data_records(fs.take(j)) + seq![r]);
        lemma_fold_concat(t, function_data_records(fs.take(j)), seq![r], lossy);
        let tj = SectionView { functions: counted_map(fs, j), ..t };
        lemma_fold_one(tj, r, lossy);
        lemma_start_lines_at(fs, j);
        assert(!map_of(fs.take(j)).contains_key(p.0));
        assert(section::sat_add(0, p.1.count) == p.1.count);
        assert(function::merge_spec(function_at(counted_map(fs, j), p.0), function::Value { start_line: None, count: p.1.count }, lossy) == Some(p.1));
        assert(counted_map(fs, j).insert(p.0, p.1) =~= counted_map(fs, i));
    }
}

proof fn lemma_fold_functions(t: SectionView, fs: Seq<(Seq<char>, function::Value)>, lossy: bool)
    requires
        t.functions == Map::<Seq<char>, function::Value>::empty(),
        keys_unique(fs),
    ensures
        section_fold(t, function_output(fs), lossy) == Some(SectionView { functions: map_of(fs), ..t }),
{
    let n = fs.len() as int;
    assert(fs.take(n) =~= fs);
    if n == 0 {
        assert(function_output(fs) =~= Seq::<RecordView>::empty());
        crate::assoc::lemma_map_of_empty::<Seq<char>, function::Value>();
        assert(fs =~= Seq::<(Seq<char>, function::Value)>::empty());
    } else {
        lemma_fold_names(t, fs, n, lossy);
        let t1 = SectionView { functions: start_lines_map(fs), ..t };
        lemma_fold_counts(t1, fs, n, lossy);
        assert(counted_map(fs, n) =~= map_of(fs)) by {
            assert forall|k: Seq<char>| start_lines_map(fs).contains_key(k) implies map_of(fs).contains_key(k) by {
                lemma_start_lines_dom(fs, k);
            }
        }
        let sum = seq![
            RecordView::FunctionsFound { found: crate::output::count_u32(fs.len()) },
            RecordView::FunctionsHit { hit: crate::output::count_u32(crate::output::function_hits(fs)) },
        ];
        assert(function_output(fs) == function_name_records(fs) + function_data_records(fs) + sum);
        lemma_fold_concat(t, function_name_records(fs), function_data_records(fs) + sum, lossy);
        assert(function_name_records(fs) + function_data_records(fs) + sum =~= function_name_records(fs) + (function_data_records(fs) + sum));
        lemma_fold_concat(t1, function_data_records(fs), sum, lossy);
        lemma_fold_summary(SectionView { functions: map_of(fs), ..t }, sum[0], sum[1], lossy);
        assert(sum =~= seq![sum[0], sum[1]]);
    }
}

/// The orders that a section is written out in can be had: each of its
/// maps has a listing in output order.
pub open spec fn listable(s: SectionView) -> bool {
    &&& functions_ordered(ordered_functions(s.functions))
    &&& map_of(ordered_functions(s.functions)) == s.functions
    &&& branches_sorted(ordered_branches(s.branches))
    &&& map_of(ordered_branches(s.branches)) == s.branches
    &&& lines_ordered(ordered_lines(s.lines))
    &&& map_of(ordered_lines(s.lines)) == s.lines
}

/// A report as one that `Report` holds: its sections can be listed in key
/// order, and each is non-empty and listable.
pub open spec fn report_listable(m: ReportView) -> bool {
    &&& sections_ordered(ordered_sections(m))
    &&& map_of(ordered_sections(m)) == m
    &&& forall|k: KeyView| #[trigger] m.contains_key(k) ==> !view_is_empty(m[k]) && listable(m[k])
}

pub proof fn lemma_names_are_body(s: Seq<(Seq<char>, function::Value)>)
    ensures
        forall|i: int| 0 <= i < function_name_records(s).len() ==> (#[trigger] function_name_records(s)[i]) is FunctionName,
    decreases s.len(),
{
    if s.len() > 0 {
        lemma_names_are_body(s.drop_last());
    }
}

proof fn lemma_run_section(m0: ReportView, k: KeyView, s: SectionView, tn: Option<Seq<char>>, lossy: bool)
    requires
        !m0.contains_key(k),
        !view_is_empty(s),
        listable(s),
    ensures
        run(m0, Phase::Between(tn), oks(section_output(k, s)), lossy) == Ok::<(ReportView, Phase), (ReportView, crate::error::MergeError)>(
            (m0.insert(k, s), Phase::Between(None)),
        ),
{
    let fs = ordered_functions(s.functions);
    let bs = ordered_branches(s.branches);
    let ls = ordered_lines(s.lines);
    assert forall|a: int, b: int| 0 <= a < b < bs.len() implies #[trigger] bs[a].0 != #[trigger] bs[b].0 by {
        assert(branch::key_lt(bs[a].0, bs[b].0));
    }
    assert forall|a: int, b: int| 0 <= a < b < ls.len() implies #[trigger] ls[a].0 != #[trigger] ls[b].0 by {
        assert(ls[a].0 < ls[b].0);
    }
    let f = function_output(fs);
    let b = branch_output(bs);
    let l = line_output(ls);
    let body = f + b + l;
    let t0 = empty_section();
    lemma_fold_functions(t0, fs, lossy);
    let t1 = SectionView { functions: s.functions, ..t0 };
    lemma_fold_branches(t1, bs, lossy);
    let t2 = SectionView { branches: s.branches, ..t1 };
    lemma_fold_lines(t2, ls, lossy);
    assert(SectionView { lines: s.lines, ..t2 } == s);
    lemma_fold_concat(t0, f, b, lossy);
    lemma_fold_concat(t0, f + b, l, lossy);
    assert(section_fold(t0, body, lossy) == Some(s));
    lemma_names_are_body(fs);
    assert forall|i: int| 0 <= i < body.len() implies is_body(#[trigger] body[i]) by {
        let nf = function_name_records(fs).len();
        if i < nf {
            assert(body[i] == function_name_records(fs)[i]);
        }
    }
    assert(view_is_empty(t0));
    assert(placed(m0, k, t0) == m0);
    lemma_run_body(m0, k, t0, body, lossy);
    assert(placed(m0, k, s) == m0.insert(k, s));
    let head = seq![RecordView::TestName { name: k.0 }, RecordView::SourceFile { path: k.1 }];
    let tail = seq![RecordView::EndOfRecord];
    assert(section_output(k, s) =~= head + body + tail);
    lemma_oks_concat(head, body);
    lemma_oks_concat(head + body, tail);
    let hi = oks(head);
    assert(hi[0] == Ok::<RecordView, ReadError>(head[0]));
    assert(hi[1] == Ok::<RecordView, ReadError>(head[1]));
    let h1 = hi.drop_first();
    assert(h1[0] == Ok::<RecordView, ReadError>(head[1]));
    assert(h1.drop_first() =~= Seq::<Result<RecordView, ReadError>>::empty());
    assert(k == (k.0, k.1));
    assert(run(m0, Phase::Inside(k), h1.drop_first(), lossy) == Ok::<(ReportView, Phase), (ReportView, crate::error::MergeError)>((m0, Phase::Inside(k))));
    assert(run(m0, Phase::Between(Some(k.0)), h1, lossy) == Ok::<(ReportView, Phase), (ReportView, crate::error::MergeError)>((m0, Phase::Inside(k))));
    assert(run(m0, Phase::Between(tn), hi, lossy) == Ok::<(ReportView, Phase), (ReportView, crate::error::MergeError)>((m0, Phase::Inside(k))));
    lemma_run_concat(m0, Phase::Between(tn), hi, oks(body), lossy);
    lemma_run_concat(m0, Phase::Between(tn), hi + oks(body), oks(tail), lossy);
    let ti = oks(tail);
    assert(ti[0] == Ok::<RecordView, ReadError>(RecordView::EndOfRecord));
    assert(ti.drop_first() =~= Seq::<Result<RecordView, ReadError>>::empty());
    assert(run(m0.insert(k, s), Phase::Between(None), ti.drop_first(), lossy) == Ok::<(ReportView, Phase), (ReportView, crate::error::MergeError)>((m0.insert(k, s), Phase::Between(None))));
    assert(run(m0.insert(k, s), Phase::Inside(k), ti, lossy) == Ok::<(ReportView, Phase), (ReportView, crate::error::MergeError)>((m0.insert(k, s), Phase::Between(None))));
    assert(hi + oks(body) + ti =~= oks(section_output(k, s)));
}

/// Merging the records that a report is written out as into an empty report
/// gives that report, with no error.
pub proof fn lemma_replay_report(m: ReportView, lossy: bool)
    requires
        report_listable(m),
    ensures
        run(Map::empty(), Phase::Between(None), oks(report_output(m)), lossy) == Ok::<(ReportView, Phase), (ReportView, crate::error::MergeError)>(
            (m, Phase::Between(None)),
        ),
{
    let ps = ordered_sections(m);
    assert forall|a: int, b: int| 0 <= a < b < ps.len() implies #[trigger] ps[a].0 != #[trigger] ps[b].0 by {
        assert(key_lt(ps[a].0, ps[b].0));
        crate::report::lemma_key_lt_irreflexive(ps[a].0);
    }
    lemma_replay_prefix(m, ps, ps.len() as int, lossy);
    assert(ps.take(ps.len() as int) =~= ps);
}

proof fn lemma_replay_prefix(m: ReportView, ps: Seq<(KeyView, SectionView)>, i: int, lossy: bool)
    requires
        report_listable(m),
        ps == ordered_sections(m),
        keys_unique(ps),
        0 <= i <= ps.len(),
    ensures
        run(Map::empty(), Phase::Between(None), oks(sections_output(ps.take(i))), lossy) == Ok::<(ReportView, Phase), (ReportView, crate::error::MergeError)>(
            (map_of(ps.take(i)), Phase::Between(None)),
        ),
    decreases i,
{
    if i == 0 {
        assert(ps.take(0) =~= Seq::<(KeyView, SectionView)>::empty());
        assert(oks(sections_output(ps.take(0))) =~= Seq::<Result<RecordView, ReadError>>::empty());
        crate::assoc::lemma_map_of_empty::<KeyView, SectionView>();
    } else {
        let j = i - 1;
        lemma_replay_prefix(m, ps, j, lossy);
        lemma_take_push(ps, j);
        let s = ps.take(i);
        assert(s.drop_last() =~= ps.take(j));
        assert(s.last() == ps[j]);
        assert(sections_output(s) == sections_output(ps.take(j)) + section_output(ps[j].0, ps[j].1));
        lemma_oks_concat(sections_output(ps.take(j)), section_output(ps[j].0, ps[j].1));
        lemma_run_concat(Map::empty(), Phase::Between(None), oks(sections_output(ps.take(j))), oks(section_output(ps[j].0, ps[j].1)), lossy);
        lemma_map_of_index(ps, j);
        assert(m.contains_key(ps[j].0));
        lemma_run_section(map_of(ps.take(j)), ps[j].0, ps[j].1, None, lossy);
    }
}

} // verus!
