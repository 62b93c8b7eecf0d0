//! Merging whole reports: entry by entry, and what merging the records of
//! one report into another gives.
use crate::assoc::{keys_unique, lemma_map_of_index, map_of};
use crate::error::{MergeError, ReadError};
use crate::output::{
    branch_data_records, branch_output, function_data_records, function_name_records, function_output, line_data_records,
    line_output, ordered_branches, ordered_functions, ordered_lines, ordered_sections, report_output, section_output,
    sections_output,
};
use crate::record::RecordView;
use crate::replay::{
    counted_map, empty_section, is_body, lemma_fold_concat, lemma_fold_one, lemma_fold_summary, lemma_names_are_body,
    lemma_oks_concat, lemma_run_body, lemma_run_concat, lemma_start_lines_at, lemma_start_lines_dom, lemma_take_push,
    listable, oks, placed, report_listable, section_fold, start_lines_map,
};
use crate::report::{key_lt, run, section_at, KeyView, Phase, ReportView};
use crate::section::{self, branch, branch_at, function, function_at, line, line_at, sat_add, view_is_empty, SectionView};
use vstd::prelude::*;

verus! {

/// Two function maps merged entry by entry; where both give a start line,
/// the second one's is kept.
pub open spec fn merged_functions(a: Map<Seq<char>, function::Value>, b: Map<Seq<char>, function::Value>) -> Map<Seq<char>, function::Value> {
    Map::new(
        |n: Seq<char>| a.contains_key(n) || b.contains_key(n),
        |n: Seq<char>| function::merge_spec(function_at(a, n), function_at(b, n), true)->0,
    )
}

/// Two branch maps merged entry by entry.
pub open spec fn merged_branches(a: Map<branch::Key, branch::Value>, b: Map<branch::Key, branch::Value>) -> Map<branch::Key, branch::Value> {
    Map::new(
        |k: branch::Key| a.contains_key(k) || b.contains_key(k),
        |k: branch::Key| branch::merge_spec(branch_at(a, k), branch_at(b, k)),
    )
}

/// Two line maps merged entry by entry; where both give a checksum, the
/// second one's is kept.
pub open spec fn merged_lines(a: Map<u32, line::LineView>, b: Map<u32, line::LineView>) -> Map<u32, line::LineView> {
    Map::new(
        |l: u32| a.contains_key(l) || b.contains_key(l),
        |l: u32| line::merge_spec(line_at(a, l), line_at(b, l), true)->0,
    )
}

/// Two sections merged entry by entry.
pub open spec fn merged_sections(s: SectionView, t: SectionView) -> SectionView {
    SectionView {
        functions: merged_functions(s.functions, t.functions),
        branches: merged_branches(s.branches, t.branches),
        lines: merged_lines(s.lines, t.lines),
    }
}

/// Some function or line is given different start lines or checksums by
/// the two sections.
pub open spec fn sections_conflict(s: SectionView, t: SectionView) -> bool {
    (exists|n: Seq<char>|
        #![trigger s.functions[n], t.functions[n]]
        s.functions.contains_key(n) && t.functions.contains_key(n) && function::merge_spec(s.functions[n], t.functions[n], false) is None)
    || (exists|l: u32|
        #![trigger s.lines[l], t.lines[l]]
        s.lines.contains_key(l) && t.lines.contains_key(l) && line::merge_spec(s.lines[l], t.lines[l], false) is None)
}

/// Two reports merged section by section.
pub open spec fn merged_reports(a: ReportView, b: ReportView) -> ReportView {
    Map::new(
        |k: KeyView| a.contains_key(k) || b.contains_key(k),
        |k: KeyView| if a.contains_key(k) && b.contains_key(k) {
            merged_sections(a[k], b[k])
        } else if a.contains_key(k) {
            a[k]
        } else {
            b[k]
        },
    )
}

/// Some section of both reports conflicts.
pub open spec fn reports_conflict(a: ReportView, b: ReportView) -> bool {
    exists|k: KeyView| #![trigger a[k], b[k]] a.contains_key(k) && b.contains_key(k) && sections_conflict(a[k], b[k])
}

/// Every section of the report holds some coverage.
pub open spec fn sections_non_empty(m: ReportView) -> bool {
    forall|k: KeyView| #[trigger] m.contains_key(k) ==> !view_is_empty(m[k])
}

proof fn lemma_fn_merge_facts(a: function::Value, b: function::Value, c: function::Value)
    ensures
        function::merge_spec(a, function::empty_value(), true)->0 == a,
        function::merge_spec(function::empty_value(), b, true)->0 == b,
        function::merge_spec(function::merge_spec(a, b, true)->0, c, true)->0 == function::merge_spec(a, function::merge_spec(b, c, true)->0, true)->0,
        function::merge_spec(a, b, false) is Some ==> function::merge_spec(a, b, false) == function::merge_spec(a, b, true),
        function::merge_spec(a, b, false) is Some ==> function::merge_spec(a, b, true)->0 == function::merge_spec(b, a, true)->0,
        function::merge_spec(a, b, false) is Some <==> function::merge_spec(b, a, false) is Some,
{
}

proof fn lemma_line_merge_facts(a: line::LineView, b: line::LineView, c: line::LineView)
    ensures
        line::merge_spec(a, line::empty_view(), true)->0 == a,
        line::merge_spec(line::empty_view(), b, true)->0 == b,
        line::merge_spec(line::merge_spec(a, b, true)->0, c, true)->0 == line::merge_spec(a, line::merge_spec(b, c, true)->0, true)->0,
        line::merge_spec(a, b, false) is Some ==> line::merge_spec(a, b, false) == line::merge_spec(a, b, true),
        line::merge_spec(a, b, false) is Some ==> line::merge_spec(a, b, true)->0 == line::merge_spec(b, a, true)->0,
        line::merge_spec(a, b, false) is Some <==> line::merge_spec(b, a, false) is Some,
{
}

proof fn lemma_branch_merge_facts(a: branch::Value, b: branch::Value, c: branch::Value)
    ensures
        branch::merge_spec(a, branch::Value { taken: None }) == a,
        branch::merge_spec(branch::Value { taken: None }, b) == b,
        branch::merge_spec(branch::merge_spec(a, b), c) == branch::merge_spec(a, branch::merge_spec(b, c)),
        branch::merge_spec(a, b) == branch::merge_spec(b, a),
{
}

proof fn lemma_merge_branch_prefix(t: SectionView, bs: Seq<(branch::Key, branch::Value)>, i: int, lossy: bool)
    requires
        keys_unique(bs),
        0 <= i <= bs.len(),
    ensures
        section_fold(t, branch_data_records(bs.take(i)), lossy) == Some(
            SectionView { branches: merged_branches(t.branches, map_of(bs.take(i))), ..t },
        ),
    decreases i,
{
    if i == 0 {
        assert(branch_data_records(bs.take(0)) =~= Seq::<RecordView>::empty());
        assert(bs.take(0) =~= Seq::<(branch::Key, branch::Value)>::empty());
        crate::assoc::lemma_map_of_empty::<branch::Key, branch::Value>();
        assert forall|k: branch::Key| #[trigger] t.branches.contains_key(k) implies merged_branches(t.branches, map_of(bs.take(0)))[k] == t.branches[k] by {
            lemma_branch_merge_facts(t.branches[k], t.branches[k], t.branches[k]);
        }
        assert(merged_branches(t.branches, map_of(bs.take(0))) =~= t.branches);
        assert(SectionView { branches: t.branches, ..t } == t);
    } else {
        let j = i - 1;
        lemma_merge_branch_prefix(t, bs, j, lossy);
        lemma_take_push(bs, j);
        let p = bs[j];
        let r = RecordView::BranchData { line: p.0.line, block: p.0.block, branch: p.0.branch, taken: p.1.taken };
        assert(branch_data_records(bs.take(i)) =~= branch_data_records(bs.take(j)) + seq![r]);
        lemma_fold_concat(t, branch_data_records(bs.take(j)), seq![r], lossy);
        let mj = merged_branches(t.branches, map_of(bs.take(j)));
        let tj = SectionView { branches: mj, ..t };
        lemma_fold_one(tj, r, lossy);
        assert(!map_of(bs.take(j)).contains_key(p.0));
        assert(branch::Key { line: p.0.line, block: p.0.block, branch: p.0.branch } == p.0);
        lemma_branch_merge_facts(branch_at(t.branches, p.0), p.1, p.1);
        assert(branch_at(mj, p.0) == branch_at(t.branches, p.0));
        assert(mj.insert(p.0, branch::merge_spec(branch_at(mj, p.0), p.1)) =~= merged_branches(t.branches, map_of(bs.take(i))));
    }
}

proof fn lemma_merge_line_prefix(t: SectionView, ls: Seq<(u32, line::LineView)>, i: int, lossy: bool)
    requires
        keys_unique(ls),
        0 <= i <= ls.len(),
        forall|j: int| 0 <= j < ls.len() ==> lossy || line::merge_spec(line_at(t.lines, (#[trigger] ls[j]).0), ls[j].1, false) is Some,
    ensures
        section_fold(t, line_data_records(ls.take(i)), lossy) == Some(
            SectionView { lines: merged_lines(t.lines, map_of(ls.take(i))), ..t },
        ),
    decreases i,
{
    if i == 0 {
        assert(line_data_records(ls.take(0)) =~= Seq::<RecordView>::empty());
        assert(ls.take(0) =~= Seq::<(u32, line::LineView)>::empty());
        crate::assoc::lemma_map_of_empty::<u32, line::LineView>();
        assert forall|k: u32| #[trigger] t.lines.contains_key(k) implies merged_lines(t.lines, map_of(ls.take(0)))[k] == t.lines[k] by {
            lemma_line_merge_facts(t.lines[k], t.lines[k], t.lines[k]);
        }
        assert(merged_lines(t.lines, map_of(ls.take(0))) =~= t.lines);
        assert(SectionView { lines: t.lines, ..t } == t);
    } else {
        let j = i - 1;
        lemma_merge_line_prefix(t, ls, j, lossy);
        lemma_take_push(ls, j);
        let p = ls[j];
        let r = RecordView::LineData { line: p.0, count: p.1.0, checksum: p.1.1 };
        assert(line_data_records(ls.take(i)) =~= line_data_records(ls.take(j)) + seq![r]);
        lemma_fold_concat(t, line_data_records(ls.take(j)), seq![r], lossy);
        let mj = merged_lines(t.lines, map_of(ls.take(j)));
        let tj = SectionView { lines: mj, ..t };
        lemma_fold_one(tj, r, lossy);
        assert(!map_of(ls.take(j)).contains_key(p.0));
        lemma_line_merge_facts(line_at(t.lines, p.0), p.1, p.1);
        assert(line_at(mj, p.0) == line_at(t.lines, p.0));
        assert((p.1.0, p.1.1) == p.1);
        assert(mj.insert(p.0, line::merge_spec(line_at(t.lines, p.0), p.1, true)->0) =~= merged_lines(t.lines, map_of(ls.take(i))));
    }
}

proof fn lemma_merge_name_prefix(t: SectionView, fs: Seq<(Seq<char>, function::Value)>, i: int, lossy: bool)
    requires
        keys_unique(fs),
        0 <= i <= fs.len(),
        forall|j: int| 0 <= j < fs.len() ==> lossy || function::merge_spec(function_at(t.functions, (#[trigger] fs[j]).0), fs[j].1, false) is Some,
    ensures
        section_fold(t, function_name_records(fs.take(i)), lossy) == Some(
            SectionView { functions: merged_functions(t.functions, start_lines_map(fs.take(i))), ..t },
        ),
    decreases i,
{
    if i == 0 {
        assert(fs.take(0) =~= Seq::<(Seq<char>, function::Value)>::empty());
        assert(function_name_records(fs.take(0)) =~= Seq::<RecordView>::empty());
        assert(start_lines_map(fs.take(0)) =~= Map::<Seq<char>, function::Value>::empty());
        assert forall|k: Seq<char>| #[trigger] t.functions.contains_key(k) implies merged_functions(t.functions, start_lines_map(fs.take(0)))[k] == t.functions[k] by {
            lemma_fn_merge_facts(t.functions[k], t.functions[k], t.functions[k]);
        }
        assert(merged_functions(t.functions, start_lines_map(fs.take(0))) =~= t.functions);
        assert(SectionView { functions: t.functions, ..t } == t);
    } else {
        let j = i - 1;
        lemma_merge_name_prefix(t, fs, j, lossy);
        lemma_take_push(fs, j);
        let s = fs.take(i);
        assert(s.drop_last() =~= fs.take(j));
        assert(s.last() == fs[j]);
        let p = fs[j];
        let mj = merged_functions(t.functions, start_lines_map(fs.take(j)));
        let tj = SectionView { functions: mj, ..t };
        match p.1.start_line {
            Some(l) => {
                let r = RecordView::FunctionName { name: p.0, start_line: l };
                assert(function_name_records(s) == function_name_records(fs.take(j)).push(r));
                assert(function_name_records(s) =~= function_name_records(fs.take(j)) + seq![r]);
                lemma_fold_concat(t, function_name_records(fs.take(j)), seq![r], lossy);
                lemma_fold_one(tj, r, lossy);
                if start_lines_map(fs.take(j)).contains_key(p.0) {
                    lemma_start_lines_dom(fs.take(j), p.0);
                }
                let v = function::Value { start_line: Some(l), count: 0 };
                lemma_fn_merge_facts(function_at(t.functions, p.0), v, v);
                assert(function_at(mj, p.0) == function_at(t.functions, p.0));
                assert(mj.insert(p.0, function::merge_spec(function_at(t.functions, p.0), v, true)->0) =~= merged_functions(t.functions, start_lines_map(s)));
            },
            None => {
                assert(function_name_records(s) == function_name_records(fs.take(j)));
                assert(start_lines_map(s) == start_lines_map(fs.take(j)));
            },
        }
    }
}

proof fn lemma_merge_count_prefix(t: SectionView, fs: Seq<(Seq<char>, function::Value)>, i: int, lossy: bool)
    requires
        keys_unique(fs),
        0 <= i <= fs.len(),
    ensures
        section_fold(
            SectionView { functions: merged_functions(t.functions, start_lines_map(fs)), ..t },
            function_data_records(fs.take(i)),
            lossy,
        ) == Some(SectionView { functions: merged_functions(t.functions, counted_map(fs, i)), ..t }),
    decreases i,
{
    let t1 = SectionView { functions: merged_functions(t.functions, start_lines_map(fs)), ..t };
    if i == 0 {
        assert(fs.take(0) =~= Seq::<(Seq<char>, function::Value)>::empty());
        assert(function_data_records(fs.take(0)) =~= Seq::<RecordView>::empty());
        crate::assoc::lemma_map_of_empty::<Seq<char>, function::Value>();
        assert(counted_map(fs, 0) =~= start_lines_map(fs));
    } else {
        let j = i - 1;
        lemma_merge_count_prefix(t, fs, j, lossy);
        lemma_take_push(fs, j);
        let p = fs[j];
        let r = RecordView::FunctionData { name: p.0, count: p.1.count };
        assert(function_data_records(fs.take(i)) =~= function_data_records(fs.take(j)) + seq![r]);
        lemma_fold_concat(t1, function_data_records(fs.take(j)), seq![r], lossy);
        let cj = counted_map(fs, j);
        let mj = merged_functions(t.functions, cj);
        let tj = SectionView { functions: mj, ..t };
        lemma_fold_one(tj, r, lossy);
        lemma_start_lines_at(fs, j);
        assert(!map_of(fs.take(j)).contains_key(p.0));
        let v = function::Value { start_line: None, count: p.1.count };
        assert(function::merge_spec(function_at(cj, p.0), v, true)->0 == p.1) by {
            assert(sat_add(0, p.1.count) == p.1.count);
        }
        lemma_fn_merge_facts(function_at(t.functions, p.0), function_at(cj, p.0), v);
        lemma_fn_merge_facts(function::empty_value(), function::empty_value(), function::empty_value());
        assert(function_at(mj, p.0) == function::merge_spec(function_at(t.functions, p.0), function_at(cj, p.0), true)->0);
        assert(counted_map(fs, j).insert(p.0, p.1) =~= counted_map(fs, i));
        assert(mj.insert(p.0, function::merge_spec(function_at(mj, p.0), v, lossy)->0) =~= merged_functions(t.functions, counted_map(fs, i)));
    }
}

/// Where no function or line of `t` conflicts with the section `s`.
pub open spec fn section_compatible(t: SectionView, s: SectionView, lossy: bool) -> bool {
    lossy || !sections_conflict(t, s)
}

proof fn lemma_merge_section_body(t: SectionView, s: SectionView, lossy: bool)
    requires
        listable(s),
        section_compatible(t, s, lossy),
    ensures
        section_fold(
            t,
            function_output(ordered_functions(s.functions)) + branch_output(ordered_branches(s.branches)) + line_output(
                ordered_lines(s.lines),
            ),
            lossy,
        ) == Some(merged_sections(t, s)),
{
    let fs = ordered_functions(s.functions);
    let bs = ordered_branches(s.branches);
    let ls = ordered_lines(s.lines);
    assert forall|a: int, b: int| 0 <= a < b < bs.len() implies #[trigger] bs[a].0 != #[trigger] bs[b].0 by {
        assert(branch::key_lt(bs[a].0, bs[b].0));
    }
    assert forall|a: int, b: int| 0 <= a < b < ls.len() implies #[trigger] ls[a].0 != #[trigger] ls[b].0 by {
        assert(ls[a].0 < ls[b].0);
    }
    assert forall|j: int| 0 <= j < fs.len() implies lossy || function::merge_spec(function_at(t.functions, (#[trigger] fs[j]).0), fs[j].1, false) is Some by {
        lemma_map_of_index(fs, j);
        if t.functions.contains_key(fs[j].0) && !lossy {
            assert(s.functions[fs[j].0] == fs[j].1);
        }
    }
    assert forall|j: int| 0 <= j < ls.len() implies lossy || line::merge_spec(line_at(t.lines, (#[trigger] ls[j]).0), ls[j].1, false) is Some by {
        lemma_map_of_index(ls, j);
        if t.lines.contains_key(ls[j].0) && !lossy {
            assert(s.lines[ls[j].0] == ls[j].1);
        }
    }
    let n = fs.len() as int;
    assert(fs.take(n) =~= fs);
    assert(bs.take(bs.len() as int) =~= bs);
    assert(ls.take(ls.len() as int) =~= ls);
    let f = function_output(fs);
    let t1 = SectionView { functions: merged_functions(t.functions, s.functions), ..t };
    if n == 0 {
        assert(f =~= Seq::<RecordView>::empty());
        crate::assoc::lemma_map_of_empty::<Seq<char>, function::Value>();
        assert(fs =~= Seq::<(Seq<char>, function::Value)>::empty());
        assert forall|k: Seq<char>| #[trigger] t.functions.contains_key(k) implies merged_functions(t.functions, s.functions)[k] == t.functions[k] by {
            lemma_fn_merge_facts(t.functions[k], t.functions[k], t.functions[k]);
        }
        assert(merged_functions(t.functions, s.functions) =~= t.functions);
        assert(section_fold(t, f, lossy) == Some(t1));
    } else {
        lemma_merge_name_prefix(t, fs, n, lossy);
        lemma_merge_count_prefix(t, fs, n, lossy);
        assert(counted_map(fs, n) =~= map_of(fs)) by {
            assert forall|k: Seq<char>| start_lines_map(fs).contains_key(k) implies map_of(fs).contains_key(k) by {
                lemma_start_lines_dom(fs, k);
            }
        }
        let sum = seq![
            RecordView::FunctionsFound { found: crate::output::count_u32(fs.len()) },
            RecordView::FunctionsHit { hit: crate::output::count_u32(crate::output::function_hits(fs)) },
        ];
        assert(f == function_name_records(fs) + function_data_records(fs) + sum);
        assert(f =~= function_name_records(fs) + (function_data_records(fs) + sum));
        lemma_fold_concat(t, function_name_records(fs), function_data_records(fs) + sum, lossy);
        lemma_fold_concat(SectionView { functions: merged_functions(t.functions, start_lines_map(fs)), ..t }, function_data_records(fs), sum, lossy);
        lemma_fold_summary(t1, sum[0], sum[1], lossy);
        assert(sum =~= seq![sum[0], sum[1]]);
        assert(section_fold(t, f, lossy) == Some(t1));
    }
    let b = branch_output(bs);
    let t2 = SectionView { branches: merged_branches(t1.branches, s.branches), ..t1 };
    lemma_merge_branch_prefix(t1, bs, bs.len() as int, lossy);
    if bs.len() == 0 {
        assert(b =~= Seq::<RecordView>::empty());
        assert(branch_data_records(bs) =~= Seq::<RecordView>::empty());
        assert(section_fold(t1, b, lossy) == Some(t2));
    } else {
        let sum = seq![
            RecordView::BranchesFound { found: crate::output::count_u32(bs.len()) },
            RecordView::BranchesHit { hit: crate::output::count_u32(crate::output::branch_hits(bs)) },
        ];
        assert(b == branch_data_records(bs) + sum);
        lemma_fold_concat(t1, branch_data_records(bs), sum, lossy);
        lemma_fold_summary(t2, sum[0], sum[1], lossy);
        assert(sum =~= seq![sum[0], sum[1]]);
    }
    let l = line_output(ls);
    let t3 = SectionView { lines: merged_lines(t2.lines, s.lines), ..t2 };
    lemma_merge_line_prefix(t2, ls, ls.len() as int, lossy);
    if ls.len() == 0 {
        assert(l =~= Seq::<RecordView>::empty());
        assert(line_data_records(ls) =~= Seq::<RecordView>::empty());
        assert(section_fold(t2, l, lossy) == Some(t3));
    } else {
        let sum = seq![
            RecordView::LinesFound { found: crate::output::count_u32(ls.len()) },
            RecordView::LinesHit { hit: crate::output::count_u32(crate::output::line_hits(ls)) },
        ];
        assert(l == line_data_records(ls) + sum);
        lemma_fold_concat(t2, line_data_records(ls), sum, lossy);
        lemma_fold_summary(t3, sum[0], sum[1], lossy);
        assert(sum =~= seq![sum[0], sum[1]]);
    }
    lemma_fold_concat(t, f, b, lossy);
    lemma_fold_concat(t, f + b, l, lossy);
    assert(t3 == merged_sections(t, s));
}

proof fn lemma_merged_section_non_empty(t: SectionView, s: SectionView)
    requires
        !view_is_empty(s),
    ensures
        !view_is_empty(merged_sections(t, s)),
{
    let m = merged_sections(t, s);
    if !s.functions.is_empty() {
        let n = choose|n: Seq<char>| s.functions.contains_key(n);
        assert(m.functions.contains_key(n));
    } else if !s.branches.is_empty() {
        let k = choose|k: branch::Key| s.branches.contains_key(k);
        assert(m.branches.contains_key(k));
    } else {
        let k = choose|k: u32| s.lines.contains_key(k);
        assert(m.lines.contains_key(k));
    }
}

proof fn lemma_merge_section(a: ReportView, k: KeyView, s: SectionView, tn: Option<Seq<char>>, lossy: bool)
    requires
        sections_non_empty(a),
        !view_is_empty(s),
        listable(s),
        section_compatible(section_at(a, k), s, lossy),
    ensures
        run(a, Phase::Between(tn), oks(section_output(k, s)), lossy) == Ok::<(ReportView, Phase), (ReportView, MergeError)>(
            (a.insert(k, merged_sections(section_at(a, k), s)), Phase::Between(None)),
        ),
{
    let t0 = section_at(a, k);
    let m0 = a.remove(k);
    let fs = ordered_functions(s.functions);
    let body = function_output(fs) + branch_output(ordered_branches(s.branches)) + line_output(ordered_lines(s.lines));
    lemma_merge_section_body(t0, s, lossy);
    lemma_names_are_body(fs);
    assert forall|i: int| 0 <= i < body.len() implies is_body(#[trigger] body[i]) by {
        let nf = function_name_records(fs).len();
        if i < nf {
            assert(body[i] == function_name_records(fs)[i]);
        }
    }
    assert(placed(m0, k, t0) == a) by {
        if a.contains_key(k) {
            assert(m0.insert(k, a[k]) =~= a);
        } else {
            assert(t0 == empty_section());
            assert(m0 =~= a);
        }
    }
    assert(view_is_empty(t0) ==> t0 == empty_section()) by {
        if a.contains_key(k) {
            assert(!view_is_empty(a[k]));
        }
    }
    lemma_run_body(m0, k, t0, body, lossy);
    let merged = merged_sections(t0, s);
    lemma_merged_section_non_empty(t0, s);
    assert(placed(m0, k, merged) =~= a.insert(k, merged));
    let head = seq![RecordView::TestName { name: k.0 }, RecordView::SourceFile { path: k.1 }];
    let tail = seq![RecordView::EndOfRecord];
    assert(section_output(k, s) =~= head + body + tail);
    lemma_oks_concat(head, body);
    lemma_oks_concat(head + body, tail);
    let hi = oks(head);
    assert(hi[0] == Ok::<RecordView, ReadError>(head[0]));
    let h1 = hi.drop_first();
    assert(h1[0] == Ok::<RecordView, ReadError>(head[1]));
    assert(h1.drop_first() =~= Seq::<Result<RecordView, ReadError>>::empty());
    assert(k == (k.0, k.1));
    assert(run(a, Phase::Inside(k), h1.drop_first(), lossy) == Ok::<(ReportView, Phase), (ReportView, MergeError)>((a, Phase::Inside(k))));
    assert(run(a, Phase::Between(Some(k.0)), h1, lossy) == Ok::<(ReportView, Phase), (ReportView, MergeError)>((a, Phase::Inside(k))));
    assert(run(a, Phase::Between(tn), hi, lossy) == Ok::<(ReportView, Phase), (ReportView, MergeError)>((a, Phase::Inside(k))));
    lemma_run_concat(a, Phase::Between(tn), hi, oks(body), lossy);
    lemma_run_concat(a, Phase::Between(tn), hi + oks(body), oks(tail), lossy);
    let ti = oks(tail);
    let r = a.insert(k, merged);
    assert(ti[0] == Ok::<RecordView, ReadError>(RecordView::EndOfRecord));
    assert(ti.drop_first() =~= Seq::<Result<RecordView, ReadError>>::empty());
    assert(run(r, Phase::Between(None), ti.drop_first(), lossy) == Ok::<(ReportView, Phase), (ReportView, MergeError)>((r, Phase::Between(None))));
    assert(run(r, Phase::Inside(k), ti, lossy) == Ok::<(ReportView, Phase), (ReportView, MergeError)>((r, Phase::Between(None))));
    assert(hi + oks(body) + ti =~= oks(section_output(k, s)));
}

proof fn lemma_merged_with_empty(s: SectionView)
    ensures
        merged_sections(empty_section(), s) == s,
{
    assert forall|k: Seq<char>| #[trigger] s.functions.contains_key(k) implies merged_functions(Map::empty(), s.functions)[k] == s.functions[k] by {
        lemma_fn_merge_facts(s.functions[k], s.functions[k], s.functions[k]);
    }
    assert forall|k: branch::Key| #[trigger] s.branches.contains_key(k) implies merged_branches(Map::empty(), s.branches)[k] == s.branches[k] by {
        lemma_branch_merge_facts(s.branches[k], s.branches[k], s.branches[k]);
    }
    assert forall|k: u32| #[trigger] s.lines.contains_key(k) implies merged_lines(Map::empty(), s.lines)[k] == s.lines[k] by {
        lemma_line_merge_facts(s.lines[k], s.lines[k], s.lines[k]);
    }
    assert(merged_functions(Map::empty(), s.functions) =~= s.functions);
    assert(merged_branches(Map::empty(), s.branches) =~= s.branches);
    assert(merged_lines(Map::empty(), s.lines) =~= s.lines);
}


proof fn lemma_merge_report_prefix(a: ReportView, b: ReportView, ps: Seq<(KeyView, SectionView)>, i: int, lossy: bool)
    requires
        sections_non_empty(a),
        report_listable(b),
        ps == ordered_sections(b),
        keys_unique(ps),
        lossy || !reports_conflict(a, b),
        0 <= i <= ps.len(),
    ensures
        run(a, Phase::Between(None), oks(sections_output(ps.take(i))), lossy) == Ok::<(ReportView, Phase), (ReportView, MergeError)>(
            (merged_reports(a, map_of(ps.take(i))), Phase::Between(None)),
        ),
        sections_non_empty(merged_reports(a, map_of(ps.take(i)))),
    decreases i,
{
    if i == 0 {
        assert(ps.take(0) =~= Seq::<(KeyView, SectionView)>::empty());
        assert(oks(sections_output(ps.take(0))) =~= Seq::<Result<RecordView, ReadError>>::empty());
        crate::assoc::lemma_map_of_empty::<KeyView, SectionView>();
        assert(merged_reports(a, map_of(ps.take(0))) =~= a);
    } else {
        let j = i - 1;
        lemma_merge_report_prefix(a, b, ps, j, lossy);
        lemma_take_push(ps, j);
        let mj = map_of(ps.take(j));
        let c = merged_reports(a, mj);
        let s = ps.take(i);
        assert(s.drop_last() =~= ps.take(j));
        assert(s.last() == ps[j]);
        let k = ps[j].0;
        let v = ps[j].1;
        assert(sections_output(s) == sections_output(ps.take(j)) + section_output(k, v));
        lemma_oks_concat(sections_output(ps.take(j)), section_output(k, v));
        lemma_run_concat(a, Phase::Between(None), oks(sections_output(ps.take(j))), oks(section_output(k, v)), lossy);
        lemma_map_of_index(ps, j);
        assert(b.contains_key(k) && b[k] == v);
        assert(!mj.contains_key(k));
        assert(section_at(c, k) == section_at(a, k));
        assert(section_compatible(section_at(a, k), v, lossy)) by {
            if !lossy && a.contains_key(k) {
                assert(!sections_conflict(a[k], b[k]));
            }
            if !a.contains_key(k) {
                assert(section_at(a, k) == empty_section());
            }
        }
        lemma_merge_section(c, k, v, None, lossy);
        if !a.contains_key(k) {
            lemma_merged_with_empty(v);
        }
        assert(c.insert(k, merged_sections(section_at(a, k), v)) =~= merged_reports(a, mj.insert(k, v)));
        assert(sections_non_empty(merged_reports(a, mj.insert(k, v)))) by {
            assert forall|x: KeyView| #[trigger] merged_reports(a, mj.insert(k, v)).contains_key(x) implies !view_is_empty(merged_reports(a, mj.insert(k, v))[x]) by {
                if x == k {
                    lemma_merged_section_non_empty(section_at(a, k), v);
                } else {
                    assert(merged_reports(a, mj.insert(k, v))[x] == c[x]);
                }
            }
        }
    }
}

/// Merging the records that report `b` is written out as into report `a`
/// merges the two section by section, without error: in lossy mode always,
/// in strict mode when no section of both conflicts.
pub proof fn lemma_merge_report_records(a: ReportView, b: ReportView, lossy: bool)
    requires
        sections_non_empty(a),
        report_listable(b),
        lossy || !reports_conflict(a, b),
    ensures
        crate::report::merge_spec(a, oks(report_output(b)), lossy) == (merged_reports(a, b), None::<MergeError>),
        sections_non_empty(merged_reports(a, b)),
{
    let ps = ordered_sections(b);
    assert forall|x: int, y: int| 0 <= x < y < ps.len() implies #[trigger] ps[x].0 != #[trigger] ps[y].0 by {
        assert(key_lt(ps[x].0, ps[y].0));
        crate::report::lemma_key_lt_irreflexive(ps[x].0);
    }
    lemma_merge_report_prefix(a, b, ps, ps.len() as int, lossy);
    assert(ps.take(ps.len() as int) =~= ps);
}

/// Merging without conflicts does not depend on the order.
pub proof fn lemma_merged_reports_commute(a: ReportView, b: ReportView)
    requires
        !reports_conflict(a, b),
    ensures
        merged_reports(a, b) == merged_reports(b, a),
        !reports_conflict(b, a),
{
    assert forall|k: KeyView| a.contains_key(k) && b.contains_key(k) implies #[trigger] merged_sections(a[k], b[k]) == merged_sections(b[k], a[k]) && !sections_conflict(b[k], a[k]) by {
        let s = a[k];
        let t = b[k];
        assert(!sections_conflict(s, t));
        assert forall|n: Seq<char>| #[trigger] merged_functions(s.functions, t.functions).contains_key(n) implies merged_functions(s.functions, t.functions)[n] == merged_functions(t.functions, s.functions)[n] by {
            lemma_fn_merge_facts(function_at(s.functions, n), function_at(t.functions, n), function_at(t.functions, n));
            if s.functions.contains_key(n) && t.functions.contains_key(n) {
                assert(function::merge_spec(s.functions[n], t.functions[n], false) is Some);
            }
        }
        assert forall|n: branch::Key| #[trigger] merged_branches(s.branches, t.branches).contains_key(n) implies merged_branches(s.branches, t.branches)[n] == merged_branches(t.branches, s.branches)[n] by {
            lemma_branch_merge_facts(branch_at(s.branches, n), branch_at(t.branches, n), branch_at(t.branches, n));
        }
        assert forall|n: u32| #[trigger] merged_lines(s.lines, t.lines).contains_key(n) implies merged_lines(s.lines, t.lines)[n] == merged_lines(t.lines, s.lines)[n] by {
            lemma_line_merge_facts(line_at(s.lines, n), line_at(t.lines, n), line_at(t.lines, n));
            if s.lines.contains_key(n) && t.lines.contains_key(n) {
                assert(line::merge_spec(s.lines[n], t.lines[n], false) is Some);
            }
        }
        assert(merged_functions(s.functions, t.functions) =~= merged_functions(t.functions, s.functions));
        assert(merged_branches(s.branches, t.branches) =~= merged_branches(t.branches, s.branches));
        assert(merged_lines(s.lines, t.lines) =~= merged_lines(t.lines, s.lines));
        assert forall|n: Seq<char>| t.functions.contains_key(n) && s.functions.contains_key(n) implies !(#[trigger] function::merge_spec(t.functions[n], s.functions[n], false) is None) by {
            lemma_fn_merge_facts(s.functions[n], t.functions[n], t.functions[n]);
        }
        assert forall|n: u32| t.lines.contains_key(n) && s.lines.contains_key(n) implies !(#[trigger] line::merge_spec(t.lines[n], s.lines[n], false) is None) by {
            lemma_line_merge_facts(s.lines[n], t.lines[n], t.lines[n]);
        }
    }
    assert(merged_reports(a, b) =~= merged_reports(b, a));
}

/// Merging sections is associative.
proof fn lemma_merged_sections_assoc(s: SectionView, t: SectionView, u: SectionView)
    ensures
        merged_sections(merged_sections(s, t), u) == merged_sections(s, merged_sections(t, u)),
{
    assert forall|n: Seq<char>| #[trigger] merged_functions(merged_functions(s.functions, t.functions), u.functions).contains_key(n) implies merged_functions(merged_functions(s.functions, t.functions), u.functions)[n] == merged_functions(s.functions, merged_functions(t.functions, u.functions))[n] by {
        lemma_fn_merge_facts(function_at(s.functions, n), function_at(t.functions, n), function_at(u.functions, n));
        lemma_fn_merge_facts(function::empty_value(), function::empty_value(), function::empty_value());
    }
    assert forall|n: branch::Key| #[trigger] merged_branches(merged_branches(s.branches, t.branches), u.branches).contains_key(n) implies merged_branches(merged_branches(s.branches, t.branches), u.branches)[n] == merged_branches(s.branches, merged_branches(t.branches, u.branches))[n] by {
        lemma_branch_merge_facts(branch_at(s.branches, n), branch_at(t.branches, n), branch_at(u.branches, n));
        lemma_branch_merge_facts(branch::Value { taken: None }, branch::Value { taken: None }, branch::Value { taken: None });
    }
    assert forall|n: u32| #[trigger] merged_lines(merged_lines(s.lines, t.lines), u.lines).contains_key(n) implies merged_lines(merged_lines(s.lines, t.lines), u.lines)[n] == merged_lines(s.lines, merged_lines(t.lines, u.lines))[n] by {
        lemma_line_merge_facts(line_at(s.lines, n), line_at(t.lines, n), line_at(u.lines, n));
        lemma_line_merge_facts(line::empty_view(), line::empty_view(), line::empty_view());
    }
    assert(merged_functions(merged_functions(s.functions, t.functions), u.functions) =~= merged_functions(s.functions, merged_functions(t.functions, u.functions)));
    assert(merged_branches(merged_branches(s.branches, t.branches), u.branches) =~= merged_branches(s.branches, merged_branches(t.branches, u.branches)));
    assert(merged_lines(merged_lines(s.lines, t.lines), u.lines) =~= merged_lines(s.lines, merged_lines(t.lines, u.lines)));
}

/// Merging reports is associative.
pub proof fn lemma_merged_reports_assoc(a: ReportView, b: ReportView, c: ReportView)
    ensures
        merged_reports(merged_reports(a, b), c) == merged_reports(a, merged_reports(b, c)),
{
    assert forall|k: KeyView| #[trigger] merged_reports(merged_reports(a, b), c).contains_key(k) implies merged_reports(merged_reports(a, b), c)[k] == merged_reports(a, merged_reports(b, c))[k] by {
        if a.contains_key(k) && b.contains_key(k) && c.contains_key(k) {
            lemma_merged_sections_assoc(a[k], b[k], c[k]);
        }
    }
    assert(merged_reports(merged_reports(a, b), c) =~= merged_reports(a, merged_reports(b, c)));
}

/// Where neither `a` nor `b` conflicts with `c`, their merge does not
/// either; where `a` conflicts with neither `b` nor `c`, it does not with
/// their merge.
pub proof fn lemma_conflicts_of_merged(a: ReportView, b: ReportView, c: ReportView)
    ensures
        !reports_conflict(a, c) && !reports_conflict(b, c) ==> !reports_conflict(merged_reports(a, b), c),
        !reports_conflict(a, b) && !reports_conflict(a, c) ==> !reports_conflict(a, merged_reports(b, c)),
{
    if !reports_conflict(a, c) && !reports_conflict(b, c) && reports_conflict(merged_reports(a, b), c) {
        let ab = merged_reports(a, b);
        let k = choose|k: KeyView| #![trigger ab[k], c[k]] ab.contains_key(k) && c.contains_key(k) && sections_conflict(ab[k], c[k]);
        let s = ab[k];
        let u = c[k];
        if exists|n: Seq<char>| #![trigger s.functions[n], u.functions[n]] s.functions.contains_key(n) && u.functions.contains_key(n) && function::merge_spec(s.functions[n], u.functions[n], false) is None {
            let n = choose|n: Seq<char>| #![trigger s.functions[n], u.functions[n]] s.functions.contains_key(n) && u.functions.contains_key(n) && function::merge_spec(s.functions[n], u.functions[n], false) is None;
            if a.contains_key(k) && b.contains_key(k) {
                assert(sections_conflict(a[k], c[k]) || sections_conflict(b[k], c[k])) by {
                    if a[k].functions.contains_key(n) && b[k].functions.contains_key(n) {
                        if b[k].functions[n].start_line is Some {
                            assert(function::merge_spec(b[k].functions[n], u.functions[n], false) is None);
                        } else {
                            assert(function::merge_spec(a[k].functions[n], u.functions[n], false) is None);
                        }
                    } else if a[k].functions.contains_key(n) {
                        assert(function::merge_spec(a[k].functions[n], u.functions[n], false) is None);
                    } else {
                        assert(function::merge_spec(b[k].functions[n], u.functions[n], false) is None);
                    }
                }
            } else if a.contains_key(k) {
                assert(sections_conflict(a[k], c[k]));
            } else {
                assert(sections_conflict(b[k], c[k]));
            }
        } else {
            let n = choose|n: u32| #![trigger s.lines[n], u.lines[n]] s.lines.contains_key(n) && u.lines.contains_key(n) && line::merge_spec(s.lines[n], u.lines[n], false) is None;
            if a.contains_key(k) && b.contains_key(k) {
                assert(sections_conflict(a[k], c[k]) || sections_conflict(b[k], c[k])) by {
                    if a[k].lines.contains_key(n) && b[k].lines.contains_key(n) {
                        if b[k].lines[n].1 is Some {
                            assert(line::merge_spec(b[k].lines[n], u.lines[n], false) is None);
                        } else {
                            assert(line::merge_spec(a[k].lines[n], u.lines[n], false) is None);
                        }
                    } else if a[k].lines.contains_key(n) {
                        assert(line::merge_spec(a[k].lines[n], u.lines[n], false) is None);
                    } else {
                        assert(line::merge_spec(b[k].lines[n], u.lines[n], false) is None);
                    }
                }
            } else if a.contains_key(k) {
                assert(sections_conflict(a[k], c[k]));
            } else {
                assert(sections_conflict(b[k], c[k]));
            }
        }
    }
    if !reports_conflict(a, b) && !reports_conflict(a, c) && reports_conflict(a, merged_reports(b, c)) {
        let bc = merged_reports(b, c);
        let k = choose|k: KeyView| #![trigger a[k], bc[k]] a.contains_key(k) && bc.contains_key(k) && sections_conflict(a[k], bc[k]);
        let s = a[k];
        let u = bc[k];
        if exists|n: Seq<char>| #![trigger s.functions[n], u.functions[n]] s.functions.contains_key(n) && u.functions.contains_key(n) && function::merge_spec(s.functions[n], u.functions[n], false) is None {
            let n = choose|n: Seq<char>| #![trigger s.functions[n], u.functions[n]] s.functions.contains_key(n) && u.functions.contains_key(n) && function::merge_spec(s.functions[n], u.functions[n], false) is None;
            if b.contains_key(k) && c.contains_key(k) {
                assert(sections_conflict(a[k], b[k]) || sections_conflict(a[k], c[k])) by {
                    if b[k].functions.contains_key(n) && c[k].functions.contains_key(n) {
                        if c[k].functions[n].start_line is Some {
                            assert(function::merge_spec(s.functions[n], c[k].functions[n], false) is None);
                        } else {
                            assert(function::merge_spec(s.functions[n], b[k].functions[n], false) is None);
                        }
                    } else if b[k].functions.contains_key(n) {
                        assert(function::merge_spec(s.functions[n], b[k].functions[n], false) is None);
                    } else {
                        assert(function::merge_spec(s.functions[n], c[k].functions[n], false) is None);
                    }
                }
            } else if b.contains_key(k) {
                assert(sections_conflict(a[k], b[k]));
            } else {
                assert(sections_conflict(a[k], c[k]));
            }
        } else {
            let n = choose|n: u32| #![trigger s.lines[n], u.lines[n]] s.lines.contains_key(n) && u.lines.contains_key(n) && line::merge_spec(s.lines[n], u.lines[n], false) is None;
            if b.contains_key(k) && c.contains_key(k) {
                assert(sections_conflict(a[k], b[k]) || sections_conflict(a[k], c[k])) by {
                    if b[k].lines.contains_key(n) && c[k].lines.contains_key(n) {
                        if c[k].lines[n].1 is Some {
                            assert(line::merge_spec(s.lines[n], c[k].lines[n], false) is None);
                        } else {
                            assert(line::merge_spec(s.lines[n], b[k].lines[n], false) is None);
                        }
                    } else if b[k].lines.contains_key(n) {
                        assert(line::merge_spec(s.lines[n], b[k].lines[n], false) is None);
                    } else {
                        assert(line::merge_spec(s.lines[n], c[k].lines[n], false) is None);
                    }
                }
            } else if b.contains_key(k) {
                assert(sections_conflict(a[k], b[k]));
            } else {
                assert(sections_conflict(a[k], c[k]));
            }
        }
    }
}

} // verus!
