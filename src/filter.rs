//! Keeping only the coverage of chosen lines.
use crate::assoc::{has_key, keep, keys_unique, lemma_keep_take, lemma_map_of_index, lemma_map_of_push, map_of};
use crate::line_set::{covers, intersects, list_covers, normalized, LineNum};
use crate::report::{key_lt, key_view, lemma_sections_keys_unique, report_pairs, sections_wf, KeyView, Report, ReportView};
use crate::section::view_is_empty;
use crate::output::{functions_ordered, lemma_ordered_functions, named_pairs, order_functions, ordered_functions};
use crate::range::Range;
use crate::section::{self, branch, branches_sorted, function, function_pairs, line, line_pairs, lines_sorted, SectionView};
use vstd::prelude::*;

verus! {

/// Where the span of the `i`-th function in output order ends: one line
/// before the next function starts, or at the largest line for the last.
pub open spec fn span_end(fs: Seq<(Seq<char>, function::Value)>, i: int) -> u32 {
    if i + 1 < fs.len() {
        match fs[i + 1].1.start_line {
            Some(n) => if n == 0 {
                0
            } else {
                (n - 1) as u32
            },
            None => 0,
        }
    } else {
        u32::MAX
    }
}

/// The function `name` has a start line, and its span meets the lines.
pub open spec fn function_kept(m: Map<Seq<char>, function::Value>, set: Seq<(u32, u32)>, name: Seq<char>) -> bool {
    let fs = ordered_functions(m);
    exists|i: int|
        0 <= i < fs.len() && #[trigger] fs[i].0 == name && fs[i].1.start_line is Some && intersects(
            set,
            Range { start: fs[i].1.start_line->0, end: span_end(fs, i) },
        )
}

/// Line `l` is among the lines.
pub open spec fn line_kept(set: Seq<(u32, u32)>, l: u32) -> bool {
    intersects(set, Range { start: l, end: l })
}

/// What is left of a section when only the given lines are kept: the
/// functions whose span meets them, and the branches and lines on them.
pub open spec fn filter_section(s: SectionView, set: Seq<(u32, u32)>) -> SectionView {
    SectionView {
        functions: keep(s.functions, |n: Seq<char>| function_kept(s.functions, set, n)),
        branches: keep(s.branches, |k: branch::Key| line_kept(set, k.line)),
        lines: keep(s.lines, |l: u32| line_kept(set, l)),
    }
}

fn keep_functions(lines: &LineNum, functions: Vec<(function::Key, function::Value)>) -> (r: Vec<(function::Key, function::Value)>)
    requires
        normalized(lines@),
        keys_unique(function_pairs(functions@)),
    ensures
        keys_unique(function_pairs(r@)),
        map_of(function_pairs(r@)) == keep(
            map_of(function_pairs(functions@)),
            |n: Seq<char>| function_kept(map_of(function_pairs(functions@)), lines@, n),
        ),
{
    let ghost m = map_of(function_pairs(functions@));
    let ghost pred = |n: Seq<char>| function_kept(m, lines@, n);
    let fs = order_functions(functions);
    let ghost np = named_pairs(fs@);
    proof {
        lemma_ordered_functions(np);
        assert(ordered_functions(m) == np);
    }
    let n = fs.len();
    let mut kept: Vec<(function::Key, function::Value)> = Vec::new();
    let mut i: usize = 0;
    proof {
        assert(function_pairs(kept@) =~= Seq::empty());
        assert(keep(map_of(np.take(0)), pred) =~= map_of(function_pairs(kept@)));
    }
    while i < n
        invariant
            n == fs@.len(),
            np == named_pairs(fs@),
            functions_ordered(np),
            ordered_functions(m) == np,
            m == map_of(np),
            pred == (|n: Seq<char>| function_kept(m, lines@, n)),
            normalized(lines@),
            0 <= i <= n,
            keys_unique(function_pairs(kept@)),
            map_of(function_pairs(kept@)) == keep(map_of(np.take(i as int)), pred),
        decreases n - i,
    {
        proof {
            lemma_keep_take(np, i as int, pred);
        }
        let ghost x = np[i as int];
        let mut keep_it = false;
        if let Some(start) = fs[i].1.start_line {
            let end = if i + 1 < n {
                match fs[i + 1].1.start_line {
                    Some(ns) => ns.saturating_sub(1),
                    None => 0,
                }
            } else {
                u32::MAX
            };
            proof {
                assert(end == span_end(np, i as int));
            }
            keep_it = lines.contains(Range::new(start, end));
        }
        proof {
            if keep_it {
                assert(pred(x.0));
            } else if pred(x.0) {
                let j = choose|j: int|
                    0 <= j < np.len() && #[trigger] np[j].0 == x.0 && np[j].1.start_line is Some
                        && intersects(lines@, Range { start: np[j].1.start_line->0, end: span_end(np, j) });
                if j != i {
                    assert(np[j].0 != np[i as int].0);
                }
            }
        }
        if keep_it {
            let ghost prev = kept@;
            proof {
                assert(!has_key(function_pairs(prev), x.0)) by {
                    if has_key(function_pairs(prev), x.0) {
                        let j = choose|j: int| 0 <= j < function_pairs(prev).len() && #[trigger] function_pairs(prev)[j].0 == x.0;
                        lemma_map_of_index(function_pairs(prev), j);
                    }
                }
                lemma_map_of_push(function_pairs(prev), x.0, x.1);
            }
            kept.push((function::Key { name: fs[i].0.clone() }, fs[i].1));
            proof {
                assert(function_pairs(kept@) =~= function_pairs(prev).push(x));
            }
        }
        i = i + 1;
    }
    proof {
        assert(np.take(n as int) =~= np);
    }
    kept
}

fn keep_branches(lines: &LineNum, branches: Vec<(branch::Key, branch::Value)>) -> (r: Vec<(branch::Key, branch::Value)>)
    requires
        normalized(lines@),
        branches_sorted(branches@),
    ensures
        branches_sorted(r@),
        map_of(r@) == keep(map_of(branches@), |k: branch::Key| line_kept(lines@, k.line)),
{
    let ghost s = branches@;
    let ghost pred = |k: branch::Key| line_kept(lines@, k.line);
    proof {
        assert forall|a: int, b: int| 0 <= a < b < s.len() implies #[trigger] s[a].0 != #[trigger] s[b].0 by {
            assert(branch::key_lt(s[a].0, s[b].0));
        }
    }
    let mut kept: Vec<(branch::Key, branch::Value)> = Vec::new();
    proof {
        assert(keep(map_of(s.take(0)), pred) =~= map_of(kept@));
    }
    for p in iter: branches
        invariant
            iter.seq() == s,
            branches_sorted(s),
            keys_unique(s),
            normalized(lines@),
            pred == (|k: branch::Key| line_kept(lines@, k.line)),
            branches_sorted(kept@),
            keys_unique(kept@),
            forall|j: int, i: int| 0 <= j < kept@.len() && iter.index() <= i < s.len() ==> branch::key_lt(#[trigger] kept@[j].0, #[trigger] s[i].0),
            map_of(kept@) == keep(map_of(s.take(iter.index() as int)), pred),
    {
        let ghost k = iter.index() as int;
        assert(p == s[k]);
        proof {
            lemma_keep_take(s, k, pred);
        }
        let ghost prev = kept@;
        if lines.contains(Range::from_line(p.0.line)) {
            proof {
                assert(!has_key(prev, s[k].0)) by {
                    if has_key(prev, s[k].0) {
                        let j = choose|j: int| 0 <= j < prev.len() && #[trigger] prev[j].0 == s[k].0;
                        assert(branch::key_lt(prev[j].0, s[k].0));
                    }
                }
                lemma_map_of_push(prev, s[k].0, s[k].1);
            }
            kept.push(p);
            proof {
                assert forall|a: int, b: int| 0 <= a < b < kept@.len() implies branch::key_lt(#[trigger] kept@[a].0, #[trigger] kept@[b].0) by {
                    if b == prev.len() {
                        assert(branch::key_lt(prev[a].0, s[k].0));
                    }
                }
                assert forall|j: int, i: int| 0 <= j < kept@.len() && k + 1 <= i < s.len() implies branch::key_lt(#[trigger] kept@[j].0, #[trigger] s[i].0) by {
                    if j == prev.len() {
                        assert(branch::key_lt(s[k].0, s[i].0));
                    }
                }
            }
        }
    }
    proof {
        assert(s.take(s.len() as int) =~= s);
    }
    kept
}

fn keep_lines(set: &LineNum, lines: Vec<(line::Key, line::Value)>) -> (r: Vec<(line::Key, line::Value)>)
    requires
        normalized(set@),
        lines_sorted(lines@),
    ensures
        lines_sorted(r@),
        map_of(line_pairs(r@)) == keep(map_of(line_pairs(lines@)), |l: u32| line_kept(set@, l)),
{
    let ghost orig = lines@;
    let ghost s = line_pairs(orig);
    let ghost pred = |l: u32| line_kept(set@, l);
    proof {
        assert forall|a: int, b: int| 0 <= a < b < s.len() implies #[trigger] s[a].0 != #[trigger] s[b].0 by {
            assert(orig[a].0.line < orig[b].0.line);
        }
    }
    let mut kept: Vec<(line::Key, line::Value)> = Vec::new();
    proof {
        assert(line_pairs(kept@) =~= Seq::empty());
        assert(keep(map_of(s.take(0)), pred) =~= map_of(line_pairs(kept@)));
    }
    for p in iter: lines
        invariant
            iter.seq() == orig,
            s == line_pairs(orig),
            lines_sorted(orig),
            keys_unique(s),
            normalized(set@),
            pred == (|l: u32| line_kept(set@, l)),
            lines_sorted(kept@),
            forall|j: int, i: int| 0 <= j < kept@.len() && iter.index() <= i < orig.len() ==> #[trigger] kept@[j].0.line < #[trigger] orig[i].0.line,
            map_of(line_pairs(kept@)) == keep(map_of(s.take(iter.index() as int)), pred),
    {
        let ghost k = iter.index() as int;
        assert(p == orig[k]);
        proof {
            lemma_keep_take(s, k, pred);
        }
        let ghost prev = kept@;
        if set.contains(Range::from_line(p.0.line)) {
            proof {
                assert(!has_key(line_pairs(prev), s[k].0)) by {
                    if has_key(line_pairs(prev), s[k].0) {
                        let j = choose|j: int| 0 <= j < line_pairs(prev).len() && #[trigger] line_pairs(prev)[j].0 == s[k].0;
                        assert(prev[j].0.line < orig[k].0.line);
                    }
                }
                lemma_map_of_push(line_pairs(prev), s[k].0, s[k].1);
            }
            kept.push(p);
            proof {
                assert(line_pairs(kept@) =~= line_pairs(prev).push(s[k]));
                assert forall|a: int, b: int| 0 <= a < b < kept@.len() implies #[trigger] kept@[a].0.line < #[trigger] kept@[b].0.line by {
                    if b == prev.len() {
                        assert(prev[a].0.line < orig[k].0.line);
                    }
                }
                assert forall|j: int, i: int| 0 <= j < kept@.len() && k + 1 <= i < orig.len() implies #[trigger] kept@[j].0.line < #[trigger] orig[i].0.line by {
                    if j == prev.len() {
                        assert(orig[k].0.line < orig[i].0.line);
                    }
                }
            }
        }
    }
    proof {
        assert(s.take(s.len() as int) =~= s);
    }
    kept
}

impl LineNum {
    /// Keeps of a section only the functions whose span meets the set and
    /// the branches and lines on lines of the set.
    ///
    /// A function's span runs from its start line to the line before the
    /// next function starts, or to the last line for the last function; a
    /// function without a start line is dropped.
    pub fn apply(&self, section: &mut section::Value)
        requires
            normalized(self@),
            old(section).wf(),
        ensures
            final(section).wf(),
            final(section)@ == filter_section(old(section)@, self@),
    {
        let mut taken = section::Value::new();
        std::mem::swap(section, &mut taken);
        let ghost v = taken@;
        let (functions, branches, lines) = taken.into_parts();
        let functions = keep_functions(self, functions);
        let branches = keep_branches(self, branches);
        let lines = keep_lines(self, lines);
        *section = section::Value::from_parts(functions, branches, lines);
        proof {
            assert(section@ == filter_section(v, self@));
        }
    }
}

/// The report after filtering: a section stays only if its source file has
/// lines in the table and something of it is left after keeping those lines.
pub open spec fn filter_report(m: ReportView, table: Map<Seq<char>, Seq<(u32, u32)>>) -> ReportView {
    Map::new(
        |k: KeyView| m.contains_key(k) && table.contains_key(k.1) && !view_is_empty(filter_section(m[k], table[k.1])),
        |k: KeyView| filter_section(m[k], table[k.1]),
    )
}

/// The files of a filter as pairs of path and line set.
pub open spec fn file_pairs(s: Seq<(String, LineNum)>) -> Seq<(Seq<char>, Seq<(u32, u32)>)> {
    s.map_values(|p: (String, LineNum)| (p.0@, p.1@))
}

/// A filter that keeps only the coverage of chosen lines of chosen files.
#[derive(Debug, Clone, PartialEq, Eq)]
pub struct Filter {
    files: Vec<(String, LineNum)>,
}

impl View for Filter {
    type V = Map<Seq<char>, Seq<(u32, u32)>>;

    closed spec fn view(&self) -> Map<Seq<char>, Seq<(u32, u32)>> {
        map_of(file_pairs(self.files@))
    }
}

impl Filter {
    /// Each file is listed once, with its lines in normal form.
    pub closed spec fn wf(&self) -> bool {
        &&& keys_unique(file_pairs(self.files@))
        &&& forall|i: int| 0 <= i < self.files@.len() ==> normalized(#[trigger] self.files@[i].1@)
    }

    /// Creates an empty filter, which keeps nothing.
    pub fn new() -> (r: Filter)
        ensures
            r.wf(),
            r@ == Map::<Seq<char>, Seq<(u32, u32)>>::empty(),
    {
        let r = Filter { files: Vec::new() };
        proof {
            assert(file_pairs(r.files@) =~= Seq::empty());
            assert(r@ =~= Map::<Seq<char>, Seq<(u32, u32)>>::empty());
        }
        r
    }

    /// Adds the ranges to the lines kept of the file `path`.
    pub fn insert(&mut self, path: String, ranges: Vec<Range>)
        requires
            old(self).wf(),
        ensures
            final(self).wf(),
            final(self)@.dom() == old(self)@.dom().insert(path@),
            forall|p: Seq<char>| p != path@ && #[trigger] old(self)@.contains_key(p) ==> final(self)@[p] == old(self)@[p],
            forall|l: int| #[trigger] covers(final(self)@[path@], l) == ((old(self)@.contains_key(path@) && covers(old(self)@[path@], l)) || list_covers(ranges@, l)),
    {
        let ghost fp = file_pairs(self.files@);
        let n = self.files.len();
        let mut i: usize = 0;
        while i < n && !self.files[i].0.eq(&path)
            invariant
                *self == *old(self),
                self.wf(),
                n == self.files@.len(),
                fp == file_pairs(self.files@),
                0 <= i <= n,
                forall|j: int| 0 <= j < i ==> #[trigger] fp[j].0 != path@,
            decreases n - i,
        {
            i = i + 1;
        }
        let mut set = if i < n {
            proof {
                lemma_map_of_index(fp, i as int);
            }
            self.files[i].1.clone_set()
        } else {
            LineNum::new()
        };
        let ghost start = set@;
        proof {
            if i == n {
                assert(!has_key(fp, path@));
            }
        }
        set.extend(ranges);
        let ghost sv = set@;
        if i < n {
            let entry = &mut self.files[i];
            entry.1 = set;
            proof {
                assert(file_pairs(self.files@) =~= fp.update(i as int, (fp[i as int].0, sv)));
                crate::assoc::lemma_map_of_update(fp, i as int, sv);
                lemma_map_of_index(fp, i as int);
                assert(self@.dom() =~= old(self)@.dom().insert(path@));
                assert forall|j: int| 0 <= j < self.files@.len() implies normalized(#[trigger] self.files@[j].1@) by {
                    if j != i {
                        assert(self.files@[j] == old(self).files@[j]);
                    }
                }
            }
        } else {
            let ghost pv = path@;
            self.files.push((path, set));
            proof {
                assert(file_pairs(self.files@) =~= fp.push((pv, sv)));
                lemma_map_of_push(fp, pv, sv);
                assert(self@.dom() =~= old(self)@.dom().insert(path@));
                assert forall|j: int| 0 <= j < self.files@.len() implies normalized(#[trigger] self.files@[j].1@) by {
                    if j < n {
                        assert(self.files@[j] == old(self).files@[j]);
                    }
                }
            }
        }
    }
}

impl LineNum {
    /// A copy of the set.
    pub fn clone_set(&self) -> (r: LineNum)
        ensures
            r@ == self@,
    {
        LineNum::from_ranges(self.ranges())
    }
}

proof fn lemma_filter_report_insert(m: ReportView, k: KeyView, v: SectionView, table: Map<Seq<char>, Seq<(u32, u32)>>)
    requires
        !m.contains_key(k),
    ensures
        filter_report(m.insert(k, v), table) == if table.contains_key(k.1) && !view_is_empty(filter_section(v, table[k.1])) {
            filter_report(m, table).insert(k, filter_section(v, table[k.1]))
        } else {
            filter_report(m, table)
        },
{
    if table.contains_key(k.1) && !view_is_empty(filter_section(v, table[k.1])) {
        assert(filter_report(m.insert(k, v), table) =~= filter_report(m, table).insert(k, filter_section(v, table[k.1])));
    } else {
        assert(filter_report(m.insert(k, v), table) =~= filter_report(m, table));
    }
}

impl Filter {
    /// Finds the file `path` in the table.
    fn find_file(&self, path: &String) -> (r: Option<usize>)
        requires
            self.wf(),
        ensures
            match r {
                Some(i) => i < self.files@.len() && self.files@[i as int].0@ == path@,
                None => !self@.contains_key(path@),
            },
    {
        let ghost fp = file_pairs(self.files@);
        let n = self.files.len();
        let mut i: usize = 0;
        while i < n
            invariant
                n == self.files@.len(),
                fp == file_pairs(self.files@),
                0 <= i <= n,
                forall|j: int| 0 <= j < i ==> #[trigger] fp[j].0 != path@,
            decreases n - i,
        {
            if self.files[i].0.eq(path) {
                return Some(i);
            }
            i = i + 1;
        }
        proof {
            assert(!has_key(fp, path@));
        }
        None
    }

    /// Applies the filter to `report`: a section whose source file is not
    /// in the filter is dropped; of the others, only the functions, branches
    /// and lines on the file's lines are kept, and a section left empty is
    /// dropped.
    pub fn apply(&self, report: &mut Report)
        requires
            self.wf(),
            old(report).wf(),
        ensures
            final(report).wf(),
            final(report)@ == filter_report(old(report)@, self@),
    {
        let mut taken = Report::new();
        std::mem::swap(report, &mut taken);
        let sections = taken.into_sections();
        let ghost s = sections@;
        let ghost p = report_pairs(s);
        let ghost fp = file_pairs(self.files@);
        proof {
            lemma_sections_keys_unique(s);
        }
        let mut kept: Vec<(section::Key, section::Value)> = Vec::new();
        proof {
            assert(report_pairs(kept@) =~= Seq::empty());
            assert(filter_report(map_of(p.take(0)), self@) =~= map_of(report_pairs(kept@)));
        }
        for entry in iter: sections
            invariant
                iter.seq() == s,
                p == report_pairs(s),
                fp == file_pairs(self.files@),
                self.wf(),
                sections_wf(s),
                keys_unique(p),
                sections_wf(kept@),
                forall|j: int, i: int| 0 <= j < kept@.len() && iter.index() <= i < s.len() ==> key_lt(key_view(#[trigger] kept@[j].0), key_view(#[trigger] s[i].0)),
                map_of(report_pairs(kept@)) == filter_report(map_of(p.take(iter.index() as int)), self@),
        {
            let ghost k = iter.index() as int;
            assert(entry == s[k]);
            let ghost kv = p[k].0;
            let ghost vv = p[k].1;
            proof {
                let t = p.take(k);
                assert forall|a: int, b: int| 0 <= a < b < t.len() implies #[trigger] t[a].0 != #[trigger] t[b].0 by {
                    assert(p[a].0 != p[b].0);
                }
                if has_key(t, kv) {
                    let j = choose|j: int| 0 <= j < t.len() && #[trigger] t[j].0 == kv;
                    assert(p[j].0 == p[k].0);
                }
                assert(p.take(k + 1) =~= t.push(p[k]));
                lemma_map_of_push(t, kv, vv);
                lemma_filter_report_insert(map_of(t), kv, vv, self@);
            }
            let (key, mut value) = entry;
            match self.find_file(&key.source_file) {
                Some(idx) => {
                    proof {
                        lemma_map_of_index(fp, idx as int);
                    }
                    self.files[idx].1.apply(&mut value);
                    if !value.is_empty() {
                        let ghost prev = kept@;
                        proof {
                            assert(!has_key(report_pairs(prev), kv)) by {
                                if has_key(report_pairs(prev), kv) {
                                    let j = choose|j: int| 0 <= j < report_pairs(prev).len() && #[trigger] report_pairs(prev)[j].0 == kv;
                                    assert(key_lt(key_view(prev[j].0), key_view(s[k].0)));
                                    crate::report::lemma_key_lt_irreflexive(kv);
                                }
                            }
                            lemma_sections_keys_unique(prev);
                            lemma_map_of_push(report_pairs(prev), kv, value@);
                        }
                        kept.push((key, value));
                        proof {
                            assert(report_pairs(kept@) =~= report_pairs(prev).push((kv, filter_section(vv, self@[kv.1]))));
                            assert forall|a: int, b: int| 0 <= a < b < kept@.len() implies key_lt(key_view(#[trigger] kept@[a].0), key_view(#[trigger] kept@[b].0)) by {
                                if b == prev.len() {
                                    assert(key_lt(key_view(prev[a].0), key_view(s[k].0)));
                                }
                            }
                            assert forall|i: int| 0 <= i < kept@.len() implies (#[trigger] kept@[i].1).wf() && !view_is_empty(kept@[i].1@) by {
                                if i < prev.len() {
                                    assert(kept@[i] == prev[i]);
                                }
                            }
                            assert forall|j: int, i: int| 0 <= j < kept@.len() && k + 1 <= i < s.len() implies key_lt(key_view(#[trigger] kept@[j].0), key_view(#[trigger] s[i].0)) by {
                                if j == prev.len() {
                                    assert(key_lt(key_view(s[k].0), key_view(s[i].0)));
                                }
                            }
                        }
                    }
                },
                None => {},
            }
            proof {
                assert forall|j: int, i: int| 0 <= j < kept@.len() && k + 1 <= i < s.len() implies key_lt(key_view(#[trigger] kept@[j].0), key_view(#[trigger] s[i].0)) by {
                }
            }
        }
        proof {
            assert(p.take(s.len() as int) =~= p);
        }
        *report = Report::from_sections(kept);
    }
}

} // verus!
