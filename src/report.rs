//! A coverage report: sections keyed by test name and source file, built by
//! merging streams of records.
use crate::assoc::{has_key, keys_unique, lemma_map_of_index, lemma_map_of_insert, lemma_map_of_update, map_of};
use crate::error::{MergeError, ReadError};
use crate::record::{kind_of_view, views_of, Record, RecordView};
use crate::output::{ordered_sections, report_output, sections_ordered, sections_output, write_section};
use crate::assoc::{lemma_same_map_same_elements, lemma_sorted_same_elements};
use crate::section::{self, branch, function, line, view_is_empty, with_branch, with_function, with_line, SectionView};
use crate::text::{chars_of, compare_chars, lemma_seq_lt_asymmetric, lemma_seq_lt_irreflexive, lemma_seq_lt_total, lemma_seq_lt_transitive, seq_lt};
use vstd::prelude::*;

verus! {

/// A section key as plain data: test name and source file.
pub type KeyView = (Seq<char>, Seq<char>);

/// A report as plain data.
pub type ReportView = Map<KeyView, SectionView>;

/// Section order: by test name, then by source file.
pub open spec fn key_lt(a: KeyView, b: KeyView) -> bool {
    seq_lt(a.0, b.0) || (a.0 == b.0 && seq_lt(a.1, b.1))
}

/// The view of a section key.
pub open spec fn key_view(k: section::Key) -> KeyView {
    (k.test_name@, k.source_file@)
}

/// The sections as pairs of key and section.
pub open spec fn report_pairs(s: Seq<(section::Key, section::Value)>) -> Seq<(KeyView, SectionView)> {
    s.map_values(|p: (section::Key, section::Value)| (key_view(p.0), p.1@))
}

/// Sections are sorted by key, each stored consistently and none empty.
pub open spec fn sections_wf(s: Seq<(section::Key, section::Value)>) -> bool {
    &&& forall|i: int, j: int| 0 <= i < j < s.len() ==> key_lt(key_view(#[trigger] s[i].0), key_view(#[trigger] s[j].0))
    &&& forall|i: int| 0 <= i < s.len() ==> (#[trigger] s[i].1).wf() && !view_is_empty(s[i].1@)
}

/// What the report holds for `k`, or an empty section.
pub open spec fn section_at(m: ReportView, k: KeyView) -> SectionView {
    if m.contains_key(k) {
        m[k]
    } else {
        SectionView { functions: Map::empty(), branches: Map::empty(), lines: Map::empty() }
    }
}

/// The report after merging one record that carries coverage data into the
/// section `k`; `None` when the strict rules find a conflict. Other records
/// leave the report as it is.
pub open spec fn apply_data(m: ReportView, k: KeyView, rec: RecordView, lossy: bool) -> Option<ReportView> {
    let s = section_at(m, k);
    match rec {
        RecordView::FunctionName { name, start_line } => match with_function(
            s,
            name,
            function::Value { start_line: Some(start_line), count: 0 },
            lossy,
        ) {
            Some(t) => Some(m.insert(k, t)),
            None => None,
        },
        RecordView::FunctionData { name, count } => match with_function(
            s,
            name,
            function::Value { start_line: None, count },
            lossy,
        ) {
            Some(t) => Some(m.insert(k, t)),
            None => None,
        },
        RecordView::BranchData { line, block, branch, taken } => Some(
            m.insert(k, with_branch(s, branch::Key { line, block, branch }, branch::Value { taken })),
        ),
        RecordView::LineData { line, count, checksum } => match with_line(s, line, (count, checksum), lossy) {
            Some(t) => Some(m.insert(k, t)),
            None => None,
        },
        _ => Some(m),
    }
}

/// The error that a conflict in a record of this kind raises.
pub open spec fn conflict_error(rec: RecordView) -> MergeError {
    match rec {
        RecordView::LineData { .. } => MergeError::UnmatchedChecksum,
        _ => MergeError::UnmatchedFunctionLine,
    }
}

/// The view of one item of a record stream.
pub open spec fn item_view(r: Result<Record, ReadError>) -> Result<RecordView, ReadError> {
    match r {
        Ok(rec) => Ok(rec@),
        Err(e) => Err(e),
    }
}

/// The views of the items of a record stream.
pub open spec fn item_views(s: Seq<Result<Record, ReadError>>) -> Seq<Result<RecordView, ReadError>> {
    s.map_values(|r: Result<Record, ReadError>| item_view(r))
}

/// Where the grouping of records stands: between sections, with the last
/// test name seen; or inside the section with the given key.
pub enum Phase {
    Between(Option<Seq<char>>),
    Inside(KeyView),
}

/// One step of grouping records into sections.
pub open spec fn step(m: ReportView, ph: Phase, item: Result<RecordView, ReadError>, lossy: bool) -> Result<(ReportView, Phase), MergeError> {
    match item {
        Err(e) => Err(MergeError::Read(e)),
        Ok(rec) => match ph {
            Phase::Between(tn) => match rec {
                RecordView::TestName { name } => Ok((m, Phase::Between(Some(name)))),
                RecordView::SourceFile { path } => Ok(
                    (
                        m,
                        Phase::Inside(
                            (
                                match tn {
                                    Some(t) => t,
                                    None => Seq::empty(),
                                },
                                path,
                            ),
                        ),
                    ),
                ),
                _ => Err(MergeError::UnexpectedRecord(kind_of_view(rec))),
            },
            Phase::Inside(k) => match rec {
                RecordView::TestName { .. } => Err(MergeError::UnexpectedRecord(kind_of_view(rec))),
                RecordView::SourceFile { .. } => Err(MergeError::UnexpectedRecord(kind_of_view(rec))),
                RecordView::EndOfRecord => Ok((m, Phase::Between(None))),
                _ => match apply_data(m, k, rec, lossy) {
                    Some(m2) => Ok((m2, ph)),
                    None => Err(conflict_error(rec)),
                },
            },
        },
    }
}

/// Runs the grouping over a sequence of items: the report and phase at the
/// end, or the report as it stood at the first error and that error.
pub open spec fn run(m: ReportView, ph: Phase, items: Seq<Result<RecordView, ReadError>>, lossy: bool) -> Result<(ReportView, Phase), (ReportView, MergeError)>
    decreases items.len(),
{
    if items.len() == 0 {
        Ok((m, ph))
    } else {
        match step(m, ph, items[0], lossy) {
            Ok((m2, ph2)) => run(m2, ph2, items.drop_first(), lossy),
            Err(e) => Err((m, e)),
        }
    }
}

/// The outcome of merging a stream of records into a report: the resulting
/// report, and the error if there was one. A stream that ends inside a
/// section fails with `UnexpectedEof`; one that ends after test names alone
/// succeeds.
pub open spec fn merge_spec(m: ReportView, items: Seq<Result<RecordView, ReadError>>, lossy: bool) -> (ReportView, Option<MergeError>) {
    match run(m, Phase::Between(None), items, lossy) {
        Ok((m2, Phase::Between(_))) => (m2, None),
        Ok((m2, Phase::Inside(_))) => (m2, Some(MergeError::UnexpectedEof)),
        Err((m2, e)) => (m2, Some(e)),
    }
}

/// An accumulated coverage information from some LCOV tracefiles.
#[derive(Debug, Clone, PartialEq, Eq)]
pub struct Report {
    sections: Vec<(section::Key, section::Value)>,
}

impl View for Report {
    type V = ReportView;

    closed spec fn view(&self) -> ReportView {
        map_of(report_pairs(self.sections@))
    }
}

pub proof fn lemma_key_lt_irreflexive(a: KeyView)
    ensures
        !key_lt(a, a),
{
    lemma_seq_lt_irreflexive(a.0);
    lemma_seq_lt_irreflexive(a.1);
}

proof fn lemma_key_lt_transitive(a: KeyView, b: KeyView, c: KeyView)
    requires
        key_lt(a, b),
        key_lt(b, c),
    ensures
        key_lt(a, c),
{
    if seq_lt(a.0, b.0) && seq_lt(b.0, c.0) {
        lemma_seq_lt_transitive(a.0, b.0, c.0);
    } else if seq_lt(a.1, b.1) && seq_lt(b.1, c.1) {
        lemma_seq_lt_transitive(a.1, b.1, c.1);
    }
}

proof fn lemma_key_lt_total(a: KeyView, b: KeyView)
    requires
        a != b,
    ensures
        key_lt(a, b) || key_lt(b, a),
{
    if a.0 != b.0 {
        lemma_seq_lt_total(a.0, b.0);
    } else {
        assert(a.1 != b.1);
        lemma_seq_lt_total(a.1, b.1);
    }
}

proof fn lemma_sections_unique(s: Seq<(section::Key, section::Value)>)
    requires
        sections_wf(s),
    ensures
        keys_unique(report_pairs(s)),
{
    let t = report_pairs(s);
    assert forall|i: int, j: int| 0 <= i < j < t.len() implies #[trigger] t[i].0 != #[trigger] t[j].0 by {
        assert(key_lt(key_view(s[i].0), key_view(s[j].0)));
        lemma_key_lt_irreflexive(key_view(s[i].0));
    }
}

/// Compares two section keys: negative, zero or positive as `a` comes
/// before, equals or comes after `b`.
fn compare_section_keys(a: &section::Key, b: &section::Key) -> (r: i8)
    ensures
        r == 0 <==> key_view(*a) == key_view(*b),
        r < 0 <==> key_lt(key_view(*a), key_view(*b)),
        r > 0 <==> key_lt(key_view(*b), key_view(*a)),
{
    let at = chars_of(a.test_name.as_str());
    let bt = chars_of(b.test_name.as_str());
    let c = compare_chars(&at, &bt);
    if c != 0 {
        proof {
            if c < 0 {
                lemma_seq_lt_asymmetric(at@, bt@);
            } else {
                lemma_seq_lt_asymmetric(bt@, at@);
            }
        }
        return c;
    }
    let asf = chars_of(a.source_file.as_str());
    let bsf = chars_of(b.source_file.as_str());
    let d = compare_chars(&asf, &bsf);
    proof {
        lemma_seq_lt_irreflexive(at@);
    }
    d
}

impl Report {
    /// Sections are sorted by key, stored consistently and never empty.
    pub closed spec fn wf(&self) -> bool {
        sections_wf(self.sections@)
    }

    /// Creates an empty report.
    pub fn new() -> (r: Report)
        ensures
            r.wf(),
            r@ == Map::<KeyView, SectionView>::empty(),
    {
        let r = Report { sections: Vec::new() };
        proof {
            assert(report_pairs(r.sections@) =~= Seq::empty());
            assert(r@ =~= Map::<KeyView, SectionView>::empty());
        }
        r
    }

    /// Finds where the section `key` stands or belongs.
    fn find(&self, key: &section::Key) -> (r: (bool, usize))
        requires
            self.wf(),
        ensures
            r.1 <= self.sections@.len(),
            r.0 ==> r.1 < self.sections@.len() && key_view(self.sections@[r.1 as int].0) == key_view(*key),
            forall|i: int| 0 <= i < r.1 ==> key_lt(key_view(#[trigger] self.sections@[i].0), key_view(*key)),
            forall|i: int| r.1 <= i < self.sections@.len() ==> !key_lt(key_view(#[trigger] self.sections@[i].0), key_view(*key)),
            !r.0 ==> forall|i: int| r.1 <= i < self.sections@.len() ==> key_lt(key_view(*key), key_view(#[trigger] self.sections@[i].0)),
    {
        let ghost s = self.sections@;
        let ghost kv = key_view(*key);
        let n = self.sections.len();
        let mut lo: usize = 0;
        let mut hi: usize = n;
        while lo < hi
            invariant
                s == self.sections@,
                kv == key_view(*key),
                sections_wf(s),
                n == s.len(),
                0 <= lo <= hi <= n,
                forall|i: int| 0 <= i < lo ==> key_lt(key_view(#[trigger] s[i].0), kv),
                forall|i: int| hi <= i < n ==> !key_lt(key_view(#[trigger] s[i].0), kv),
            decreases hi - lo,
        {
            let mid = lo + (hi - lo) / 2;
            let c = compare_section_keys(&self.sections[mid].0, key);
            if c < 0 {
                proof {
                    assert(key_lt(key_view(s[mid as int].0), kv));
                    assert forall|i: int| 0 <= i <= mid implies key_lt(key_view(#[trigger] s[i].0), kv) by {
                        if i < mid {
                            lemma_key_lt_transitive(key_view(s[i].0), key_view(s[mid as int].0), kv);
                        }
                    }
                }
                lo = mid + 1;
            } else {
                proof {
                    assert forall|i: int| mid <= i < n implies !key_lt(key_view(#[trigger] s[i].0), kv) by {
                        if i > mid {
                            if key_lt(key_view(s[i].0), kv) {
                                lemma_key_lt_transitive(key_view(s[mid as int].0), key_view(s[i].0), kv);
                            }
                        }
                    }
                }
                hi = mid;
            }
        }
        if lo < n && compare_section_keys(&self.sections[lo].0, key) == 0 {
            (true, lo)
        } else {
            proof {
                assert forall|i: int| lo <= i < n implies key_lt(kv, key_view(#[trigger] s[i].0)) by {
                    if i == lo {
                        lemma_key_lt_total(key_view(s[i].0), kv);
                    } else {
                        lemma_key_lt_total(key_view(s[lo as int].0), kv);
                        lemma_key_lt_transitive(kv, key_view(s[lo as int].0), key_view(s[i].0));
                    }
                }
            }
            (false, lo)
        }
    }
}


/// Copies a section key.
fn copy_key(k: &section::Key) -> (r: section::Key)
    ensures
        key_view(r) == key_view(*k),
{
    section::Key { test_name: k.test_name.clone(), source_file: k.source_file.clone() }
}

/// The section stays non-empty or gains an entry, so it is not empty.
proof fn lemma_merged_not_empty(m: ReportView, k: KeyView, rec: RecordView, lossy: bool)
    requires
        apply_data(m, k, rec, lossy) is Some,
        match rec {
            RecordView::FunctionName { .. } => true,
            RecordView::FunctionData { .. } => true,
            RecordView::BranchData { .. } => true,
            RecordView::LineData { .. } => true,
            _ => false,
        },
    ensures
        apply_data(m, k, rec, lossy)->0.contains_key(k),
        !view_is_empty(apply_data(m, k, rec, lossy)->0[k]),
{
    let t = apply_data(m, k, rec, lossy)->0[k];
    match rec {
        RecordView::FunctionName { name, .. } => {
            assert(t.functions.contains_key(name));
        },
        RecordView::FunctionData { name, .. } => {
            assert(t.functions.contains_key(name));
        },
        RecordView::BranchData { line, block, branch, .. } => {
            assert(t.branches.contains_key(branch::Key { line, block, branch }));
        },
        RecordView::LineData { line, .. } => {
            assert(t.lines.contains_key(line));
        },
        _ => {},
    }
}

/// Merges one record into a section.
fn merge_into_section(sec: &mut section::Value, rec: Record, lossy: bool) -> (r: Result<(), MergeError>)
    requires
        old(sec).wf(),
    ensures
        final(sec).wf(),
        match rec {
            Record::FunctionName { name, start_line } => match with_function(
                old(sec)@,
                name@,
                function::Value { start_line: Some(start_line), count: 0 },
                lossy,
            ) {
                Some(t) => r is Ok && final(sec)@ == t,
                None => r == Err::<(), MergeError>(MergeError::UnmatchedFunctionLine) && final(sec)@ == old(sec)@,
            },
            Record::FunctionData { name, count } => match with_function(
                old(sec)@,
                name@,
                function::Value { start_line: None, count },
                lossy,
            ) {
                Some(t) => r is Ok && final(sec)@ == t,
                None => r == Err::<(), MergeError>(MergeError::UnmatchedFunctionLine) && final(sec)@ == old(sec)@,
            },
            Record::BranchData { line, block, branch, taken } => r is Ok && final(sec)@ == with_branch(
                old(sec)@,
                branch::Key { line, block, branch },
                branch::Value { taken },
            ),
            Record::LineData { line, count, checksum } => match with_line(
                old(sec)@,
                line,
                (
                    count,
                    match checksum {
                        Some(c) => Some(c@),
                        None => None,
                    },
                ),
                lossy,
            ) {
                Some(t) => r is Ok && final(sec)@ == t,
                None => r == Err::<(), MergeError>(MergeError::UnmatchedChecksum) && final(sec)@ == old(sec)@,
            },
            _ => r is Ok && final(sec)@ == old(sec)@,
        },
{
    match rec {
        Record::FunctionName { name, start_line } => sec.merge_function(
            function::Key { name },
            function::Value { start_line: Some(start_line), count: 0 },
            lossy,
        ),
        Record::FunctionData { name, count } => sec.merge_function(
            function::Key { name },
            function::Value { start_line: None, count },
            lossy,
        ),
        Record::BranchData { line, block, branch, taken } => {
            sec.merge_branch(branch::Key { line, block, branch }, branch::Value { taken });
            Ok(())
        },
        Record::LineData { line, count, checksum } => sec.merge_line(
            line::Key { line },
            line::Value { count, checksum },
            lossy,
        ),
        _ => Ok(()),
    }
}

impl Report {
    /// Merges one record into the section `key`, creating the section if
    /// the report has none. A section is only kept once it holds coverage.
    fn merge_data(&mut self, key: &section::Key, rec: Record, lossy: bool) -> (r: Result<(), MergeError>)
        requires
            old(self).wf(),
        ensures
            final(self).wf(),
            match apply_data(old(self)@, key_view(*key), rec@, lossy) {
                Some(m) => r is Ok && final(self)@ == m,
                None => r == Err::<(), MergeError>(conflict_error(rec@)) && final(self)@ == old(self)@,
            },
    {
        let ghost kv = key_view(*key);
        let ghost s = self.sections@;
        let ghost sp = report_pairs(s);
        let ghost recv = rec@;
        proof {
            lemma_sections_unique(s);
        }
        let is_data = match &rec {
            Record::FunctionName { .. } => true,
            Record::FunctionData { .. } => true,
            Record::BranchData { .. } => true,
            Record::LineData { .. } => true,
            _ => false,
        };
        if !is_data {
            return Ok(());
        }
        let (found, pos) = self.find(key);
        if found {
            proof {
                lemma_map_of_index(sp, pos as int);
            }
            let entry = &mut self.sections[pos];
            let res = merge_into_section(&mut entry.1, rec, lossy);
            proof {
                let t = self.sections@[pos as int].1@;
                assert(self.sections@ =~= s.update(pos as int, (s[pos as int].0, self.sections@[pos as int].1)));
                assert(report_pairs(self.sections@) =~= sp.update(pos as int, (kv, t)));
                lemma_map_of_update(sp, pos as int, t);
                if res is Ok {
                    lemma_merged_not_empty(old(self)@, kv, recv, lossy);
                }
                assert forall|i: int, j: int| 0 <= i < j < self.sections@.len() implies key_lt(key_view(#[trigger] self.sections@[i].0), key_view(#[trigger] self.sections@[j].0)) by {
                    assert(key_lt(key_view(s[i].0), key_view(s[j].0)));
                }
                if res is Err {
                    assert(map_of(sp).insert(kv, t) =~= map_of(sp));
                }
            }
            res
        } else {
            proof {
                assert forall|i: int| 0 <= i < sp.len() implies #[trigger] sp[i].0 != kv by {
                    lemma_key_lt_irreflexive(kv);
                    if i >= pos {
                        assert(key_lt(kv, key_view(s[i].0)));
                    } else {
                        assert(key_lt(key_view(s[i].0), kv));
                    }
                }
                assert(!has_key(sp, kv));
                assert(!old(self)@.contains_key(kv));
                assert(section_at(old(self)@, kv).functions =~= section::Value::new_view().functions);
            }
            let mut sec = section::Value::new();
            proof {
                assert(sec@ == section_at(old(self)@, kv));
            }
            let res = merge_into_section(&mut sec, rec, lossy);
            match res {
                Ok(()) => {},
                Err(e) => {
                    return Err(e);
                },
            }
            proof {
                lemma_merged_not_empty(old(self)@, kv, recv, lossy);
                lemma_map_of_insert(sp, pos as int, kv, sec@);
            }
            let k = copy_key(key);
            let ghost secv = sec@;
            self.sections.insert(pos, (k, sec));
            proof {
                let t = self.sections@;
                assert(report_pairs(t) =~= sp.insert(pos as int, (kv, secv)));
                assert forall|i: int, j: int| 0 <= i < j < t.len() implies key_lt(key_view(#[trigger] t[i].0), key_view(#[trigger] t[j].0)) by {
                    if j < pos {
                        assert(key_lt(key_view(s[i].0), key_view(s[j].0)));
                    } else if j == pos {
                    } else if i < pos {
                        lemma_key_lt_transitive(key_view(s[i].0), kv, key_view(s[j - 1].0));
                    } else if i == pos {
                    } else {
                        assert(key_lt(key_view(s[i - 1].0), key_view(s[j - 1].0)));
                    }
                }
                assert forall|i: int| 0 <= i < t.len() implies (#[trigger] t[i].1).wf() && !view_is_empty(t[i].1@) by {
                    if i < pos {
                        assert(t[i] == s[i]);
                    } else if i > pos {
                        assert(t[i] == s[i - 1]);
                    }
                }
            }
            Ok(())
        }
    }
}

/// Where the grouping stands, as the merge loop holds it.
enum Grouping {
    Between(Option<String>),
    Inside(section::Key),
}

/// The phase that a grouping state stands for.
spec fn grouping_view(g: Grouping) -> Phase {
    match g {
        Grouping::Between(tn) => Phase::Between(
            match tn {
                Some(t) => Some(t@),
                None => None,
            },
        ),
        Grouping::Inside(k) => Phase::Inside(key_view(k)),
    }
}

/// The error that a merge result carries, if any.
pub open spec fn error_of(r: Result<(), MergeError>) -> Option<MergeError> {
    match r {
        Ok(_) => None,
        Err(e) => Some(e),
    }
}

impl Report {
    /// Groups the records into sections and merges them into the report.
    fn merge_items(&mut self, items: Vec<Result<Record, ReadError>>, lossy: bool) -> (r: Result<(), MergeError>)
        requires
            old(self).wf(),
        ensures
            final(self).wf(),
            merge_spec(old(self)@, item_views(items@), lossy) == (final(self)@, error_of(r)),
    {
        let ghost all = items@;
        let ghost allv = item_views(all);
        let mut g = Grouping::Between(None);
        proof {
            assert(allv.skip(0) =~= allv);
        }
        for item in iter: items
            invariant
                self.wf(),
                iter.seq() == all,
                allv == item_views(all),
                run(old(self)@, Phase::Between(None), allv, lossy) == run(
                    self@,
                    grouping_view(g),
                    allv.skip(iter.index() as int),
                    lossy,
                ),
        {
            let ghost m0 = self@;
            let ghost ph0 = grouping_view(g);
            let ghost k = iter.index() as int;
            proof {
                assert(allv.skip(k).drop_first() =~= allv.skip(k + 1));
                assert(allv.skip(k)[0] == item_view(item));
            }
            match item {
                Err(e) => {
                    return Err(MergeError::Read(e));
                },
                Ok(rec) => {
                    let ghost recv = rec@;
                    match g {
                        Grouping::Between(tn) => {
                            match rec {
                                Record::TestName { name } => {
                                    g = Grouping::Between(Some(name));
                                },
                                Record::SourceFile { path } => {
                                    let test_name = match tn {
                                        Some(t) => t,
                                        None => String::new(),
                                    };
                                    g = Grouping::Inside(section::Key { test_name, source_file: path });
                                },
                                other => {
                                    return Err(MergeError::UnexpectedRecord(other.kind()));
                                },
                            }
                        },
                        Grouping::Inside(key) => {
                            match rec {
                                Record::TestName { .. } => {
                                    return Err(MergeError::UnexpectedRecord(rec.kind()));
                                },
                                Record::SourceFile { .. } => {
                                    return Err(MergeError::UnexpectedRecord(rec.kind()));
                                },
                                Record::EndOfRecord => {
                                    g = Grouping::Between(None);
                                },
                                other => {
                                    let res = self.merge_data(&key, other, lossy);
                                    match res {
                                        Ok(()) => {},
                                        Err(e) => {
                                            return Err(e);
                                        },
                                    }
                                    g = Grouping::Inside(key);
                                },
                            }
                        },
                    }
                    assert(step(m0, ph0, Ok(recv), lossy) == Ok::<(ReportView, Phase), MergeError>((self@, grouping_view(g))));
                },
            }
        }
        proof {
            assert(allv.skip(allv.len() as int) =~= Seq::<Result<RecordView, ReadError>>::empty());
        }
        match g {
            Grouping::Between(_) => Ok(()),
            Grouping::Inside(_) => Err(MergeError::UnexpectedEof),
        }
    }

    /// Merges a stream of records into the report, in strict mode.
    ///
    /// Records are grouped into sections: test names, of which the last
    /// counts, then a source file, then coverage records up to
    /// `end_of_record`. Each coverage record merges into the section of its
    /// test name and source file; summary records are skipped, since they
    /// are computed anew on output. An `FNDA` record for a function that no
    /// `FN` record has named creates that function without a start line. On
    /// an error the records before it stay merged.
    pub fn merge(&mut self, records: Vec<Result<Record, ReadError>>) -> (r: Result<(), MergeError>)
        requires
            old(self).wf(),
        ensures
            final(self).wf(),
            merge_spec(old(self)@, item_views(records@), false) == (final(self)@, error_of(r)),
    {
        self.merge_items(records, false)
    }

    /// Merges a stream of records into the report; conflicting start lines
    /// and checksums are resolved in favour of the incoming record instead
    /// of failing.
    pub fn merge_lossy(&mut self, records: Vec<Result<Record, ReadError>>) -> (r: Result<(), MergeError>)
        requires
            old(self).wf(),
        ensures
            final(self).wf(),
            merge_spec(old(self)@, item_views(records@), true) == (final(self)@, error_of(r)),
    {
        self.merge_items(records, true)
    }

    /// Creates a report from a stream of records, in strict mode.
    pub fn from_reader(records: Vec<Result<Record, ReadError>>) -> (r: Result<Report, MergeError>)
        ensures
            match r {
                Ok(rep) => rep.wf() && merge_spec(Map::empty(), item_views(records@), false) == (rep@, None::<MergeError>),
                Err(e) => merge_spec(Map::empty(), item_views(records@), false).1 == Some(e),
            },
    {
        let mut rep = Report::new();
        match rep.merge(records) {
            Ok(()) => Ok(rep),
            Err(e) => Err(e),
        }
    }
}

proof fn lemma_key_lt_asymmetric(a: KeyView, b: KeyView)
    requires
        key_lt(a, b),
    ensures
        !key_lt(b, a),
{
    if seq_lt(a.0, b.0) {
        lemma_seq_lt_asymmetric(a.0, b.0);
    } else {
        lemma_seq_lt_irreflexive(a.0);
        lemma_seq_lt_asymmetric(a.1, b.1);
    }
}

proof fn lemma_ordered_sections(s: Seq<(section::Key, section::Value)>)
    requires
        sections_wf(s),
    ensures
        ordered_sections(map_of(report_pairs(s))) == report_pairs(s),
{
    let p = report_pairs(s);
    let t = ordered_sections(map_of(p));
    assert forall|i: int, j: int| 0 <= i < j < p.len() implies key_lt(#[trigger] p[i].0, #[trigger] p[j].0) by {
        assert(key_lt(key_view(s[i].0), key_view(s[j].0)));
    }
    assert(sections_ordered(p));
    assert(sections_ordered(t) && map_of(t) == map_of(p));
    lemma_sections_unique(s);
    assert forall|i: int, j: int| 0 <= i < j < t.len() implies #[trigger] t[i].0 != #[trigger] t[j].0 by {
        assert(key_lt(t[i].0, t[j].0));
        lemma_key_lt_irreflexive(t[i].0);
    }
    lemma_same_map_same_elements(p, t);
    let lt = |a: (KeyView, SectionView), b: (KeyView, SectionView)| key_lt(a.0, b.0);
    assert forall|x: (KeyView, SectionView)| !#[trigger] lt(x, x) by {
        lemma_key_lt_irreflexive(x.0);
    }
    assert forall|x: (KeyView, SectionView), y: (KeyView, SectionView)| #[trigger] lt(x, y) implies !lt(y, x) by {
        lemma_key_lt_asymmetric(x.0, y.0);
    }
    assert forall|i: int, j: int| 0 <= i < j < p.len() implies lt(#[trigger] p[i], #[trigger] p[j]) by {
        assert(key_lt(p[i].0, p[j].0));
    }
    assert forall|i: int, j: int| 0 <= i < j < t.len() implies lt(#[trigger] t[i], #[trigger] t[j]) by {
        assert(key_lt(t[i].0, t[j].0));
    }
    lemma_sorted_same_elements(p, t, lt);
}

impl Report {
    /// Writes the report out as records: its sections in order of test name
    /// and source file, each with its functions, branches and lines and
    /// their summary counts computed afresh.
    pub fn into_records(self) -> (r: Vec<Record>)
        requires
            self.wf(),
        ensures
            views_of(r@) == report_output(self@),
    {
        proof {
            lemma_ordered_sections(self.sections@);
        }
        let ghost s = self.sections@;
        let ghost p = report_pairs(s);
        let mut out: Vec<Record> = Vec::new();
        proof {
            assert(views_of(out@) =~= sections_output(p.take(0)));
        }
        for entry in iter: self.sections
            invariant
                iter.seq() == s,
                p == report_pairs(s),
                sections_wf(s),
                views_of(out@) == sections_output(p.take(iter.index() as int)),
        {
            let ghost k = iter.index() as int;
            assert(entry == s[k]);
            let (key, value) = entry;
            proof {
                assert(p.take(k + 1).drop_last() =~= p.take(k));
                assert(p.take(k + 1).last() == p[k]);
            }
            write_section(key, value, &mut out);
        }
        proof {
            assert(p.take(s.len() as int) =~= p);
        }
        out
    }
}
impl Report {
    /// Takes the report apart into its sections, sorted by key.
    pub(crate) fn into_sections(self) -> (r: Vec<(section::Key, section::Value)>)
        requires
            self.wf(),
        ensures
            sections_wf(r@),
            map_of(report_pairs(r@)) == self@,
    {
        self.sections
    }

    /// Builds a report from sections sorted by key.
    pub(crate) fn from_sections(sections: Vec<(section::Key, section::Value)>) -> (r: Report)
        requires
            sections_wf(sections@),
        ensures
            r.wf(),
            r@ == map_of(report_pairs(sections@)),
    {
        Report { sections }
    }
}

/// Sorted sections have unique keys.
pub proof fn lemma_sections_keys_unique(s: Seq<(section::Key, section::Value)>)
    requires
        sections_wf(s),
    ensures
        keys_unique(report_pairs(s)),
{
    lemma_sections_unique(s);
}

impl Report {
    /// A well-formed report can be listed in output order, section by
    /// section.
    pub proof fn lemma_listable(&self)
        requires
            self.wf(),
        ensures
            crate::replay::report_listable(self@),
    {
        let s = self.sections@;
        let p = report_pairs(s);
        lemma_ordered_sections(s);
        lemma_sections_unique(s);
        assert forall|i: int, j: int| 0 <= i < j < p.len() implies key_lt(#[trigger] p[i].0, #[trigger] p[j].0) by {
            assert(key_lt(key_view(s[i].0), key_view(s[j].0)));
        }
        assert forall|k: KeyView| #[trigger] self@.contains_key(k) implies !view_is_empty(self@[k]) && crate::replay::listable(self@[k]) by {
            let i = choose|i: int| 0 <= i < p.len() && #[trigger] p[i].0 == k;
            lemma_map_of_index(p, i);
            s[i].1.lemma_listable();
        }
    }
}

/// The records as a stream in which each was read successfully.
fn as_read(records: Vec<Record>) -> (r: Vec<Result<Record, ReadError>>)
    ensures
        item_views(r@) == crate::replay::oks(views_of(records@)),
{
    let ghost src = records@;
    let mut out: Vec<Result<Record, ReadError>> = Vec::new();
    for rec in iter: records
        invariant
            iter.seq() == src,
            item_views(out@) == crate::replay::oks(views_of(src.take(iter.index() as int))),
    {
        let ghost k = iter.index() as int;
        assert(rec == src[k]);
        let ghost prev = out@;
        out.push(Ok(rec));
        proof {
            assert(views_of(src.take(k + 1)) =~= views_of(src.take(k)).push(src[k]@));
            assert(item_views(out@) =~= item_views(prev).push(Ok::<RecordView, ReadError>(src[k]@)));
            assert(crate::replay::oks(views_of(src.take(k + 1))) =~= crate::replay::oks(views_of(src.take(k))).push(Ok::<RecordView, ReadError>(src[k]@)));
        }
    }
    proof {
        assert(src.take(src.len() as int) =~= src);
    }
    out
}

impl Report {
    /// Merges report `other` into `self`, in strict mode: `other` is written
    /// out as records and those are merged. Where no section of both
    /// conflicts, the result is the section-by-section merge.
    pub fn merge_report(&mut self, other: Report) -> (r: Result<(), MergeError>)
        requires
            old(self).wf(),
            other.wf(),
        ensures
            final(self).wf(),
            merge_spec(old(self)@, crate::replay::oks(report_output(other@)), false) == (final(self)@, error_of(r)),
            !crate::combine::reports_conflict(old(self)@, other@) ==> r is Ok && final(self)@ == crate::combine::merged_reports(
                old(self)@,
                other@,
            ),
    {
        proof {
            self.lemma_listable();
            other.lemma_listable();
            if !crate::combine::reports_conflict(self@, other@) {
                crate::combine::lemma_merge_report_records(self@, other@, false);
            }
        }
        let items = as_read(other.into_records());
        self.merge(items)
    }

    /// Merges report `other` into `self`; conflicting start lines and
    /// checksums are resolved in favour of `other`. The result is the
    /// section-by-section merge.
    pub fn merge_report_lossy(&mut self, other: Report)
        requires
            old(self).wf(),
            other.wf(),
        ensures
            final(self).wf(),
            final(self)@ == crate::combine::merged_reports(old(self)@, other@),
    {
        proof {
            self.lemma_listable();
            other.lemma_listable();
            crate::combine::lemma_merge_report_records(self@, other@, true);
        }
        let items = as_read(other.into_records());
        let _ = self.merge_lossy(items);
    }
}

} // verus!
