//! Laws that relate several operations of the library.
use crate::assoc::lemma_map_of_len;
use crate::combine::{
    lemma_conflicts_of_merged, lemma_merge_report_records, lemma_merged_reports_assoc, lemma_merged_reports_commute,
    merged_reports, reports_conflict,
};
use crate::error::{MergeError, ReadError};
use crate::line_set::{covers, normalized};
use crate::output::{
    branch_hits, branch_output, count_u32, function_hits, function_output, line_hits, line_output, ordered_branches,
    ordered_functions, ordered_lines, report_output,
};
use crate::range::Range;
use crate::record::{views_of, Record, RecordView};
use crate::replay::{lemma_replay_report, listable, oks};
use crate::report::{item_views, merge_spec, Report, ReportView};
use crate::section::SectionView;
use vstd::prelude::*;

verus! {

proof fn lemma_first_range_is_lowest(s: Seq<(u32, u32)>, l: int)
    requires
        normalized(s),
        covers(s, l),
    ensures
        s.len() > 0,
        s[0].0 <= l,
{
    let i = choose|i: int| 0 <= i < s.len() && #[trigger] s[i].0 <= l <= s[i].1;
    if i > 0 {
        assert(s[0].1 + 1 < s[i].0);
    }
}

proof fn lemma_covers_tail(s: Seq<(u32, u32)>, l: int)
    requires
        normalized(s),
        s.len() > 0,
    ensures
        normalized(s.drop_first()),
        covers(s.drop_first(), l) == (covers(s, l) && l > s[0].1),
{
    let t = s.drop_first();
    assert forall|i: int, j: int| 0 <= i < j < t.len() implies #[trigger] t[i].1 + 1 < #[trigger] t[j].0 by {
        assert(s[i + 1].1 + 1 < s[j + 1].0);
    }
    if covers(t, l) {
        let i = choose|i: int| 0 <= i < t.len() && #[trigger] t[i].0 <= l <= t[i].1;
        assert(s[i + 1] == t[i]);
        assert(s[0].1 + 1 < s[i + 1].0);
    }
    if covers(s, l) && l > s[0].1 {
        let i = choose|i: int| 0 <= i < s.len() && #[trigger] s[i].0 <= l <= s[i].1;
        assert(i != 0);
        assert(t[i - 1] == s[i]);
    }
}

/// A set of lines has one normal form: two normalized sequences of ranges
/// that hold the same lines are equal.
pub proof fn lemma_normal_form_unique(a: Seq<(u32, u32)>, b: Seq<(u32, u32)>)
    requires
        normalized(a),
        normalized(b),
        forall|l: int| #[trigger] covers(a, l) == covers(b, l),
    ensures
        a == b,
    decreases a.len() + b.len(),
{
    if a.len() == 0 {
        if b.len() > 0 {
            assert(b[0].0 <= b[0].1);
            assert(covers(b, b[0].0 as int));
            assert(covers(a, b[0].0 as int));
        }
        assert(a =~= b);
    } else if b.len() == 0 {
        assert(a[0].0 <= a[0].1);
        assert(covers(a, a[0].0 as int));
        assert(covers(b, a[0].0 as int));
    } else {
        assert(covers(a, a[0].0 as int));
        assert(covers(b, b[0].0 as int));
        lemma_first_range_is_lowest(b, a[0].0 as int);
        lemma_first_range_is_lowest(a, b[0].0 as int);
        assert(a[0].0 == b[0].0);
        if a[0].1 < b[0].1 {
            let p = a[0].1 + 1;
            assert(b[0].0 <= p <= b[0].1);
            assert(covers(b, p));
            if covers(a, p) {
                let i = choose|i: int| 0 <= i < a.len() && #[trigger] a[i].0 <= p <= a[i].1;
                if i > 0 {
                    assert(a[0].1 + 1 < a[i].0);
                }
            }
        } else if b[0].1 < a[0].1 {
            let p = b[0].1 + 1;
            assert(a[0].0 <= p <= a[0].1);
            assert(covers(a, p));
            if covers(b, p) {
                let i = choose|i: int| 0 <= i < b.len() && #[trigger] b[i].0 <= p <= b[i].1;
                if i > 0 {
                    assert(b[0].1 + 1 < b[i].0);
                }
            }
        }
        assert(a[0] == b[0]);
        assert forall|l: int| #[trigger] covers(a.drop_first(), l) == covers(b.drop_first(), l) by {
            lemma_covers_tail(a, l);
            lemma_covers_tail(b, l);
        }
        lemma_covers_tail(a, 0);
        lemma_covers_tail(b, 0);
        lemma_normal_form_unique(a.drop_first(), b.drop_first());
        assert(a =~= seq![a[0]] + a.drop_first());
        assert(b =~= seq![b[0]] + b.drop_first());
    }
}

/// Inserting a range a second time changes nothing: if `s1` is what
/// inserting `r` into `s0` gives and `s2` what inserting `r` again gives,
/// as `LineNum::insert` states them, then `s2` is `s1`.
pub proof fn law_insert_twice(s0: Seq<(u32, u32)>, s1: Seq<(u32, u32)>, s2: Seq<(u32, u32)>, r: Range)
    requires
        normalized(s1),
        normalized(s2),
        forall|l: int| #[trigger] covers(s1, l) == (covers(s0, l) || (r.is_valid_spec() && r.covers(l))),
        forall|l: int| #[trigger] covers(s2, l) == (covers(s1, l) || (r.is_valid_spec() && r.covers(l))),
    ensures
        s2 == s1,
{
    assert forall|l: int| #[trigger] covers(s2, l) == covers(s1, l) by {
        assert(covers(s1, l) == (covers(s0, l) || (r.is_valid_spec() && r.covers(l))));
    }
    lemma_normal_form_unique(s2, s1);
}

/// Once the range of all lines is inserted, the set is that one range, and
/// inserting any other range leaves it so.
pub proof fn law_full_range_absorbs(s0: Seq<(u32, u32)>, s1: Seq<(u32, u32)>, s2: Seq<(u32, u32)>, r: Range)
    requires
        normalized(s1),
        normalized(s2),
        forall|l: int| #[trigger] covers(s1, l) == (covers(s0, l) || Range { start: 0, end: u32::MAX }.covers(l)),
        forall|l: int| #[trigger] covers(s2, l) == (covers(s1, l) || (r.is_valid_spec() && r.covers(l))),
    ensures
        s1 == seq![(0u32, u32::MAX)],
        s2 == seq![(0u32, u32::MAX)],
{
    let full = seq![(0u32, u32::MAX)];
    assert(normalized(full));
    assert forall|l: int| #[trigger] covers(full, l) == covers(s1, l) by {
        assert(covers(s1, l) == (covers(s0, l) || Range { start: 0, end: u32::MAX }.covers(l)));
        if covers(s0, l) {
            let i = choose|i: int| 0 <= i < s0.len() && #[trigger] s0[i].0 <= l <= s0[i].1;
        }
        if 0 <= l <= u32::MAX {
            assert(full[0].0 <= l <= full[0].1);
        }
    }
    lemma_normal_form_unique(full, s1);
    assert forall|l: int| #[trigger] covers(full, l) == covers(s2, l) by {
        assert(covers(s2, l) == (covers(s1, l) || (r.is_valid_spec() && r.covers(l))));
        if 0 <= l <= u32::MAX {
            assert(full[0].0 <= l <= full[0].1);
        }
    }
    lemma_normal_form_unique(full, s2);
}

/// The records as a stream in which every record was read successfully.
pub open spec fn read_ok(recs: Seq<Record>) -> Seq<Result<Record, ReadError>> {
    recs.map_values(|r: Record| Ok::<Record, ReadError>(r))
}

/// Writing a report out and merging the records back into an empty report
/// gives the same report, without error, in strict and in lossy mode.
pub proof fn law_round_trip(r: &Report, recs: Seq<Record>)
    requires
        r.wf(),
        views_of(recs) == report_output(r@),
    ensures
        merge_spec(Map::empty(), item_views(read_ok(recs)), false) == (r@, None::<MergeError>),
        merge_spec(Map::empty(), item_views(read_ok(recs)), true) == (r@, None::<MergeError>),
{
    r.lemma_listable();
    assert(item_views(read_ok(recs)) =~= oks(report_output(r@)));
    lemma_replay_report(r@, false);
    lemma_replay_report(r@, true);
}

/// Equal reports are written out as the same records, one by one.
pub proof fn law_output_determined(a: ReportView, b: ReportView, ra: Seq<Record>, rb: Seq<Record>)
    requires
        a == b,
        views_of(ra) == report_output(a),
        views_of(rb) == report_output(b),
    ensures
        ra.len() == rb.len(),
        forall|i: int| 0 <= i < ra.len() ==> (#[trigger] ra[i])@ == rb[i]@,
{
    assert(views_of(ra).len() == ra.len() && views_of(rb).len() == rb.len());
    assert forall|i: int| 0 <= i < ra.len() implies (#[trigger] ra[i])@ == rb[i]@ by {
        assert(views_of(ra)[i] == ra[i]@);
        assert(views_of(rb)[i] == rb[i]@);
    }
}

/// The summary counts that a section is written out with: each map of the
/// section gives its found and hit records, last in its part, only when it
/// is non-empty; "found" is the number of entries and "hit" the number with
/// a non-zero count (for branches, a count taken and non-zero).
pub proof fn law_found_hit(s: SectionView)
    requires
        listable(s),
    ensures
        ({
            let fs = ordered_functions(s.functions);
            let out = function_output(fs);
            &&& fs.len() == s.functions.dom().len()
            &&& (fs.len() == 0 <==> out.len() == 0)
            &&& fs.len() > 0 ==> out[out.len() - 2] == RecordView::FunctionsFound { found: count_u32(fs.len()) }
                && out[out.len() - 1] == RecordView::FunctionsHit { hit: count_u32(function_hits(fs)) }
        }),
        ({
            let bs = ordered_branches(s.branches);
            let out = branch_output(bs);
            &&& bs.len() == s.branches.dom().len()
            &&& (bs.len() == 0 <==> out.len() == 0)
            &&& bs.len() > 0 ==> out[out.len() - 2] == RecordView::BranchesFound { found: count_u32(bs.len()) }
                && out[out.len() - 1] == RecordView::BranchesHit { hit: count_u32(branch_hits(bs)) }
        }),
        ({
            let ls = ordered_lines(s.lines);
            let out = line_output(ls);
            &&& ls.len() == s.lines.dom().len()
            &&& (ls.len() == 0 <==> out.len() == 0)
            &&& ls.len() > 0 ==> out[out.len() - 2] == RecordView::LinesFound { found: count_u32(ls.len()) }
                && out[out.len() - 1] == RecordView::LinesHit { hit: count_u32(line_hits(ls)) }
        }),
{
    let fs = ordered_functions(s.functions);
    let bs = ordered_branches(s.branches);
    let ls = ordered_lines(s.lines);
    assert forall|a: int, b: int| 0 <= a < b < bs.len() implies #[trigger] bs[a].0 != #[trigger] bs[b].0 by {
        assert(crate::section::branch::key_lt(bs[a].0, bs[b].0));
    }
    assert forall|a: int, b: int| 0 <= a < b < ls.len() implies #[trigger] ls[a].0 != #[trigger] ls[b].0 by {
        assert(ls[a].0 < ls[b].0);
    }
    lemma_map_of_len(fs);
    lemma_map_of_len(bs);
    lemma_map_of_len(ls);
}

/// Merging report `b` into report `a` by its records, in strict mode, gives
/// their section-by-section merge when they do not conflict; and merging
/// `a` into `b` gives the same report.
pub proof fn law_merge_commutative(a: &Report, b: &Report, ra: Seq<Record>, rb: Seq<Record>)
    requires
        a.wf(),
        b.wf(),
        views_of(ra) == report_output(a@),
        views_of(rb) == report_output(b@),
        !reports_conflict(a@, b@),
    ensures
        merge_spec(a@, item_views(read_ok(rb)), false) == (merged_reports(a@, b@), None::<MergeError>),
        merge_spec(b@, item_views(read_ok(ra)), false) == merge_spec(a@, item_views(read_ok(rb)), false),
{
    a.lemma_listable();
    b.lemma_listable();
    assert(item_views(read_ok(ra)) =~= oks(report_output(a@)));
    assert(item_views(read_ok(rb)) =~= oks(report_output(b@)));
    lemma_merged_reports_commute(a@, b@);
    lemma_merge_report_records(a@, b@, false);
    lemma_merge_report_records(b@, a@, false);
}

/// Merging in strict mode is associative for reports that do not conflict
/// pairwise: merging `b` into `a` and then `c` gives the same report as
/// merging `c` into `b` and then that into `a`, and neither fails.
pub proof fn law_merge_associative(
    a: &Report,
    b: &Report,
    c: &Report,
    ab: &Report,
    bc: &Report,
    rb: Seq<Record>,
    rc: Seq<Record>,
    rbc: Seq<Record>,
)
    requires
        a.wf(),
        b.wf(),
        c.wf(),
        ab.wf(),
        bc.wf(),
        views_of(rb) == report_output(b@),
        views_of(rc) == report_output(c@),
        views_of(rbc) == report_output(bc@),
        merge_spec(a@, item_views(read_ok(rb)), false) == (ab@, None::<MergeError>),
        merge_spec(b@, item_views(read_ok(rc)), false) == (bc@, None::<MergeError>),
        !reports_conflict(a@, b@),
        !reports_conflict(a@, c@),
        !reports_conflict(b@, c@),
    ensures
        merge_spec(ab@, item_views(read_ok(rc)), false) == merge_spec(a@, item_views(read_ok(rbc)), false),
        merge_spec(ab@, item_views(read_ok(rc)), false).1 == None::<MergeError>,
{
    a.lemma_listable();
    b.lemma_listable();
    c.lemma_listable();
    ab.lemma_listable();
    bc.lemma_listable();
    assert(item_views(read_ok(rb)) =~= oks(report_output(b@)));
    assert(item_views(read_ok(rc)) =~= oks(report_output(c@)));
    assert(item_views(read_ok(rbc)) =~= oks(report_output(bc@)));
    lemma_merge_report_records(a@, b@, false);
    lemma_merge_report_records(b@, c@, false);
    lemma_conflicts_of_merged(a@, b@, c@);
    lemma_merge_report_records(ab@, c@, false);
    lemma_merge_report_records(a@, bc@, false);
    lemma_merged_reports_assoc(a@, b@, c@);
}

} // verus!
