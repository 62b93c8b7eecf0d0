//! A set of line numbers kept as sorted, disjoint inclusive ranges.
use crate::range::{max_u32, Range};
use vstd::prelude::*;

verus! {

/// Each stored range holds at least one line.
pub open spec fn all_valid(s: Seq<(u32, u32)>) -> bool {
    forall|i: int| 0 <= i < s.len() ==> #[trigger] s[i].0 <= s[i].1
}

/// Range starts strictly increase along the sequence.
pub open spec fn sorted_starts(s: Seq<(u32, u32)>) -> bool {
    forall|i: int, j: int| 0 <= i < j < s.len() ==> #[trigger] s[i].0 < #[trigger] s[j].0
}

/// A sequence of ranges as a map from start to end holds it: starts are
/// unique and sorted, and no range is empty.
pub open spec fn well_formed(s: Seq<(u32, u32)>) -> bool {
    all_valid(s) && sorted_starts(s)
}

/// The normal form: valid ranges, sorted, with at least one uncovered line
/// between any two of them.
pub open spec fn normalized(s: Seq<(u32, u32)>) -> bool {
    &&& all_valid(s)
    &&& forall|i: int, j: int| 0 <= i < j < s.len() ==> #[trigger] s[i].1 + 1 < #[trigger] s[j].0
}

/// Line `l` lies in one of the ranges.
pub open spec fn covers(s: Seq<(u32, u32)>, l: int) -> bool {
    exists|i: int| 0 <= i < s.len() && #[trigger] s[i].0 <= l <= s[i].1
}

/// Some range starts at or before `q.end` and ends at or after `q.start`.
pub open spec fn intersects(s: Seq<(u32, u32)>, q: Range) -> bool {
    exists|i: int| 0 <= i < s.len() && #[trigger] s[i].0 <= q.end && q.start <= s[i].1
}

/// `p` is where a range starting at `k` belongs: every earlier start is
/// below `k`, every later one is at or above it.
pub open spec fn insert_pos(s: Seq<(u32, u32)>, k: u32, p: int) -> bool {
    &&& 0 <= p <= s.len()
    &&& forall|i: int| 0 <= i < p ==> #[trigger] s[i].0 < k
    &&& forall|i: int| p <= i < s.len() ==> #[trigger] s[i].0 >= k
}

/// The ranges after recording `r` without normalizing: an invalid range
/// changes nothing, a range whose start is already stored widens that entry
/// to the larger end, and any other range is put in its sorted place.
pub open spec fn add_spec(s: Seq<(u32, u32)>, r: Range) -> Seq<(u32, u32)> {
    if !r.is_valid_spec() {
        s
    } else {
        let p = choose|p: int| insert_pos(s, r.start, p);
        if p < s.len() && s[p].0 == r.start {
            s.update(p, (r.start, max_u32(s[p].1, r.end)))
        } else {
            s.insert(p, (r.start, r.end))
        }
    }
}

proof fn lemma_insert_pos_unique(s: Seq<(u32, u32)>, k: u32, p: int, q: int)
    requires
        insert_pos(s, k, p),
        insert_pos(s, k, q),
    ensures
        p == q,
{
    if p < q {
        assert(s[p].0 < k);
    } else if q < p {
        assert(s[q].0 < k);
    }
}

proof fn lemma_covers_push(s: Seq<(u32, u32)>, x: (u32, u32))
    ensures
        forall|l: int| #[trigger]
            covers(s.push(x), l) == (covers(s, l) || (x.0 <= l <= x.1)),
{
    assert forall|l: int| #[trigger]
        covers(s.push(x), l) == (covers(s, l) || (x.0 <= l <= x.1)) by {
        let t = s.push(x);
        if covers(t, l) {
            let i = choose|i: int| 0 <= i < t.len() && #[trigger] t[i].0 <= l <= t[i].1;
            if i < s.len() {
                assert(s[i] == t[i]);
            }
        }
        if covers(s, l) {
            let i = choose|i: int| 0 <= i < s.len() && #[trigger] s[i].0 <= l <= s[i].1;
            assert(t[i] == s[i]);
        }
        if x.0 <= l <= x.1 {
            assert(t[s.len() as int] == x);
        }
    }
}

proof fn lemma_add_covers(s: Seq<(u32, u32)>, r: Range)
    requires
        well_formed(s),
        exists|p: int| insert_pos(s, r.start, p),
    ensures
        well_formed(add_spec(s, r)),
        forall|l: int| #[trigger]
            covers(add_spec(s, r), l) == (covers(s, l) || (r.is_valid_spec() && r.covers(l))),
{
    if r.is_valid_spec() {
        let p = choose|p: int| insert_pos(s, r.start, p);
        let t = add_spec(s, r);
        if p < s.len() && s[p].0 == r.start {
            assert(t == s.update(p, (r.start, max_u32(s[p].1, r.end))));
            assert forall|i: int, j: int| 0 <= i < j < t.len() implies #[trigger] t[i].0
                < #[trigger] t[j].0 by {
                assert(s[i].0 < s[j].0);
            }
            assert forall|l: int| #[trigger]
                covers(t, l) == (covers(s, l) || r.covers(l)) by {
                if covers(t, l) {
                    let i = choose|i: int| 0 <= i < t.len() && #[trigger] t[i].0 <= l <= t[i].1;
                    if i != p {
                        assert(s[i] == t[i]);
                    }
                }
                if covers(s, l) {
                    let i = choose|i: int| 0 <= i < s.len() && #[trigger] s[i].0 <= l <= s[i].1;
                    assert(t[i].0 <= l <= t[i].1);
                }
                if r.covers(l) {
                    assert(t[p].0 <= l <= t[p].1);
                }
            }
        } else {
            assert(t == s.insert(p, (r.start, r.end)));
            assert forall|i: int, j: int| 0 <= i < j < t.len() implies #[trigger] t[i].0
                < #[trigger] t[j].0 by {
                if j < p {
                    assert(s[i].0 < s[j].0);
                } else if j == p {
                    assert(s[i].0 < r.start);
                } else if i < p {
                    assert(s[i].0 < s[j - 1].0);
                } else if i == p {
                    assert(s[j - 1].0 >= r.start);
                    assert(s[j - 1].0 != r.start) by {
                        if p < s.len() {
                            if j - 1 > p {
                                assert(s[p].0 < s[j - 1].0);
                            }
                        }
                    }
                } else {
                    assert(s[i - 1].0 < s[j - 1].0);
                }
            }
            assert forall|l: int| #[trigger]
                covers(t, l) == (covers(s, l) || r.covers(l)) by {
                if covers(t, l) {
                    let i = choose|i: int| 0 <= i < t.len() && #[trigger] t[i].0 <= l <= t[i].1;
                    if i < p {
                        assert(s[i] == t[i]);
                    } else if i > p {
                        assert(s[i - 1] == t[i]);
                    }
                }
                if covers(s, l) {
                    let i = choose|i: int| 0 <= i < s.len() && #[trigger] s[i].0 <= l <= s[i].1;
                    if i < p {
                        assert(t[i] == s[i]);
                    } else {
                        assert(t[i + 1] == s[i]);
                    }
                }
                if r.covers(l) {
                    assert(t[p].0 <= l <= t[p].1);
                }
            }
        }
    }
}

/// A set of line numbers, stored as a map from range start to range end.
///
/// `insert` keeps the set in normal form; `add_range` records a range
/// without joining it to its neighbours, until `normalize` is called.
#[derive(Debug, Clone, PartialEq, Eq)]
pub struct LineNum {
    start2end: Vec<(u32, u32)>,
}

impl View for LineNum {
    type V = Seq<(u32, u32)>;

    closed spec fn view(&self) -> Seq<(u32, u32)> {
        self.start2end@
    }
}

impl LineNum {
    /// Creates an empty set, which holds no line.
    pub fn new() -> (r: LineNum)
        ensures
            r@ == Seq::<(u32, u32)>::empty(),
    {
        LineNum { start2end: Vec::new() }
    }

    /// The stored ranges as `(start, end)` pairs, in order of start.
    pub fn ranges(&self) -> (r: Vec<(u32, u32)>)
        ensures
            r@ == self@,
    {
        let mut out: Vec<(u32, u32)> = Vec::new();
        let mut i: usize = 0;
        while i < self.start2end.len()
            invariant
                0 <= i <= self@.len(),
                out@ == self@.take(i as int),
            decreases self@.len() - i,
        {
            out.push(self.start2end[i]);
            i = i + 1;
            proof {
                assert(out@ =~= self@.take(i as int));
            }
        }
        proof {
            assert(self@.take(i as int) =~= self@);
        }
        out
    }

    /// Records a range without normalizing.
    pub fn add_range(&mut self, range: Range)
        requires
            well_formed(old(self)@),
        ensures
            well_formed(final(self)@),
            final(self)@ == add_spec(old(self)@, range),
            forall|l: int| #[trigger]
                covers(final(self)@, l) == (covers(old(self)@, l) || (range.is_valid_spec()
                    && range.covers(l))),
    {
        if !range.is_valid() {
            return;
        }
        let ghost s = self.start2end@;
        let n = self.start2end.len();
        let mut lo: usize = 0;
        let mut hi: usize = n;
        while lo < hi
            invariant
                s == self.start2end@,
                n == s.len(),
                well_formed(s),
                0 <= lo <= hi <= n,
                forall|i: int| 0 <= i < lo ==> #[trigger] s[i].0 < range.start,
                forall|i: int| hi <= i < n ==> #[trigger] s[i].0 >= range.start,
            decreases hi - lo,
        {
            let mid = lo + (hi - lo) / 2;
            if self.start2end[mid].0 < range.start {
                proof {
                    assert forall|i: int| 0 <= i <= mid implies #[trigger] s[i].0 < range.start by {
                        if i < mid {
                            assert(s[i].0 < s[mid as int].0);
                        }
                    }
                }
                lo = mid + 1;
            } else {
                proof {
                    assert forall|i: int| mid <= i < n implies #[trigger] s[i].0 >= range.start by {
                        if i > mid {
                            assert(s[mid as int].0 < s[i].0);
                        }
                    }
                }
                hi = mid;
            }
        }
        proof {
            assert(insert_pos(s, range.start, lo as int));
            let p = choose|p: int| insert_pos(s, range.start, p);
            lemma_insert_pos_unique(s, range.start, p, lo as int);
            lemma_add_covers(s, range);
        }
        if lo < n && self.start2end[lo].0 == range.start {
            let e = self.start2end[lo].1;
            let m = if e >= range.end { e } else { range.end };
            self.start2end.set(lo, (range.start, m));
        } else {
            self.start2end.insert(lo, (range.start, range.end));
        }
    }

    /// Joins overlapping and adjacent ranges, so that the set is in normal
    /// form and holds the same lines.
    pub fn normalize(&mut self)
        requires
            well_formed(old(self)@),
        ensures
            normalized(final(self)@),
            forall|l: int| #[trigger] covers(final(self)@, l) == covers(old(self)@, l),
    {
        let n = self.start2end.len();
        if n == 0 {
            return;
        }
        let ghost s = self.start2end@;
        let mut out: Vec<(u32, u32)> = Vec::new();
        let mut cur = Range::new(self.start2end[0].0, self.start2end[0].1);
        proof {
            lemma_covers_push(s.take(0), s[0]);
            assert(s.take(0).push(s[0]) =~= s.take(1));
        }
        let mut i: usize = 1;
        while i < n
            invariant
                s == self.start2end@,
                n == s.len(),
                well_formed(s),
                1 <= i <= n,
                normalized(out@),
                cur.start <= cur.end,
                cur.start <= s[i - 1].0,
                forall|k: int| 0 <= k < out@.len() ==> #[trigger] out@[k].1 + 1 < cur.start,
                forall|l: int| #[trigger]
                    covers(s.take(i as int), l) == (covers(out@, l) || cur.covers(l)),
            decreases n - i,
        {
            let next = Range::new(self.start2end[i].0, self.start2end[i].1);
            proof {
                assert(s[i - 1].0 < s[i as int].0);
                lemma_covers_push(s.take(i as int), s[i as int]);
                assert(s.take(i as int).push(s[i as int]) =~= s.take(i + 1));
            }
            match cur.join(next) {
                Some(j) => {
                    cur = j;
                },
                None => {
                    proof {
                        lemma_covers_push(out@, (cur.start, cur.end));
                    }
                    out.push((cur.start, cur.end));
                    cur = next;
                },
            }
            i = i + 1;
        }
        proof {
            lemma_covers_push(out@, (cur.start, cur.end));
            assert(s.take(n as int) =~= s);
        }
        out.push((cur.start, cur.end));
        self.start2end = out;
    }

    /// Adds a range and normalizes the set.
    pub fn insert(&mut self, range: Range)
        requires
            normalized(old(self)@),
        ensures
            normalized(final(self)@),
            forall|l: int| #[trigger]
                covers(final(self)@, l) == (covers(old(self)@, l) || (range.is_valid_spec()
                    && range.covers(l))),
    {
        proof {
            assert forall|i: int, j: int| 0 <= i < j < self@.len() implies #[trigger] self@[i].0
                < #[trigger] self@[j].0 by {
                assert(self@[i].1 + 1 < self@[j].0);
            }
        }
        self.add_range(range);
        self.normalize();
    }

    /// Returns `true` if some line of `range` is in the set.
    ///
    /// Looks up the range with the greatest start at or before `range.end`;
    /// the query meets the set exactly when that range reaches `range.start`.
    pub fn contains(&self, range: Range) -> (r: bool)
        requires
            normalized(self@),
        ensures
            r == intersects(self@, range),
            range.is_valid_spec() ==> (r <==> exists|l: int|
                #![trigger covers(self@, l)]
                range.covers(l) && covers(self@, l)),
    {
        let ghost s = self.start2end@;
        let n = self.start2end.len();
        let mut lo: usize = 0;
        let mut hi: usize = n;
        while lo < hi
            invariant
                s == self.start2end@,
                n == s.len(),
                normalized(s),
                0 <= lo <= hi <= n,
                forall|i: int| 0 <= i < lo ==> #[trigger] s[i].0 <= range.end,
                forall|i: int| hi <= i < n ==> #[trigger] s[i].0 > range.end,
            decreases hi - lo,
        {
            let mid = lo + (hi - lo) / 2;
            if self.start2end[mid].0 <= range.end {
                proof {
                    assert forall|i: int| 0 <= i <= mid implies #[trigger] s[i].0 <= range.end by {
                        if i < mid {
                            assert(s[i].1 + 1 < s[mid as int].0);
                        }
                    }
                }
                lo = mid + 1;
            } else {
                proof {
                    assert forall|i: int| mid <= i < n implies #[trigger] s[i].0 > range.end by {
                        if i > mid {
                            assert(s[mid as int].1 + 1 < s[i].0);
                        }
                    }
                }
                hi = mid;
            }
        }
        let r = if lo == 0 {
            false
        } else {
            self.start2end[lo - 1].1 >= range.start
        };
        proof {
            if intersects(s, range) {
                let i = choose|i: int|
                    0 <= i < s.len() && #[trigger] s[i].0 <= range.end && range.start <= s[i].1;
                assert(i < lo);
                if i < lo - 1 {
                    assert(s[i].1 + 1 < s[lo - 1].0);
                }
            }
            if r {
                assert(s[lo - 1].0 <= range.end);
            }
            if range.is_valid_spec() {
                if r {
                    let k = lo - 1;
                    let l = if s[k].0 >= range.start {
                        s[k].0 as int
                    } else {
                        range.start as int
                    };
                    assert(s[k].0 <= l <= s[k].1);
                    assert(covers(s, l));
                }
                if exists|l: int| #![trigger covers(s, l)] range.covers(l) && covers(s, l) {
                    let l = choose|l: int| #![trigger covers(s, l)] range.covers(l) && covers(s, l);
                    let i = choose|i: int| 0 <= i < s.len() && #[trigger] s[i].0 <= l <= s[i].1;
                    assert(s[i].0 <= range.end && range.start <= s[i].1);
                }
            }
        }
        r
    }
}


impl LineNum {
    /// Creates a set from ranges stored as `(start, end)` pairs, taken as
    /// they are.
    pub fn from_ranges(ranges: Vec<(u32, u32)>) -> (r: LineNum)
        ensures
            r@ == ranges@,
    {
        LineNum { start2end: ranges }
    }
}
/// Some valid range of the list holds line `l`.
pub open spec fn list_covers(rs: Seq<Range>, l: int) -> bool {
    exists|i: int| 0 <= i < rs.len() && (#[trigger] rs[i]).is_valid_spec() && rs[i].covers(l)
}

proof fn lemma_list_covers_step(rs: Seq<Range>, k: int)
    requires
        0 <= k < rs.len(),
    ensures
        forall|l: int| #[trigger] list_covers(rs.take(k + 1), l) == (list_covers(rs.take(k), l) || (rs[k].is_valid_spec() && rs[k].covers(l))),
{
    assert forall|l: int| #[trigger] list_covers(rs.take(k + 1), l) == (list_covers(rs.take(k), l) || (rs[k].is_valid_spec() && rs[k].covers(l))) by {
        let t = rs.take(k + 1);
        let t0 = rs.take(k);
        if list_covers(t, l) {
            let j = choose|j: int| 0 <= j < t.len() && (#[trigger] t[j]).is_valid_spec() && t[j].covers(l);
            if j < k {
                assert(t0[j] == t[j]);
            }
        }
        if list_covers(t0, l) {
            let j = choose|j: int| 0 <= j < t0.len() && (#[trigger] t0[j]).is_valid_spec() && t0[j].covers(l);
            assert(t[j] == t0[j]);
        }
        if rs[k].is_valid_spec() && rs[k].covers(l) {
            assert(t[k] == rs[k]);
        }
    }
}

impl LineNum {
    /// Adds all the ranges, then normalizes the set once.
    pub fn extend(&mut self, ranges: Vec<Range>)
        requires
            normalized(old(self)@),
        ensures
            normalized(final(self)@),
            forall|l: int| #[trigger] covers(final(self)@, l) == (covers(old(self)@, l) || list_covers(ranges@, l)),
    {
        proof {
            assert forall|i: int, j: int| 0 <= i < j < self@.len() implies #[trigger] self@[i].0 < #[trigger] self@[j].0 by {
                assert(self@[i].1 + 1 < self@[j].0);
            }
            assert forall|l: int| #[trigger] covers(self@, l) == (covers(old(self)@, l) || list_covers(ranges@.take(0), l)) by {
                if list_covers(ranges@.take(0), l) {
                    let j = choose|j: int| 0 <= j < ranges@.take(0).len() && (#[trigger] ranges@.take(0)[j]).is_valid_spec() && ranges@.take(0)[j].covers(l);
                }
            }
        }
        let mut k: usize = 0;
        while k < ranges.len()
            invariant
                well_formed(self@),
                0 <= k <= ranges@.len(),
                forall|l: int| #[trigger] covers(self@, l) == (covers(old(self)@, l) || list_covers(ranges@.take(k as int), l)),
            decreases ranges@.len() - k,
        {
            proof {
                lemma_list_covers_step(ranges@, k as int);
            }
            self.add_range(ranges[k]);
            k = k + 1;
        }
        proof {
            assert(ranges@.take(ranges@.len() as int) =~= ranges@);
        }
        self.normalize();
    }

    /// The normalized set of the lines of all the ranges.
    pub fn from_list(ranges: Vec<Range>) -> (r: LineNum)
        ensures
            normalized(r@),
            forall|l: int| #[trigger] covers(r@, l) == list_covers(ranges@, l),
    {
        let mut r = LineNum::new();
        proof {
            assert(normalized(r@));
        }
        r.extend(ranges);
        r
    }
}

} // verus!
