//! Inclusive ranges of line numbers.
use vstd::prelude::*;

verus! {

/// An inclusive range `[start, end]` of line numbers.
///
/// A range whose `start` is greater than its `end` holds no line; it is
/// "invalid" and is never stored in a line set.
#[derive(Debug, Clone, Copy, PartialEq, Eq, Structural)]
pub struct Range {
    pub start: u32,
    pub end: u32,
}

/// The larger of two line numbers.
pub open spec fn max_u32(a: u32, b: u32) -> u32 {
    if a >= b { a } else { b }
}

/// The smaller of two line numbers.
pub open spec fn min_u32(a: u32, b: u32) -> u32 {
    if a <= b { a } else { b }
}

impl Range {
    /// The range holds at least one line.
    pub open spec fn is_valid_spec(self) -> bool {
        self.start <= self.end
    }

    /// Line `l` lies inside the range.
    pub open spec fn covers(self, l: int) -> bool {
        self.start <= l <= self.end
    }

    /// The two ranges are separated by at least one line that neither holds.
    pub open spec fn apart(self, other: Range) -> bool {
        other.end + 1 < self.start || self.end + 1 < other.start
    }

    /// What joining two ranges gives: an invalid side yields the other side,
    /// two ranges with a gap between them do not join, and otherwise the
    /// result spans both.
    pub open spec fn join_spec(self, other: Range) -> Option<Range> {
        if !self.is_valid_spec() {
            Some(other)
        } else if !other.is_valid_spec() {
            Some(self)
        } else if self.apart(other) {
            None
        } else {
            Some(
                Range {
                    start: min_u32(self.start, other.start),
                    end: max_u32(self.end, other.end),
                },
            )
        }
    }

    /// Creates the range `[start, end]`.
    pub fn new(start: u32, end: u32) -> (r: Range)
        ensures
            r.start == start,
            r.end == end,
    {
        Range { start, end }
    }

    /// Creates a range which contains one line.
    pub fn from_line(line: u32) -> (r: Range)
        ensures
            r.start == line,
            r.end == line,
    {
        Range { start: line, end: line }
    }

    /// Converts the half-open range `[lo, hi)` into inclusive form.
    ///
    /// An empty half-open range gives an invalid range, except `[0, 0)`:
    /// subtraction saturates, so that one becomes the single line 0.
    pub fn from_half_open(lo: u32, hi: u32) -> (r: Range)
        ensures
            r.start == lo,
            r.end == (if hi == 0 { 0 } else { (hi - 1) as u32 }),
            hi > 0 ==> (r.is_valid_spec() <==> lo < hi),
    {
        Range { start: lo, end: hi.saturating_sub(1) }
    }

    /// The range of every line from `lo` on.
    pub fn starting_at(lo: u32) -> (r: Range)
        ensures
            r.start == lo,
            r.end == u32::MAX,
    {
        Range { start: lo, end: u32::MAX }
    }

    /// The range of every line below `hi`.
    pub fn ending_before(hi: u32) -> (r: Range)
        ensures
            r.start == 0,
            r.end == (if hi == 0 { 0 } else { (hi - 1) as u32 }),
    {
        Range { start: 0, end: hi.saturating_sub(1) }
    }

    /// The range of every line.
    pub fn full() -> (r: Range)
        ensures
            r.start == 0,
            r.end == u32::MAX,
    {
        Range { start: 0, end: u32::MAX }
    }

    /// Returns `true` if the range holds at least one line.
    pub fn is_valid(&self) -> (b: bool)
        ensures
            b == self.is_valid_spec(),
    {
        self.start <= self.end
    }

    /// Joins two ranges into one if they overlap or touch.
    pub fn join(self, other: Range) -> (r: Option<Range>)
        ensures
            r == self.join_spec(other),
            self.is_valid_spec() && other.is_valid_spec() && r is Some ==> (forall|l: int|
                #[trigger] r->0.covers(l) <==> self.covers(l) || other.covers(l)),
            self.is_valid_spec() && other.is_valid_spec() && r is None ==> exists|l: int|
                #![trigger self.covers(l)]
                0 <= l <= u32::MAX && !self.covers(l) && !other.covers(l) && min_u32(
                    self.start,
                    other.start,
                ) < l < max_u32(self.end, other.end),
    {
        if !self.is_valid() {
            return Some(other);
        }
        if !other.is_valid() {
            return Some(self);
        }
        if other.end.saturating_add(1) < self.start || self.end.saturating_add(1) < other.start {
            proof {
                if other.end + 1 < self.start {
                    assert(!self.covers(other.end + 1) && !other.covers(other.end + 1));
                } else {
                    assert(!self.covers(self.end + 1) && !other.covers(self.end + 1));
                }
            }
            return None;
        }
        let start = if self.start <= other.start { self.start } else { other.start };
        let end = if self.end >= other.end { self.end } else { other.end };
        Some(Range { start, end })
    }
}

/// Joining a valid range with itself gives the range back.
pub proof fn law_join_idempotent(x: Range)
    requires
        x.is_valid_spec(),
    ensures
        x.join_spec(x) == Some(x),
{
}

/// Joining is commutative.
pub proof fn law_join_commutative(a: Range, b: Range)
    requires
        a.is_valid_spec(),
        b.is_valid_spec(),
    ensures
        a.join_spec(b) == b.join_spec(a),
{
}

} // verus!
