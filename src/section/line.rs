//! Coverage of one line.
use crate::error::MergeError;
use crate::section::sat_add;
use vstd::prelude::*;

verus! {

/// A line, identified by its number.
#[derive(Debug, Clone, Copy, PartialEq, Eq, PartialOrd, Ord, Hash, Structural)]
pub struct Key {
    pub line: u32,
}

/// What is known of a line.
#[derive(Debug, Clone, PartialEq, Eq)]
pub struct Value {
    /// Execution count.
    pub count: u64,
    /// Checksum of the line's text, if the tool gave one.
    pub checksum: Option<String>,
}

/// A line's value as plain data: its count and the characters of its
/// checksum.
pub type LineView = (u64, Option<Seq<char>>);

impl View for Value {
    type V = LineView;

    open spec fn view(&self) -> LineView {
        (
            self.count,
            match self.checksum {
                Some(c) => Some(c@),
                None => None,
            },
        )
    }
}

/// The value of a line that nothing has been recorded of.
pub open spec fn empty_view() -> LineView {
    (0, None)
}

/// Merging `b` into `a`: `None` when the strict rule finds two different
/// checksums; otherwise counts add, saturating, and the incoming checksum
/// wins where it is given.
pub open spec fn merge_spec(a: LineView, b: LineView, lossy: bool) -> Option<LineView> {
    if !lossy && a.1 is Some && b.1 is Some && a.1 != b.1 {
        None
    } else {
        Some(
            (
                sat_add(a.0, b.0),
                if b.1 is Some {
                    b.1
                } else {
                    a.1
                },
            ),
        )
    }
}

impl Value {
    /// Returns `true` if merging `other` into `self` would find two
    /// different checksums.
    pub fn conflicts_with(&self, other: &Value) -> (r: bool)
        ensures
            r == (merge_spec(self@, other@, false) is None),
    {
        match &self.checksum {
            Some(a) => match &other.checksum {
                Some(b) => {
                    let same = a.eq(b);
                    !same
                },
                None => false,
            },
            None => false,
        }
    }

    /// Merges `other` into `self`, failing on two different checksums.
    pub fn merge(&mut self, other: Value) -> (r: Result<(), MergeError>)
        ensures
            match merge_spec(old(self)@, other@, false) {
                Some(v) => r is Ok && final(self)@ == v,
                None => r == Err::<(), MergeError>(MergeError::UnmatchedChecksum)
                    && *final(self) == *old(self),
            },
    {
        if self.conflicts_with(&other) {
            return Err(MergeError::UnmatchedChecksum);
        }
        self.merge_lossy(other);
        Ok(())
    }

    /// Merges `other` into `self`; where the checksums differ, the incoming
    /// one wins.
    pub fn merge_lossy(&mut self, other: Value)
        ensures
            merge_spec(old(self)@, other@, true) == Some(final(self)@),
    {
        self.count = self.count.saturating_add(other.count);
        if other.checksum.is_some() {
            self.checksum = other.checksum;
        }
    }
}

} // verus!
