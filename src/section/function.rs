//! Coverage of one function.
use crate::error::MergeError;
use crate::section::sat_add;
use vstd::prelude::*;

verus! {

/// A function, identified by its name.
#[derive(Debug, Clone, PartialEq, Eq, PartialOrd, Ord, Hash)]
pub struct Key {
    pub name: String,
}

/// What is known of a function.
#[derive(Debug, Clone, Copy, PartialEq, Eq, Structural)]
pub struct Value {
    /// Line where the function starts; absent until a `FN` record names it.
    pub start_line: Option<u32>,
    /// Execution count.
    pub count: u64,
}

/// The value of a function that nothing has been recorded of.
pub open spec fn empty_value() -> Value {
    Value { start_line: None, count: 0 }
}

/// Merging `b` into `a`: `None` when the strict rule finds two different
/// start lines; otherwise the incoming start line wins where it is given,
/// and counts add, saturating.
pub open spec fn merge_spec(a: Value, b: Value, lossy: bool) -> Option<Value> {
    if !lossy && a.start_line is Some && b.start_line is Some && a.start_line != b.start_line {
        None
    } else {
        Some(
            Value {
                start_line: if b.start_line is Some {
                    b.start_line
                } else {
                    a.start_line
                },
                count: sat_add(a.count, b.count),
            },
        )
    }
}

impl Value {
    /// Merges `other` into `self`, failing on two different start lines.
    pub fn merge(&mut self, other: Value) -> (r: Result<(), MergeError>)
        ensures
            match merge_spec(*old(self), other, false) {
                Some(v) => r is Ok && *final(self) == v,
                None => r == Err::<(), MergeError>(MergeError::UnmatchedFunctionLine)
                    && *final(self) == *old(self),
            },
    {
        if let (Some(a), Some(b)) = (self.start_line, other.start_line) {
            if a != b {
                return Err(MergeError::UnmatchedFunctionLine);
            }
        }
        self.merge_lossy(other);
        Ok(())
    }

    /// Merges `other` into `self`; where the start lines differ, the
    /// incoming one wins.
    pub fn merge_lossy(&mut self, other: Value)
        ensures
            merge_spec(*old(self), other, true) == Some(*final(self)),
    {
        if other.start_line.is_some() {
            self.start_line = other.start_line;
        }
        self.count = self.count.saturating_add(other.count);
    }
}

} // verus!
