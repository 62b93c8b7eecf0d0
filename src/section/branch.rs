//! Coverage of one branch.
use crate::section::sat_add;
use vstd::prelude::*;

verus! {

/// A branch, identified by its line and the two numbers that the
/// instrumentation gave it.
#[derive(Debug, Clone, Copy, PartialEq, Eq, PartialOrd, Ord, Hash, Structural)]
pub struct Key {
    pub line: u32,
    pub block: u32,
    pub branch: u32,
}

/// What is known of a branch.
#[derive(Debug, Clone, Copy, PartialEq, Eq, Structural)]
pub struct Value {
    /// How often the branch was taken; absent if it was never seen taken.
    pub taken: Option<u64>,
}

/// Key order: by line, then block, then branch.
pub open spec fn key_lt(a: Key, b: Key) -> bool {
    a.line < b.line || (a.line == b.line && (a.block < b.block || (a.block == b.block
        && a.branch < b.branch)))
}

/// Merging `b` into `a`: if either side was taken the counts add,
/// saturating; if neither was, the branch stays untaken.
pub open spec fn merge_spec(a: Value, b: Value) -> Value {
    match b.taken {
        Some(t) => Value {
            taken: Some(
                sat_add(
                    match a.taken {
                        Some(x) => x,
                        None => 0,
                    },
                    t,
                ),
            ),
        },
        None => a,
    }
}

/// Compares two keys: negative, zero or positive as `a` comes before, equals
/// or comes after `b`.
pub fn compare_keys(a: &Key, b: &Key) -> (r: i8)
    ensures
        r == 0 <==> *a == *b,
        r < 0 <==> key_lt(*a, *b),
        r > 0 <==> key_lt(*b, *a),
{
    if a.line != b.line {
        if a.line < b.line {
            -1
        } else {
            1
        }
    } else if a.block != b.block {
        if a.block < b.block {
            -1
        } else {
            1
        }
    } else if a.branch != b.branch {
        if a.branch < b.branch {
            -1
        } else {
            1
        }
    } else {
        0
    }
}

impl Value {
    /// Merges `other` into `self`.
    pub fn merge(&mut self, other: Value)
        ensures
            *final(self) == merge_spec(*old(self), other),
    {
        if let Some(t) = other.taken {
            let base = match self.taken {
                Some(x) => x,
                None => 0,
            };
            self.taken = Some(base.saturating_add(t));
        }
    }
}

} // verus!
