//! The coverage of one source file under one test: its functions, branches
//! and lines.
pub mod branch;
pub mod function;
pub mod line;

use crate::assoc::{has_key, keys_unique, lemma_map_of_index, lemma_map_of_insert, lemma_map_of_push, lemma_map_of_update, map_of};
use crate::error::MergeError;
use vstd::prelude::*;

verus! {

/// Adds two counts, saturating at the largest `u64`.
pub open spec fn sat_add(a: u64, b: u64) -> u64 {
    if a + b > u64::MAX {
        u64::MAX
    } else {
        (a + b) as u64
    }
}

/// A section as plain data: three maps.
pub struct SectionView {
    pub functions: Map<Seq<char>, function::Value>,
    pub branches: Map<branch::Key, branch::Value>,
    pub lines: Map<u32, line::LineView>,
}

/// The section holds no coverage information.
pub open spec fn view_is_empty(s: SectionView) -> bool {
    s.functions.is_empty() && s.branches.is_empty() && s.lines.is_empty()
}

/// What a map of functions holds for `name`, or the empty value.
pub open spec fn function_at(m: Map<Seq<char>, function::Value>, name: Seq<char>) -> function::Value {
    if m.contains_key(name) {
        m[name]
    } else {
        function::empty_value()
    }
}

/// What a map of branches holds for `k`, or an untaken branch.
pub open spec fn branch_at(m: Map<branch::Key, branch::Value>, k: branch::Key) -> branch::Value {
    if m.contains_key(k) {
        m[k]
    } else {
        branch::Value { taken: None }
    }
}

/// What a map of lines holds for `l`, or the empty value.
pub open spec fn line_at(m: Map<u32, line::LineView>, l: u32) -> line::LineView {
    if m.contains_key(l) {
        m[l]
    } else {
        line::empty_view()
    }
}

/// The section after merging `v` into the function `name`; `None` on a
/// strict conflict of start lines.
pub open spec fn with_function(s: SectionView, name: Seq<char>, v: function::Value, lossy: bool) -> Option<SectionView> {
    match function::merge_spec(function_at(s.functions, name), v, lossy) {
        Some(w) => Some(SectionView { functions: s.functions.insert(name, w), ..s }),
        None => None,
    }
}

/// The section after merging `v` into the branch `k`.
pub open spec fn with_branch(s: SectionView, k: branch::Key, v: branch::Value) -> SectionView {
    SectionView { branches: s.branches.insert(k, branch::merge_spec(branch_at(s.branches, k), v)), ..s }
}

/// The section after merging `v` into line `l`; `None` on a strict
/// conflict of checksums.
pub open spec fn with_line(s: SectionView, l: u32, v: line::LineView, lossy: bool) -> Option<SectionView> {
    match line::merge_spec(line_at(s.lines, l), v, lossy) {
        Some(w) => Some(SectionView { lines: s.lines.insert(l, w), ..s }),
        None => None,
    }
}

/// The functions as pairs of name and value.
pub open spec fn function_pairs(s: Seq<(function::Key, function::Value)>) -> Seq<(Seq<char>, function::Value)> {
    s.map_values(|p: (function::Key, function::Value)| (p.0.name@, p.1))
}

/// The lines as pairs of number and value.
pub open spec fn line_pairs(s: Seq<(line::Key, line::Value)>) -> Seq<(u32, line::LineView)> {
    s.map_values(|p: (line::Key, line::Value)| (p.0.line, p.1@))
}

/// Branch keys strictly increase.
pub open spec fn branches_sorted(s: Seq<(branch::Key, branch::Value)>) -> bool {
    forall|i: int, j: int| 0 <= i < j < s.len() ==> branch::key_lt(#[trigger] s[i].0, #[trigger] s[j].0)
}

/// Line numbers strictly increase.
pub open spec fn lines_sorted(s: Seq<(line::Key, line::Value)>) -> bool {
    forall|i: int, j: int| 0 <= i < j < s.len() ==> #[trigger] s[i].0.line < #[trigger] s[j].0.line
}

proof fn lemma_branches_unique(s: Seq<(branch::Key, branch::Value)>)
    requires
        branches_sorted(s),
    ensures
        keys_unique(s),
{
    assert forall|i: int, j: int| 0 <= i < j < s.len() implies #[trigger] s[i].0 != #[trigger] s[j].0 by {
        assert(branch::key_lt(s[i].0, s[j].0));
    }
}

proof fn lemma_lines_unique(s: Seq<(line::Key, line::Value)>)
    requires
        lines_sorted(s),
    ensures
        keys_unique(line_pairs(s)),
{
    let t = line_pairs(s);
    assert forall|i: int, j: int| 0 <= i < j < t.len() implies #[trigger] t[i].0 != #[trigger] t[j].0 by {
        assert(s[i].0.line < s[j].0.line);
    }
}

/// The coverage of one source file under one test.
#[derive(Debug, Clone, PartialEq, Eq)]
pub struct Value {
    functions: Vec<(function::Key, function::Value)>,
    branches: Vec<(branch::Key, branch::Value)>,
    lines: Vec<(line::Key, line::Value)>,
}

/// A section, identified by test name and source file.
#[derive(Debug, Clone, PartialEq, Eq, PartialOrd, Ord, Hash)]
pub struct Key {
    pub test_name: String,
    pub source_file: String,
}

impl View for Value {
    type V = SectionView;

    closed spec fn view(&self) -> SectionView {
        SectionView {
            functions: map_of(function_pairs(self.functions@)),
            branches: map_of(self.branches@),
            lines: map_of(line_pairs(self.lines@)),
        }
    }
}

impl Value {
    /// The entries are stored consistently: function names unique, branches
    /// and lines sorted by key.
    pub closed spec fn wf(&self) -> bool {
        &&& keys_unique(function_pairs(self.functions@))
        &&& branches_sorted(self.branches@)
        &&& lines_sorted(self.lines@)
    }

    /// Creates a section with no coverage information.
    pub fn new() -> (r: Value)
        ensures
            r.wf(),
            r@ == Self::new_view(),
    {
        let r = Value { functions: Vec::new(), branches: Vec::new(), lines: Vec::new() };
        proof {
            assert(function_pairs(r.functions@) =~= Seq::empty());
            assert(line_pairs(r.lines@) =~= Seq::empty());
            assert(r@.functions =~= Map::empty());
            assert(r@.branches =~= Map::empty());
            assert(r@.lines =~= Map::empty());
        }
        r
    }

    /// The view of a section with no coverage information.
    pub open spec fn new_view() -> SectionView {
        SectionView { functions: Map::empty(), branches: Map::empty(), lines: Map::empty() }
    }

    /// Returns `true` if `self` has no coverage information.
    pub fn is_empty(&self) -> (r: bool)
        requires
            self.wf(),
        ensures
            r == view_is_empty(self@),
    {
        proof {
            if self.functions@.len() > 0 {
                lemma_map_of_index(function_pairs(self.functions@), 0);
            }
            if self.branches@.len() > 0 {
                lemma_branches_unique(self.branches@);
                lemma_map_of_index(self.branches@, 0);
            }
            if self.lines@.len() > 0 {
                lemma_lines_unique(self.lines@);
                lemma_map_of_index(line_pairs(self.lines@), 0);
            }
            if self.functions@.len() == 0 {
                assert(function_pairs(self.functions@) =~= Seq::empty());
                assert(self@.functions =~= Map::empty());
            }
            if self.branches@.len() == 0 {
                assert(self@.branches =~= Map::empty());
            }
            if self.lines@.len() == 0 {
                assert(line_pairs(self.lines@) =~= Seq::empty());
                assert(self@.lines =~= Map::empty());
            }
        }
        self.functions.len() == 0 && self.branches.len() == 0 && self.lines.len() == 0
    }
}


impl Value {
    /// Merges `v` into the function named by `key`, creating the entry if
    /// the section has none.
    ///
    /// In strict mode two different start lines are an error and leave the
    /// section as it was; in lossy mode the incoming start line wins.
    pub fn merge_function(&mut self, key: function::Key, v: function::Value, lossy: bool) -> (r: Result<(), MergeError>)
        requires
            old(self).wf(),
        ensures
            final(self).wf(),
            match with_function(old(self)@, key.name@, v, lossy) {
                Some(t) => r is Ok && final(self)@ == t,
                None => r == Err::<(), MergeError>(MergeError::UnmatchedFunctionLine)
                    && final(self)@ == old(self)@,
            },
    {
        let ghost s = function_pairs(self.functions@);
        let n = self.functions.len();
        let mut i: usize = 0;
        while i < n
            invariant
                *self == *old(self),
                self.wf(),
                n == self.functions@.len(),
                s == function_pairs(self.functions@),
                0 <= i <= n,
                forall|j: int| 0 <= j < i ==> #[trigger] s[j].0 != key.name@,
            decreases n - i,
        {
            if self.functions[i].0.name.eq(&key.name) {
                proof {
                    lemma_map_of_index(s, i as int);
                }
                let mut cur = self.functions[i].1;
                if lossy {
                    cur.merge_lossy(v);
                } else {
                    match cur.merge(v) {
                        Ok(()) => {},
                        Err(e) => {
                            return Err(e);
                        },
                    }
                }
                let ghost before = self.functions@;
                let entry = &mut self.functions[i];
                entry.1 = cur;
                proof {
                    assert(function_pairs(self.functions@) =~= s.update(i as int, (s[i as int].0, cur)));
                    lemma_map_of_update(s, i as int, cur);
                    assert(self@.functions == old(self)@.functions.insert(key.name@, cur));
                    assert(self@ == SectionView { functions: old(self)@.functions.insert(key.name@, cur), ..old(self)@ });
                }
                return Ok(());
            }
            i = i + 1;
        }
        proof {
            assert(!has_key(s, key.name@));
            assert(!old(self)@.functions.contains_key(key.name@));
        }
        let ghost name = key.name@;
        self.functions.push((key, v));
        proof {
            assert(function_pairs(self.functions@) =~= s.push((name, v)));
            lemma_map_of_push(s, name, v);
        }
        Ok(())
    }
}

impl Value {
    /// Merges `v` into the branch `key`, creating the entry if the section
    /// has none.
    pub fn merge_branch(&mut self, key: branch::Key, v: branch::Value)
        requires
            old(self).wf(),
        ensures
            final(self).wf(),
            final(self)@ == with_branch(old(self)@, key, v),
    {
        let ghost s = self.branches@;
        proof {
            lemma_branches_unique(s);
        }
        let n = self.branches.len();
        let mut lo: usize = 0;
        let mut hi: usize = n;
        while lo < hi
            invariant
                *self == *old(self),
                self.wf(),
                s == self.branches@,
                n == s.len(),
                0 <= lo <= hi <= n,
                forall|i: int| 0 <= i < lo ==> branch::key_lt(#[trigger] s[i].0, key),
                forall|i: int| hi <= i < n ==> !branch::key_lt(#[trigger] s[i].0, key),
            decreases hi - lo,
        {
            let mid = lo + (hi - lo) / 2;
            if branch::compare_keys(&self.branches[mid].0, &key) < 0 {
                proof {
                    assert forall|i: int| 0 <= i <= mid implies branch::key_lt(#[trigger] s[i].0, key) by {
                        if i < mid {
                            assert(branch::key_lt(s[i].0, s[mid as int].0));
                        }
                    }
                }
                lo = mid + 1;
            } else {
                proof {
                    assert forall|i: int| mid <= i < n implies !branch::key_lt(#[trigger] s[i].0, key) by {
                        if i > mid {
                            assert(branch::key_lt(s[mid as int].0, s[i].0));
                        }
                    }
                }
                hi = mid;
            }
        }
        if lo < n && branch::compare_keys(&self.branches[lo].0, &key) == 0 {
            proof {
                lemma_map_of_index(s, lo as int);
            }
            let entry = &mut self.branches[lo];
            entry.1.merge(v);
            proof {
                lemma_map_of_update(s, lo as int, branch::merge_spec(s[lo as int].1, v));
                assert(self.branches@ =~= s.update(lo as int, (key, branch::merge_spec(s[lo as int].1, v))));
                assert forall|i: int, j: int| 0 <= i < j < self.branches@.len() implies branch::key_lt(#[trigger] self.branches@[i].0, #[trigger] self.branches@[j].0) by {
                    assert(branch::key_lt(s[i].0, s[j].0));
                }
            }
        } else {
            proof {
                assert forall|i: int| 0 <= i < n implies #[trigger] s[i].0 != key by {
                    if i >= lo && lo < n && i > lo {
                        assert(branch::key_lt(s[lo as int].0, s[i].0));
                    }
                }
                assert(!has_key(s, key));
                lemma_map_of_insert(s, lo as int, key, v);
                assert(branch::merge_spec(branch::Value { taken: None }, v) == v) by {
                    if v.taken is Some {
                        assert(sat_add(0, v.taken->0) == v.taken->0);
                    }
                }
            }
            self.branches.insert(lo, (key, v));
            proof {
                let t = self.branches@;
                assert forall|i: int, j: int| 0 <= i < j < t.len() implies branch::key_lt(#[trigger] t[i].0, #[trigger] t[j].0) by {
                    if j < lo {
                        assert(branch::key_lt(s[i].0, s[j].0));
                    } else if j == lo {
                    } else if i < lo {
                        assert(branch::key_lt(s[i].0, s[j - 1].0));
                    } else if i == lo {
                        assert(!branch::key_lt(s[j - 1].0, key));
                        assert(s[j - 1].0 != key);
                    } else {
                        assert(branch::key_lt(s[i - 1].0, s[j - 1].0));
                    }
                }
            }
        }
    }

    /// Merges `v` into line `key`, creating the entry if the section has
    /// none.
    ///
    /// In strict mode two different checksums are an error and leave the
    /// section as it was; in lossy mode the incoming checksum wins.
    pub fn merge_line(&mut self, key: line::Key, v: line::Value, lossy: bool) -> (r: Result<(), MergeError>)
        requires
            old(self).wf(),
        ensures
            final(self).wf(),
            match with_line(old(self)@, key.line, v@, lossy) {
                Some(t) => r is Ok && final(self)@ == t,
                None => r == Err::<(), MergeError>(MergeError::UnmatchedChecksum)
                    && final(self)@ == old(self)@,
            },
    {
        let ghost s = self.lines@;
        let ghost sp = line_pairs(s);
        proof {
            lemma_lines_unique(s);
        }
        let n = self.lines.len();
        let mut lo: usize = 0;
        let mut hi: usize = n;
        while lo < hi
            invariant
                *self == *old(self),
                self.wf(),
                s == self.lines@,
                n == s.len(),
                0 <= lo <= hi <= n,
                forall|i: int| 0 <= i < lo ==> #[trigger] s[i].0.line < key.line,
                forall|i: int| hi <= i < n ==> #[trigger] s[i].0.line >= key.line,
            decreases hi - lo,
        {
            let mid = lo + (hi - lo) / 2;
            if self.lines[mid].0.line < key.line {
                proof {
                    assert forall|i: int| 0 <= i <= mid implies #[trigger] s[i].0.line < key.line by {
                        if i < mid {
                            assert(s[i].0.line < s[mid as int].0.line);
                        }
                    }
                }
                lo = mid + 1;
            } else {
                proof {
                    assert forall|i: int| mid <= i < n implies #[trigger] s[i].0.line >= key.line by {
                        if i > mid {
                            assert(s[mid as int].0.line < s[i].0.line);
                        }
                    }
                }
                hi = mid;
            }
        }
        if lo < n && self.lines[lo].0.line == key.line {
            proof {
                lemma_map_of_index(sp, lo as int);
            }
            let entry = &mut self.lines[lo];
            if lossy {
                entry.1.merge_lossy(v);
            } else {
                let res = entry.1.merge(v);
                if res.is_err() {
                    proof {
                        assert(self.lines@ =~= s);
                    }
                    return Err(MergeError::UnmatchedChecksum);
                }
            }
            proof {
                let w = self.lines@[lo as int].1@;
                assert(line_pairs(self.lines@) =~= sp.update(lo as int, (key.line, w)));
                lemma_map_of_update(sp, lo as int, w);
                assert forall|i: int, j: int| 0 <= i < j < self.lines@.len() implies #[trigger] self.lines@[i].0.line < #[trigger] self.lines@[j].0.line by {
                    assert(s[i].0.line < s[j].0.line);
                }
            }
            Ok(())
        } else {
            proof {
                assert forall|i: int| 0 <= i < n implies #[trigger] sp[i].0 != key.line by {
                    if i >= lo && lo < n && i > lo {
                        assert(s[lo as int].0.line < s[i].0.line);
                    }
                }
                assert(!has_key(sp, key.line));
                lemma_map_of_insert(sp, lo as int, key.line, v@);
                assert(sat_add(0, v.count) == v.count);
            }
            let ghost vv = v@;
            self.lines.insert(lo, (key, v));
            proof {
                let t = self.lines@;
                assert(line_pairs(t) =~= sp.insert(lo as int, (key.line, vv)));
                assert forall|i: int, j: int| 0 <= i < j < t.len() implies #[trigger] t[i].0.line < #[trigger] t[j].0.line by {
                    if j < lo {
                        assert(s[i].0.line < s[j].0.line);
                    } else if j == lo {
                    } else if i < lo {
                        assert(s[i].0.line < s[j - 1].0.line);
                    } else if i == lo {
                        assert(s[j - 1].0.line != key.line);
                    } else {
                        assert(s[i - 1].0.line < s[j - 1].0.line);
                    }
                }
            }
            Ok(())
        }
    }
}

impl Value {
    /// Takes the section apart: functions with unique names, and branches
    /// and lines sorted by key, holding what the section holds.
    pub fn into_parts(self) -> (r: (
        Vec<(function::Key, function::Value)>,
        Vec<(branch::Key, branch::Value)>,
        Vec<(line::Key, line::Value)>,
    ))
        requires
            self.wf(),
        ensures
            keys_unique(function_pairs(r.0@)),
            map_of(function_pairs(r.0@)) == self@.functions,
            branches_sorted(r.1@),
            map_of(r.1@) == self@.branches,
            lines_sorted(r.2@),
            map_of(line_pairs(r.2@)) == self@.lines,
    {
        (self.functions, self.branches, self.lines)
    }
}

impl Value {
    /// Builds a section from its parts.
    pub fn from_parts(
        functions: Vec<(function::Key, function::Value)>,
        branches: Vec<(branch::Key, branch::Value)>,
        lines: Vec<(line::Key, line::Value)>,
    ) -> (r: Value)
        requires
            keys_unique(function_pairs(functions@)),
            branches_sorted(branches@),
            lines_sorted(lines@),
        ensures
            r.wf(),
            r@.functions == map_of(function_pairs(functions@)),
            r@.branches == map_of(branches@),
            r@.lines == map_of(line_pairs(lines@)),
    {
        Value { functions, branches, lines }
    }
}
impl Value {
    /// Each map of a well-formed section can be listed in output order.
    pub proof fn lemma_listable(&self)
        requires
            self.wf(),
        ensures
            crate::replay::listable(self@),
    {
        let fp = function_pairs(self.functions@);
        let m = map_of(fp);
        crate::assoc::lemma_map_of_finite(fp);
        let lt = |a: (Seq<char>, function::Value), b: (Seq<char>, function::Value)| crate::output::function_before(a, b);
        assert forall|a: (Seq<char>, function::Value)| !#[trigger] lt(a, a) by {
            crate::output::lemma_before_irreflexive(a);
        }
        assert forall|a: (Seq<char>, function::Value), b: (Seq<char>, function::Value), c: (Seq<char>, function::Value)| #[trigger] lt(a, b) && #[trigger] lt(b, c) implies lt(a, c) by {
            crate::output::lemma_before_transitive(a, b, c);
        }
        assert forall|a: (Seq<char>, function::Value), b: (Seq<char>, function::Value)| a.0 != b.0 implies #[trigger] lt(a, b) || lt(b, a) by {
            crate::output::lemma_before_total(a, b);
        }
        crate::assoc::lemma_sorted_listing_exists(m, lt);
        let w = choose|s: Seq<(Seq<char>, function::Value)>| keys_unique(s) && crate::assoc::sorted_by(s, lt) && map_of(s) == m;
        assert(crate::output::functions_ordered(w) && map_of(w) == m) by {
            assert forall|i: int, j: int| 0 <= i < j < w.len() implies crate::output::function_before(#[trigger] w[i], #[trigger] w[j]) by {
                assert(lt(w[i], w[j]));
            }
        }
        crate::output::lemma_ordered_branches(self.branches@);
        let lp = line_pairs(self.lines@);
        assert forall|i: int, j: int| 0 <= i < j < lp.len() implies #[trigger] lp[i].0 < #[trigger] lp[j].0 by {
            assert(self.lines@[i].0.line < self.lines@[j].0.line);
        }
        crate::output::lemma_ordered_lines(lp);
    }
}

} // verus!
