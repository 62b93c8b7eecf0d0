//! Association lists: sequences of key/value pairs with unique keys, read as
//! maps.
use vstd::prelude::*;

verus! {

/// No key occurs twice.
pub open spec fn keys_unique<K, V>(s: Seq<(K, V)>) -> bool {
    forall|i: int, j: int| 0 <= i < j < s.len() ==> #[trigger] s[i].0 != #[trigger] s[j].0
}

/// Key `k` occurs in the list.
pub open spec fn has_key<K, V>(s: Seq<(K, V)>, k: K) -> bool {
    exists|i: int| 0 <= i < s.len() && #[trigger] s[i].0 == k
}

/// The map that a list of pairs stands for.
pub open spec fn map_of<K, V>(s: Seq<(K, V)>) -> Map<K, V> {
    Map::new(
        |k: K| has_key(s, k),
        |k: K| s[choose|i: int| 0 <= i < s.len() && #[trigger] s[i].0 == k].1,
    )
}

/// Each pair of a list with unique keys is an entry of its map.
pub proof fn lemma_map_of_index<K, V>(s: Seq<(K, V)>, i: int)
    requires
        keys_unique(s),
        0 <= i < s.len(),
    ensures
        map_of(s).contains_key(s[i].0),
        map_of(s)[s[i].0] == s[i].1,
{
    assert(has_key(s, s[i].0));
    let j = choose|j: int| 0 <= j < s.len() && #[trigger] s[j].0 == s[i].0;
    assert(i == j);
}

/// Replacing the value of the pair at `i` replaces that entry of the map.
pub proof fn lemma_map_of_update<K, V>(s: Seq<(K, V)>, i: int, v: V)
    requires
        keys_unique(s),
        0 <= i < s.len(),
    ensures
        keys_unique(s.update(i, (s[i].0, v))),
        map_of(s.update(i, (s[i].0, v))) == map_of(s).insert(s[i].0, v),
{
    let t = s.update(i, (s[i].0, v));
    assert forall|a: int, b: int| 0 <= a < b < t.len() implies #[trigger] t[a].0
        != #[trigger] t[b].0 by {
        assert(s[a].0 != s[b].0);
    }
    assert forall|k: K| #[trigger] has_key(t, k) == has_key(s, k) by {
        if has_key(t, k) {
            let j = choose|j: int| 0 <= j < t.len() && #[trigger] t[j].0 == k;
            assert(s[j].0 == k);
        }
        if has_key(s, k) {
            let j = choose|j: int| 0 <= j < s.len() && #[trigger] s[j].0 == k;
            assert(t[j].0 == k);
        }
    }
    assert forall|k: K| #[trigger] map_of(t).contains_key(k) implies map_of(t)[k] == map_of(
        s,
    ).insert(s[i].0, v)[k] by {
        let j = choose|j: int| 0 <= j < t.len() && #[trigger] t[j].0 == k;
        lemma_map_of_index(t, j);
        lemma_map_of_index(s, j);
    }
    assert(map_of(t) =~= map_of(s).insert(s[i].0, v));
}

/// Inserting a pair with a new key anywhere adds that entry to the map.
pub proof fn lemma_map_of_insert<K, V>(s: Seq<(K, V)>, p: int, k: K, v: V)
    requires
        keys_unique(s),
        0 <= p <= s.len(),
        !has_key(s, k),
    ensures
        keys_unique(s.insert(p, (k, v))),
        map_of(s.insert(p, (k, v))) == map_of(s).insert(k, v),
{
    let t = s.insert(p, (k, v));
    assert forall|a: int, b: int| 0 <= a < b < t.len() implies #[trigger] t[a].0
        != #[trigger] t[b].0 by {
        if b < p {
            assert(s[a].0 != s[b].0);
        } else if b == p {
            assert(s[a].0 != k);
        } else if a < p {
            assert(s[a].0 != s[b - 1].0);
        } else if a == p {
            assert(s[b - 1].0 != k);
        } else {
            assert(s[a - 1].0 != s[b - 1].0);
        }
    }
    assert forall|x: K| #[trigger] has_key(t, x) == (has_key(s, x) || x == k) by {
        if has_key(t, x) {
            let j = choose|j: int| 0 <= j < t.len() && #[trigger] t[j].0 == x;
            if j < p {
                assert(s[j].0 == x);
            } else if j > p {
                assert(s[j - 1].0 == x);
            }
        }
        if has_key(s, x) {
            let j = choose|j: int| 0 <= j < s.len() && #[trigger] s[j].0 == x;
            if j < p {
                assert(t[j].0 == x);
            } else {
                assert(t[j + 1].0 == x);
            }
        }
        if x == k {
            assert(t[p].0 == x);
        }
    }
    assert forall|x: K| #[trigger] map_of(t).contains_key(x) implies map_of(t)[x] == map_of(
        s,
    ).insert(k, v)[x] by {
        let j = choose|j: int| 0 <= j < t.len() && #[trigger] t[j].0 == x;
        lemma_map_of_index(t, j);
        if j < p {
            lemma_map_of_index(s, j);
        } else if j > p {
            lemma_map_of_index(s, j - 1);
        }
    }
    assert(map_of(t) =~= map_of(s).insert(k, v));
}

/// Appending a pair with a new key adds that entry to the map.
pub proof fn lemma_map_of_push<K, V>(s: Seq<(K, V)>, k: K, v: V)
    requires
        keys_unique(s),
        !has_key(s, k),
    ensures
        keys_unique(s.push((k, v))),
        map_of(s.push((k, v))) == map_of(s).insert(k, v),
{
    lemma_map_of_insert(s, s.len() as int, k, v);
    assert(s.insert(s.len() as int, (k, v)) =~= s.push((k, v)));
}

/// The empty list stands for the empty map.
pub proof fn lemma_map_of_empty<K, V>()
    ensures
        map_of(Seq::<(K, V)>::empty()) == Map::<K, V>::empty(),
{
    assert(map_of(Seq::<(K, V)>::empty()) =~= Map::<K, V>::empty());
}


/// Two lists that are sorted by the same strict order and hold the same
/// elements are equal.
pub proof fn lemma_sorted_same_elements<T>(a: Seq<T>, b: Seq<T>, lt: spec_fn(T, T) -> bool)
    requires
        forall|x: T| !#[trigger] lt(x, x),
        forall|x: T, y: T| #[trigger] lt(x, y) ==> !lt(y, x),
        forall|i: int, j: int| 0 <= i < j < a.len() ==> lt(#[trigger] a[i], #[trigger] a[j]),
        forall|i: int, j: int| 0 <= i < j < b.len() ==> lt(#[trigger] b[i], #[trigger] b[j]),
        forall|x: T| #[trigger] a.contains(x) <==> b.contains(x),
    ensures
        a == b,
    decreases a.len(),
{
    if a.len() == 0 {
        if b.len() > 0 {
            assert(b.contains(b[0]));
            assert(a.contains(b[0]));
        }
        assert(a =~= b);
    } else {
        assert(a.contains(a[0]));
        assert(b.contains(a[0]));
        assert(b.len() > 0);
        assert(b.contains(b[0]));
        assert(a.contains(b[0]));
        let j = choose|j: int| 0 <= j < b.len() && b[j] == a[0];
        let i = choose|i: int| 0 <= i < a.len() && a[i] == b[0];
        if j > 0 && i > 0 {
            assert(lt(b[0], b[j]));
            assert(lt(a[0], a[i]));
        }
        assert(a[0] == b[0]);
        let ta = a.drop_first();
        let tb = b.drop_first();
        assert forall|x: T| #[trigger] ta.contains(x) <==> tb.contains(x) by {
            if ta.contains(x) {
                let k = choose|k: int| 0 <= k < ta.len() && ta[k] == x;
                assert(a[k + 1] == x);
                assert(lt(a[0], a[k + 1]));
                assert(a.contains(x));
                assert(b.contains(x));
                let m = choose|m: int| 0 <= m < b.len() && b[m] == x;
                assert(m != 0);
                assert(tb[m - 1] == x);
            }
            if tb.contains(x) {
                let k = choose|k: int| 0 <= k < tb.len() && tb[k] == x;
                assert(b[k + 1] == x);
                assert(lt(b[0], b[k + 1]));
                assert(b.contains(x));
                assert(a.contains(x));
                let m = choose|m: int| 0 <= m < a.len() && a[m] == x;
                assert(m != 0);
                assert(ta[m - 1] == x);
            }
        }
        assert forall|p: int, q: int| 0 <= p < q < ta.len() implies lt(#[trigger] ta[p], #[trigger] ta[q]) by {
            assert(lt(a[p + 1], a[q + 1]));
        }
        assert forall|p: int, q: int| 0 <= p < q < tb.len() implies lt(#[trigger] tb[p], #[trigger] tb[q]) by {
            assert(lt(b[p + 1], b[q + 1]));
        }
        lemma_sorted_same_elements(ta, tb, lt);
        assert(a =~= seq![a[0]] + ta);
        assert(b =~= seq![b[0]] + tb);
    }
}

/// Two lists with unique keys that stand for the same map hold the same
/// pairs.
pub proof fn lemma_same_map_same_elements<K, V>(a: Seq<(K, V)>, b: Seq<(K, V)>)
    requires
        keys_unique(a),
        keys_unique(b),
        map_of(a) == map_of(b),
    ensures
        forall|x: (K, V)| #[trigger] a.contains(x) <==> b.contains(x),
{
    assert forall|x: (K, V)| #[trigger] a.contains(x) implies b.contains(x) by {
        let i = choose|i: int| 0 <= i < a.len() && a[i] == x;
        lemma_map_of_index(a, i);
        let j = choose|j: int| 0 <= j < b.len() && #[trigger] b[j].0 == x.0;
        lemma_map_of_index(b, j);
        assert(b[j] == x);
    }
    assert forall|x: (K, V)| #[trigger] b.contains(x) implies a.contains(x) by {
        let i = choose|i: int| 0 <= i < b.len() && b[i] == x;
        lemma_map_of_index(b, i);
        let j = choose|j: int| 0 <= j < a.len() && #[trigger] a[j].0 == x.0;
        lemma_map_of_index(a, j);
        assert(a[j] == x);
    }
}

/// The entries of `m` whose keys satisfy `p`.
pub open spec fn keep<K, V>(m: Map<K, V>, p: spec_fn(K) -> bool) -> Map<K, V> {
    Map::new(|k: K| m.contains_key(k) && p(k), |k: K| m[k])
}

/// Extending a prefix by one pair extends what `keep` leaves of its map by
/// that pair, if its key is kept.
pub proof fn lemma_keep_take<K, V>(s: Seq<(K, V)>, i: int, p: spec_fn(K) -> bool)
    requires
        keys_unique(s),
        0 <= i < s.len(),
    ensures
        keys_unique(s.take(i)),
        !has_key(s.take(i), s[i].0),
        keep(map_of(s.take(i + 1)), p) == if p(s[i].0) {
            keep(map_of(s.take(i)), p).insert(s[i].0, s[i].1)
        } else {
            keep(map_of(s.take(i)), p)
        },
{
    let t = s.take(i);
    assert forall|a: int, b: int| 0 <= a < b < t.len() implies #[trigger] t[a].0 != #[trigger] t[b].0 by {
        assert(s[a].0 != s[b].0);
    }
    if has_key(t, s[i].0) {
        let j = choose|j: int| 0 <= j < t.len() && #[trigger] t[j].0 == s[i].0;
        assert(s[j].0 == s[i].0);
    }
    assert(s.take(i + 1) =~= t.push(s[i]));
    lemma_map_of_push(t, s[i].0, s[i].1);
    if p(s[i].0) {
        assert(keep(map_of(s.take(i + 1)), p) =~= keep(map_of(t), p).insert(s[i].0, s[i].1));
    } else {
        assert(keep(map_of(s.take(i + 1)), p) =~= keep(map_of(t), p));
    }
}
/// `x` put into a sorted list before the first element it comes before.
pub open spec fn insert_sorted<T>(s: Seq<T>, x: T, lt: spec_fn(T, T) -> bool) -> Seq<T>
    decreases s.len(),
{
    if s.len() == 0 {
        seq![x]
    } else if lt(x, s[0]) {
        seq![x] + s
    } else {
        seq![s[0]] + insert_sorted(s.drop_first(), x, lt)
    }
}

/// The list is sorted by `lt`.
pub open spec fn sorted_by<T>(s: Seq<T>, lt: spec_fn(T, T) -> bool) -> bool {
    forall|i: int, j: int| 0 <= i < j < s.len() ==> lt(#[trigger] s[i], #[trigger] s[j])
}

proof fn lemma_insert_sorted<T>(s: Seq<T>, x: T, lt: spec_fn(T, T) -> bool)
    requires
        sorted_by(s, lt),
        forall|a: T, b: T, c: T| #[trigger] lt(a, b) && #[trigger] lt(b, c) ==> lt(a, c),
        forall|i: int| 0 <= i < s.len() ==> lt(x, #[trigger] s[i]) || lt(s[i], x),
    ensures
        sorted_by(insert_sorted(s, x, lt), lt),
        insert_sorted(s, x, lt).len() == s.len() + 1,
        forall|z: T| #[trigger] insert_sorted(s, x, lt).contains(z) <==> (s.contains(z) || z == x),
    decreases s.len(),
{
    let t = insert_sorted(s, x, lt);
    if s.len() == 0 {
        assert forall|z: T| #[trigger] t.contains(z) <==> (s.contains(z) || z == x) by {
            assert(t.len() == 1 && t[0] == x);
            if t.contains(z) {
                let i = choose|i: int| 0 <= i < t.len() && t[i] == z;
                assert(i == 0);
            }
            if z == x {
                assert(t[0] == x);
            }
        }
    } else if lt(x, s[0]) {
        assert forall|i: int, j: int| 0 <= i < j < t.len() implies lt(#[trigger] t[i], #[trigger] t[j]) by {
            if i == 0 {
                if j > 1 {
                    assert(lt(s[0], s[j - 1]));
                }
            } else {
                assert(lt(s[i - 1], s[j - 1]));
            }
        }
        assert forall|z: T| #[trigger] t.contains(z) <==> (s.contains(z) || z == x) by {
            if t.contains(z) {
                let i = choose|i: int| 0 <= i < t.len() && t[i] == z;
                if i > 0 {
                    assert(s[i - 1] == z);
                }
            }
            if s.contains(z) {
                let i = choose|i: int| 0 <= i < s.len() && s[i] == z;
                assert(t[i + 1] == z);
            }
            if z == x {
                assert(t[0] == x);
            }
        }
    } else {
        let r = s.drop_first();
        assert(lt(s[0], x));
        assert forall|i: int, j: int| 0 <= i < j < r.len() implies lt(#[trigger] r[i], #[trigger] r[j]) by {
            assert(lt(s[i + 1], s[j + 1]));
        }
        assert forall|i: int| 0 <= i < r.len() implies lt(x, #[trigger] r[i]) || lt(r[i], x) by {
            assert(r[i] == s[i + 1]);
        }
        lemma_insert_sorted(r, x, lt);
        let u = insert_sorted(r, x, lt);
        assert(t == seq![s[0]] + u);
        assert forall|i: int, j: int| 0 <= i < j < t.len() implies lt(#[trigger] t[i], #[trigger] t[j]) by {
            if i == 0 {
                let z = t[j];
                assert(u.contains(z)) by {
                    assert(u[j - 1] == z);
                }
                if r.contains(z) {
                    let k = choose|k: int| 0 <= k < r.len() && r[k] == z;
                    assert(lt(s[0], s[k + 1]));
                }
            } else {
                assert(lt(u[i - 1], u[j - 1]));
            }
        }
        assert forall|z: T| #[trigger] t.contains(z) <==> (s.contains(z) || z == x) by {
            assert(t[0] == s[0]);
            if t.contains(z) {
                let i = choose|i: int| 0 <= i < t.len() && t[i] == z;
                if i > 0 {
                    assert(u[i - 1] == z);
                    assert(u.contains(z));
                    if r.contains(z) {
                        let k = choose|k: int| 0 <= k < r.len() && r[k] == z;
                        assert(s[k + 1] == z);
                    }
                } else {
                    assert(s[0] == z);
                }
            }
            if s.contains(z) {
                let i = choose|i: int| 0 <= i < s.len() && s[i] == z;
                if i == 0 {
                    assert(t[0] == z);
                }
                if i > 0 {
                    assert(r[i - 1] == z);
                    assert(r.contains(z));
                    assert(u.contains(z));
                    let k = choose|k: int| 0 <= k < u.len() && u[k] == z;
                    assert(t[k + 1] == z);
                }
            }
            if z == x {
                assert(u.contains(x));
                let k = choose|k: int| 0 <= k < u.len() && u[k] == x;
                assert(t[k + 1] == x);
            }
        }
    }
}

/// A list with unique keys whose pairs are exactly the entries of `m`
/// stands for `m`.
pub proof fn lemma_map_of_from_elements<K, V>(s: Seq<(K, V)>, m: Map<K, V>)
    requires
        keys_unique(s),
        forall|x: (K, V)| #[trigger] s.contains(x) <==> (m.contains_key(x.0) && m[x.0] == x.1),
    ensures
        map_of(s) == m,
{
    assert forall|k: K| #[trigger] map_of(s).contains_key(k) <==> m.contains_key(k) by {
        if has_key(s, k) {
            let i = choose|i: int| 0 <= i < s.len() && #[trigger] s[i].0 == k;
            assert(s.contains(s[i]));
        }
        if m.contains_key(k) {
            assert(s.contains((k, m[k])));
            let i = choose|i: int| 0 <= i < s.len() && s[i] == (k, m[k]);
            assert(s[i].0 == k);
        }
    }
    assert forall|k: K| #[trigger] map_of(s).contains_key(k) implies map_of(s)[k] == m[k] by {
        let i = choose|i: int| 0 <= i < s.len() && #[trigger] s[i].0 == k;
        lemma_map_of_index(s, i);
        assert(s.contains(s[i]));
    }
    assert(map_of(s) =~= m);
}

/// A finite map can be listed in the order of any strict total order on
/// its entries.
pub proof fn lemma_sorted_listing_exists<K, V>(m: Map<K, V>, lt: spec_fn((K, V), (K, V)) -> bool)
    requires
        m.dom().finite(),
        forall|a: (K, V)| !#[trigger] lt(a, a),
        forall|a: (K, V), b: (K, V), c: (K, V)| #[trigger] lt(a, b) && #[trigger] lt(b, c) ==> lt(a, c),
        forall|a: (K, V), b: (K, V)| a.0 != b.0 ==> #[trigger] lt(a, b) || lt(b, a),
    ensures
        exists|s: Seq<(K, V)>| keys_unique(s) && sorted_by(s, lt) && map_of(s) == m,
    decreases m.dom().len(),
{
    if m.dom().len() == 0 {
        let s = Seq::<(K, V)>::empty();
        assert(m.dom() =~= Set::empty());
        lemma_map_of_from_elements(s, m);
    } else {
        let k = m.dom().choose();
        assert(m.dom().contains(k));
        let m2 = m.remove(k);
        assert(m2.dom() =~= m.dom().remove(k));
        lemma_sorted_listing_exists(m2, lt);
        let s2 = choose|s: Seq<(K, V)>| keys_unique(s) && sorted_by(s, lt) && map_of(s) == m2;
        let x = (k, m[k]);
        assert forall|i: int| 0 <= i < s2.len() implies lt(x, #[trigger] s2[i]) || lt(s2[i], x) by {
            lemma_map_of_index(s2, i);
            assert(s2[i].0 != k);
        }
        lemma_insert_sorted(s2, x, lt);
        let s = insert_sorted(s2, x, lt);
        lemma_same_map_same_elements(s2, s2);
        assert forall|z: (K, V)| #[trigger] s2.contains(z) <==> (m2.contains_key(z.0) && m2[z.0] == z.1) by {
            if s2.contains(z) {
                let i = choose|i: int| 0 <= i < s2.len() && s2[i] == z;
                lemma_map_of_index(s2, i);
            }
            if m2.contains_key(z.0) && m2[z.0] == z.1 {
                let i = choose|i: int| 0 <= i < s2.len() && #[trigger] s2[i].0 == z.0;
                lemma_map_of_index(s2, i);
                assert(s2[i] == z);
            }
        }
        assert forall|a: int, b: int| 0 <= a < b < s.len() implies #[trigger] s[a].0 != #[trigger] s[b].0 by {
            assert(s.contains(s[a]) && s.contains(s[b]));
            if s[a].0 == s[b].0 {
                if s[a] != s[b] {
                    if s[a] == x {
                        assert(s2.contains(s[b]));
                    } else if s[b] == x {
                        assert(s2.contains(s[a]));
                    } else {
                        assert(s2.contains(s[a]) && s2.contains(s[b]));
                    }
                } else {
                    assert(lt(s[a], s[b]));
                }
            }
        }
        assert forall|z: (K, V)| #[trigger] s.contains(z) <==> (m.contains_key(z.0) && m[z.0] == z.1) by {
            if z.0 == k {
                if s2.contains(z) {
                    assert(m2.contains_key(z.0));
                }
            }
        }
        lemma_map_of_from_elements(s, m);
    }
}

/// The map of a list has finitely many keys.
pub proof fn lemma_map_of_finite<K, V>(s: Seq<(K, V)>)
    ensures
        map_of(s).dom().finite(),
{
    let keys = s.map_values(|p: (K, V)| p.0);
    assert(map_of(s).dom() =~= keys.to_set()) by {
        assert forall|k: K| #[trigger] map_of(s).dom().contains(k) implies keys.to_set().contains(k) by {
            let i = choose|i: int| 0 <= i < s.len() && #[trigger] s[i].0 == k;
            assert(keys[i] == k);
        }
        assert forall|k: K| #[trigger] keys.to_set().contains(k) implies map_of(s).dom().contains(k) by {
            let i = choose|i: int| 0 <= i < keys.len() && keys[i] == k;
            assert(s[i].0 == k);
        }
    }
    vstd::seq_lib::seq_to_set_is_finite(keys);
}

/// A list with unique keys has as many pairs as its map has keys.
pub proof fn lemma_map_of_len<K, V>(s: Seq<(K, V)>)
    requires
        keys_unique(s),
    ensures
        map_of(s).dom().len() == s.len(),
    decreases s.len(),
{
    if s.len() == 0 {
        lemma_map_of_empty::<K, V>();
        assert(map_of(s) =~= Map::<K, V>::empty());
    } else {
        let p = s.drop_last();
        assert forall|a: int, b: int| 0 <= a < b < p.len() implies #[trigger] p[a].0 != #[trigger] p[b].0 by {
            assert(s[a].0 != s[b].0);
        }
        if has_key(p, s.last().0) {
            let j = choose|j: int| 0 <= j < p.len() && #[trigger] p[j].0 == s.last().0;
            assert(s[j].0 == s[s.len() - 1].0);
        }
        lemma_map_of_len(p);
        lemma_map_of_finite(p);
        lemma_map_of_push(p, s.last().0, s.last().1);
        assert(p.push(s.last()) =~= s);
        assert(map_of(s).dom() =~= map_of(p).dom().insert(s.last().0));
    }
}

} // verus!
