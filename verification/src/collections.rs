//! Finite sets and maps kept in vectors, modelled by the views of the stored
//! values: a vector of distinct values stands for a `Set`, a vector of pairs
//! with distinct keys stands for a `Map`.

use vstd::prelude::*;
use crate::element::Element;

verus! {

// ---------------------------------------------------------------------------
// Vectors as sets
// ---------------------------------------------------------------------------

/// No two values of the sequence have the same view.
pub open spec fn distinct_views<T: View>(s: Seq<T>) -> bool {
    forall|i: int, j: int|
        0 <= i < s.len() && 0 <= j < s.len() && i != j ==> #[trigger] s[i]@ != #[trigger] s[j]@
}

/// The values that a sequence of references points to.
pub open spec fn deref_seq<T>(s: Seq<&T>) -> Seq<T> {
    s.map_values(|x: &T| *x)
}

/// Some value of the sequence has view `v`.
pub open spec fn has_view<T: View>(s: Seq<T>, v: T::V) -> bool {
    exists|i: int| 0 <= i < s.len() && #[trigger] s[i]@ == v
}

/// The set of the views of the values of a sequence.
pub open spec fn view_set<T: View>(s: Seq<T>) -> Set<T::V> {
    Set::new(|v: T::V| has_view(s, v))
}

/// The position of a value with the given view, if any.
pub fn find_value<T: Element>(values: &Vec<T>, x: &T) -> (r: Option<usize>)
    ensures
        match r {
            Some(i) => i < values.len() && values@[i as int]@ == x@,
            None => !has_view(values@, x@),
        },
{
    let mut i: usize = 0;
    while i < values.len()
        invariant
            i <= values.len(),
            forall|j: int| 0 <= j < i ==> #[trigger] values@[j]@ != x@,
        decreases values.len() - i,
    {
        if values[i].same_value(x) {
            return Some(i);
        }
        i += 1;
    }
    None
}

/// Appending a value whose view is new keeps the views distinct and adds the
/// view to the set.
pub proof fn lemma_view_set_push<T: View>(s: Seq<T>, x: T)
    requires
        distinct_views(s),
        !has_view(s, x@),
    ensures
        distinct_views(s.push(x)),
        view_set(s.push(x)) == view_set(s).insert(x@),
{
    let t = s.push(x);
    assert forall|i: int, j: int|
        0 <= i < t.len() && 0 <= j < t.len() && i != j implies #[trigger] t[i]@ != #[trigger] t[j]@ by {
        if i < s.len() && j < s.len() {
            assert(t[i] == s[i] && t[j] == s[j]);
        } else if i < s.len() {
            assert(t[i] == s[i]);
        } else {
            assert(t[j] == s[j]);
        }
    }
    assert forall|v: T::V| view_set(t).contains(v) <==> view_set(s).insert(x@).contains(v) by {
        if has_view(s, v) {
            let i = choose|i: int| 0 <= i < s.len() && #[trigger] s[i]@ == v;
            assert(t[i] == s[i]);
        }
        if has_view(t, v) && v != x@ {
            let i = choose|i: int| 0 <= i < t.len() && #[trigger] t[i]@ == v;
            assert(i < s.len());
            assert(s[i] == t[i]);
        }
        if v == x@ {
            assert(t[s.len() as int] == x);
        }
    }
    assert(view_set(t) =~= view_set(s).insert(x@));
}

/// The views of a prefix one longer than another are those of the shorter
/// prefix and the next value.
pub proof fn lemma_view_set_take<T: View>(s: Seq<T>, j: int)
    requires
        0 <= j < s.len(),
    ensures
        view_set(s.take(j + 1)) == view_set(s.take(j)).insert(s[j]@),
        s.take(j + 1) == s.take(j).push(s[j]),
{
    assert(s.take(j + 1) =~= s.take(j).push(s[j]));
    let a = s.take(j);
    let b = s.take(j + 1);
    assert forall|v: T::V| view_set(b).contains(v) <==> view_set(a).insert(s[j]@).contains(v) by {
        if has_view(a, v) {
            let i = choose|i: int| 0 <= i < a.len() && #[trigger] a[i]@ == v;
            assert(b[i] == a[i]);
        }
        if has_view(b, v) && v != s[j]@ {
            let i = choose|i: int| 0 <= i < b.len() && #[trigger] b[i]@ == v;
            assert(i < j);
            assert(a[i] == b[i]);
        }
        if v == s[j]@ {
            assert(b[j] == s[j]);
        }
    }
    assert(view_set(b) =~= view_set(a).insert(s[j]@));
}

/// A sequence of distinct views has as many values as its set of views.
pub proof fn lemma_view_set_len<T: View>(s: Seq<T>)
    requires
        distinct_views(s),
    ensures
        view_set(s).finite(),
        view_set(s).len() == s.len(),
    decreases s.len(),
{
    if s.len() == 0 {
        assert(view_set(s) =~= Set::empty());
    } else {
        let t = s.drop_last();
        assert(s =~= t.push(s.last()));
        assert(distinct_views(t)) by {
            assert forall|i: int, j: int|
                0 <= i < t.len() && 0 <= j < t.len() && i != j implies #[trigger] t[i]@
                    != #[trigger] t[j]@ by {
                assert(t[i] == s[i] && t[j] == s[j]);
            }
        }
        assert(!has_view(t, s.last()@)) by {
            if has_view(t, s.last()@) {
                let i = choose|i: int| 0 <= i < t.len() && #[trigger] t[i]@ == s.last()@;
                assert(t[i] == s[i]);
                assert(s[i]@ == s[s.len() - 1]@);
            }
        }
        lemma_view_set_len(t);
        lemma_view_set_push(t, s.last());
    }
}

/// A copy of a vector of values.
pub fn copy_values<T: Element>(a: &Vec<T>) -> (r: Vec<T>)
    ensures
        r@.len() == a@.len(),
        forall|i: int| 0 <= i < a@.len() ==> #[trigger] r@[i]@ == a@[i]@,
        view_set(r@) == view_set(a@),
        distinct_views(a@) ==> distinct_views(r@),
{
    let mut r: Vec<T> = Vec::new();
    let mut i: usize = 0;
    while i < a.len()
        invariant
            i <= a.len(),
            r@.len() == i,
            forall|j: int| 0 <= j < i ==> #[trigger] r@[j]@ == a@[j]@,
        decreases a.len() - i,
    {
        r.push(a[i].copy_value());
        i += 1;
    }
    assert forall|v: T::V| view_set(r@).contains(v) <==> view_set(a@).contains(v) by {
        if has_view(r@, v) {
            let j = choose|j: int| 0 <= j < r@.len() && #[trigger] r@[j]@ == v;
            assert(a@[j]@ == v);
        }
        if has_view(a@, v) {
            let j = choose|j: int| 0 <= j < a@.len() && #[trigger] a@[j]@ == v;
            assert(r@[j]@ == v);
        }
    }
    assert(view_set(r@) =~= view_set(a@));
    assert(distinct_views(a@) ==> distinct_views(r@)) by {
        if distinct_views(a@) {
            assert forall|i: int, j: int|
                0 <= i < r@.len() && 0 <= j < r@.len() && i != j implies #[trigger] r@[i]@
                    != #[trigger] r@[j]@ by {
                assert(a@[i]@ != a@[j]@);
            }
        }
    }
    r
}

/// Adds a value to a vector of distinct values unless one with the same view
/// is already there.
pub fn insert_value<T: Element>(values: &mut Vec<T>, x: T)
    requires
        distinct_views(old(values)@),
    ensures
        distinct_views(final(values)@),
        view_set(final(values)@) == view_set(old(values)@).insert(x@),
{
    match find_value(values, &x) {
        Some(i) => {
            proof {
                assert(view_set(values@).contains(x@));
                assert(view_set(values@).insert(x@) =~= view_set(values@));
            }
        },
        None => {
            proof {
                lemma_view_set_push(values@, x);
            }
            values.push(x);
        },
    }
}

/// Removes the value with the view of `x`, if there is one.
pub fn remove_value<T: Element>(values: &mut Vec<T>, x: &T)
    requires
        distinct_views(old(values)@),
    ensures
        distinct_views(final(values)@),
        view_set(final(values)@) == view_set(old(values)@).remove(x@),
{
    match find_value(values, x) {
        Some(i) => {
            let ghost s = values@;
            values.remove(i);
            proof {
                let t = values@;
                assert(t == s.remove(i as int));
                assert forall|a: int, b: int|
                    0 <= a < t.len() && 0 <= b < t.len() && a != b implies #[trigger] t[a]@
                        != #[trigger] t[b]@ by {
                    let sa = if a < i { a } else { a + 1 };
                    let sb = if b < i { b } else { b + 1 };
                    assert(t[a] == s[sa] && t[b] == s[sb]);
                }
                assert forall|v: T::V| view_set(t).contains(v) <==> view_set(s).remove(x@).contains(
                    v,
                ) by {
                    if has_view(t, v) {
                        let a = choose|a: int| 0 <= a < t.len() && #[trigger] t[a]@ == v;
                        let sa = if a < i { a } else { a + 1 };
                        assert(t[a] == s[sa]);
                        assert(sa != i);
                    }
                    if has_view(s, v) && v != x@ {
                        let a = choose|a: int| 0 <= a < s.len() && #[trigger] s[a]@ == v;
                        let ta = if a < i { a } else { a - 1 };
                        assert(t[ta] == s[a]);
                    }
                }
                assert(view_set(t) =~= view_set(s).remove(x@));
            }
        },
        None => {
            proof {
                assert(!view_set(values@).contains(x@));
                assert(view_set(values@).remove(x@) =~= view_set(values@));
            }
        },
    }
}

/// The union of two vectors of distinct values.
pub fn union_values<T: Element>(a: &Vec<T>, b: &Vec<T>) -> (r: Vec<T>)
    requires
        distinct_views(a@),
    ensures
        distinct_views(r@),
        view_set(r@) == view_set(a@).union(view_set(b@)),
{
    let mut r = copy_values(a);
    let mut j: usize = 0;
    while j < b.len()
        invariant
            j <= b.len(),
            distinct_views(r@),
            view_set(r@) == view_set(a@).union(view_set(b@.take(j as int))),
        decreases b.len() - j,
    {
        proof {
            lemma_view_set_take(b@, j as int);
        }
        insert_value(&mut r, b[j].copy_value());
        j += 1;
        proof {
            assert(view_set(r@) =~= view_set(a@).union(view_set(b@.take(j as int))));
        }
    }
    assert(b@.take(b@.len() as int) =~= b@);
    r
}

/// The values of `a` whose views are not those of values of `b`.
pub fn difference_values<T: Element>(a: &Vec<T>, b: &Vec<T>) -> (r: Vec<T>)
    requires
        distinct_views(a@),
    ensures
        distinct_views(r@),
        view_set(r@) == view_set(a@).difference(view_set(b@)),
{
    let mut r: Vec<T> = Vec::new();
    let mut i: usize = 0;
    while i < a.len()
        invariant
            i <= a.len(),
            distinct_views(a@),
            distinct_views(r@),
            view_set(r@) == view_set(a@.take(i as int)).difference(view_set(b@)),
        decreases a.len() - i,
    {
        proof {
            lemma_view_set_take(a@, i as int);
        }
        if find_value(b, &a[i]).is_none() {
            proof {
                assert(!has_view(r@, a@[i as int]@)) by {
                    if has_view(r@, a@[i as int]@) {
                        let k = choose|k: int| 0 <= k < r@.len() && #[trigger] r@[k]@ == a@[i as int]@;
                        assert(view_set(r@).contains(r@[k]@));
                        let m = choose|m: int| 0 <= m < a@.take(i as int).len() && #[trigger] a@.take(i as int)[m]@ == a@[i as int]@;
                        assert(a@.take(i as int)[m] == a@[m]);
                    }
                }
            }
            let x = a[i].copy_value();
            proof {
                lemma_view_set_push(r@, x);
            }
            r.push(x);
        } else {
            proof {
                assert(view_set(b@).contains(a@[i as int]@));
            }
        }
        i += 1;
        proof {
            assert(view_set(r@) =~= view_set(a@.take(i as int)).difference(view_set(b@)));
        }
    }
    assert(a@.take(a@.len() as int) =~= a@);
    r
}

/// Whether two vectors of distinct values hold the same set of views.
pub fn same_values<T: Element>(a: &Vec<T>, b: &Vec<T>) -> (r: bool)
    ensures
        r == (view_set(a@) == view_set(b@)),
{
    let mut i: usize = 0;
    while i < a.len()
        invariant
            i <= a.len(),
            forall|j: int| 0 <= j < i ==> #[trigger] has_view(b@, a@[j]@),
        decreases a.len() - i,
    {
        if find_value(b, &a[i]).is_none() {
            proof {
                assert(view_set(a@).contains(a@[i as int]@));
                assert(!view_set(b@).contains(a@[i as int]@));
            }
            return false;
        }
        i += 1;
    }
    let mut j: usize = 0;
    while j < b.len()
        invariant
            j <= b.len(),
            forall|k: int| 0 <= k < a.len() ==> #[trigger] has_view(b@, a@[k]@),
            forall|k: int| 0 <= k < j ==> #[trigger] has_view(a@, b@[k]@),
        decreases b.len() - j,
    {
        if find_value(a, &b[j]).is_none() {
            proof {
                assert(view_set(b@).contains(b@[j as int]@));
                assert(!view_set(a@).contains(b@[j as int]@));
            }
            return false;
        }
        j += 1;
    }
    assert forall|v: T::V| view_set(a@).contains(v) <==> view_set(b@).contains(v) by {
        if has_view(a@, v) {
            let k = choose|k: int| 0 <= k < a@.len() && #[trigger] a@[k]@ == v;
            assert(has_view(b@, a@[k]@));
        }
        if has_view(b@, v) {
            let k = choose|k: int| 0 <= k < b@.len() && #[trigger] b@[k]@ == v;
            assert(has_view(a@, b@[k]@));
        }
    }
    assert(view_set(a@) =~= view_set(b@));
    true
}

// ---------------------------------------------------------------------------
// Vectors of pairs as maps
// ---------------------------------------------------------------------------

/// No two entries have keys with the same view.
pub open spec fn distinct_keys<K: View, V>(s: Seq<(K, V)>) -> bool {
    forall|i: int, j: int|
        0 <= i < s.len() && 0 <= j < s.len() && i != j ==> #[trigger] s[i].0@ != #[trigger] s[j].0@
}

/// Some entry has a key with view `k`.
pub open spec fn has_key<K: View, V>(s: Seq<(K, V)>, k: K::V) -> bool {
    exists|i: int| 0 <= i < s.len() && #[trigger] s[i].0@ == k
}

/// The position of an entry whose key has view `k`.
pub open spec fn key_index<K: View, V>(s: Seq<(K, V)>, k: K::V) -> int {
    choose|i: int| 0 <= i < s.len() && #[trigger] s[i].0@ == k
}

/// The map from key views to value views that an entry list stands for.
pub open spec fn entries_map<K: View, V: View>(s: Seq<(K, V)>) -> Map<K::V, V::V> {
    Map::new(|k: K::V| has_key(s, k), |k: K::V| s[key_index(s, k)].1@)
}

/// The position of the entry with the given key, if any.
pub fn find_key<K: Element, V>(entries: &Vec<(K, V)>, key: &K) -> (r: Option<usize>)
    ensures
        match r {
            Some(i) => i < entries.len() && entries@[i as int].0@ == key@,
            None => !has_key(entries@, key@),
        },
{
    let mut i: usize = 0;
    while i < entries.len()
        invariant
            i <= entries.len(),
            forall|j: int| 0 <= j < i ==> #[trigger] entries@[j].0@ != key@,
        decreases entries.len() - i,
    {
        if entries[i].0.same_value(key) {
            return Some(i);
        }
        i += 1;
    }
    None
}

/// In a list with distinct keys, the entry found for a key is the one at its
/// position.
pub proof fn lemma_key_index<K: View, V>(s: Seq<(K, V)>, i: int)
    requires
        distinct_keys(s),
        0 <= i < s.len(),
    ensures
        has_key(s, s[i].0@),
        key_index(s, s[i].0@) == i,
{
    assert(s[i].0@ == s[i].0@);
    let j = key_index(s, s[i].0@);
    assert(0 <= j < s.len() && s[j].0@ == s[i].0@);
}

/// The value that an entry list maps a present key to is the value of the
/// entry at the position of that key.
pub proof fn lemma_entries_map_at<K: View, V: View>(s: Seq<(K, V)>, i: int)
    requires
        distinct_keys(s),
        0 <= i < s.len(),
    ensures
        entries_map(s).dom().contains(s[i].0@),
        entries_map(s)[s[i].0@] == s[i].1@,
{
    lemma_key_index(s, i);
}

/// Appending an entry with a new key adds that key to the map.
pub proof fn lemma_entries_map_push<K: View, V: View>(s: Seq<(K, V)>, e: (K, V))
    requires
        distinct_keys(s),
        !has_key(s, e.0@),
    ensures
        distinct_keys(s.push(e)),
        entries_map(s.push(e)) == entries_map(s).insert(e.0@, e.1@),
{
    let t = s.push(e);
    assert forall|i: int, j: int|
        0 <= i < t.len() && 0 <= j < t.len() && i != j implies #[trigger] t[i].0@
            != #[trigger] t[j].0@ by {
        if i < s.len() && j < s.len() {
            assert(t[i] == s[i] && t[j] == s[j]);
        } else if i < s.len() {
            assert(t[i] == s[i]);
        } else {
            assert(t[j] == s[j]);
        }
    }
    let m = entries_map(s).insert(e.0@, e.1@);
    assert forall|k: K::V| #[trigger] entries_map(t).dom().contains(k) <==> m.dom().contains(k) by {
        if has_key(s, k) {
            let i = choose|i: int| 0 <= i < s.len() && #[trigger] s[i].0@ == k;
            assert(t[i] == s[i]);
        }
        if has_key(t, k) && k != e.0@ {
            let i = choose|i: int| 0 <= i < t.len() && #[trigger] t[i].0@ == k;
            assert(i < s.len());
            assert(s[i] == t[i]);
        }
        if k == e.0@ {
            assert(t[s.len() as int] == e);
        }
    }
    assert forall|k: K::V| #[trigger] entries_map(t).dom().contains(k) implies entries_map(t)[k]
        == m[k] by {
        let i = choose|i: int| 0 <= i < t.len() && #[trigger] t[i].0@ == k;
        lemma_key_index(t, i);
        if i < s.len() {
            assert(t[i] == s[i]);
            lemma_key_index(s, i);
        } else {
            assert(t[i] == e);
        }
    }
    assert(entries_map(t) =~= m);
}

/// Replacing the entry at the position of a key replaces that key's value.
pub proof fn lemma_entries_map_update<K: View, V: View>(s: Seq<(K, V)>, i: int, e: (K, V))
    requires
        distinct_keys(s),
        0 <= i < s.len(),
        s[i].0@ == e.0@,
    ensures
        distinct_keys(s.update(i, e)),
        entries_map(s.update(i, e)) == entries_map(s).insert(e.0@, e.1@),
{
    let t = s.update(i, e);
    assert forall|a: int, b: int|
        0 <= a < t.len() && 0 <= b < t.len() && a != b implies #[trigger] t[a].0@
            != #[trigger] t[b].0@ by {
        assert(s[a].0@ != s[b].0@);
    }
    let m = entries_map(s).insert(e.0@, e.1@);
    assert forall|k: K::V| #[trigger] entries_map(t).dom().contains(k) <==> m.dom().contains(k) by {
        if has_key(s, k) {
            let j = choose|j: int| 0 <= j < s.len() && #[trigger] s[j].0@ == k;
            assert(t[j].0@ == k);
        }
        if has_key(t, k) {
            let j = choose|j: int| 0 <= j < t.len() && #[trigger] t[j].0@ == k;
            assert(s[j].0@ == k);
        }
        lemma_key_index(s, i);
    }
    assert forall|k: K::V| #[trigger] entries_map(t).dom().contains(k) implies entries_map(t)[k]
        == m[k] by {
        let j = choose|j: int| 0 <= j < t.len() && #[trigger] t[j].0@ == k;
        lemma_key_index(t, j);
        assert(s[j].0@ == k);
        lemma_key_index(s, j);
    }
    assert(entries_map(t) =~= m);
}

/// Removing the entry at a position removes its key from the map.
pub proof fn lemma_entries_map_remove<K: View, V: View>(s: Seq<(K, V)>, i: int)
    requires
        distinct_keys(s),
        0 <= i < s.len(),
    ensures
        distinct_keys(s.remove(i)),
        entries_map(s.remove(i)) == entries_map(s).remove(s[i].0@),
{
    let t = s.remove(i);
    let k0 = s[i].0@;
    assert forall|a: int, b: int|
        0 <= a < t.len() && 0 <= b < t.len() && a != b implies #[trigger] t[a].0@
            != #[trigger] t[b].0@ by {
        let sa = if a < i { a } else { a + 1 };
        let sb = if b < i { b } else { b + 1 };
        assert(t[a] == s[sa] && t[b] == s[sb]);
    }
    let m = entries_map(s).remove(k0);
    assert forall|k: K::V| #[trigger] entries_map(t).dom().contains(k) <==> m.dom().contains(k) by {
        if has_key(s, k) && k != k0 {
            let j = choose|j: int| 0 <= j < s.len() && #[trigger] s[j].0@ == k;
            let tj = if j < i { j } else { j - 1 };
            assert(t[tj] == s[j]);
        }
        if has_key(t, k) {
            let j = choose|j: int| 0 <= j < t.len() && #[trigger] t[j].0@ == k;
            let sj = if j < i { j } else { j + 1 };
            assert(t[j] == s[sj]);
            assert(sj != i);
        }
    }
    assert forall|k: K::V| #[trigger] entries_map(t).dom().contains(k) implies entries_map(t)[k]
        == m[k] by {
        let j = choose|j: int| 0 <= j < t.len() && #[trigger] t[j].0@ == k;
        lemma_key_index(t, j);
        let sj = if j < i { j } else { j + 1 };
        assert(t[j] == s[sj]);
        lemma_key_index(s, sj);
    }
    assert(entries_map(t) =~= m);
}

/// The entries of a prefix one longer than another.
pub proof fn lemma_entries_take<K: View, V: View>(s: Seq<(K, V)>, j: int)
    requires
        distinct_keys(s),
        0 <= j < s.len(),
    ensures
        distinct_keys(s.take(j)),
        !has_key(s.take(j), s[j].0@),
        s.take(j + 1) == s.take(j).push(s[j]),
{
    assert(s.take(j + 1) =~= s.take(j).push(s[j]));
    let t = s.take(j);
    assert forall|a: int, b: int|
        0 <= a < t.len() && 0 <= b < t.len() && a != b implies #[trigger] t[a].0@
            != #[trigger] t[b].0@ by {
        assert(t[a] == s[a] && t[b] == s[b]);
    }
    if has_key(t, s[j].0@) {
        let a = choose|a: int| 0 <= a < t.len() && #[trigger] t[a].0@ == s[j].0@;
        assert(t[a] == s[a]);
    }
}

/// The map of an entry list with distinct keys has one key per entry.
pub proof fn lemma_entries_map_len<K: View, V: View>(s: Seq<(K, V)>)
    requires
        distinct_keys(s),
    ensures
        entries_map(s).dom().finite(),
        entries_map(s).dom().len() == s.len(),
    decreases s.len(),
{
    if s.len() == 0 {
        assert(entries_map(s).dom() =~= Set::empty());
    } else {
        let n = s.len() - 1;
        lemma_entries_take(s, n);
        assert(s.take(n + 1) =~= s);
        lemma_entries_map_len(s.take(n));
        lemma_entries_map_push(s.take(n), s[n]);
    }
}

/// Entry lists whose keys and values have the same views stand for the same
/// map.
pub proof fn lemma_entries_map_congruent<K: View, V: View, K2: View<V = K::V>, V2: View<V = V::V>>(
    s: Seq<(K, V)>,
    t: Seq<(K2, V2)>,
)
    requires
        distinct_keys(s),
        s.len() == t.len(),
        forall|i: int| 0 <= i < s.len() ==> #[trigger] s[i].0@ == t[i].0@ && s[i].1@ == t[i].1@,
    ensures
        distinct_keys(t),
        entries_map(s) == entries_map(t),
{
    assert forall|k: K::V| #[trigger] entries_map(s).dom().contains(k) <==> entries_map(t).dom().contains(k) by {
        if has_key(s, k) {
            let i = choose|i: int| 0 <= i < s.len() && #[trigger] s[i].0@ == k;
            assert(t[i].0@ == k);
        }
        if has_key(t, k) {
            let i = choose|i: int| 0 <= i < t.len() && #[trigger] t[i].0@ == k;
            assert(s[i].0@ == k);
        }
    }
    {
        assert forall|a: int, b: int|
            0 <= a < t.len() && 0 <= b < t.len() && a != b implies #[trigger] t[a].0@
                != #[trigger] t[b].0@ by {
            assert(s[a].0@ != s[b].0@);
        }
        assert forall|k: K::V| #[trigger] entries_map(s).dom().contains(k) implies entries_map(s)[k] == entries_map(t)[k] by {
            let i = choose|i: int| 0 <= i < s.len() && #[trigger] s[i].0@ == k;
            lemma_key_index(s, i);
            assert(t[i].0@ == k);
            lemma_key_index(t, i);
        }
        assert(entries_map(s) =~= entries_map(t));
    }
}

/// References to the keys of an entry list, in order.
pub fn keys_of<K, V>(entries: &Vec<(K, V)>) -> (r: Vec<&K>)
    ensures
        r@.len() == entries@.len(),
        forall|j: int| 0 <= j < r@.len() ==> *#[trigger] r@[j] == entries@[j].0,
{
    let mut r: Vec<&K> = Vec::new();
    let mut i: usize = 0;
    while i < entries.len()
        invariant
            i <= entries.len(),
            r@.len() == i,
            forall|j: int| 0 <= j < i ==> *#[trigger] r@[j] == entries@[j].0,
        decreases entries.len() - i,
    {
        r.push(&entries[i].0);
        i += 1;
    }
    r
}

/// The keys of a list with distinct keys are distinct and are the domain of
/// its map.
pub proof fn keys_of_dom<K: View, V: View>(entries: Seq<(K, V)>, r: Seq<&K>)
    requires
        distinct_keys(entries),
        r.len() == entries.len(),
        forall|j: int| 0 <= j < r.len() ==> *#[trigger] r[j] == entries[j].0,
    ensures
        distinct_views(deref_seq(r)),
        view_set(deref_seq(r)) == entries_map(entries).dom(),
{
    let d = deref_seq(r);
    assert forall|a: int, b: int|
        0 <= a < d.len() && 0 <= b < d.len() && a != b implies #[trigger] d[a]@ != #[trigger] d[b]@ by {
        assert(*r[a] == entries[a].0 && *r[b] == entries[b].0);
    }
    assert forall|k: K::V| view_set(d).contains(k) <==> entries_map(entries).dom().contains(k) by {
        if has_view(d, k) {
            let j = choose|j: int| 0 <= j < d.len() && #[trigger] d[j]@ == k;
            assert(*r[j] == entries[j].0);
            assert(entries[j].0@ == k);
        }
        if has_key(entries, k) {
            let j = choose|j: int| 0 <= j < entries.len() && #[trigger] entries[j].0@ == k;
            assert(*r[j] == entries[j].0);
            assert(d[j]@ == k);
        }
    }
    assert(view_set(d) =~= entries_map(entries).dom());
}

/// Whether two entry lists with distinct keys stand for the same map.
pub fn same_entry_maps<K: Element, V: Element>(a: &Vec<(K, V)>, b: &Vec<(K, V)>) -> (r: bool)
    requires
        distinct_keys(a@),
        distinct_keys(b@),
    ensures
        r == (entries_map(a@) == entries_map(b@)),
{
    let ghost ma = entries_map(a@);
    let ghost mb = entries_map(b@);
    let mut i: usize = 0;
    while i < a.len()
        invariant
            i <= a.len(),
            distinct_keys(a@),
            distinct_keys(b@),
            ma == entries_map(a@),
            mb == entries_map(b@),
            forall|j: int| 0 <= j < i ==> mb.dom().contains((#[trigger] a@[j]).0@) && mb[a@[j].0@]
                == a@[j].1@,
        decreases a.len() - i,
    {
        proof {
            lemma_entries_map_at(a@, i as int);
        }
        match find_key(b, &a[i].0) {
            Some(p) => {
                proof {
                    lemma_entries_map_at(b@, p as int);
                }
                if !b[p].1.same_value(&a[i].1) {
                    return false;
                }
            },
            None => {
                return false;
            },
        }
        i += 1;
    }
    let mut j: usize = 0;
    while j < b.len()
        invariant
            j <= b.len(),
            distinct_keys(a@),
            distinct_keys(b@),
            ma == entries_map(a@),
            mb == entries_map(b@),
            forall|k: int| 0 <= k < j ==> #[trigger] ma.dom().contains(b@[k].0@),
        decreases b.len() - j,
    {
        if find_key(a, &b[j].0).is_none() {
            proof {
                lemma_entries_map_at(b@, j as int);
            }
            return false;
        }
        j += 1;
    }
    proof {
        assert forall|k| #[trigger] ma.dom().contains(k) implies mb.dom().contains(k) && mb[k]
            == ma[k] by {
            let x = choose|x: int| 0 <= x < a@.len() && #[trigger] a@[x].0@ == k;
            lemma_entries_map_at(a@, x);
        }
        assert forall|k| #[trigger] mb.dom().contains(k) implies ma.dom().contains(k) by {
            let x = choose|x: int| 0 <= x < b@.len() && #[trigger] b@[x].0@ == k;
        }
        assert(ma =~= mb);
    }
    true
}

/// A copy of an entry list with distinct keys.
pub fn copy_entry_list<K: Element, V: Element>(a: &Vec<(K, V)>) -> (r: Vec<(K, V)>)
    requires
        distinct_keys(a@),
    ensures
        distinct_keys(r@),
        entries_map(r@) == entries_map(a@),
{
    let mut r: Vec<(K, V)> = Vec::new();
    let mut i: usize = 0;
    while i < a.len()
        invariant
            i <= a.len(),
            r@.len() == i,
            forall|j: int| 0 <= j < i ==> (#[trigger] r@[j]).0@ == a@[j].0@ && r@[j].1@ == a@[j].1@,
        decreases a.len() - i,
    {
        r.push((a[i].0.copy_value(), a[i].1.copy_value()));
        i += 1;
    }
    proof {
        lemma_entries_map_congruent(a@, r@);
    }
    r
}

} // verus!
