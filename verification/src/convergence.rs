//! Convergence of joins: the join of a family of states does not depend on
//! the order (or repetition) in which the states are merged, provided the
//! family is coherent, that is, its views are valid and pairwise compatible
//! (also with bottom).

use vstd::prelude::*;
use crate::semilattice::{fold_join, BoundedJoinSemilattice};

verus! {

/// The views are valid and pairwise compatible, also with bottom.
pub open spec fn coherent<L: BoundedJoinSemilattice>(s: Seq<L::V>) -> bool {
    &&& forall|i: int|
        0 <= i < s.len() ==> L::valid(#[trigger] s[i]) && L::compatible(s[i], L::bottom_model())
            && L::compatible(L::bottom_model(), s[i])
    &&& forall|i: int, j: int|
        #![trigger s[i], s[j]]
        0 <= i < s.len() && 0 <= j < s.len() ==> L::compatible(s[i], s[j])
}

/// The joins of the prefixes of a coherent family are valid, compatible with
/// every member and with bottom, and absorb the members they contain.
pub proof fn lemma_fold_prefix<L: BoundedJoinSemilattice>(s: Seq<L::V>, u: int)
    requires
        coherent::<L>(s),
        0 <= u <= s.len(),
    ensures
        s.len() > 0 ==> L::valid(fold_join::<L>(s.take(u))),
        s.len() > 0 ==> L::compatible(fold_join::<L>(s.take(u)), L::bottom_model()),
        s.len() > 0 ==> L::compatible(L::bottom_model(), fold_join::<L>(s.take(u))),
        forall|j: int|
            0 <= j < s.len() ==> L::compatible(fold_join::<L>(s.take(u)), #[trigger] s[j])
                && L::compatible(s[j], fold_join::<L>(s.take(u))),
        forall|j: int|
            0 <= j < u ==> L::join_model(#[trigger] s[j], fold_join::<L>(s.take(u))) == fold_join::<
                L,
            >(s.take(u)),
    decreases u,
{
    if u == 0 {
        assert(s.take(0) =~= Seq::<L::V>::empty());
        if s.len() > 0 {
            L::lemma_unary_laws(s[0]);
            L::lemma_unary_laws(L::bottom_model());
        }
    } else {
        lemma_fold_prefix::<L>(s, u - 1);
        let p = fold_join::<L>(s.take(u - 1));
        let x = s[u - 1];
        assert(s.take(u).drop_last() =~= s.take(u - 1));
        assert(fold_join::<L>(s.take(u)) == L::join_model(p, x));
        let q = L::join_model(p, x);
        L::lemma_unary_laws(x);
        L::lemma_binary_laws(p, x, L::bottom_model());
        assert forall|j: int| 0 <= j < s.len() implies L::compatible(q, #[trigger] s[j])
            && L::compatible(s[j], q) by {
            L::lemma_binary_laws(p, x, s[j]);
        }
        assert forall|j: int| 0 <= j < u implies L::join_model(#[trigger] s[j], q) == q by {
            L::lemma_unary_laws(s[j]);
            if j < u - 1 {
                L::lemma_binary_laws(s[j], p, x);
            } else {
                L::lemma_binary_laws(p, x, x);
                L::lemma_binary_laws(x, p, x);
                L::lemma_binary_laws(x, x, p);
            }
        }
    }
}

/// The join of a coherent family absorbs each member.
pub proof fn lemma_fold_absorbs<L: BoundedJoinSemilattice>(s: Seq<L::V>)
    requires
        coherent::<L>(s),
    ensures
        s.len() > 0 ==> L::valid(fold_join::<L>(s)),
        forall|j: int|
            0 <= j < s.len() ==> L::join_model(#[trigger] s[j], fold_join::<L>(s)) == fold_join::<
                L,
            >(s),
        forall|j: int|
            0 <= j < s.len() ==> L::compatible(fold_join::<L>(s), #[trigger] s[j])
                && L::compatible(s[j], fold_join::<L>(s)),
        s.len() > 0 ==> L::compatible(fold_join::<L>(s), L::bottom_model()),
        s.len() > 0 ==> L::compatible(L::bottom_model(), fold_join::<L>(s)),
{
    lemma_fold_prefix::<L>(s, s.len() as int);
    assert(s.take(s.len() as int) =~= s);
}

/// A valid view compatible with bottom and with every member of a coherent
/// family, that absorbs every member, absorbs the join of every prefix.
proof fn lemma_fold_below<L: BoundedJoinSemilattice>(s: Seq<L::V>, y: L::V, u: int)
    requires
        coherent::<L>(s),
        L::valid(y),
        L::compatible(L::bottom_model(), y),
        L::compatible(y, L::bottom_model()),
        forall|j: int|
            0 <= j < s.len() ==> L::compatible(#[trigger] s[j], y) && L::compatible(y, s[j])
                && L::join_model(s[j], y) == y,
        0 <= u <= s.len(),
    ensures
        L::join_model(fold_join::<L>(s.take(u)), y) == y,
        L::compatible(fold_join::<L>(s.take(u)), y),
        L::compatible(y, fold_join::<L>(s.take(u))),
    decreases u,
{
    L::lemma_unary_laws(y);
    if u == 0 {
        assert(s.take(0) =~= Seq::<L::V>::empty());
        L::lemma_binary_laws(L::bottom_model(), y, y);
        L::lemma_binary_laws(y, y, L::bottom_model());
    } else {
        lemma_fold_below::<L>(s, y, u - 1);
        lemma_fold_prefix::<L>(s, u - 1);
        let p = fold_join::<L>(s.take(u - 1));
        let x = s[u - 1];
        assert(s.take(u).drop_last() =~= s.take(u - 1));
        L::lemma_binary_laws(p, x, y);
    }
}

/// The order of merging does not matter: two coherent families with the
/// same members (in any order and with any repetition) have the same join.
pub proof fn lemma_fold_same_members<L: BoundedJoinSemilattice>(s: Seq<L::V>, t: Seq<L::V>)
    requires
        coherent::<L>(s),
        forall|x: L::V| s.contains(x) <==> t.contains(x),
    ensures
        fold_join::<L>(s) == fold_join::<L>(t),
{
    assert(coherent::<L>(t)) by {
        assert forall|i: int| 0 <= i < t.len() implies L::valid(#[trigger] t[i]) && L::compatible(
            t[i],
            L::bottom_model(),
        ) && L::compatible(L::bottom_model(), t[i]) by {
            assert(t.contains(t[i]));
            let k = choose|k: int| 0 <= k < s.len() && s[k] == t[i];
        }
        assert forall|i: int, j: int|
            #![trigger t[i], t[j]]
            0 <= i < t.len() && 0 <= j < t.len() implies L::compatible(t[i], t[j]) by {
            assert(t.contains(t[i]) && t.contains(t[j]));
            let a = choose|a: int| 0 <= a < s.len() && s[a] == t[i];
            let b = choose|b: int| 0 <= b < s.len() && s[b] == t[j];
            assert(L::compatible(s[a], s[b]));
        }
    }
    if s.len() == 0 {
        if t.len() > 0 {
            assert(t.contains(t[0]));
        }
        assert(t =~= s);
    } else {
        assert(s.contains(s[0]));
        assert(t.len() > 0);
        lemma_fold_absorbs::<L>(s);
        lemma_fold_absorbs::<L>(t);
        let fs = fold_join::<L>(s);
        let ft = fold_join::<L>(t);
        assert forall|j: int| 0 <= j < s.len() implies L::compatible(#[trigger] s[j], ft)
            && L::compatible(ft, s[j]) && L::join_model(s[j], ft) == ft by {
            assert(s.contains(s[j]));
            let k = choose|k: int| 0 <= k < t.len() && t[k] == s[j];
            assert(t[k] == s[j]);
        }
        assert forall|j: int| 0 <= j < t.len() implies L::compatible(#[trigger] t[j], fs)
            && L::compatible(fs, t[j]) && L::join_model(t[j], fs) == fs by {
            assert(t.contains(t[j]));
            let k = choose|k: int| 0 <= k < s.len() && s[k] == t[j];
            assert(s[k] == t[j]);
        }
        lemma_fold_below::<L>(s, ft, s.len() as int);
        lemma_fold_below::<L>(t, fs, t.len() as int);
        assert(s.take(s.len() as int) =~= s);
        assert(t.take(t.len() as int) =~= t);
        L::lemma_unary_laws(ft);
        L::lemma_binary_laws(fs, ft, ft);
    }
}

} // verus!
