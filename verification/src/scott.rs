//! Scott continuity and directed-complete partial orders.

use vstd::prelude::*;
use crate::semilattice::{all_wf, fold_join, join_all, spec_leq, views, BoundedJoinSemilattice};
use crate::update::{apply_update, callable_at, callable_on, functional, image, outputs_wf};

verus! {

/// A directed set.
#[derive(Debug, Clone)]
pub struct DirectedSet<L> {
    pub elements: Vec<L>,
}

/// Some view of the sequence is above `x`.
pub open spec fn bounded_in<L: BoundedJoinSemilattice>(s: Seq<L::V>, x: L::V) -> bool {
    exists|k: int| 0 <= k < s.len() && spec_leq::<L>(x, #[trigger] s[k])
}

/// Every two elements have an upper bound of their join among the elements.
pub open spec fn directed<L: BoundedJoinSemilattice>(s: Seq<L::V>) -> bool {
    forall|i: int, j: int|
        #![trigger s[i], s[j]]
        0 <= i < j < s.len() ==> bounded_in::<L>(s, L::join_model(s[i], s[j]))
}

/// A sequence is directed exactly when, for every two positions `i < j`
/// (near or far apart), the join of their views is below the view at some
/// position; when it is not, some such pair has its join below no view.
pub proof fn lemma_directed_all_pairs<L: BoundedJoinSemilattice>(s: Seq<L::V>)
    ensures
        directed::<L>(s) ==> forall|i: int, j: int|
            0 <= i < j < s.len() ==> #[trigger] bounded_in::<L>(s, L::join_model(s[i], s[j])),
        (forall|i: int, j: int|
            0 <= i < j < s.len() ==> #[trigger] bounded_in::<L>(s, L::join_model(s[i], s[j])))
            ==> directed::<L>(s),
        !directed::<L>(s) ==> exists|i: int, j: int|
            0 <= i < j < s.len() && !#[trigger] bounded_in::<L>(s, L::join_model(s[i], s[j])),
{
    if directed::<L>(s) {
        assert forall|i: int, j: int|
            0 <= i < j < s.len() implies #[trigger] bounded_in::<L>(s, L::join_model(s[i], s[j])) by {
            assert(s[i] == s[i] && s[j] == s[j]);
        }
    }
    if forall|i: int, j: int|
        0 <= i < j < s.len() ==> #[trigger] bounded_in::<L>(s, L::join_model(s[i], s[j])) {
        assert forall|i: int, j: int|
            #![trigger s[i], s[j]]
            0 <= i < j < s.len() implies bounded_in::<L>(s, L::join_model(s[i], s[j])) by {
            assert(bounded_in::<L>(s, L::join_model(s[i], s[j])));
        }
    }
}

/// The images under `f` of a sequence of views.
pub open spec fn image_seq<L: View, F: Fn(&L) -> L>(f: &F, s: Seq<L::V>) -> Seq<L::V> {
    s.map_values(|m: L::V| image(f, m))
}

/// `f` of the join of the views equals the join of their images.
pub open spec fn preserves_join<L: BoundedJoinSemilattice, F: Fn(&L) -> L>(
    f: &F,
    s: Seq<L::V>,
) -> bool {
    image(f, fold_join::<L>(s)) == fold_join::<L>(image_seq(f, s))
}

impl<L: BoundedJoinSemilattice> DirectedSet<L> {
    /// A directed set with the given elements.
    pub fn new(elements: Vec<L>) -> (r: Self)
        ensures
            r.elements == elements,
    {
        DirectedSet { elements }
    }

    /// Whether every two elements have their join below some element.
    pub fn is_directed(&self) -> (r: bool)
        requires
            all_wf(self.elements@),
        ensures
            r == directed::<L>(views(self.elements@)),
    {
        let ghost s = views(self.elements@);
        let n = self.elements.len();
        let mut i: usize = 0;
        while i < n
            invariant
                i <= n,
                n == self.elements@.len(),
                all_wf(self.elements@),
                s == views(self.elements@),
                forall|a: int, b: int|
                    #![trigger s[a], s[b]]
                    0 <= a < i && a < b < n ==> bounded_in::<L>(s, L::join_model(s[a], s[b])),
            decreases n - i,
        {
            let mut j: usize = i + 1;
            while j < n
                invariant
                    i < n,
                    i + 1 <= j <= n,
                    n == self.elements@.len(),
                    all_wf(self.elements@),
                    s == views(self.elements@),
                    forall|a: int, b: int|
                        #![trigger s[a], s[b]]
                        0 <= a < i && a < b < n ==> bounded_in::<L>(s, L::join_model(s[a], s[b])),
                    forall|b: int|
                        #![trigger s[b]]
                        i < b < j ==> bounded_in::<L>(s, L::join_model(s[i as int], s[b])),
                decreases n - j,
            {
                let lub = self.elements[i].join(&self.elements[j]);
                let mut found = false;
                let mut k: usize = 0;
                while k < n
                    invariant
                        k <= n,
                        n == self.elements@.len(),
                        all_wf(self.elements@),
                        lub.wf(),
                        s == views(self.elements@),
                        found ==> bounded_in::<L>(s, lub@),
                        !found ==> forall|c: int| 0 <= c < k ==> !spec_leq::<L>(lub@, #[trigger] s[c]),
                    decreases n - k,
                {
                    if !found && lub.leq(&self.elements[k]) {
                        found = true;
                        assert(s[k as int] == self.elements@[k as int]@);
                    }
                    k += 1;
                }
                proof {
                    assert(s[i as int] == self.elements@[i as int]@);
                    assert(s[j as int] == self.elements@[j as int]@);
                }
                if !found {
                    proof {
                        assert(!bounded_in::<L>(s, L::join_model(s[i as int], s[j as int])));
                    }
                    return false;
                }
                j += 1;
            }
            proof {
                assert forall|a: int, b: int|
                    #![trigger s[a], s[b]]
                    0 <= a < i + 1 && a < b < n implies bounded_in::<L>(s, L::join_model(s[a], s[b])) by {
                    if a == i {
                    }
                }
            }
            i += 1;
        }
        true
    }

    /// The join of all elements.
    pub fn supremum(&self) -> (r: L)
        requires
            all_wf(self.elements@),
        ensures
            r.wf(),
            r@ == fold_join::<L>(views(self.elements@)),
    {
        join_all(self.elements.as_slice())
    }
}

/// `b` tells whether some results that `f` gave compare as continuity asks:
/// a result `y` on a state with the view of the join of `xs`, and results
/// `ys` on the states of `xs`, with `b` true exactly when `y` has the view of
/// the join of `ys`.
pub open spec fn scott_outcome<L: BoundedJoinSemilattice, F: Fn(&L) -> L>(
    f: &F,
    xs: Seq<L>,
    b: bool,
) -> bool {
    exists|x: L, y: L, ys: Seq<L>|
        #![trigger call_ensures(*f, (&x,), y), ys.len()]
        x@ == fold_join::<L>(views(xs)) && call_ensures(*f, (&x,), y) && ys.len() == xs.len()
            && (forall|i: int| 0 <= i < xs.len() ==> #[trigger] call_ensures(*f, (&xs[i],), ys[i]))
            && b == (y@ == fold_join::<L>(views(ys)))
}

/// Verify Scott continuity: f(⊔D) == ⊔{f(d) | d ∈ D}.
///
/// The result compares results that `f` gave on the join and on the
/// elements; for a functional `f` it is exactly whether `f` preserves the
/// join.
pub fn verify_scott_continuous<L: BoundedJoinSemilattice, F: Fn(&L) -> L>(
    directed: &DirectedSet<L>,
    f: &F,
) -> (r: bool)
    requires
        outputs_wf::<L, F>(f),
        callable_on::<L, F>(f, directed.elements@),
        callable_at::<L, F>(f, fold_join::<L>(views(directed.elements@))),
        all_wf(directed.elements@),
    ensures
        scott_outcome::<L, F>(f, directed.elements@, r),
        functional(f) ==> r == preserves_join::<L, F>(f, views(directed.elements@)),
{
    let sup = directed.supremum();
    let f_sup = apply_update(f, &sup);
    let ghost s = views(directed.elements@);
    let ghost xs = directed.elements@;
    let ghost mut ys: Seq<L> = Seq::empty();
    let mut acc = L::bottom();
    let mut i: usize = 0;
    proof {
        assert(views(ys) =~= Seq::<L::V>::empty());
    }
    while i < directed.elements.len()
        invariant
            i <= directed.elements@.len(),
            outputs_wf::<L, F>(f),
            callable_on::<L, F>(f, directed.elements@),
            all_wf(directed.elements@),
            s == views(directed.elements@),
            xs == directed.elements@,
            acc.wf(),
            ys.len() == i,
            acc@ == fold_join::<L>(views(ys)),
            forall|k: int| 0 <= k < i ==> #[trigger] call_ensures(*f, (&xs[k],), ys[k]),
            functional(f) ==> acc@ == fold_join::<L>(image_seq(f, s.take(i as int))),
        decreases directed.elements.len() - i,
    {
        let y = apply_update(f, &directed.elements[i]);
        proof {
            assert(image_seq(f, s.take(i as int + 1)).drop_last() =~= image_seq(f, s.take(i as int)));
            assert(s[i as int] == directed.elements@[i as int]@);
            let ys2 = ys.push(y);
            assert(views(ys2).drop_last() =~= views(ys));
            ys = ys2;
        }
        acc = acc.join(&y);
        i += 1;
    }
    assert(s.take(s.len() as int) =~= s);
    let r = f_sup.same_state(&acc);
    proof {
        assert(call_ensures(*f, (&sup,), f_sup));
        assert(ys.len() == xs.len());
        assert(scott_outcome::<L, F>(f, xs, r));
    }
    r
}

/// Verify Scott continuity on multiple directed sets.
pub fn verify_scott_continuous_multi<L: BoundedJoinSemilattice, F: Fn(&L) -> L>(
    directed_sets: &[DirectedSet<L>],
    f: &F,
) -> (r: bool)
    requires
        outputs_wf::<L, F>(f),
        forall|i: int| 0 <= i < directed_sets@.len() ==> all_wf((#[trigger] directed_sets@[i]).elements@),
        forall|i: int| 0 <= i < directed_sets@.len() ==> callable_on::<L, F>(f, (#[trigger] directed_sets@[i]).elements@),
        forall|i: int|
            0 <= i < directed_sets@.len() ==> callable_at::<L, F>(
                f,
                fold_join::<L>(views((#[trigger] directed_sets@[i]).elements@)),
            ),
    ensures
        r ==> forall|i: int|
            0 <= i < directed_sets@.len() ==> scott_outcome::<L, F>(
                f,
                (#[trigger] directed_sets@[i]).elements@,
                true,
            ),
        !r ==> exists|i: int|
            0 <= i < directed_sets@.len() && scott_outcome::<L, F>(
                f,
                (#[trigger] directed_sets@[i]).elements@,
                false,
            ),
        functional(f) ==> r == forall|i: int|
            0 <= i < directed_sets@.len() ==> preserves_join::<L, F>(
                f,
                views((#[trigger] directed_sets@[i]).elements@),
            ),
{
    let mut i: usize = 0;
    while i < directed_sets.len()
        invariant
            i <= directed_sets@.len(),
            outputs_wf::<L, F>(f),
            forall|k: int| 0 <= k < directed_sets@.len() ==> all_wf((#[trigger] directed_sets@[k]).elements@),
            forall|k: int| 0 <= k < directed_sets@.len() ==> callable_on::<L, F>(f, (#[trigger] directed_sets@[k]).elements@),
            forall|k: int|
                0 <= k < directed_sets@.len() ==> callable_at::<L, F>(
                    f,
                    fold_join::<L>(views((#[trigger] directed_sets@[k]).elements@)),
                ),
            forall|k: int|
                0 <= k < i ==> scott_outcome::<L, F>(f, (#[trigger] directed_sets@[k]).elements@, true),
            functional(f) ==> forall|k: int|
                0 <= k < i ==> preserves_join::<L, F>(f, views((#[trigger] directed_sets@[k]).elements@)),
        decreases directed_sets.len() - i,
    {
        if !verify_scott_continuous(&directed_sets[i], f) {
            return false;
        }
        i += 1;
    }
    true
}

/// A DCPO with bottom.
#[derive(Debug, Clone)]
pub struct Dcpo<L> {
    pub elements: Vec<L>,
}

impl<L: BoundedJoinSemilattice> Dcpo<L> {
    /// A DCPO with the given elements.
    pub fn new(elements: Vec<L>) -> (r: Self)
        ensures
            r.elements == elements,
    {
        Dcpo { elements }
    }

    /// The bottom element.
    pub fn bottom(&self) -> (r: L)
        ensures
            r.wf(),
            r@ == L::bottom_model(),
    {
        L::bottom()
    }

    /// Whether some element has the view of `elem`.
    pub fn contains(&self, elem: &L) -> (r: bool)
        requires
            all_wf(self.elements@),
            elem.wf(),
        ensures
            r == exists|i: int| 0 <= i < self.elements@.len() && #[trigger] self.elements@[i]@ == elem@,
    {
        let mut i: usize = 0;
        while i < self.elements.len()
            invariant
                i <= self.elements@.len(),
                all_wf(self.elements@),
                elem.wf(),
                forall|k: int| 0 <= k < i ==> #[trigger] self.elements@[k]@ != elem@,
            decreases self.elements.len() - i,
        {
            if self.elements[i].same_state(elem) {
                return true;
            }
            i += 1;
        }
        false
    }

    /// The join of the elements at the given positions.
    pub fn supremum_of(&self, indices: &[usize]) -> (r: L)
        requires
            all_wf(self.elements@),
            forall|k: int| 0 <= k < indices@.len() ==> #[trigger] indices@[k] < self.elements@.len(),
        ensures
            r.wf(),
            r@ == fold_join::<L>(indices@.map_values(|i: usize| self.elements@[i as int]@)),
    {
        let ghost s = indices@.map_values(|i: usize| self.elements@[i as int]@);
        let mut acc = L::bottom();
        let mut k: usize = 0;
        while k < indices.len()
            invariant
                k <= indices@.len(),
                all_wf(self.elements@),
                forall|x: int| 0 <= x < indices@.len() ==> #[trigger] indices@[x] < self.elements@.len(),
                s == indices@.map_values(|i: usize| self.elements@[i as int]@),
                acc.wf(),
                acc@ == fold_join::<L>(s.take(k as int)),
            decreases indices.len() - k,
        {
            proof {
                assert(s.take(k as int + 1).drop_last() =~= s.take(k as int));
            }
            let e = self.elements[indices[k]].copy_state();
            acc = acc.join(&e);
            k += 1;
        }
        assert(s.take(s.len() as int) =~= s);
        acc
    }
}

} // verus!
