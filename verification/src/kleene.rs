//! Kleene fixpoints and ascending chains.
//!
//! Iterating an update function from bottom yields the ascending chain
//! `⊥, f(⊥), f(f(⊥)), ...`; when it stabilizes its last element is the least
//! fixpoint of a monotone `f`.

use vstd::prelude::*;
use crate::semilattice::{all_wf, fold_join, join_all, spec_leq, views, BoundedJoinSemilattice};
use crate::update::{apply_update, callable_at, callable_on_results, functional, image, iterable, outputs_wf};

verus! {

/// Iterates `f` from view `m` at most `k` times, stopping at the first view
/// that `f` maps to itself.
pub open spec fn kleene_iter<L: BoundedJoinSemilattice, F: Fn(&L) -> L>(
    f: &F,
    m: L::V,
    k: nat,
) -> L::V
    decreases k,
{
    if k == 0 {
        m
    } else if image(f, m) == m {
        m
    } else {
        kleene_iter::<L, F>(f, image(f, m), (k - 1) as nat)
    }
}

/// Like `kleene_iter`, but gives `None` when no fixpoint is met within `k`
/// steps.
pub open spec fn kleene_search<L: BoundedJoinSemilattice, F: Fn(&L) -> L>(
    f: &F,
    m: L::V,
    k: nat,
) -> Option<L::V>
    decreases k,
{
    if k == 0 {
        None
    } else if image(f, m) == m {
        Some(m)
    } else {
        kleene_search::<L, F>(f, image(f, m), (k - 1) as nat)
    }
}

/// `x` has the view of bottom or is a result that `f` may give on a state
/// reached in fewer steps: it is reached from bottom in at most `k` calls.
pub open spec fn reached<L: BoundedJoinSemilattice, F: Fn(&L) -> L>(f: &F, x: L, k: nat) -> bool
    decreases k,
{
    x@ == L::bottom_model() || (k > 0 && exists|p: L|
        #[trigger] call_ensures(*f, (&p,), x) && reached::<L, F>(f, p, (k - 1) as nat))
}

/// What is reached in `j` calls is reached in `k >= j` calls.
pub proof fn lemma_reached_more<L: BoundedJoinSemilattice, F: Fn(&L) -> L>(
    f: &F,
    x: L,
    j: nat,
    k: nat,
)
    requires
        reached::<L, F>(f, x, j),
        j <= k,
    ensures
        reached::<L, F>(f, x, k),
    decreases j,
{
    if x@ != L::bottom_model() {
        let p = choose|p: L| #[trigger] call_ensures(*f, (&p,), x) && reached::<L, F>(f, p, (j - 1) as nat);
        lemma_reached_more::<L, F>(f, p, (j - 1) as nat, (k - 1) as nat);
    }
}

/// Compute the Kleene fixpoint: iterate f from bottom until stabilization.
///
/// The result is reached from bottom by results of `f` within the budget;
/// for a functional `f` it is exactly the iteration from bottom.
pub fn kleene_fixpoint<L: BoundedJoinSemilattice, F: Fn(&L) -> L>(f: &F, max_iterations: usize) -> (r: L)
    requires
        iterable::<L, F>(f),
    ensures
        r.wf(),
        reached::<L, F>(f, r, max_iterations as nat),
        functional(f) ==> r@ == kleene_iter::<L, F>(f, L::bottom_model(), max_iterations as nat),
{
    let mut current = L::bottom();
    let mut i: usize = 0;
    while i < max_iterations
        invariant
            i <= max_iterations,
            iterable::<L, F>(f),
            current.wf(),
            call_requires(*f, (&current,)),
            reached::<L, F>(f, current, i as nat),
            functional(f) ==> kleene_iter::<L, F>(f, current@, (max_iterations - i) as nat)
                == kleene_iter::<L, F>(f, L::bottom_model(), max_iterations as nat),
        decreases max_iterations - i,
    {
        let next = apply_update(f, &current);
        if next.same_state(&current) {
            proof {
                lemma_reached_more::<L, F>(f, current, i as nat, max_iterations as nat);
            }
            return current;
        }
        proof {
            assert(reached::<L, F>(f, next, (i + 1) as nat));
        }
        current = next;
        i += 1;
    }
    current
}

/// The iterates of a monotone functional update from a view below a
/// fixpoint stay below that fixpoint.
pub proof fn lemma_iterates_below<L: BoundedJoinSemilattice, F: Fn(&L) -> L>(
    f: &F,
    m: L::V,
    p: L::V,
    k: nat,
)
    requires
        functional(f),
        forall|a: L::V, b: L::V|
            L::valid(a) && L::valid(b) && #[trigger] spec_leq::<L>(a, b) ==> spec_leq::<L>(
                image(f, a),
                image(f, b),
            ),
        forall|a: L::V| L::valid(a) ==> L::valid(#[trigger] image(f, a)),
        L::valid(m),
        L::valid(p),
        image(f, p) == p,
        spec_leq::<L>(m, p),
    ensures
        spec_leq::<L>(kleene_iter::<L, F>(f, m, k), p),
    decreases k,
{
    if k > 0 && image(f, m) != m {
        lemma_iterates_below::<L, F>(f, image(f, m), p, (k - 1) as nat);
    }
}

/// Kleene's theorem: for a monotone functional update, the iteration from
/// bottom stays below every fixpoint, so the fixpoint it reaches is the least.
pub proof fn lemma_kleene_least<L: BoundedJoinSemilattice, F: Fn(&L) -> L>(
    f: &F,
    p: L::V,
    k: nat,
)
    requires
        functional(f),
        forall|a: L::V, b: L::V|
            L::valid(a) && L::valid(b) && #[trigger] spec_leq::<L>(a, b) ==> spec_leq::<L>(
                image(f, a),
                image(f, b),
            ),
        forall|a: L::V| L::valid(a) ==> L::valid(#[trigger] image(f, a)),
        L::valid(p),
        L::compatible(L::bottom_model(), p),
        image(f, p) == p,
    ensures
        spec_leq::<L>(kleene_iter::<L, F>(f, L::bottom_model(), k), p),
{
    L::lemma_unary_laws(p);
    L::lemma_binary_laws(L::bottom_model(), p, p);
    lemma_iterates_below::<L, F>(f, L::bottom_model(), p, k);
}

/// When the search from `m` finds a fixpoint within `k` steps, the
/// iteration from `m` stops at that fixpoint: `verify_fixpoint` returns
/// `Some(x)` exactly when `kleene_fixpoint` returns a state with view `x`
/// that `f` maps to itself.
pub proof fn lemma_search_is_iteration<L: BoundedJoinSemilattice, F: Fn(&L) -> L>(
    f: &F,
    m: L::V,
    k: nat,
)
    ensures
        kleene_search::<L, F>(f, m, k) matches Some(x) ==> kleene_iter::<L, F>(f, m, k) == x
            && image(f, x) == x,
    decreases k,
{
    if k > 0 && image(f, m) != m {
        lemma_search_is_iteration::<L, F>(f, image(f, m), (k - 1) as nat);
    }
}

/// An ascending chain in a lattice.
#[derive(Debug, Clone)]
pub struct AscendingChain<L> {
    pub elements: Vec<L>,
}

/// One step of building a chain: the next element is pushed when it is above
/// the last one.
pub open spec fn chain_push<L: BoundedJoinSemilattice>(c: Seq<L::V>, x: L::V) -> Seq<L::V> {
    if c.len() == 0 || spec_leq::<L>(c.last(), x) {
        c.push(x)
    } else {
        c
    }
}

/// Builds a chain by iterating `f` on its last element at most `k` times,
/// stopping after the first step at which `f` leaves that element unchanged.
pub open spec fn chain_iter<L: BoundedJoinSemilattice, F: Fn(&L) -> L>(
    f: &F,
    c: Seq<L::V>,
    k: nat,
) -> Seq<L::V>
    decreases k,
{
    if k == 0 || c.len() == 0 {
        c
    } else {
        let next = image(f, c.last());
        let pushed = chain_push::<L>(c, next);
        if next == c.last() {
            pushed
        } else {
            chain_iter::<L, F>(f, pushed, (k - 1) as nat)
        }
    }
}

impl<L: BoundedJoinSemilattice> AscendingChain<L> {
    /// An empty chain.
    pub fn new() -> (r: Self)
        ensures
            r.elements@ == Seq::<L>::empty(),
    {
        AscendingChain { elements: Vec::new() }
    }

    /// The chain holding only bottom.
    pub fn from_bottom() -> (r: Self)
        ensures
            all_wf(r.elements@),
            r.elements@.len() == 1,
            views(r.elements@) == seq![L::bottom_model()],
    {
        let mut elements = Vec::new();
        elements.push(L::bottom());
        let r = AscendingChain { elements };
        assert(views(r.elements@) =~= seq![L::bottom_model()]);
        r
    }

    /// Appends an element if it is above the last one; returns whether it
    /// did.
    pub fn push(&mut self, elem: L) -> (r: bool)
        requires
            all_wf(old(self).elements@),
            elem.wf(),
        ensures
            r == (old(self).elements@.len() == 0 || spec_leq::<L>(
                old(self).elements@.last()@,
                elem@,
            )),
            r ==> final(self).elements@ == old(self).elements@.push(elem),
            !r ==> final(self).elements@ == old(self).elements@,
            all_wf(final(self).elements@),
            views(final(self).elements@) == chain_push::<L>(views(old(self).elements@), elem@),
    {
        let n = self.elements.len();
        if n > 0 {
            if !self.elements[n - 1].leq(&elem) {
                return false;
            }
        }
        self.elements.push(elem);
        assert(views(self.elements@) =~= views(old(self).elements@).push(elem@));
        true
    }

    /// The join of all elements.
    pub fn supremum(&self) -> (r: L)
        requires
            all_wf(self.elements@),
        ensures
            r.wf(),
            r@ == fold_join::<L>(views(self.elements@)),
    {
        join_all(self.elements.as_slice())
    }

    /// Whether the last two elements are equal.
    pub fn is_stabilized(&self) -> (r: bool)
        requires
            all_wf(self.elements@),
        ensures
            r == (self.elements@.len() >= 2 && self.elements@[self.elements@.len() - 1]@
                == self.elements@[self.elements@.len() - 2]@),
    {
        let n = self.elements.len();
        if n < 2 {
            return false;
        }
        self.elements[n - 1].same_state(&self.elements[n - 2])
    }

    /// Builds the chain `⊥, f(⊥), ...` for at most `max_steps` steps, stopping
    /// once a step leaves the last element unchanged.
    pub fn iterate<F: Fn(&L) -> L>(f: &F, max_steps: usize) -> (r: Self)
        requires
            iterable::<L, F>(f),
        ensures
            all_wf(r.elements@),
            r.elements@.len() >= 1,
            r.elements@[0]@ == L::bottom_model(),
            forall|k: int|
                1 <= k < r.elements@.len() ==> call_ensures(*f, (&r.elements@[k - 1],), #[trigger] r.elements@[k])
                    && spec_leq::<L>(r.elements@[k - 1]@, r.elements@[k]@),
            functional(f) ==> views(r.elements@) == chain_iter::<L, F>(
                f,
                seq![L::bottom_model()],
                max_steps as nat,
            ),
    {
        let mut chain = Self::from_bottom();
        let mut i: usize = 0;
        proof {
            assert(views(chain.elements@)[0] == chain.elements@[0]@);
            assert(chain.elements@[0].wf());
            assert(call_requires(*f, (&chain.elements@[0],)));
        }
        while i < max_steps
            invariant_except_break
                i <= max_steps,
                iterable::<L, F>(f),
                all_wf(chain.elements@),
                chain.elements@.len() > 0,
                chain.elements@[0]@ == L::bottom_model(),
                call_requires(*f, (&chain.elements@[chain.elements@.len() - 1],)),
                forall|k: int|
                    1 <= k < chain.elements@.len() ==> call_ensures(*f, (&chain.elements@[k - 1],), #[trigger] chain.elements@[k])
                        && spec_leq::<L>(chain.elements@[k - 1]@, chain.elements@[k]@),
                functional(f) ==> chain_iter::<L, F>(f, views(chain.elements@), (max_steps - i) as nat)
                    == chain_iter::<L, F>(f, seq![L::bottom_model()], max_steps as nat),
            ensures
                all_wf(chain.elements@),
                chain.elements@.len() >= 1,
                chain.elements@[0]@ == L::bottom_model(),
                forall|k: int|
                    1 <= k < chain.elements@.len() ==> call_ensures(*f, (&chain.elements@[k - 1],), #[trigger] chain.elements@[k])
                        && spec_leq::<L>(chain.elements@[k - 1]@, chain.elements@[k]@),
                functional(f) ==> views(chain.elements@) == chain_iter::<L, F>(
                    f,
                    seq![L::bottom_model()],
                    max_steps as nat,
                ),
            decreases max_steps - i,
        {
            let n = chain.elements.len();
            let next = apply_update(f, &chain.elements[n - 1]);
            let stabilized = next.same_state(&chain.elements[n - 1]);
            let ghost before = views(chain.elements@);
            let ghost old_elems = chain.elements@;
            proof {
                assert(before.last() == chain.elements@[n - 1]@);
            }
            chain.push(next);
            proof {
                if chain.elements@.len() > old_elems.len() {
                    assert(chain.elements@[n as int] == next);
                    assert(forall|k: int| 0 <= k < n ==> chain.elements@[k] == old_elems[k]);
                }
            }
            if stabilized {
                break;
            }
            i += 1;
        }
        chain
    }
}

/// Verify that a function has a fixpoint by iteration.
pub fn verify_fixpoint<L: BoundedJoinSemilattice, F: Fn(&L) -> L>(f: &F, max_iterations: usize) -> (r:
    Option<L>)
    requires
        iterable::<L, F>(f),
    ensures
        r matches Some(x) ==> x.wf() && reached::<L, F>(f, x, max_iterations as nat) && exists|y: L|
            call_ensures(*f, (&x,), y) && y@ == x@,
        functional(f) ==> match r {
            Some(x) => kleene_search::<L, F>(f, L::bottom_model(), max_iterations as nat) == Some(
                x@,
            ),
            None => kleene_search::<L, F>(f, L::bottom_model(), max_iterations as nat) is None,
        },
{
    let mut current = L::bottom();
    let mut i: usize = 0;
    while i < max_iterations
        invariant
            i <= max_iterations,
            iterable::<L, F>(f),
            current.wf(),
            call_requires(*f, (&current,)),
            reached::<L, F>(f, current, i as nat),
            functional(f) ==> kleene_search::<L, F>(f, current@, (max_iterations - i) as nat)
                == kleene_search::<L, F>(f, L::bottom_model(), max_iterations as nat),
        decreases max_iterations - i,
    {
        let next = apply_update(f, &current);
        if next.same_state(&current) {
            proof {
                lemma_reached_more::<L, F>(f, current, i as nat, max_iterations as nat);
            }
            return Some(current);
        }
        proof {
            assert(reached::<L, F>(f, next, (i + 1) as nat));
        }
        current = next;
        i += 1;
    }
    None
}

impl<L: BoundedJoinSemilattice> Default for AscendingChain<L> {
    fn default() -> (r: Self)
        ensures
            r.elements@ == Seq::<L>::empty(),
    {
        Self::new()
    }
}

} // verus!
