//! Update functions on semilattice states, as the callers of this crate pass
//! them: closures from a state to a state.
//!
//! Verus knows of a closure only what its `call_requires` and `call_ensures`
//! say. A closure is *functional* when states with the same view are mapped to
//! states with the same view; its *image* on a view is then the view of any
//! result it gives on a state with that view.

use vstd::prelude::*;
use crate::semilattice::BoundedJoinSemilattice;

verus! {

/// Every result of `f` is well-formed.
pub open spec fn outputs_wf<L: BoundedJoinSemilattice, F: Fn(&L) -> L>(f: &F) -> bool {
    forall|x: &L, y: L| #[trigger] call_ensures(*f, (x,), y) ==> y.wf()
}

/// `f` may be called on each state of the sequence.
pub open spec fn callable_on<L, F: Fn(&L) -> L>(f: &F, s: Seq<L>) -> bool {
    forall|i: int| 0 <= i < s.len() ==> #[trigger] call_requires(*f, (&s[i],))
}

/// `f` may be called on every well-formed state with view `m`.
pub open spec fn callable_at<L: BoundedJoinSemilattice, F: Fn(&L) -> L>(f: &F, m: L::V) -> bool {
    forall|x: &L| x.wf() && x@ == m ==> #[trigger] call_requires(*f, (x,))
}

/// `f` may be called again on each of its results.
pub open spec fn callable_on_results<L, F: Fn(&L) -> L>(f: &F) -> bool {
    forall|x: &L, y: L| #[trigger] call_ensures(*f, (x,), y) ==> call_requires(*f, (&y,))
}

/// `f` may be called on the iterates from bottom: on bottom and on each of
/// its results, which are well-formed.
pub open spec fn iterable<L: BoundedJoinSemilattice, F: Fn(&L) -> L>(f: &F) -> bool {
    &&& outputs_wf::<L, F>(f)
    &&& callable_at::<L, F>(f, L::bottom_model())
    &&& callable_on_results::<L, F>(f)
}

/// `f` maps states with equal views to states with equal views.
pub open spec fn functional<L: View, F: Fn(&L) -> L>(f: &F) -> bool {
    forall|x1: &L, x2: &L, y1: L, y2: L|
        x1@ == x2@ && #[trigger] call_ensures(*f, (x1,), y1) && #[trigger] call_ensures(
            *f,
            (x2,),
            y2,
        ) ==> y1@ == y2@
}

/// The view of a result of `f` on a state with view `m`.
pub open spec fn image<L: View, F: Fn(&L) -> L>(f: &F, m: L::V) -> L::V {
    (choose|x: &L, y: L| x@ == m && #[trigger] call_ensures(*f, (x,), y)).1@
}

/// A result of a functional update has the image's view.
pub proof fn lemma_image<L: View, F: Fn(&L) -> L>(f: &F, x: &L, y: L)
    requires
        functional(f),
        call_ensures(*f, (x,), y),
    ensures
        y@ == image(f, x@),
{
    let m = x@;
    assert(exists|x1: &L, y1: L| x1@ == m && #[trigger] call_ensures(*f, (x1,), y1));
    let (x2, y2) = choose|x2: &L, y2: L| x2@ == m && #[trigger] call_ensures(*f, (x2,), y2);
    assert(call_ensures(*f, (x2,), y2));
}

/// Calls an update function on a state.
pub fn apply_update<L: BoundedJoinSemilattice, F: Fn(&L) -> L>(f: &F, x: &L) -> (r: L)
    requires
        outputs_wf::<L, F>(f),
        call_requires(*f, (x,)),
    ensures
        r.wf(),
        call_ensures(*f, (x,), r),
        functional(f) ==> r@ == image(f, x@),
{
    let r = f(x);
    proof {
        if functional(f) {
            lemma_image(f, x, r);
        }
    }
    r
}

} // verus!
