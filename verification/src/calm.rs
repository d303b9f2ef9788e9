//! CALM theorem checks: a computation is coordination-free exactly when it is
//! monotone on its lattice, so these functions test monotonicity (and the
//! semilattice axioms) on sample points.

use vstd::prelude::*;
use crate::semilattice::{all_wf, spec_leq, views, BoundedJoinSemilattice};
use crate::update::{apply_update, callable_on, functional, image, outputs_wf};

verus! {

/// Result of a CALM analysis.
#[derive(Debug, Clone)]
pub struct CalmAnalysis {
    pub is_monotone: bool,
    pub is_coordination_free: bool,
    pub explanation: String,
}

/// `f` is monotone on the sample views: `a ⊑ b` implies `f(a) ⊑ f(b)`.
pub open spec fn monotone_on<L: BoundedJoinSemilattice, F: Fn(&L) -> L>(
    f: &F,
    s: Seq<L::V>,
) -> bool {
    forall|i: int, j: int|
        #![trigger s[i], s[j]]
        0 <= i < s.len() && 0 <= j < s.len() && spec_leq::<L>(s[i], s[j]) ==> spec_leq::<L>(
            image(f, s[i]),
            image(f, s[j]),
        )
}

/// Every pair of results that `f` may give on ordered samples is ordered.
pub open spec fn monotone_results<L: BoundedJoinSemilattice, F: Fn(&L) -> L>(
    f: &F,
    s: Seq<L>,
) -> bool {
    forall|i: int, j: int, y1: L, y2: L|
        #![trigger call_ensures(*f, (&s[i],), y1), call_ensures(*f, (&s[j],), y2)]
        0 <= i < s.len() && 0 <= j < s.len() && spec_leq::<L>(s[i]@, s[j]@) && call_ensures(
            *f,
            (&s[i],),
            y1,
        ) && call_ensures(*f, (&s[j],), y2) ==> spec_leq::<L>(y1@, y2@)
}

/// Some ordered samples have results that `f` may give which are not
/// ordered.
pub open spec fn unordered_results<L: BoundedJoinSemilattice, F: Fn(&L) -> L>(
    f: &F,
    s: Seq<L>,
) -> bool {
    exists|i: int, j: int, y1: L, y2: L|
        #![trigger call_ensures(*f, (&s[i],), y1), call_ensures(*f, (&s[j],), y2)]
        0 <= i < s.len() && 0 <= j < s.len() && spec_leq::<L>(s[i]@, s[j]@) && call_ensures(
            *f,
            (&s[i],),
            y1,
        ) && call_ensures(*f, (&s[j],), y2) && !spec_leq::<L>(y1@, y2@)
}

/// Verify that a function f: L → L is monotone on sample points.
///
/// The result is true when every result `f` may give is monotone on the
/// samples, and false only on results that are not; for a functional `f` it
/// is exactly whether `f` is monotone on the samples.
pub fn verify_monotone<L: BoundedJoinSemilattice, F: Fn(&L) -> L>(samples: &[L], f: &F) -> (r:
    bool)
    requires
        outputs_wf::<L, F>(f),
        callable_on::<L, F>(f, samples@),
        all_wf(samples@),
    ensures
        monotone_results::<L, F>(f, samples@) ==> r,
        !r ==> unordered_results::<L, F>(f, samples@),
        functional(f) ==> r == monotone_on::<L, F>(f, views(samples@)),
{
    let ghost s = views(samples@);
    let mut i: usize = 0;
    while i < samples.len()
        invariant
            i <= samples.len(),
            outputs_wf::<L, F>(f),
            callable_on::<L, F>(f, samples@),
            all_wf(samples@),
            s == views(samples@),
            functional(f) ==> forall|a: int, b: int|
                #![trigger s[a], s[b]]
                0 <= a < i && 0 <= b < s.len() && spec_leq::<L>(s[a], s[b]) ==> spec_leq::<L>(
                    image(f, s[a]),
                    image(f, s[b]),
                ),
        decreases samples.len() - i,
    {
        let mut j: usize = 0;
        while j < samples.len()
            invariant
                i < samples.len(),
                j <= samples.len(),
                outputs_wf::<L, F>(f),
                callable_on::<L, F>(f, samples@),
                all_wf(samples@),
                s == views(samples@),
                functional(f) ==> forall|a: int, b: int|
                    #![trigger s[a], s[b]]
                    0 <= a < i && 0 <= b < s.len() && spec_leq::<L>(s[a], s[b]) ==> spec_leq::<L>(
                        image(f, s[a]),
                        image(f, s[b]),
                    ),
                functional(f) ==> forall|b: int|
                    #![trigger s[b]]
                    0 <= b < j && spec_leq::<L>(s[i as int], s[b]) ==> spec_leq::<L>(
                        image(f, s[i as int]),
                        image(f, s[b]),
                    ),
            decreases samples.len() - j,
        {
            if samples[i].leq(&samples[j]) {
                let fa = apply_update(f, &samples[i]);
                let fb = apply_update(f, &samples[j]);
                if !fa.leq(&fb) {
                    assert(s[i as int] == samples@[i as int]@ && s[j as int] == samples@[j as int]@);
                    proof {
                        let ss = samples@;
                        assert(call_ensures(*f, (&ss[i as int],), fa));
                        assert(call_ensures(*f, (&ss[j as int],), fb));
                        assert(unordered_results::<L, F>(f, ss));
                    }
                    return false;
                }
            }
            j += 1;
        }
        i += 1;
    }
    true
}

/// The explanation that a CALM analysis gives for a function.
pub open spec fn calm_explanation(name: Seq<char>, is_monotone: bool) -> Seq<char> {
    if is_monotone {
        "Function '"@ + name + "' IS monotone → coordination-free per CALM theorem."@
    } else {
        "Function '"@ + name + "' is NOT monotone → requires coordination per CALM theorem."@
    }
}

/// Perform a full CALM analysis on a function given sample points.
///
/// Per the CALM theorem the function is coordination-free exactly when it is
/// monotone.
pub fn calm_analysis<L: BoundedJoinSemilattice, F: Fn(&L) -> L>(
    samples: &[L],
    f: &F,
    name: &str,
) -> (r: CalmAnalysis)
    requires
        outputs_wf::<L, F>(f),
        callable_on::<L, F>(f, samples@),
        all_wf(samples@),
    ensures
        monotone_results::<L, F>(f, samples@) ==> r.is_monotone,
        !r.is_monotone ==> unordered_results::<L, F>(f, samples@),
        functional(f) ==> r.is_monotone == monotone_on::<L, F>(f, views(samples@)),
        r.is_coordination_free == r.is_monotone,
        r.explanation@ == calm_explanation(name@, r.is_monotone),
{
    let is_monotone = verify_monotone(samples, f);
    let mut explanation = String::from_str("Function '");
    explanation.append(name);
    if is_monotone {
        explanation.append("' IS monotone → coordination-free per CALM theorem.");
    } else {
        explanation.append("' is NOT monotone → requires coordination per CALM theorem.");
    }
    CalmAnalysis { is_monotone, is_coordination_free: is_monotone, explanation }
}

/// Each element of the sequence is below the next.
pub open spec fn ascending<L: BoundedJoinSemilattice>(s: Seq<L::V>) -> bool {
    forall|i: int| 0 <= i < s.len() - 1 ==> spec_leq::<L>(#[trigger] s[i], s[i + 1])
}

/// Check that a sequence is monotonically ascending.
pub fn verify_monotone_sequence<L: BoundedJoinSemilattice>(sequence: &[L]) -> (r: bool)
    requires
        all_wf(sequence@),
    ensures
        r == ascending::<L>(views(sequence@)),
{
    let ghost s = views(sequence@);
    if sequence.len() < 2 {
        return true;
    }
    let mut i: usize = 0;
    while i + 1 < sequence.len()
        invariant
            i + 1 <= sequence.len(),
            all_wf(sequence@),
            s == views(sequence@),
            forall|k: int| 0 <= k < i ==> spec_leq::<L>(#[trigger] s[k], s[k + 1]),
        decreases sequence.len() - i,
    {
        if !sequence[i].leq(&sequence[i + 1]) {
            assert(s[i as int] == sequence@[i as int]@ && s[i + 1] == sequence@[i + 1]@);
            assert(!spec_leq::<L>(s[i as int], s[i as int + 1]));
            return false;
        }
        i += 1;
    }
    true
}

/// The four axioms of a bounded join-semilattice hold on the sample views:
/// identity, idempotency, commutativity and associativity.
pub open spec fn axioms_hold<L: BoundedJoinSemilattice>(s: Seq<L::V>) -> bool {
    &&& forall|i: int|
        0 <= i < s.len() ==> L::join_model(#[trigger] s[i], L::bottom_model()) == s[i]
    &&& forall|i: int| 0 <= i < s.len() ==> L::join_model(#[trigger] s[i], s[i]) == s[i]
    &&& forall|i: int, j: int|
        #![trigger s[i], s[j]]
        0 <= i < s.len() && 0 <= j < s.len() ==> L::join_model(s[i], s[j]) == L::join_model(
            s[j],
            s[i],
        )
    &&& forall|i: int, j: int, k: int|
        #![trigger s[i], s[j], s[k]]
        0 <= i < s.len() && 0 <= j < s.len() && 0 <= k < s.len() ==> L::join_model(
            s[i],
            L::join_model(s[j], s[k]),
        ) == L::join_model(L::join_model(s[i], s[j]), s[k])
}

/// Verify semilattice axioms on sample points.
pub fn verify_semilattice_axioms<L: BoundedJoinSemilattice>(samples: &[L]) -> (r: bool)
    requires
        all_wf(samples@),
    ensures
        r == axioms_hold::<L>(views(samples@)),
{
    let ghost s = views(samples@);
    let n = samples.len();
    let bottom = L::bottom();
    let mut i: usize = 0;
    while i < n
        invariant
            i <= n,
            n == samples.len(),
            all_wf(samples@),
            bottom.wf(),
            bottom@ == L::bottom_model(),
            s == views(samples@),
            forall|a: int| 0 <= a < i ==> L::join_model(#[trigger] s[a], L::bottom_model()) == s[a],
        decreases n - i,
    {
        let joined = samples[i].join(&bottom);
        if !joined.same_state(&samples[i]) {
            assert(s[i as int] == samples@[i as int]@);
            return false;
        }
        i += 1;
    }
    let mut i: usize = 0;
    while i < n
        invariant
            i <= n,
            n == samples.len(),
            all_wf(samples@),
            s == views(samples@),
            forall|a: int| 0 <= a < n ==> L::join_model(#[trigger] s[a], L::bottom_model()) == s[a],
            forall|a: int| 0 <= a < i ==> L::join_model(#[trigger] s[a], s[a]) == s[a],
        decreases n - i,
    {
        let joined = samples[i].join(&samples[i]);
        if !joined.same_state(&samples[i]) {
            assert(s[i as int] == samples@[i as int]@);
            return false;
        }
        i += 1;
    }
    let mut i: usize = 0;
    while i < n
        invariant
            i <= n,
            n == samples.len(),
            all_wf(samples@),
            s == views(samples@),
            forall|a: int| 0 <= a < n ==> L::join_model(#[trigger] s[a], L::bottom_model()) == s[a],
            forall|a: int| 0 <= a < n ==> L::join_model(#[trigger] s[a], s[a]) == s[a],
            forall|a: int, b: int|
                #![trigger s[a], s[b]]
                0 <= a < i && 0 <= b < n ==> L::join_model(s[a], s[b]) == L::join_model(s[b], s[a]),
        decreases n - i,
    {
        let mut j: usize = 0;
        while j < n
            invariant
                i < n,
                j <= n,
                n == samples.len(),
                all_wf(samples@),
                s == views(samples@),
                forall|a: int|
                    0 <= a < n ==> L::join_model(#[trigger] s[a], L::bottom_model()) == s[a],
                forall|a: int| 0 <= a < n ==> L::join_model(#[trigger] s[a], s[a]) == s[a],
                forall|a: int, b: int|
                    #![trigger s[a], s[b]]
                    0 <= a < i && 0 <= b < n ==> L::join_model(s[a], s[b]) == L::join_model(
                        s[b],
                        s[a],
                    ),
                forall|b: int|
                    #![trigger s[b]]
                    0 <= b < j ==> L::join_model(s[i as int], s[b]) == L::join_model(
                        s[b],
                        s[i as int],
                    ),
            decreases n - j,
        {
            let ab = samples[i].join(&samples[j]);
            let ba = samples[j].join(&samples[i]);
            if !ab.same_state(&ba) {
                assert(s[i as int] == samples@[i as int]@ && s[j as int] == samples@[j as int]@);
                return false;
            }
            j += 1;
        }
        i += 1;
    }
    let mut i: usize = 0;
    while i < n
        invariant
            i <= n,
            n == samples.len(),
            all_wf(samples@),
            s == views(samples@),
            forall|a: int| 0 <= a < n ==> L::join_model(#[trigger] s[a], L::bottom_model()) == s[a],
            forall|a: int| 0 <= a < n ==> L::join_model(#[trigger] s[a], s[a]) == s[a],
            forall|a: int, b: int|
                #![trigger s[a], s[b]]
                0 <= a < n && 0 <= b < n ==> L::join_model(s[a], s[b]) == L::join_model(s[b], s[a]),
            forall|a: int, b: int, c: int|
                #![trigger s[a], s[b], s[c]]
                0 <= a < i && 0 <= b < n && 0 <= c < n ==> L::join_model(
                    s[a],
                    L::join_model(s[b], s[c]),
                ) == L::join_model(L::join_model(s[a], s[b]), s[c]),
        decreases n - i,
    {
        let mut j: usize = 0;
        while j < n
            invariant
                i < n,
                j <= n,
                n == samples.len(),
                all_wf(samples@),
                s == views(samples@),
                forall|a: int|
                    0 <= a < n ==> L::join_model(#[trigger] s[a], L::bottom_model()) == s[a],
                forall|a: int| 0 <= a < n ==> L::join_model(#[trigger] s[a], s[a]) == s[a],
                forall|a: int, b: int|
                    #![trigger s[a], s[b]]
                    0 <= a < n && 0 <= b < n ==> L::join_model(s[a], s[b]) == L::join_model(
                        s[b],
                        s[a],
                    ),
                forall|a: int, b: int, c: int|
                    #![trigger s[a], s[b], s[c]]
                    0 <= a < i && 0 <= b < n && 0 <= c < n ==> L::join_model(
                        s[a],
                        L::join_model(s[b], s[c]),
                    ) == L::join_model(L::join_model(s[a], s[b]), s[c]),
                forall|b: int, c: int|
                    #![trigger s[b], s[c]]
                    0 <= b < j && 0 <= c < n ==> L::join_model(
                        s[i as int],
                        L::join_model(s[b], s[c]),
                    ) == L::join_model(L::join_model(s[i as int], s[b]), s[c]),
            decreases n - j,
        {
            let mut k: usize = 0;
            while k < n
                invariant
                    i < n,
                    j < n,
                    k <= n,
                    n == samples.len(),
                    all_wf(samples@),
                    s == views(samples@),
                    forall|a: int|
                        0 <= a < n ==> L::join_model(#[trigger] s[a], L::bottom_model()) == s[a],
                    forall|a: int| 0 <= a < n ==> L::join_model(#[trigger] s[a], s[a]) == s[a],
                    forall|a: int, b: int|
                        #![trigger s[a], s[b]]
                        0 <= a < n && 0 <= b < n ==> L::join_model(s[a], s[b]) == L::join_model(
                            s[b],
                            s[a],
                        ),
                    forall|a: int, b: int, c: int|
                        #![trigger s[a], s[b], s[c]]
                        0 <= a < i && 0 <= b < n && 0 <= c < n ==> L::join_model(
                            s[a],
                            L::join_model(s[b], s[c]),
                        ) == L::join_model(L::join_model(s[a], s[b]), s[c]),
                    forall|b: int, c: int|
                        #![trigger s[b], s[c]]
                        0 <= b < j && 0 <= c < n ==> L::join_model(
                            s[i as int],
                            L::join_model(s[b], s[c]),
                        ) == L::join_model(L::join_model(s[i as int], s[b]), s[c]),
                    forall|c: int|
                        #![trigger s[c]]
                        0 <= c < k ==> L::join_model(
                            s[i as int],
                            L::join_model(s[j as int], s[c]),
                        ) == L::join_model(L::join_model(s[i as int], s[j as int]), s[c]),
                decreases n - k,
            {
                let bc = samples[j].join(&samples[k]);
                let left = samples[i].join(&bc);
                let ab = samples[i].join(&samples[j]);
                let right = ab.join(&samples[k]);
                if !left.same_state(&right) {
                    assert(s[i as int] == samples@[i as int]@ && s[j as int] == samples@[j as int]@
                        && s[k as int] == samples@[k as int]@);
                    return false;
                }
                k += 1;
            }
            j += 1;
        }
        i += 1;
    }
    true
}

/// Samples of valid, pairwise compatible states satisfy the semilattice
/// axioms, so `verify_semilattice_axioms` accepts them.
pub proof fn lemma_axioms_hold<L: BoundedJoinSemilattice>(s: Seq<L::V>)
    requires
        forall|i: int| 0 <= i < s.len() ==> L::valid(#[trigger] s[i]),
        forall|i: int, j: int|
            #![trigger s[i], s[j]]
            0 <= i < s.len() && 0 <= j < s.len() ==> L::compatible(s[i], s[j]),
    ensures
        axioms_hold::<L>(s),
{
    assert forall|i: int| 0 <= i < s.len() implies L::join_model(#[trigger] s[i], L::bottom_model())
        == s[i] && L::join_model(s[i], s[i]) == s[i] by {
        L::lemma_unary_laws(s[i]);
    }
    assert forall|i: int, j: int|
        #![trigger s[i], s[j]]
        0 <= i < s.len() && 0 <= j < s.len() implies L::join_model(s[i], s[j]) == L::join_model(
            s[j],
            s[i],
        ) by {
        L::lemma_binary_laws(s[i], s[j], s[j]);
    }
    assert forall|i: int, j: int, k: int|
        #![trigger s[i], s[j], s[k]]
        0 <= i < s.len() && 0 <= j < s.len() && 0 <= k < s.len() implies L::join_model(
            s[i],
            L::join_model(s[j], s[k]),
        ) == L::join_model(L::join_model(s[i], s[j]), s[k]) by {
        L::lemma_binary_laws(s[i], s[j], s[k]);
    }
}

/// Decidability of monotonicity checking.
#[derive(Debug, Clone, Copy, PartialEq, Eq)]
pub enum Decidability {
    Decidable,
    SemiDecidable,
}

impl Decidability {
    /// Whether the check was decidable.
    pub fn is_decidable(&self) -> (r: bool)
        ensures
            r == (*self == Decidability::Decidable),
    {
        match self {
            Decidability::Decidable => true,
            Decidability::SemiDecidable => false,
        }
    }
}

/// Monotonicity checked on samples is decidable when the samples cover a
/// claimed finite lattice, and semi-decidable otherwise.
pub fn decidability<L: BoundedJoinSemilattice>(samples: &[L], claimed_total: Option<usize>) -> (r:
    Decidability)
    ensures
        r == (if claimed_total matches Some(total) && samples@.len() >= total {
            Decidability::Decidable
        } else {
            Decidability::SemiDecidable
        }),
{
    if let Some(total) = claimed_total {
        if samples.len() >= total {
            return Decidability::Decidable;
        }
    }
    Decidability::SemiDecidable
}

} // verus!
