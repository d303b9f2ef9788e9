//! SmartCRDT agent state and an end-to-end check of the convergence
//! properties of a CRDT on sample states.

use vstd::prelude::*;
use crate::calm::{
    axioms_hold, calm_analysis, monotone_on, monotone_results, unordered_results, verify_monotone,
    verify_semilattice_axioms,
};
use crate::convergence::{coherent, lemma_fold_prefix, lemma_fold_same_members};
use crate::crdt_state::GSet;
use crate::semilattice::{
    all_wf, entry_or_zero, fold_join, join_all, lemma_pointwise_max_laws, max_u64, max_vectors,
    pointwise_max, views, zeros, BoundedJoinSemilattice,
};
use crate::update::{callable_on, functional, outputs_wf};

verus! {

// ---------------------------------------------------------------------------
// Agent nodes
// ---------------------------------------------------------------------------

/// An agent node with a local CRDT state.
#[derive(Clone, Debug)]
pub struct AgentNode<L> {
    pub id: u64,
    pub state: L,
    pub op_count: u64,
}

impl<L: BoundedJoinSemilattice> AgentNode<L> {
    /// A node at bottom that has performed no operation.
    pub fn new(id: u64) -> (r: Self)
        ensures
            r.id == id,
            r.state.wf(),
            r.state@ == L::bottom_model(),
            r.op_count == 0,
    {
        AgentNode { id, state: L::bottom(), op_count: 0 }
    }

    /// Replaces the state by the result of an update and counts the
    /// operation.
    pub fn apply_update<F: FnOnce(&L) -> L>(&mut self, f: F)
        requires
            call_requires(f, (&old(self).state,)),
            old(self).op_count < u64::MAX,
        ensures
            call_ensures(f, (&old(self).state,), final(self).state),
            final(self).id == old(self).id,
            final(self).op_count == old(self).op_count + 1,
    {
        let next = f(&self.state);
        self.state = next;
        self.op_count = self.op_count + 1;
    }

    /// Joins another node's state into this one and counts the operation.
    pub fn merge_from(&mut self, other: &AgentNode<L>)
        requires
            old(self).state.wf(),
            other.state.wf(),
            old(self).op_count < u64::MAX,
        ensures
            final(self).state.wf(),
            final(self).state@ == L::join_model(old(self).state@, other.state@),
            final(self).id == old(self).id,
            final(self).op_count == old(self).op_count + 1,
    {
        self.state = self.state.join(&other.state);
        self.op_count = self.op_count + 1;
    }
}

// ---------------------------------------------------------------------------
// Convergence check
// ---------------------------------------------------------------------------

/// Verification result for a SmartCRDT.
#[derive(Debug, Clone)]
pub struct VerificationResult {
    pub crdt_name: String,
    pub is_monotone: bool,
    pub is_coordination_free: bool,
    pub converges: bool,
    pub semilattice_axioms_hold: bool,
    pub explanation: String,
}

/// The joins of consecutive pairs of views (the last view alone when their
/// number is odd).
pub open spec fn pair_joins<L: BoundedJoinSemilattice>(s: Seq<L::V>) -> Seq<L::V> {
    Seq::new(
        ((s.len() + 1) / 2) as nat,
        |k: int|
            if 2 * k + 1 < s.len() {
                L::join_model(s[2 * k], s[2 * k + 1])
            } else {
                s[2 * k]
            },
    )
}

/// The join of the views does not depend on the merge order: folding them
/// forward, backward and pair by pair gives one result.
pub open spec fn convergence_holds<L: BoundedJoinSemilattice>(s: Seq<L::V>) -> bool {
    s.len() < 2 || (fold_join::<L>(s) == fold_join::<L>(s.reverse()) && (s.len() < 3
        || fold_join::<L>(s) == fold_join::<L>(pair_joins::<L>(s))))
}

/// Joins the states from last to first.
fn join_reversed<L: BoundedJoinSemilattice>(states: &[L]) -> (r: L)
    requires
        all_wf(states@),
    ensures
        r.wf(),
        r@ == fold_join::<L>(views(states@).reverse()),
{
    let ghost t = views(states@).reverse();
    let n = states.len();
    let mut acc = L::bottom();
    let mut k: usize = 0;
    proof {
        assert(t.take(0) =~= Seq::<L::V>::empty());
    }
    while k < n
        invariant
            k <= n,
            n == states@.len(),
            all_wf(states@),
            t == views(states@).reverse(),
            acc.wf(),
            acc@ == fold_join::<L>(t.take(k as int)),
        decreases n - k,
    {
        proof {
            assert(t.take(k as int + 1).drop_last() =~= t.take(k as int));
            assert(t[k as int] == states@[n - 1 - k]@);
        }
        acc = acc.join(&states[n - 1 - k]);
        k += 1;
    }
    proof {
        assert(t.take(n as int) =~= t);
    }
    acc
}

/// The joins of consecutive pairs of states.
fn pair_up<L: BoundedJoinSemilattice>(states: &[L]) -> (r: Vec<L>)
    requires
        all_wf(states@),
    ensures
        all_wf(r@),
        views(r@) == pair_joins::<L>(views(states@)),
{
    let ghost s = views(states@);
    let n = states.len();
    let mut pairs: Vec<L> = Vec::new();
    let mut i: usize = 0;
    while i + 1 < n
        invariant
            n == states@.len(),
            s == views(states@),
            all_wf(states@),
            all_wf(pairs@),
            i == 2 * pairs@.len(),
            i <= n,
            forall|k: int| 0 <= k < pairs@.len() ==> #[trigger] pairs@[k]@ == pair_joins::<L>(s)[k],
        decreases n - i,
    {
        pairs.push(states[i].join(&states[i + 1]));
        i += 2;
    }
    if i < n {
        pairs.push(states[i].copy_state());
    }
    proof {
        assert(views(pairs@) =~= pair_joins::<L>(s));
    }
    pairs
}

/// Whether the sample states converge whatever the merge order: forward,
/// backward and pairwise merges give one state.
fn verify_convergence<L: BoundedJoinSemilattice>(samples: &[L]) -> (r: bool)
    requires
        all_wf(samples@),
    ensures
        r == convergence_holds::<L>(views(samples@)),
{
    if samples.len() < 2 {
        return true;
    }
    let forward = join_all(samples);
    let reverse = join_reversed(samples);
    if !forward.same_state(&reverse) {
        return false;
    }
    if samples.len() >= 3 {
        let pairs = pair_up(samples);
        let pairwise = join_all(pairs.as_slice());
        if !forward.same_state(&pairwise) {
            return false;
        }
    }
    true
}

/// A boolean as text.
pub open spec fn bool_text(b: bool) -> Seq<char> {
    if b {
        "true"@
    } else {
        "false"@
    }
}

/// Appends a boolean as text.
fn append_bool(s: &mut String, b: bool)
    ensures
        final(s)@ == old(s)@ + bool_text(b),
{
    if b {
        s.append("true");
    } else {
        s.append("false");
    }
}

/// The explanation of a verification result.
pub open spec fn verification_explanation(
    name: Seq<char>,
    is_monotone: bool,
    axioms: bool,
    converges: bool,
) -> Seq<char> {
    if is_monotone && axioms && converges {
        "CUDAclaw SmartCRDT '"@ + name
            + "' VERIFIED: operations are monotone, semilattice axioms hold, convergence guaranteed without coordination."@
    } else {
        "CUDAclaw SmartCRDT '"@ + name + "' WARNING: monotone="@ + bool_text(is_monotone)
            + ", axioms="@ + bool_text(axioms) + ", converges="@ + bool_text(converges)
    }
}

/// Verify that a CRDT satisfies all convergence properties on sample states.
pub fn verify_crdt<L: BoundedJoinSemilattice, F: Fn(&L) -> L>(
    crdt_name: &str,
    samples: &[L],
    update_fn: &F,
) -> (r: VerificationResult)
    requires
        outputs_wf::<L, F>(update_fn),
        callable_on::<L, F>(update_fn, samples@),
        all_wf(samples@),
    ensures
        r.crdt_name@ == crdt_name@,
        monotone_results::<L, F>(update_fn, samples@) ==> r.is_monotone && r.is_coordination_free,
        !r.is_monotone ==> unordered_results::<L, F>(update_fn, samples@),
        !r.is_coordination_free ==> unordered_results::<L, F>(update_fn, samples@),
        functional(update_fn) ==> r.is_monotone == monotone_on::<L, F>(update_fn, views(samples@)),
        functional(update_fn) ==> r.is_coordination_free == r.is_monotone,
        r.semilattice_axioms_hold == axioms_hold::<L>(views(samples@)),
        r.converges == convergence_holds::<L>(views(samples@)),
        r.converges ==> samples@.len() < 2 || fold_join::<L>(views(samples@)) == fold_join::<L>(
            views(samples@).reverse(),
        ),
        samples@.len() >= 2 && fold_join::<L>(views(samples@)) != fold_join::<L>(
            views(samples@).reverse(),
        ) ==> !r.converges,
        r.explanation@ == verification_explanation(
            crdt_name@,
            r.is_monotone,
            r.semilattice_axioms_hold,
            r.converges,
        ),
{
    let is_monotone = verify_monotone(samples, update_fn);
    let analysis = calm_analysis(samples, update_fn, crdt_name);
    let axioms_hold = verify_semilattice_axioms(samples);
    let converges = verify_convergence(samples);
    let mut explanation = String::from_str("CUDAclaw SmartCRDT '");
    explanation.append(crdt_name);
    if is_monotone && axioms_hold && converges {
        explanation.append(
            "' VERIFIED: operations are monotone, semilattice axioms hold, convergence guaranteed without coordination.",
        );
    } else {
        explanation.append("' WARNING: monotone=");
        append_bool(&mut explanation, is_monotone);
        explanation.append(", axioms=");
        append_bool(&mut explanation, axioms_hold);
        explanation.append(", converges=");
        append_bool(&mut explanation, converges);
    }
    proof {
        lemma_convergence_means_order_free::<L>(views(samples@));
    }
    VerificationResult {
        crdt_name: String::from_str(crdt_name),
        is_monotone,
        is_coordination_free: analysis.is_coordination_free,
        converges,
        semilattice_axioms_hold: axioms_hold,
        explanation,
    }
}

/// Folding the pair joins of a coherent family gives the fold of the family
/// up to twice as many members.
proof fn lemma_fold_pairs<L: BoundedJoinSemilattice>(s: Seq<L::V>, k: int)
    requires
        coherent::<L>(s),
        0 <= k <= pair_joins::<L>(s).len(),
    ensures
        fold_join::<L>(pair_joins::<L>(s).take(k)) == fold_join::<L>(
            s.take(if 2 * k <= s.len() {
                2 * k
            } else {
                s.len() as int
            }),
        ),
    decreases k,
{
    let p = pair_joins::<L>(s);
    if k == 0 {
        assert(p.take(0) =~= Seq::<L::V>::empty());
        assert(s.take(0) =~= Seq::<L::V>::empty());
    } else {
        let j = k - 1;
        lemma_fold_pairs::<L>(s, j);
        assert(2 * j < s.len());
        assert(p.take(k).drop_last() =~= p.take(j));
        assert(p.take(k).last() == p[j]);
        assert(fold_join::<L>(p.take(k)) == L::join_model(fold_join::<L>(p.take(j)), p[j]));
        lemma_fold_prefix::<L>(s, 2 * j);
        let f = fold_join::<L>(s.take(2 * j));
        let x = s[2 * j];
        assert(s.take(2 * j + 1).drop_last() =~= s.take(2 * j));
        assert(fold_join::<L>(s.take(2 * j + 1)) == L::join_model(f, x));
        if 2 * j + 1 < s.len() {
            let y = s[2 * j + 1];
            assert(p[j] == L::join_model(x, y));
            assert(s.take(2 * j + 2).drop_last() =~= s.take(2 * j + 1));
            assert(fold_join::<L>(s.take(2 * j + 2)) == L::join_model(L::join_model(f, x), y));
            assert(L::compatible(f, x) && L::compatible(f, y) && L::compatible(x, y));
            L::lemma_binary_laws(f, x, y);
        } else {
            assert(p[j] == x);
            assert(s.take(s.len() as int) == s.take(2 * j + 1));
        }
    }
}

/// What the convergence check asks: with two samples or more, merging them
/// forward and in reverse gives one result, and with three or more so does
/// merging them pair by pair; when a merge order changes the result, the
/// check fails.
pub proof fn lemma_convergence_means_order_free<L: BoundedJoinSemilattice>(s: Seq<L::V>)
    ensures
        convergence_holds::<L>(s) ==> s.len() < 2 || fold_join::<L>(s) == fold_join::<L>(
            s.reverse(),
        ),
        convergence_holds::<L>(s) ==> s.len() < 3 || fold_join::<L>(s) == fold_join::<L>(
            pair_joins::<L>(s),
        ),
        s.len() >= 2 && fold_join::<L>(s) != fold_join::<L>(s.reverse()) ==> !convergence_holds::<
            L,
        >(s),
        s.len() >= 3 && fold_join::<L>(s) != fold_join::<L>(pair_joins::<L>(s))
            ==> !convergence_holds::<L>(s),
        s.len() < 2 ==> convergence_holds::<L>(s),
{
}

/// Convergence law: a coherent family of samples (valid, pairwise
/// compatible views) converges whatever the merge order, so
/// `verify_crdt` reports convergence for it.
pub proof fn lemma_convergence_holds<L: BoundedJoinSemilattice>(s: Seq<L::V>)
    requires
        coherent::<L>(s),
    ensures
        convergence_holds::<L>(s),
{
    if s.len() >= 2 {
        let r = s.reverse();
        assert forall|x: L::V| s.contains(x) <==> r.contains(x) by {
            if s.contains(x) {
                let i = choose|i: int| 0 <= i < s.len() && s[i] == x;
                assert(r[s.len() - 1 - i] == x);
            }
            if r.contains(x) {
                let i = choose|i: int| 0 <= i < r.len() && r[i] == x;
                assert(s[s.len() - 1 - i] == x);
            }
        }
        lemma_fold_same_members::<L>(s, r);
        let p = pair_joins::<L>(s);
        lemma_fold_pairs::<L>(s, p.len() as int);
        assert(p.take(p.len() as int) =~= p);
        assert(s.take(s.len() as int) =~= s);
    }
}

// ---------------------------------------------------------------------------
// SmartCRDT
// ---------------------------------------------------------------------------

/// The number of positive entries.
pub open spec fn count_positive(s: Seq<u64>) -> nat
    decreases s.len(),
{
    if s.len() == 0 {
        0
    } else {
        count_positive(s.drop_last()) + if s.last() > 0 {
            1nat
        } else {
            0nat
        }
    }
}

/// The view of a SmartCRDT: heartbeats, task names and versions.
pub type SmartModel = (Seq<u64>, Set<Seq<char>>, Seq<u64>);

/// SmartCRDT: the combined CRDT of agent state.
#[derive(Clone, Debug)]
pub struct SmartCRDT {
    pub heartbeat: Vec<u64>,
    pub tasks: GSet<String>,
    pub version: Vec<u64>,
}

impl View for SmartCRDT {
    type V = SmartModel;

    open spec fn view(&self) -> SmartModel {
        (self.heartbeat@, self.tasks@, self.version@)
    }
}

impl SmartCRDT {
    /// A state for `n_agents` agents, all counts zero, no task.
    pub fn new(n_agents: usize) -> (r: Self)
        ensures
            r.wf(),
            r@ == (
                Seq::new(n_agents as nat, |i: int| 0u64),
                Set::<Seq<char>>::empty(),
                Seq::new(n_agents as nat, |i: int| 0u64),
            ),
    {
        SmartCRDT { heartbeat: zeros(n_agents), tasks: GSet::new(), version: zeros(n_agents) }
    }

    /// Agent `agent_id` sends a heartbeat, which also advances its version.
    pub fn tick(&mut self, agent_id: usize)
        requires
            agent_id < old(self)@.0.len(),
            agent_id < old(self)@.2.len(),
            old(self)@.0[agent_id as int] < u64::MAX,
            old(self)@.2[agent_id as int] < u64::MAX,
        ensures
            final(self)@ == (
                old(self)@.0.update(agent_id as int, (old(self)@.0[agent_id as int] + 1) as u64),
                old(self)@.1,
                old(self)@.2.update(agent_id as int, (old(self)@.2[agent_id as int] + 1) as u64),
            ),
            old(self).wf() ==> final(self).wf(),
    {
        let h = self.heartbeat[agent_id];
        self.heartbeat.set(agent_id, h + 1);
        let v = self.version[agent_id];
        self.version.set(agent_id, v + 1);
    }

    /// Adds a task.
    pub fn assign_task(&mut self, task: String)
        requires
            old(self).wf(),
        ensures
            final(self).wf(),
            final(self)@ == (old(self)@.0, old(self)@.1.insert(task@), old(self)@.2),
    {
        self.tasks.add(task);
    }

    /// The number of agents that have sent a heartbeat.
    pub fn active_agents(&self) -> (r: usize)
        ensures
            r == count_positive(self@.0),
    {
        let mut count: usize = 0;
        let mut i: usize = 0;
        while i < self.heartbeat.len()
            invariant
                i <= self.heartbeat.len(),
                count <= i,
                count == count_positive(self.heartbeat@.take(i as int)),
            decreases self.heartbeat.len() - i,
        {
            proof {
                assert(self.heartbeat@.take(i as int + 1).drop_last() =~= self.heartbeat@.take(
                    i as int,
                ));
            }
            if self.heartbeat[i] > 0 {
                count = count + 1;
            }
            i += 1;
        }
        proof {
            assert(self.heartbeat@.take(i as int) =~= self.heartbeat@);
        }
        count
    }
}

/// The pointwise maximum of two vectors, padded with zeros or cut to `n`
/// entries.
fn max_vectors_to(a: &Vec<u64>, b: &Vec<u64>, n: usize) -> (r: Vec<u64>)
    ensures
        r@ == Seq::new(n as nat, |i: int| max_u64(entry_or_zero(a@, i), entry_or_zero(b@, i))),
{
    let mut r: Vec<u64> = Vec::new();
    let mut i: usize = 0;
    while i < n
        invariant
            i <= n,
            r@ =~= Seq::new(i as nat, |k: int| max_u64(entry_or_zero(a@, k), entry_or_zero(b@, k))),
        decreases n - i,
    {
        let x = if i < a.len() {
            a[i]
        } else {
            0
        };
        let y = if i < b.len() {
            b[i]
        } else {
            0
        };
        r.push(if x >= y {
            x
        } else {
            y
        });
        i += 1;
    }
    r
}

/// The versions of a join: the pointwise maximum, as long as the longer
/// heartbeat vector.
pub open spec fn joined_versions(a: SmartModel, b: SmartModel) -> Seq<u64> {
    Seq::new(
        if a.0.len() >= b.0.len() {
            a.0.len()
        } else {
            b.0.len()
        },
        |i: int| max_u64(entry_or_zero(a.2, i), entry_or_zero(b.2, i)),
    )
}

impl BoundedJoinSemilattice for SmartCRDT {
    /// The task set is well-formed and there are no more versions than
    /// heartbeats. The join sizes both vectors by the longer heartbeat vector
    /// and fails on a longer version vector; as `join` may only ask each
    /// operand for its own well-formedness, this is the weakest condition on
    /// one operand that holds off that failure whatever the other is.
    open spec fn wf(&self) -> bool {
        self.tasks.wf() && self.version@.len() <= self.heartbeat@.len()
    }

    /// One version per heartbeat.
    open spec fn valid(m: SmartModel) -> bool {
        m.2.len() == m.0.len()
    }

    open spec fn compatible(a: SmartModel, b: SmartModel) -> bool {
        true
    }

    open spec fn bottom_model() -> SmartModel {
        (Seq::empty(), Set::empty(), Seq::empty())
    }

    open spec fn join_model(a: SmartModel, b: SmartModel) -> SmartModel {
        (pointwise_max(a.0, b.0), a.1.union(b.1), joined_versions(a, b))
    }

    fn bottom() -> (r: Self) {
        let r = SmartCRDT { heartbeat: Vec::new(), tasks: GSet::new(), version: Vec::new() };
        assert(r@.0 =~= Seq::<u64>::empty());
        assert(r@.2 =~= Seq::<u64>::empty());
        r
    }

    fn join(&self, other: &Self) -> (r: Self) {
        let heartbeat = max_vectors(&self.heartbeat, &other.heartbeat);
        let n = heartbeat.len();
        let version = max_vectors_to(&self.version, &other.version, n);
        SmartCRDT { heartbeat, tasks: self.tasks.join(&other.tasks), version }
    }

    fn same_state(&self, other: &Self) -> (r: bool) {
        crate::semilattice::same_u64_vectors(&self.heartbeat, &other.heartbeat)
            && self.tasks.same_state(&other.tasks) && crate::semilattice::same_u64_vectors(
            &self.version,
            &other.version,
        )
    }

    fn copy_state(&self) -> (r: Self) {
        SmartCRDT {
            heartbeat: self.heartbeat.clone(),
            tasks: self.tasks.copy_state(),
            version: self.version.clone(),
        }
    }

    proof fn lemma_unary_laws(a: SmartModel) {
        lemma_pointwise_max_laws(a.0, a.0, a.0);
        assert(a.1.union(a.1) =~= a.1);
        assert(a.1.union(Set::empty()) =~= a.1);
        assert(joined_versions(a, a) =~= a.2);
        assert(joined_versions(a, Self::bottom_model()) =~= a.2);
    }

    proof fn lemma_binary_laws(a: SmartModel, b: SmartModel, c: SmartModel) {
        lemma_pointwise_max_laws(a.0, b.0, c.0);
        assert(a.1.union(b.1) =~= b.1.union(a.1));
        assert(a.1.union(b.1).union(c.1) =~= a.1.union(b.1.union(c.1)));
        assert(joined_versions(a, b) =~= joined_versions(b, a));
        let ab = Self::join_model(a, b);
        let bc = Self::join_model(b, c);
        assert(joined_versions(ab, c) =~= joined_versions(a, bc));
    }
}

} // verus!
