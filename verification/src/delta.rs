//! Delta-state CRDTs.
//!
//! A delta-state CRDT records, beside its state, the part of the state that
//! local updates produced since the last extraction. The delta is itself a
//! join-semilattice and can be shipped and merged in place of the full state.

use vstd::prelude::*;
use crate::crdt_state::{lww_write, opt_view, seq_sum, GCounter, GSet, LWWRegister};
use crate::element::Element;
use crate::semilattice::{
    entry_or_zero, lemma_pointwise_max_laws, max_u64, max_vectors, pointwise_max,
    same_u64_vectors, zeros, spec_leq, BoundedJoinSemilattice, VectorMax,
};

verus! {

/// A delta-state CRDT.
///
/// Its view holds the pending delta beside the replicated state: `pending`
/// reads it, `extracted` is the view once it has been taken out, and
/// `delta_state` is the view of the state that a delta converts into.
pub trait DeltaCrdt: BoundedJoinSemilattice {
    type Delta: BoundedJoinSemilattice;

    /// The view of the state that a delta converts into.
    spec fn delta_state(d: <Self::Delta as View>::V) -> Self::V;

    /// The delta accumulated in a state with view `m`.
    spec fn pending(m: Self::V) -> <Self::Delta as View>::V;

    /// The view of a state with view `m` once its delta has been extracted.
    spec fn extracted(m: Self::V) -> Self::V;

    /// Converts a delta into a full state.
    fn from_delta(delta: Self::Delta) -> (r: Self)
        requires
            delta.wf(),
        ensures
            r.wf(),
            r@ == Self::delta_state(delta@),
    ;

    /// Takes out the delta accumulated since the last extraction.
    fn extract_delta(&mut self) -> (r: Self::Delta)
        requires
            old(self).wf(),
        ensures
            final(self).wf(),
            r.wf(),
            r@ == Self::pending(old(self)@),
            final(self)@ == Self::extracted(old(self)@),
    ;

    /// Joins a delta received from another replica into this state.
    fn merge_delta(&mut self, delta: &Self::Delta)
        requires
            old(self).wf(),
            delta.wf(),
        ensures
            final(self).wf(),
            final(self)@ == Self::join_model(old(self)@, Self::delta_state(delta@)),
    {
        let d = delta.copy_state();
        let full = Self::from_delta(d);
        let merged = self.join(&full);
        *self = merged;
    }
}

/// The vector of `n` zeros.
pub open spec fn zero_seq(n: nat) -> Seq<u64> {
    Seq::new(n, |i: int| 0u64)
}

// ---------------------------------------------------------------------------
// Delta-GCounter
// ---------------------------------------------------------------------------

/// The view of a delta G-Counter: the counter, and the counts of the nodes
/// that changed since the last extraction (zero for the others).
///
/// The id of the owning replica is local to the replica and no part of the
/// view, so that join commutes across replicas. `same_state`, and every check
/// built on it (`leq`, `is_bottom`, the sample checks, gossip's change
/// detection and convergence test), therefore treats counters of different
/// owners with equal counts as the same state; the derived `==` still
/// compares the owner.
pub type DeltaGCounterModel = ((usize, Seq<u64>), Seq<u64>);

/// The view after the owning replica `id` increments its count: the new
/// count becomes that node's pending count.
pub open spec fn delta_inc(m: DeltaGCounterModel, id: int) -> DeltaGCounterModel {
    let c = (m.0.1[id] + 1) as u64;
    ((m.0.0, m.0.1.update(id, c)), m.1.update(id, c))
}

/// The counts are the counts `shipped` in earlier deltas joined with the
/// pending delta.
pub open spec fn delta_covers(m: DeltaGCounterModel, shipped: Seq<u64>) -> bool {
    m.0.1 == pointwise_max(shipped, m.1)
}

/// A G-Counter that records which counts changed since the last extraction.
#[derive(Clone, PartialEq, Eq, Debug)]
pub struct DeltaGCounter {
    pub inner: GCounter,
    pub replica_id: usize,
    pub delta_counts: Vec<u64>,
}

impl View for DeltaGCounter {
    type V = DeltaGCounterModel;

    open spec fn view(&self) -> DeltaGCounterModel {
        (self.inner@, self.delta_counts@)
    }
}

impl DeltaGCounter {
    /// A counter for `n` nodes owned by replica `replica_id`.
    pub fn new(n: usize, replica_id: usize) -> (r: Self)
        ensures
            r.wf(),
            r.replica_id == replica_id,
            r@ == ((n, zero_seq(n as nat)), zero_seq(n as nat)),
            delta_covers(r@, zero_seq(n as nat)),
    {
        let r = DeltaGCounter { inner: GCounter::new(n), replica_id, delta_counts: zeros(n) };
        assert(pointwise_max(zero_seq(n as nat), zero_seq(n as nat)) =~= zero_seq(n as nat));
        r
    }

    /// The owning replica increments its count; the new count becomes its
    /// pending count.
    pub fn inc(&mut self)
        requires
            old(self).replica_id < old(self)@.0.0,
            old(self).replica_id < old(self)@.0.1.len(),
            old(self).replica_id < old(self)@.1.len(),
            old(self)@.0.1[old(self).replica_id as int] < u64::MAX,
        ensures
            final(self).wf(),
            final(self).replica_id == old(self).replica_id,
            final(self)@ == delta_inc(old(self)@, old(self).replica_id as int),
    {
        let id = self.replica_id;
        self.inner.inc(id);
        let c = self.inner.read(id);
        self.delta_counts.set(id, c);
    }

    /// The total of all counts.
    pub fn value(&self) -> (r: u64)
        requires
            seq_sum(self@.0.1) <= u64::MAX,
        ensures
            r == seq_sum(self@.0.1),
    {
        self.inner.value()
    }
}

/// An increment keeps the counts covered by what was shipped and what is
/// pending.
pub proof fn lemma_delta_inc_covers(m: DeltaGCounterModel, shipped: Seq<u64>, id: int)
    requires
        delta_covers(m, shipped),
        0 <= id < m.0.1.len(),
        id < m.1.len(),
        m.0.1[id] < u64::MAX,
    ensures
        delta_covers(delta_inc(m, id), shipped),
{
    let m2 = delta_inc(m, id);
    assert(m.0.1[id] == max_u64(entry_or_zero(shipped, id), entry_or_zero(m.1, id)));
    assert(m2.0.1 =~= pointwise_max(shipped, m2.1));
}

/// After an extraction everything is shipped: the counts are covered by
/// themselves, with nothing pending.
pub proof fn lemma_delta_extracted_covers(m: DeltaGCounterModel)
    requires
        m.0.0 <= m.0.1.len(),
    ensures
        delta_covers(DeltaGCounter::extracted(m), m.0.1),
{
    assert(pointwise_max(m.0.1, zero_seq(m.0.0 as nat)) =~= m.0.1);
}

/// Delta sync: a replica that holds every count shipped so far (`b` above
/// `shipped`) and joins the pending delta gets what joining the full counts
/// gives. Shipping each delta in turn is therefore a full-state sync.
pub proof fn lemma_delta_sync(m: DeltaGCounterModel, shipped: Seq<u64>, b: Seq<u64>)
    requires
        delta_covers(m, shipped),
        spec_leq::<GCounterDelta>(shipped, b),
    ensures
        pointwise_max(b, m.1) == pointwise_max(b, m.0.1),
{
    lemma_pointwise_max_laws(b, shipped, m.1);
    lemma_pointwise_max_laws(shipped, b, m.1);
}

/// The delta of a G-Counter: the counts of the nodes that changed (zero for
/// the others).
#[derive(Clone, PartialEq, Eq, Debug)]
pub struct GCounterDelta {
    pub counts: Vec<u64>,
}

impl View for GCounterDelta {
    type V = Seq<u64>;

    open spec fn view(&self) -> Seq<u64> {
        self.counts@
    }
}

impl BoundedJoinSemilattice for GCounterDelta {
    open spec fn wf(&self) -> bool {
        true
    }

    open spec fn valid(m: Seq<u64>) -> bool {
        true
    }

    open spec fn compatible(a: Seq<u64>, b: Seq<u64>) -> bool {
        true
    }

    open spec fn bottom_model() -> Seq<u64> {
        Seq::empty()
    }

    open spec fn join_model(a: Seq<u64>, b: Seq<u64>) -> Seq<u64> {
        pointwise_max(a, b)
    }

    fn bottom() -> (r: Self) {
        let r = GCounterDelta { counts: Vec::new() };
        assert(r@ =~= Seq::<u64>::empty());
        r
    }

    fn join(&self, other: &Self) -> (r: Self) {
        GCounterDelta { counts: max_vectors(&self.counts, &other.counts) }
    }

    fn same_state(&self, other: &Self) -> (r: bool) {
        same_u64_vectors(&self.counts, &other.counts)
    }

    fn copy_state(&self) -> (r: Self) {
        GCounterDelta { counts: self.counts.clone() }
    }

    proof fn lemma_unary_laws(a: Seq<u64>) {
        lemma_pointwise_max_laws(a, a, a);
    }

    proof fn lemma_binary_laws(a: Seq<u64>, b: Seq<u64>, c: Seq<u64>) {
        lemma_pointwise_max_laws(a, b, c);
    }
}

impl BoundedJoinSemilattice for DeltaGCounter {
    open spec fn wf(&self) -> bool {
        true
    }

    /// No count is pending.
    open spec fn valid(m: DeltaGCounterModel) -> bool {
        m.1 == zero_seq(m.0.0 as nat)
    }

    open spec fn compatible(a: DeltaGCounterModel, b: DeltaGCounterModel) -> bool {
        true
    }

    open spec fn bottom_model() -> DeltaGCounterModel {
        ((0, Seq::empty()), Seq::empty())
    }

    /// The counters are joined; nothing is pending afterwards.
    open spec fn join_model(a: DeltaGCounterModel, b: DeltaGCounterModel) -> DeltaGCounterModel {
        let inner = GCounter::join_model(a.0, b.0);
        (inner, zero_seq(inner.0 as nat))
    }

    fn bottom() -> (r: Self) {
        let r = DeltaGCounter { inner: GCounter::bottom(), replica_id: 0, delta_counts: Vec::new() };
        assert(r.delta_counts@ =~= Seq::<u64>::empty());
        r
    }

    /// The result is owned by this replica.
    fn join(&self, other: &Self) -> (r: Self)
        ensures
            r.replica_id == self.replica_id,
    {
        let inner = self.inner.join(&other.inner);
        let n = inner.n;
        DeltaGCounter { inner, replica_id: self.replica_id, delta_counts: zeros(n) }
    }

    fn same_state(&self, other: &Self) -> (r: bool) {
        self.inner.same_state(&other.inner) && same_u64_vectors(
            &self.delta_counts,
            &other.delta_counts,
        )
    }

    fn copy_state(&self) -> (r: Self)
        ensures
            r.replica_id == self.replica_id,
    {
        DeltaGCounter {
            inner: self.inner.copy_state(),
            replica_id: self.replica_id,
            delta_counts: self.delta_counts.clone(),
        }
    }

    proof fn lemma_unary_laws(a: DeltaGCounterModel) {
        GCounter::lemma_unary_laws(a.0);
        assert(zero_seq(0) =~= Seq::<u64>::empty());
    }

    proof fn lemma_binary_laws(a: DeltaGCounterModel, b: DeltaGCounterModel, c: DeltaGCounterModel) {
        GCounter::lemma_binary_laws(a.0, b.0, c.0);
    }
}

impl DeltaCrdt for DeltaGCounter {
    type Delta = GCounterDelta;

    /// A delta converts into a counter of its own dimension with nothing
    /// pending.
    open spec fn delta_state(d: Seq<u64>) -> DeltaGCounterModel {
        ((d.len() as usize, d), zero_seq(d.len()))
    }

    open spec fn pending(m: DeltaGCounterModel) -> Seq<u64> {
        m.1
    }

    open spec fn extracted(m: DeltaGCounterModel) -> DeltaGCounterModel {
        (m.0, zero_seq(m.0.0 as nat))
    }

    /// The result is owned by replica 0.
    fn from_delta(delta: GCounterDelta) -> (r: Self)
        ensures
            r.replica_id == 0,
    {
        let n = delta.counts.len();
        DeltaGCounter {
            inner: GCounter { n, counts: VectorMax(delta.counts) },
            replica_id: 0,
            delta_counts: zeros(n),
        }
    }

    fn extract_delta(&mut self) -> (r: GCounterDelta)
        ensures
            final(self).replica_id == old(self).replica_id,
    {
        let mut counts = zeros(self.inner.n);
        std::mem::swap(&mut counts, &mut self.delta_counts);
        GCounterDelta { counts }
    }

    fn merge_delta(&mut self, delta: &GCounterDelta)
        ensures
            final(self).replica_id == old(self).replica_id,
    {
        let d = delta.copy_state();
        let full = Self::from_delta(d);
        let merged = self.join(&full);
        *self = merged;
    }
}

// ---------------------------------------------------------------------------
// Delta-GSet
// ---------------------------------------------------------------------------

/// A grow-only set that records the elements added since the last
/// extraction.
#[derive(Clone, Debug)]
pub struct DeltaGSet<T> {
    pub inner: GSet<T>,
    pub delta: GSet<T>,
}

impl<T: View> View for DeltaGSet<T> {
    type V = (Set<T::V>, Set<T::V>);

    open spec fn view(&self) -> (Set<T::V>, Set<T::V>) {
        (self.inner@, self.delta@)
    }
}

impl<T: Element> DeltaGSet<T> {
    /// The empty set, with nothing pending.
    pub fn new() -> (r: Self)
        ensures
            r.wf(),
            r@ == (Set::<T::V>::empty(), Set::<T::V>::empty()),
    {
        DeltaGSet { inner: GSet::new(), delta: GSet::new() }
    }

    /// Adds an element to the set and to the pending delta.
    pub fn add(&mut self, elem: T)
        requires
            old(self).wf(),
        ensures
            final(self).wf(),
            final(self)@ == (old(self)@.0.insert(elem@), old(self)@.1.insert(elem@)),
    {
        self.inner.add(elem.copy_value());
        self.delta.add(elem);
    }

    /// Whether an element is in the set.
    pub fn contains(&self, elem: &T) -> (r: bool)
        ensures
            r == self@.0.contains(elem@),
    {
        self.inner.contains(elem)
    }
}

impl<T: Element> BoundedJoinSemilattice for DeltaGSet<T> {
    open spec fn wf(&self) -> bool {
        self.inner.wf() && self.delta.wf()
    }

    /// No element is pending.
    open spec fn valid(m: (Set<T::V>, Set<T::V>)) -> bool {
        m.1 == Set::<T::V>::empty()
    }

    open spec fn compatible(a: (Set<T::V>, Set<T::V>), b: (Set<T::V>, Set<T::V>)) -> bool {
        true
    }

    open spec fn bottom_model() -> (Set<T::V>, Set<T::V>) {
        (Set::empty(), Set::empty())
    }

    /// The sets are joined; the pending elements are dropped.
    open spec fn join_model(a: (Set<T::V>, Set<T::V>), b: (Set<T::V>, Set<T::V>)) -> (
        Set<T::V>,
        Set<T::V>,
    ) {
        (a.0.union(b.0), Set::empty())
    }

    fn bottom() -> (r: Self) {
        Self::new()
    }

    fn join(&self, other: &Self) -> (r: Self) {
        DeltaGSet { inner: self.inner.join(&other.inner), delta: GSet::new() }
    }

    fn same_state(&self, other: &Self) -> (r: bool) {
        self.inner.same_state(&other.inner) && self.delta.same_state(&other.delta)
    }

    fn copy_state(&self) -> (r: Self) {
        DeltaGSet { inner: self.inner.copy_state(), delta: self.delta.copy_state() }
    }

    proof fn lemma_unary_laws(a: (Set<T::V>, Set<T::V>)) {
        assert(a.0.union(a.0) =~= a.0);
        assert(a.0.union(Set::empty()) =~= a.0);
    }

    proof fn lemma_binary_laws(
        a: (Set<T::V>, Set<T::V>),
        b: (Set<T::V>, Set<T::V>),
        c: (Set<T::V>, Set<T::V>),
    ) {
        assert(a.0.union(b.0) =~= b.0.union(a.0));
        assert(a.0.union(b.0).union(c.0) =~= a.0.union(b.0.union(c.0)));
    }
}

impl<T: Element> DeltaCrdt for DeltaGSet<T> {
    type Delta = GSet<T>;

    open spec fn delta_state(d: Set<T::V>) -> (Set<T::V>, Set<T::V>) {
        (d, Set::empty())
    }

    open spec fn pending(m: (Set<T::V>, Set<T::V>)) -> Set<T::V> {
        m.1
    }

    open spec fn extracted(m: (Set<T::V>, Set<T::V>)) -> (Set<T::V>, Set<T::V>) {
        (m.0, Set::empty())
    }

    fn from_delta(delta: GSet<T>) -> (r: Self) {
        DeltaGSet { inner: delta, delta: GSet::new() }
    }

    fn extract_delta(&mut self) -> (r: GSet<T>) {
        let mut d = GSet::new();
        std::mem::swap(&mut d, &mut self.delta);
        d
    }
}

// ---------------------------------------------------------------------------
// Delta-LWW-Register
// ---------------------------------------------------------------------------

/// The view of a delta LWW register: the register, and the pending delta
/// (the register as it stood after the last local write).
pub type DeltaLWWModel<X> = ((Option<X>, u64), Option<(Option<X>, u64)>);

/// An LWW register that ships its state after each local write.
#[derive(Clone, PartialEq, Eq, Debug)]
pub struct DeltaLWWRegister<T> {
    pub inner: LWWRegister<T>,
    pub pending_delta: Option<LWWRegister<T>>,
}

impl<T: View> View for DeltaLWWRegister<T> {
    type V = DeltaLWWModel<T::V>;

    open spec fn view(&self) -> DeltaLWWModel<T::V> {
        (self.inner@, opt_view(self.pending_delta))
    }
}

impl<T: Element> DeltaLWWRegister<T> {
    /// An empty register, with nothing pending.
    pub fn new() -> (r: Self)
        ensures
            r.wf(),
            r@ == ((None::<T::V>, 0u64), None::<(Option<T::V>, u64)>),
    {
        DeltaLWWRegister { inner: LWWRegister::new(), pending_delta: None }
    }

    /// Writes a value at a timestamp (ignored by the register if it holds a
    /// later write); the register as it then stands, holding the latest
    /// write, becomes the pending delta.
    pub fn set(&mut self, value: T, timestamp: u64)
        ensures
            final(self).wf(),
            final(self)@ == (
                lww_write(old(self)@.0, value@, timestamp),
                Some(lww_write(old(self)@.0, value@, timestamp)),
            ),
    {
        self.inner.set(value, timestamp);
        self.pending_delta = Some(self.inner.copy_state());
    }

    /// The current value, if any.
    pub fn get(&self) -> (r: Option<&T>)
        ensures
            r is Some <==> self@.0.0 is Some,
            r matches Some(v) ==> self@.0.0 == Some(v@),
    {
        self.inner.get()
    }
}

impl<T: Element> BoundedJoinSemilattice for DeltaLWWRegister<T> {
    open spec fn wf(&self) -> bool {
        true
    }

    /// No write is pending.
    open spec fn valid(m: DeltaLWWModel<T::V>) -> bool {
        m.1 is None
    }

    open spec fn compatible(a: DeltaLWWModel<T::V>, b: DeltaLWWModel<T::V>) -> bool {
        LWWRegister::<T>::compatible(a.0, b.0)
    }

    open spec fn bottom_model() -> DeltaLWWModel<T::V> {
        ((None, 0), None)
    }

    /// The registers are joined; the pending write is dropped.
    open spec fn join_model(a: DeltaLWWModel<T::V>, b: DeltaLWWModel<T::V>) -> DeltaLWWModel<T::V> {
        (LWWRegister::<T>::join_model(a.0, b.0), None)
    }

    fn bottom() -> (r: Self) {
        DeltaLWWRegister { inner: LWWRegister::bottom(), pending_delta: None }
    }

    fn join(&self, other: &Self) -> (r: Self) {
        DeltaLWWRegister { inner: self.inner.join(&other.inner), pending_delta: None }
    }

    fn same_state(&self, other: &Self) -> (r: bool) {
        let same_pending = match (&self.pending_delta, &other.pending_delta) {
            (Some(x), Some(y)) => x.same_state(y),
            (None, None) => true,
            _ => false,
        };
        self.inner.same_state(&other.inner) && same_pending
    }

    fn copy_state(&self) -> (r: Self) {
        let pending_delta = match &self.pending_delta {
            Some(x) => Some(x.copy_state()),
            None => None,
        };
        DeltaLWWRegister { inner: self.inner.copy_state(), pending_delta }
    }

    proof fn lemma_unary_laws(a: DeltaLWWModel<T::V>) {
        LWWRegister::<T>::lemma_unary_laws(a.0);
    }

    proof fn lemma_binary_laws(
        a: DeltaLWWModel<T::V>,
        b: DeltaLWWModel<T::V>,
        c: DeltaLWWModel<T::V>,
    ) {
        LWWRegister::<T>::lemma_binary_laws(a.0, b.0, c.0);
    }
}

impl<T: Element> DeltaCrdt for DeltaLWWRegister<T> {
    type Delta = LWWRegister<T>;

    open spec fn delta_state(d: (Option<T::V>, u64)) -> DeltaLWWModel<T::V> {
        (d, None)
    }

    /// The pending write, or the empty register when there is none.
    open spec fn pending(m: DeltaLWWModel<T::V>) -> (Option<T::V>, u64) {
        match m.1 {
            Some(d) => d,
            None => (None, 0),
        }
    }

    open spec fn extracted(m: DeltaLWWModel<T::V>) -> DeltaLWWModel<T::V> {
        (m.0, None)
    }

    fn from_delta(delta: LWWRegister<T>) -> (r: Self) {
        DeltaLWWRegister { inner: delta, pending_delta: None }
    }

    fn extract_delta(&mut self) -> (r: LWWRegister<T>) {
        match self.pending_delta.take() {
            Some(d) => d,
            None => LWWRegister::bottom(),
        }
    }
}

// ---------------------------------------------------------------------------
// Defaults
// ---------------------------------------------------------------------------

impl<T: Element> Default for DeltaGSet<T> {
    fn default() -> (r: Self)
        ensures
            r.wf(),
            r@ == (Set::<T::V>::empty(), Set::<T::V>::empty()),
    {
        Self::new()
    }
}

impl<T: Element> Default for DeltaLWWRegister<T> {
    fn default() -> (r: Self)
        ensures
            r@ == ((None::<T::V>, 0u64), None::<(Option<T::V>, u64)>),
    {
        Self::new()
    }
}

} // verus!
