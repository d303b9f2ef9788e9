//! State-based CRDTs (CvRDTs): replicas converge by joining whole states.

use vstd::prelude::*;
use crate::collections::{
    copy_values, deref_seq, difference_values, distinct_views, entries_map, find_value,
    insert_value, keys_of, keys_of_dom, lemma_entries_map_at, lemma_entries_map_push,
    lemma_entries_take, lemma_view_set_len, lemma_view_set_push, same_values, union_values,
    view_set,
};
use crate::element::Element;
use std::collections::hash_map::RandomState;
use std::hash::BuildHasher;
use crate::semilattice::{
    entries_wf, lemma_map_join_binary, lemma_map_join_unary, lemma_pointwise_max_laws, map_join,
    max_u64, pointwise_max, BoundedJoinSemilattice, MapSemilattice, NatMax, VectorMax,
};

verus! {

/// Sum of a sequence of counts.
pub open spec fn seq_sum(s: Seq<u64>) -> nat
    decreases s.len(),
{
    if s.len() == 0 {
        0
    } else {
        seq_sum(s.drop_last()) + (s.last() as nat)
    }
}

/// The sum of a prefix is at most the sum of the whole sequence.
pub proof fn lemma_seq_sum_prefix(s: Seq<u64>, i: int)
    requires
        0 <= i <= s.len(),
    ensures
        seq_sum(s.take(i)) <= seq_sum(s),
        i < s.len() ==> seq_sum(s.take(i + 1)) == seq_sum(s.take(i)) + s[i],
    decreases s.len() - i,
{
    if i < s.len() {
        assert(s.take(i + 1).drop_last() =~= s.take(i));
        lemma_seq_sum_prefix(s, i + 1);
    } else {
        assert(s.take(i) =~= s);
    }
}

/// Sums a vector of counts.
fn sum_counts(counts: &Vec<u64>) -> (r: u64)
    requires
        seq_sum(counts@) <= u64::MAX,
    ensures
        r == seq_sum(counts@),
{
    let mut total: u64 = 0;
    let mut i: usize = 0;
    while i < counts.len()
        invariant
            i <= counts.len(),
            seq_sum(counts@) <= u64::MAX,
            total == seq_sum(counts@.take(i as int)),
        decreases counts.len() - i,
    {
        proof {
            lemma_seq_sum_prefix(counts@, i as int);
            lemma_seq_sum_prefix(counts@, i as int + 1);
        }
        total = total + counts[i];
        i += 1;
    }
    assert(counts@.take(counts@.len() as int) =~= counts@);
    total
}

// ---------------------------------------------------------------------------
// G-Counter
// ---------------------------------------------------------------------------

/// Grow-only counter: one count per node, joined by pointwise maximum.
#[derive(Clone, PartialEq, Eq, Debug)]
pub struct GCounter {
    pub n: usize,
    pub counts: VectorMax,
}

impl View for GCounter {
    type V = (usize, Seq<u64>);

    open spec fn view(&self) -> (usize, Seq<u64>) {
        (self.n, self.counts@)
    }
}

impl GCounter {
    /// A counter for `n` nodes, all counts zero.
    pub fn new(n: usize) -> (r: Self)
        ensures
            r@ == (n, Seq::new(n as nat, |i: int| 0u64)),
    {
        GCounter { n, counts: VectorMax::new(n) }
    }

    /// Node `i` increments its count.
    pub fn inc(&mut self, i: usize)
        requires
            i < old(self).n,
            i < old(self).counts@.len(),
            old(self).counts@[i as int] < u64::MAX,
        ensures
            final(self)@ == (
                old(self).n,
                old(self).counts@.update(i as int, (old(self).counts@[i as int] + 1) as u64),
            ),
    {
        self.counts.inc(i);
    }

    /// The total of all counts.
    pub fn value(&self) -> (r: u64)
        requires
            seq_sum(self.counts@) <= u64::MAX,
        ensures
            r == seq_sum(self.counts@),
    {
        sum_counts(&self.counts.0)
    }

    /// The count of node `i`.
    pub fn read(&self, i: usize) -> (r: u64)
        requires
            i < self.counts@.len(),
        ensures
            r == self.counts@[i as int],
    {
        self.counts.0[i]
    }
}

impl BoundedJoinSemilattice for GCounter {
    open spec fn wf(&self) -> bool {
        true
    }

    open spec fn valid(m: (usize, Seq<u64>)) -> bool {
        true
    }

    open spec fn compatible(a: (usize, Seq<u64>), b: (usize, Seq<u64>)) -> bool {
        true
    }

    open spec fn bottom_model() -> (usize, Seq<u64>) {
        (0, Seq::empty())
    }

    open spec fn join_model(a: (usize, Seq<u64>), b: (usize, Seq<u64>)) -> (usize, Seq<u64>) {
        (if a.0 >= b.0 {
            a.0
        } else {
            b.0
        }, pointwise_max(a.1, b.1))
    }

    fn bottom() -> (r: Self) {
        let r = GCounter { n: 0, counts: VectorMax::new(0) };
        assert(r.counts@ =~= Seq::<u64>::empty());
        r
    }

    fn join(&self, other: &Self) -> (r: Self) {
        GCounter {
            n: if self.n >= other.n {
                self.n
            } else {
                other.n
            },
            counts: self.counts.join(&other.counts),
        }
    }

    fn same_state(&self, other: &Self) -> (r: bool) {
        self.n == other.n && self.counts.same_state(&other.counts)
    }

    fn copy_state(&self) -> (r: Self) {
        GCounter { n: self.n, counts: self.counts.copy_state() }
    }

    proof fn lemma_unary_laws(a: (usize, Seq<u64>)) {
        lemma_pointwise_max_laws(a.1, a.1, a.1);
    }

    proof fn lemma_binary_laws(a: (usize, Seq<u64>), b: (usize, Seq<u64>), c: (usize, Seq<u64>)) {
        lemma_pointwise_max_laws(a.1, b.1, c.1);
    }
}

// ---------------------------------------------------------------------------
// PN-Counter
// ---------------------------------------------------------------------------

/// Increment/decrement counter: a G-Counter of increments and one of
/// decrements.
#[derive(Clone, PartialEq, Eq, Debug)]
pub struct PNCounter {
    pub n: usize,
    pub pos: GCounter,
    pub neg: GCounter,
}

impl View for PNCounter {
    type V = (usize, (usize, Seq<u64>), (usize, Seq<u64>));

    open spec fn view(&self) -> (usize, (usize, Seq<u64>), (usize, Seq<u64>)) {
        (self.n, self.pos@, self.neg@)
    }
}

/// The value of a PN-Counter: the increments minus the decrements, each
/// total taken as a signed 64-bit number.
pub open spec fn pn_value(pos: Seq<u64>, neg: Seq<u64>) -> int {
    (seq_sum(pos) as i64) - (seq_sum(neg) as i64)
}

impl PNCounter {
    /// A counter for `n` nodes at zero.
    pub fn new(n: usize) -> (r: Self)
        ensures
            r@ == (n, (n, Seq::new(n as nat, |i: int| 0u64)), (n, Seq::new(n as nat, |i: int| 0u64))),
    {
        PNCounter { n, pos: GCounter::new(n), neg: GCounter::new(n) }
    }

    /// Node `i` increments.
    pub fn inc(&mut self, i: usize)
        requires
            i < old(self).pos.n,
            i < old(self).pos.counts@.len(),
            old(self).pos.counts@[i as int] < u64::MAX,
        ensures
            final(self).n == old(self).n,
            final(self).neg == old(self).neg,
            final(self).pos@ == (
                old(self).pos.n,
                old(self).pos.counts@.update(i as int, (old(self).pos.counts@[i as int] + 1) as u64),
            ),
    {
        self.pos.inc(i);
    }

    /// Node `i` decrements.
    pub fn dec(&mut self, i: usize)
        requires
            i < old(self).neg.n,
            i < old(self).neg.counts@.len(),
            old(self).neg.counts@[i as int] < u64::MAX,
        ensures
            final(self).n == old(self).n,
            final(self).pos == old(self).pos,
            final(self).neg@ == (
                old(self).neg.n,
                old(self).neg.counts@.update(i as int, (old(self).neg.counts@[i as int] + 1) as u64),
            ),
    {
        self.neg.inc(i);
    }

    /// Increments minus decrements.
    pub fn value(&self) -> (r: i64)
        requires
            seq_sum(self.pos.counts@) <= u64::MAX,
            seq_sum(self.neg.counts@) <= u64::MAX,
            i64::MIN <= pn_value(self.pos.counts@, self.neg.counts@) <= i64::MAX,
        ensures
            r == pn_value(self.pos.counts@, self.neg.counts@),
    {
        let p = self.pos.value();
        let q = self.neg.value();
        (p as i64) - (q as i64)
    }
}

impl BoundedJoinSemilattice for PNCounter {
    open spec fn wf(&self) -> bool {
        true
    }

    open spec fn valid(m: (usize, (usize, Seq<u64>), (usize, Seq<u64>))) -> bool {
        true
    }

    open spec fn compatible(
        a: (usize, (usize, Seq<u64>), (usize, Seq<u64>)),
        b: (usize, (usize, Seq<u64>), (usize, Seq<u64>)),
    ) -> bool {
        true
    }

    open spec fn bottom_model() -> (usize, (usize, Seq<u64>), (usize, Seq<u64>)) {
        (0, GCounter::bottom_model(), GCounter::bottom_model())
    }

    open spec fn join_model(
        a: (usize, (usize, Seq<u64>), (usize, Seq<u64>)),
        b: (usize, (usize, Seq<u64>), (usize, Seq<u64>)),
    ) -> (usize, (usize, Seq<u64>), (usize, Seq<u64>)) {
        (
            if a.0 >= b.0 {
                a.0
            } else {
                b.0
            },
            GCounter::join_model(a.1, b.1),
            GCounter::join_model(a.2, b.2),
        )
    }

    fn bottom() -> (r: Self) {
        PNCounter { n: 0, pos: GCounter::bottom(), neg: GCounter::bottom() }
    }

    fn join(&self, other: &Self) -> (r: Self) {
        PNCounter {
            n: if self.n >= other.n {
                self.n
            } else {
                other.n
            },
            pos: self.pos.join(&other.pos),
            neg: self.neg.join(&other.neg),
        }
    }

    fn same_state(&self, other: &Self) -> (r: bool) {
        self.n == other.n && self.pos.same_state(&other.pos) && self.neg.same_state(&other.neg)
    }

    fn copy_state(&self) -> (r: Self) {
        PNCounter { n: self.n, pos: self.pos.copy_state(), neg: self.neg.copy_state() }
    }

    proof fn lemma_unary_laws(a: (usize, (usize, Seq<u64>), (usize, Seq<u64>))) {
        GCounter::lemma_unary_laws(a.1);
        GCounter::lemma_unary_laws(a.2);
    }

    proof fn lemma_binary_laws(
        a: (usize, (usize, Seq<u64>), (usize, Seq<u64>)),
        b: (usize, (usize, Seq<u64>), (usize, Seq<u64>)),
        c: (usize, (usize, Seq<u64>), (usize, Seq<u64>)),
    ) {
        GCounter::lemma_binary_laws(a.1, b.1, c.1);
        GCounter::lemma_binary_laws(a.2, b.2, c.2);
    }
}

// ---------------------------------------------------------------------------
// G-Set
// ---------------------------------------------------------------------------

/// Grow-only set (join = union).
#[derive(Clone, Debug)]
pub struct GSet<T> {
    elements: Vec<T>,
}

impl<T: View> View for GSet<T> {
    type V = Set<T::V>;

    closed spec fn view(&self) -> Set<T::V> {
        view_set(self.elements@)
    }
}

impl<T: Element> GSet<T> {
    /// The empty set.
    pub fn new() -> (r: Self)
        ensures
            r.wf(),
            r@ == Set::<T::V>::empty(),
    {
        let r = GSet { elements: Vec::new() };
        assert(r@ =~= Set::<T::V>::empty());
        r
    }

    /// Adds an element.
    pub fn add(&mut self, elem: T)
        requires
            old(self).wf(),
        ensures
            final(self).wf(),
            final(self)@ == old(self)@.insert(elem@),
    {
        insert_value(&mut self.elements, elem);
    }

    /// Whether an element is in the set.
    pub fn contains(&self, elem: &T) -> (r: bool)
        ensures
            r == self@.contains(elem@),
    {
        find_value(&self.elements, elem).is_some()
    }

    /// The elements, each once.
    pub fn elements(&self) -> (r: &Vec<T>)
        requires
            self.wf(),
        ensures
            distinct_views(r@),
            view_set(r@) == self@,
    {
        &self.elements
    }

    /// The number of elements.
    pub fn len(&self) -> (r: usize)
        requires
            self.wf(),
        ensures
            self@.finite(),
            r == self@.len(),
    {
        proof {
            lemma_view_set_len(self.elements@);
        }
        self.elements.len()
    }

    /// Whether the set has no element.
    pub fn is_empty(&self) -> (r: bool)
        requires
            self.wf(),
        ensures
            r == (self@ == Set::<T::V>::empty()),
    {
        proof {
            lemma_view_set_len(self.elements@);
            if self@.len() == 0 {
                assert(self@ =~= Set::<T::V>::empty());
            }
        }
        self.elements.len() == 0
    }

    /// The elements of this set that are not in `other`.
    pub(crate) fn without(&self, other: &GSet<T>) -> (r: GSet<T>)
        requires
            self.wf(),
        ensures
            r.wf(),
            r@ == self@.difference(other@),
    {
        GSet { elements: difference_values(&self.elements, &other.elements) }
    }
}

impl<T: Element> BoundedJoinSemilattice for GSet<T> {
    closed spec fn wf(&self) -> bool {
        distinct_views(self.elements@)
    }

    open spec fn valid(m: Set<T::V>) -> bool {
        true
    }

    open spec fn compatible(a: Set<T::V>, b: Set<T::V>) -> bool {
        true
    }

    open spec fn bottom_model() -> Set<T::V> {
        Set::empty()
    }

    open spec fn join_model(a: Set<T::V>, b: Set<T::V>) -> Set<T::V> {
        a.union(b)
    }

    fn bottom() -> (r: Self) {
        Self::new()
    }

    fn join(&self, other: &Self) -> (r: Self) {
        GSet { elements: union_values(&self.elements, &other.elements) }
    }

    fn same_state(&self, other: &Self) -> (r: bool) {
        same_values(&self.elements, &other.elements)
    }

    fn copy_state(&self) -> (r: Self) {
        GSet { elements: copy_values(&self.elements) }
    }

    proof fn lemma_unary_laws(a: Set<T::V>) {
        assert(a.union(a) =~= a);
        assert(a.union(Set::empty()) =~= a);
    }

    proof fn lemma_binary_laws(a: Set<T::V>, b: Set<T::V>, c: Set<T::V>) {
        assert(a.union(b) =~= b.union(a));
        assert(a.union(b).union(c) =~= a.union(b.union(c)));
    }
}

// ---------------------------------------------------------------------------
// OR-Set
// ---------------------------------------------------------------------------

/// The tag of an addition in an OR-Set: the id of the replica that made
/// it and that replica's count of additions before it. Replicas with
/// distinct ids never make the same tag.
pub type Tag = (u64, u64);

/// The tags of a key, empty where the key is absent.
pub open spec fn tags_of<K>(m: Map<K, Set<Tag>>, k: K) -> Set<Tag> {
    if m.dom().contains(k) {
        m[k]
    } else {
        Set::empty()
    }
}

/// The keys whose tags are not all removed, with their remaining tags.
pub open spec fn live_tags<K>(m: Map<K, Set<Tag>>, tombstones: Set<Tag>) -> Map<K, Set<Tag>> {
    Map::new(
        |k: K| m.dom().contains(k) && m[k].difference(tombstones) != Set::<Tag>::empty(),
        |k: K| m[k].difference(tombstones),
    )
}

/// The view of an OR-Set: the tags of each present element, the removed
/// tags, and the count of additions of the replica (the largest of the
/// counts joined). The id of the replica is local to it and no part of the
/// view.
pub type ORSetModel<K> = (Map<K, Set<Tag>>, Set<Tag>, u64);

/// Views of OR-Sets built by this module's operations: every present element
/// has a tag.
pub open spec fn orset_wf<K>(m: ORSetModel<K>) -> bool {
    forall|k: K| #[trigger] m.0.dom().contains(k) ==> m.0[k] != Set::<Tag>::empty()
}

/// Views on which the semilattice laws hold: well-formed, and no tag of a
/// present element is removed. (A join drops removed tags, so idempotence
/// needs this; it fails only where two replicas were given one id and made
/// the same tag.)
pub open spec fn orset_valid<K>(m: ORSetModel<K>) -> bool {
    &&& orset_wf(m)
    &&& forall|k: K| #[trigger] m.0.dom().contains(k) ==> m.0[k].disjoint(m.1)
}

/// Join of OR-Set views: the union of the tags of each element and of the
/// removed tags, with removed tags (and elements left without tags) dropped.
pub open spec fn orset_join<K>(a: ORSetModel<K>, b: ORSetModel<K>) -> ORSetModel<K> {
    let tombstones = a.1.union(b.1);
    (
        live_tags(map_join::<K, GSet<Tag>>(a.0, b.0), tombstones),
        tombstones,
        max_u64(a.2, b.2),
    )
}

proof fn lemma_tags_of_join<K>(x: Map<K, Set<Tag>>, y: Map<K, Set<Tag>>, k: K)
    ensures
        tags_of(map_join::<K, GSet<Tag>>(x, y), k) == tags_of(x, k).union(tags_of(y, k)),
{
    assert(tags_of(map_join::<K, GSet<Tag>>(x, y), k) =~= tags_of(x, k).union(tags_of(y, k)));
}

proof fn lemma_tags_of_live<K>(m: Map<K, Set<Tag>>, t: Set<Tag>, k: K)
    ensures
        tags_of(live_tags(m, t), k) == tags_of(m, k).difference(t),
{
    assert(tags_of(live_tags(m, t), k) =~= tags_of(m, k).difference(t));
}

proof fn lemma_live_ext<K>(x: Map<K, Set<Tag>>, y: Map<K, Set<Tag>>, t: Set<Tag>)
    requires
        forall|k: K| #[trigger] tags_of(x, k).difference(t) == tags_of(y, k).difference(t),
    ensures
        live_tags(x, t) == live_tags(y, t),
{
    assert forall|k: K| #[trigger] live_tags(x, t).dom().contains(k) == live_tags(y, t).dom().contains(k) by {
        assert(tags_of(x, k).difference(t) == tags_of(y, k).difference(t));
        if x.dom().contains(k) && !y.dom().contains(k) {
            assert(tags_of(y, k).difference(t) =~= Set::<Tag>::empty());
        }
        if !x.dom().contains(k) && y.dom().contains(k) {
            assert(tags_of(x, k).difference(t) =~= Set::<Tag>::empty());
        }
    }
    assert forall|k: K| #[trigger] live_tags(x, t).dom().contains(k) implies live_tags(x, t)[k] == live_tags(y, t)[k] by {
        assert(tags_of(x, k).difference(t) == tags_of(y, k).difference(t));
    }
    assert(live_tags(x, t) =~= live_tags(y, t));
}

proof fn lemma_orset_assoc<K>(a: ORSetModel<K>, b: ORSetModel<K>, c: ORSetModel<K>)
    ensures
        orset_join(orset_join(a, b), c) == orset_join(a, orset_join(b, c)),
{
    let ab = orset_join(a, b);
    let bc = orset_join(b, c);
    let t = a.1.union(b.1).union(c.1);
    assert(t =~= a.1.union(b.1.union(c.1)));
    let left = map_join::<K, GSet<Tag>>(ab.0, c.0);
    let right = map_join::<K, GSet<Tag>>(a.0, bc.0);
    assert forall|k: K| #[trigger] tags_of(left, k).difference(t) == tags_of(right, k).difference(t) by {
        lemma_tags_of_join(ab.0, c.0, k);
        lemma_tags_of_join(a.0, bc.0, k);
        lemma_tags_of_live(map_join::<K, GSet<Tag>>(a.0, b.0), a.1.union(b.1), k);
        lemma_tags_of_live(map_join::<K, GSet<Tag>>(b.0, c.0), b.1.union(c.1), k);
        lemma_tags_of_join(a.0, b.0, k);
        lemma_tags_of_join(b.0, c.0, k);
        assert(tags_of(left, k).difference(t) =~= tags_of(right, k).difference(t));
    }
    lemma_live_ext(left, right, t);
}

/// Add wins: an element that a replica holds under a tag that neither
/// replica has removed is present after the join, with that tag, whatever
/// the other replica removed concurrently.
pub proof fn lemma_orset_add_wins<K>(a: ORSetModel<K>, b: ORSetModel<K>, k: K, t: Tag)
    requires
        a.0.dom().contains(k),
        a.0[k].contains(t),
        !a.1.contains(t),
        !b.1.contains(t),
    ensures
        orset_join(a, b).0.dom().contains(k),
        orset_join(a, b).0[k].contains(t),
{
    let u = map_join::<K, GSet<Tag>>(a.0, b.0);
    lemma_tags_of_join(a.0, b.0, k);
    assert(tags_of(u, k).contains(t));
    assert(u[k].difference(a.1.union(b.1)).contains(t));
}

/// Observed remove: an element that a replica has removed stays removed
/// after the join when the removal observed every tag that the other
/// replica holds for it.
pub proof fn lemma_orset_observed_remove<K>(a: ORSetModel<K>, b: ORSetModel<K>, k: K)
    requires
        !a.0.dom().contains(k),
        tags_of(b.0, k).subset_of(a.1),
    ensures
        !orset_join(a, b).0.dom().contains(k),
{
    let u = map_join::<K, GSet<Tag>>(a.0, b.0);
    let t = a.1.union(b.1);
    lemma_tags_of_join(a.0, b.0, k);
    if u.dom().contains(k) {
        assert(u[k].difference(t) =~= Set::<Tag>::empty());
    }
}

/// Concurrent add wins: on replicas with distinct ids, an element that
/// replica `a` adds under tag `t` is present after joining `a` with a
/// replica `b` that has not seen `t`, in either order, whatever `b` removed.
pub proof fn lemma_orset_concurrent_add_wins<K>(a: ORSetModel<K>, b: ORSetModel<K>, k: K, t: Tag)
    requires
        !a.1.contains(t),
        !b.1.contains(t),
    ensures
        orset_join(orset_add(a, k, t), b).0.dom().contains(k),
        orset_join(b, orset_add(a, k, t)).0.dom().contains(k),
{
    let a2 = orset_add(a, k, t);
    lemma_orset_add_wins(a2, b, k, t);
    let u = map_join::<K, GSet<Tag>>(b.0, a2.0);
    lemma_tags_of_join(b.0, a2.0, k);
    assert(tags_of(u, k).contains(t));
    assert(u[k].difference(b.1.union(a2.1)).contains(t));
}

/// Adding keeps the tags an element had: its tags after `add` are its old
/// tags and the new one.
pub proof fn lemma_orset_add_keeps_tags<K>(m: ORSetModel<K>, k: K, t: Tag)
    ensures
        orset_add(m, k, t).0.dom().contains(k),
        tags_of(m.0, k).subset_of(orset_add(m, k, t).0[k]),
        orset_add(m, k, t).0[k].contains(t),
        forall|u: Tag| #[trigger] orset_add(m, k, t).0[k].contains(u) ==> u == t || tags_of(
            m.0,
            k,
        ).contains(u),
{
}

/// Observed remove stays in force: when a replica adds an element (once
/// more) and then removes it, joining any state whose tags of the element
/// it had already seen does not bring the element back, in either order.
pub proof fn lemma_orset_remove_after_add_stays<K>(
    m: ORSetModel<K>,
    b: ORSetModel<K>,
    k: K,
    t: Tag,
)
    requires
        tags_of(b.0, k).subset_of(tags_of(m.0, k)),
    ensures
        !orset_join(orset_remove(orset_add(m, k, t), k), b).0.dom().contains(k),
        !orset_join(b, orset_remove(orset_add(m, k, t), k)).0.dom().contains(k),
{
    let a = orset_remove(orset_add(m, k, t), k);
    lemma_orset_add_keeps_tags(m, k, t);
    assert(tags_of(b.0, k).subset_of(a.1));
    lemma_orset_observed_remove(a, b, k);
    let u = map_join::<K, GSet<Tag>>(b.0, a.0);
    lemma_tags_of_join(b.0, a.0, k);
    if u.dom().contains(k) {
        assert(u[k].difference(b.1.union(a.1)) =~= Set::<Tag>::empty());
    }
}

/// The view after removing element `k`: its tags become tombstones.
pub open spec fn orset_remove<K>(m: ORSetModel<K>, k: K) -> ORSetModel<K> {
    (m.0.remove(k), m.1.union(tags_of(m.0, k)), m.2)
}

/// std's `RandomState::new`: a hash builder with random keys, fresh for each
/// call. Nothing is promised of the keys.
#[verifier::external_body]
fn new_random_state() -> (r: RandomState) {
    RandomState::new()
}

/// std's `BuildHasher::hash_one`: hashes `x` with the keys of `state`. The
/// keys are random, so nothing is promised of the result.
#[verifier::external_body]
fn hash_with(state: &RandomState, x: u64) -> (r: u64) {
    state.hash_one(x)
}

/// The view after adding element `k` under tag `t`.
pub open spec fn orset_add<K>(m: ORSetModel<K>, k: K, t: Tag) -> ORSetModel<K> {
    (m.0.insert(k, tags_of(m.0, k).insert(t)), m.1, (m.2 + 1) as u64)
}

/// Observed-remove set: an element is present while it has an addition tag
/// that no replica has removed; an addition wins over a concurrent removal.
///
/// Tags carry the replica id, so replicas that may add concurrently need
/// distinct ids: `new` draws one at random, `with_replica` takes a given one.
#[derive(Clone, Debug)]
pub struct ORSet<T> {
    elements: MapSemilattice<T, GSet<Tag>>,
    tombstones: GSet<Tag>,
    replica: u64,
    next_tag: u64,
}

impl<T: View> View for ORSet<T> {
    type V = ORSetModel<T::V>;

    closed spec fn view(&self) -> ORSetModel<T::V> {
        (self.elements@, self.tombstones@, self.next_tag)
    }
}

impl<T: Element> ORSet<T> {
    /// The id of the replica.
    pub closed spec fn replica_id(&self) -> u64 {
        self.replica
    }

    /// The empty set of a fresh replica, whose id is drawn at random: sets
    /// made by separate calls get distinct ids (and so distinct tags) but
    /// with a negligible chance.
    pub fn new() -> (r: Self)
        ensures
            r.wf(),
            r@ == (Map::<T::V, Set<Tag>>::empty(), Set::<Tag>::empty(), 0u64),
    {
        let state = new_random_state();
        let id = hash_with(&state, 0);
        Self::with_replica(id)
    }

    /// The empty set of the replica with id `replica`.
    pub fn with_replica(replica: u64) -> (r: Self)
        ensures
            r.wf(),
            r.replica_id() == replica,
            r@ == (Map::<T::V, Set<Tag>>::empty(), Set::<Tag>::empty(), 0u64),
    {
        ORSet { elements: MapSemilattice::new(), tombstones: GSet::new(), replica, next_tag: 0 }
    }

    /// Adds an element under a fresh tag, which it returns.
    pub fn add(&mut self, elem: T) -> (r: Tag)
        requires
            old(self).wf(),
            old(self)@.2 < u64::MAX,
        ensures
            final(self).wf(),
            final(self).replica_id() == old(self).replica_id(),
            r == (old(self).replica_id(), old(self)@.2),
            final(self)@ == orset_add(old(self)@, elem@, r),
            final(self)@.0.dom().contains(elem@),
            final(self)@.0[elem@] == tags_of(old(self)@.0, elem@).insert(r),
    {
        let tag = (self.replica, self.next_tag);
        self.next_tag = self.next_tag + 1;
        let mut tags = match self.elements.get(&elem) {
            Some(existing) => existing.copy_state(),
            None => GSet::new(),
        };
        tags.add(tag);
        self.elements.insert(elem, tags);
        proof {
            let m = self@;
            let o = old(self)@;
            assert forall|k: T::V| #[trigger] m.0.dom().contains(k) implies m.0[k] != Set::<Tag>::empty() by {
                if k == elem@ {
                    assert(m.0[k].contains(tag));
                } else {
                    assert(o.0.dom().contains(k));
                }
            }
        }
        tag
    }

    /// Removes an element: its tags become tombstones.
    pub fn remove(&mut self, elem: &T)
        requires
            old(self).wf(),
        ensures
            final(self).wf(),
            final(self).replica_id() == old(self).replica_id(),
            final(self)@ == orset_remove(old(self)@, elem@),
            !final(self)@.0.dom().contains(elem@),
            tags_of(old(self)@.0, elem@).subset_of(final(self)@.1),
    {
        let tombstones = match self.elements.get(elem) {
            Some(tags) => self.tombstones.join(tags),
            None => {
                assert(self.tombstones@.union(Set::<Tag>::empty()) =~= self.tombstones@);
                self.tombstones.copy_state()
            },
        };
        self.tombstones = tombstones;
        self.elements.remove_key(elem);
        proof {
            let m = self@;
            let o = old(self)@;
            assert forall|k: T::V| #[trigger] m.0.dom().contains(k) implies m.0[k] != Set::<Tag>::empty() by {
                assert(o.0.dom().contains(k));
            }
        }
    }

    /// Whether an element is present.
    pub fn contains(&self, elem: &T) -> (r: bool)
        requires
            self.wf(),
        ensures
            r == self@.0.dom().contains(elem@),
    {
        self.elements.get(elem).is_some()
    }

    /// The present elements, each once.
    pub fn elements(&self) -> (r: Vec<&T>)
        requires
            self.wf(),
        ensures
            distinct_views(deref_seq(r@)),
            view_set(deref_seq(r@)) == self@.0.dom(),
    {
        let entries = self.elements.entries();
        let r = keys_of(entries);
        proof {
            keys_of_dom(entries@, r@);
        }
        r
    }
}

impl<T: Element> BoundedJoinSemilattice for ORSet<T> {
    closed spec fn wf(&self) -> bool {
        self.elements.wf() && self.tombstones.wf() && orset_wf(self@)
    }

    open spec fn valid(m: ORSetModel<T::V>) -> bool {
        orset_valid(m)
    }

    open spec fn compatible(a: ORSetModel<T::V>, b: ORSetModel<T::V>) -> bool {
        true
    }

    open spec fn bottom_model() -> ORSetModel<T::V> {
        (Map::empty(), Set::empty(), 0)
    }

    open spec fn join_model(a: ORSetModel<T::V>, b: ORSetModel<T::V>) -> ORSetModel<T::V> {
        orset_join(a, b)
    }

    fn bottom() -> (r: Self) {
        Self::new()
    }

    /// The result belongs to this replica.
    fn join(&self, other: &Self) -> (r: Self)
        ensures
            r.replica_id() == self.replica_id(),
    {
        let tombstones = self.tombstones.join(&other.tombstones);
        let joined = self.elements.join(&other.elements);
        let entries = joined.entries();
        let mut live: MapSemilattice<T, GSet<Tag>> = MapSemilattice::new();
        let mut i: usize = 0;
        assert(entries_map(entries@.take(0)) =~= Map::<T::V, Set<Tag>>::empty());
        assert(live_tags(Map::<T::V, Set<Tag>>::empty(), tombstones@) =~= live@);
        while i < entries.len()
            invariant
                i <= entries.len(),
                entries_wf(entries@),
                live.wf(),
                live@ == live_tags(entries_map(entries@.take(i as int)), tombstones@),
            decreases entries.len() - i,
        {
            let ghost m = entries_map(entries@.take(i as int));
            let ghost e = entries@[i as int];
            proof {
                lemma_entries_take(entries@, i as int);
                lemma_entries_map_push(entries@.take(i as int), e);
                assert(!m.dom().contains(e.0@));
            }
            let remaining = entries[i].1.without(&tombstones);
            if !remaining.is_empty() {
                live.insert(entries[i].0.copy_value(), remaining);
            }
            proof {
                let m2 = entries_map(entries@.take(i as int + 1));
                assert(m2 == m.insert(e.0@, e.1@));
                assert(live@ =~= live_tags(m2, tombstones@));
            }
            i += 1;
        }
        assert(entries@.take(entries@.len() as int) =~= entries@);
        let next_tag = if self.next_tag >= other.next_tag {
            self.next_tag
        } else {
            other.next_tag
        };
        let r = ORSet { elements: live, tombstones, replica: self.replica, next_tag };
        proof {
            let a = self@;
            let b = other@;
            let m = r@;
            let u = map_join::<T::V, GSet<Tag>>(a.0, b.0);
            assert(entries_map(entries@) == u);
            assert(m.0 == live_tags(u, m.1));
            assert(m.1 == a.1.union(b.1));
            assert forall|k: T::V| #[trigger] m.0.dom().contains(k) implies m.0[k].disjoint(m.1) && m.0[k] != Set::<Tag>::empty() by {
            }
        }
        r
    }

    fn same_state(&self, other: &Self) -> (r: bool) {
        self.next_tag == other.next_tag && self.tombstones.same_state(&other.tombstones)
            && self.elements.same_state(&other.elements)
    }

    fn copy_state(&self) -> (r: Self)
        ensures
            r.replica_id() == self.replica_id(),
    {
        ORSet {
            elements: self.elements.copy_state(),
            tombstones: self.tombstones.copy_state(),
            replica: self.replica,
            next_tag: self.next_tag,
        }
    }

    proof fn lemma_unary_laws(a: ORSetModel<T::V>) {
        lemma_map_join_unary::<T::V, GSet<Tag>>(a.0);
        assert(live_tags(a.0, a.1) =~= a.0) by {
            assert forall|k: T::V| #[trigger] a.0.dom().contains(k) implies a.0[k].difference(a.1) == a.0[k] by {
                assert(a.0[k].difference(a.1) =~= a.0[k]);
            }
        }
        assert(a.1.union(a.1) =~= a.1);
        assert(a.1.union(Set::empty()) =~= a.1);
    }

    proof fn lemma_binary_laws(a: ORSetModel<T::V>, b: ORSetModel<T::V>, c: ORSetModel<T::V>) {
        lemma_map_join_binary::<T::V, GSet<Tag>>(a.0, b.0, c.0);
        assert(a.1.union(b.1) =~= b.1.union(a.1));
        lemma_orset_assoc(a, b, c);
    }
}

// ---------------------------------------------------------------------------
// LWW-Register
// ---------------------------------------------------------------------------

/// The views of an optional value.
pub open spec fn opt_view<T: View>(o: Option<T>) -> Option<T::V> {
    match o {
        Some(x) => Some(x@),
        None => None,
    }
}

/// Copies an optional value.
pub fn copy_option<T: Element>(o: &Option<T>) -> (r: Option<T>)
    ensures
        opt_view(r) == opt_view(*o),
{
    match o {
        Some(x) => Some(x.copy_value()),
        None => None,
    }
}

/// Whether two optional values have the same view.
pub fn same_option<T: Element>(a: &Option<T>, b: &Option<T>) -> (r: bool)
    ensures
        r == (opt_view(*a) == opt_view(*b)),
{
    match (a, b) {
        (Some(x), Some(y)) => x.same_value(y),
        (None, None) => true,
        _ => false,
    }
}

/// The order of optional values: no value is least, values go by the
/// element order.
pub open spec fn opt_le<T: Element>(a: Option<T::V>, b: Option<T::V>) -> bool {
    match (a, b) {
        (None, _) => true,
        (Some(_), None) => false,
        (Some(x), Some(y)) => T::view_le(x, y),
    }
}

/// Last writer wins: of two register views with different timestamps, the
/// join is the one with the later timestamp, in either order and whatever
/// the values; with equal timestamps it is one of the two.
pub proof fn lemma_lww_later_wins<T: Element>(a: (Option<T::V>, u64), b: (Option<T::V>, u64))
    ensures
        a.1 < b.1 ==> LWWRegister::<T>::join_model(a, b) == b && LWWRegister::<T>::join_model(b, a)
            == b,
        LWWRegister::<T>::join_model(a, b).1 == max_u64(a.1, b.1),
        LWWRegister::<T>::join_model(a, b) == a || LWWRegister::<T>::join_model(a, b) == b,
{
}

/// `opt_le` is a total order.
pub proof fn lemma_opt_total_order<T: Element>(a: Option<T::V>, b: Option<T::V>, c: Option<T::V>)
    ensures
        opt_le::<T>(a, a),
        opt_le::<T>(a, b) && opt_le::<T>(b, a) ==> a == b,
        opt_le::<T>(a, b) && opt_le::<T>(b, c) ==> opt_le::<T>(a, c),
        opt_le::<T>(a, b) || opt_le::<T>(b, a),
{
    match (a, b, c) {
        (Some(x), Some(y), Some(z)) => T::lemma_total_order(x, y, z),
        (Some(x), Some(y), None) => T::lemma_total_order(x, y, y),
        (Some(x), None, Some(z)) => T::lemma_total_order(x, z, z),
        (None, Some(y), Some(z)) => T::lemma_total_order(y, z, z),
        (Some(x), None, None) => T::lemma_total_order(x, x, x),
        _ => {},
    }
}

/// Compares two optional values by `opt_le`.
pub fn option_le<T: Element>(a: &Option<T>, b: &Option<T>) -> (r: bool)
    ensures
        r == opt_le::<T>(opt_view(*a), opt_view(*b)),
{
    match (a, b) {
        (None, _) => true,
        (Some(_), None) => false,
        (Some(x), Some(y)) => x.value_le(y),
    }
}

/// Last-writer-wins register: the write with the highest timestamp wins.
#[derive(Clone, PartialEq, Eq, Debug)]
pub struct LWWRegister<T> {
    pub value: Option<T>,
    pub timestamp: u64,
}

impl<T: View> View for LWWRegister<T> {
    type V = (Option<T::V>, u64);

    open spec fn view(&self) -> (Option<T::V>, u64) {
        (opt_view(self.value), self.timestamp)
    }
}

/// A write of `value` at `timestamp` to a register view: it takes effect
/// unless the register holds a later write.
pub open spec fn lww_write<V>(m: (Option<V>, u64), value: V, timestamp: u64) -> (Option<V>, u64) {
    if timestamp >= m.1 {
        (Some(value), timestamp)
    } else {
        m
    }
}

impl<T: Element> LWWRegister<T> {
    /// An empty register at timestamp zero.
    pub fn new() -> (r: Self)
        ensures
            r@ == (None::<T::V>, 0u64),
    {
        LWWRegister { value: None, timestamp: 0 }
    }

    /// Writes a value at a timestamp, unless the register holds a later write.
    pub fn set(&mut self, value: T, timestamp: u64)
        ensures
            final(self)@ == lww_write(old(self)@, value@, timestamp),
    {
        if timestamp >= self.timestamp {
            self.value = Some(value);
            self.timestamp = timestamp;
        }
    }

    /// The current value, if any.
    pub fn get(&self) -> (r: Option<&T>)
        ensures
            r is Some == self.value is Some,
            r matches Some(v) ==> *v == self.value.unwrap(),
    {
        match &self.value {
            Some(v) => Some(v),
            None => None,
        }
    }
}

impl<T: Element> BoundedJoinSemilattice for LWWRegister<T> {
    open spec fn wf(&self) -> bool {
        true
    }

    open spec fn valid(m: (Option<T::V>, u64)) -> bool {
        true
    }

    open spec fn compatible(a: (Option<T::V>, u64), b: (Option<T::V>, u64)) -> bool {
        true
    }

    open spec fn bottom_model() -> (Option<T::V>, u64) {
        (None, 0)
    }

    /// The later write wins; between writes with one timestamp, the greater
    /// value (no value being least) wins.
    open spec fn join_model(a: (Option<T::V>, u64), b: (Option<T::V>, u64)) -> (Option<T::V>, u64) {
        if b.1 > a.1 {
            b
        } else if a.1 > b.1 {
            a
        } else if opt_le::<T>(a.0, b.0) {
            b
        } else {
            a
        }
    }

    fn bottom() -> (r: Self) {
        LWWRegister { value: None, timestamp: 0 }
    }

    /// The later write wins, whatever the values.
    fn join(&self, other: &Self) -> (r: Self)
        ensures
            self@.1 < other@.1 ==> r@ == other@,
            other@.1 < self@.1 ==> r@ == self@,
    {
        if other.timestamp > self.timestamp {
            other.copy_state()
        } else if self.timestamp > other.timestamp {
            self.copy_state()
        } else if option_le(&self.value, &other.value) {
            other.copy_state()
        } else {
            self.copy_state()
        }
    }

    fn same_state(&self, other: &Self) -> (r: bool) {
        self.timestamp == other.timestamp && same_option(&self.value, &other.value)
    }

    fn copy_state(&self) -> (r: Self) {
        LWWRegister { value: copy_option(&self.value), timestamp: self.timestamp }
    }

    proof fn lemma_unary_laws(a: (Option<T::V>, u64)) {
        lemma_opt_total_order::<T>(a.0, a.0, a.0);
    }

    proof fn lemma_binary_laws(
        a: (Option<T::V>, u64),
        b: (Option<T::V>, u64),
        c: (Option<T::V>, u64),
    ) {
        lemma_opt_total_order::<T>(a.0, b.0, c.0);
        lemma_opt_total_order::<T>(b.0, c.0, a.0);
        lemma_opt_total_order::<T>(c.0, a.0, b.0);
        lemma_opt_total_order::<T>(b.0, a.0, c.0);
    }
}

// ---------------------------------------------------------------------------
// LWW-Element-Set
// ---------------------------------------------------------------------------

/// The view of an LWW-Element-Set: the latest add and remove timestamps of
/// each element.
pub type LWWSetModel<K> = (Map<K, u64>, Map<K, u64>);

/// An element is present if it was added, and added later than any removal.
pub open spec fn lww_contains<K>(m: LWWSetModel<K>, k: K) -> bool {
    &&& m.0.dom().contains(k)
    &&& m.1.dom().contains(k) ==> m.0[k] > m.1[k]
}

/// LWW element set: each element carries its latest add and remove
/// timestamps; it is present if its add is later than its remove.
#[derive(Clone, Debug)]
pub struct LWWElementSet<T> {
    add_set: MapSemilattice<T, NatMax>,
    remove_set: MapSemilattice<T, NatMax>,
}

impl<T: View> View for LWWElementSet<T> {
    type V = LWWSetModel<T::V>;

    closed spec fn view(&self) -> LWWSetModel<T::V> {
        (self.add_set@, self.remove_set@)
    }
}

impl<T: Element> LWWElementSet<T> {
    /// The empty set.
    pub fn new() -> (r: Self)
        ensures
            r.wf(),
            r@ == (Map::<T::V, u64>::empty(), Map::<T::V, u64>::empty()),
    {
        LWWElementSet { add_set: MapSemilattice::new(), remove_set: MapSemilattice::new() }
    }

    /// Records an addition at a timestamp (replacing the earlier one).
    pub fn add(&mut self, elem: T, ts: u64)
        requires
            old(self).wf(),
        ensures
            final(self).wf(),
            final(self)@ == (old(self)@.0.insert(elem@, ts), old(self)@.1),
    {
        self.add_set.insert(elem, NatMax(ts));
    }

    /// Records a removal at a timestamp (replacing the earlier one).
    pub fn remove(&mut self, elem: T, ts: u64)
        requires
            old(self).wf(),
        ensures
            final(self).wf(),
            final(self)@ == (old(self)@.0, old(self)@.1.insert(elem@, ts)),
    {
        self.remove_set.insert(elem, NatMax(ts));
    }

    /// Whether an element is present.
    pub fn contains(&self, elem: &T) -> (r: bool)
        requires
            self.wf(),
        ensures
            r == lww_contains(self@, elem@),
    {
        match (self.add_set.get(elem), self.remove_set.get(elem)) {
            (Some(a), Some(r)) => a.0 > r.0,
            (Some(_), None) => true,
            _ => false,
        }
    }

    /// The present elements, each once.
    pub fn elements(&self) -> (r: Vec<&T>)
        requires
            self.wf(),
        ensures
            distinct_views(deref_seq(r@)),
            view_set(deref_seq(r@)) == Set::new(|k: T::V| lww_contains(self@, k)),
    {
        let entries = self.add_set.entries();
        let mut r: Vec<&T> = Vec::new();
        let mut i: usize = 0;
        while i < entries.len()
            invariant
                i <= entries.len(),
                self.wf(),
                entries_wf(entries@),
                entries_map(entries@) == self@.0,
                distinct_views(deref_seq(r@)),
                view_set(deref_seq(r@)) == Set::new(
                    |k: T::V| lww_contains(self@, k) && entries_map(entries@.take(i as int)).dom().contains(k),
                ),
            decreases entries.len() - i,
        {
            let ghost e = entries@[i as int];
            proof {
                lemma_entries_take(entries@, i as int);
                lemma_entries_map_push(entries@.take(i as int), e);
                lemma_entries_map_at(entries@, i as int);
            }
            let ghost before = deref_seq(r@);
            if self.contains(&entries[i].0) {
                proof {
                    assert(!entries_map(entries@.take(i as int)).dom().contains(e.0@));
                    assert(!view_set(before).contains(e.0@));
                    lemma_view_set_push(before, e.0);
                }
                r.push(&entries[i].0);
                proof {
                    assert(deref_seq(r@) =~= before.push(e.0));
                }
            }
            i += 1;
            proof {
                assert(view_set(deref_seq(r@)) =~= Set::new(
                    |k: T::V| lww_contains(self@, k) && entries_map(entries@.take(i as int)).dom().contains(k),
                ));
            }
        }
        proof {
            assert(entries@.take(entries@.len() as int) =~= entries@);
            assert(view_set(deref_seq(r@)) =~= Set::new(|k: T::V| lww_contains(self@, k)));
        }
        r
    }
}

impl<T: Element> BoundedJoinSemilattice for LWWElementSet<T> {
    closed spec fn wf(&self) -> bool {
        self.add_set.wf() && self.remove_set.wf()
    }

    open spec fn valid(m: LWWSetModel<T::V>) -> bool {
        true
    }

    open spec fn compatible(a: LWWSetModel<T::V>, b: LWWSetModel<T::V>) -> bool {
        true
    }

    open spec fn bottom_model() -> LWWSetModel<T::V> {
        (Map::empty(), Map::empty())
    }

    open spec fn join_model(a: LWWSetModel<T::V>, b: LWWSetModel<T::V>) -> LWWSetModel<T::V> {
        (map_join::<T::V, NatMax>(a.0, b.0), map_join::<T::V, NatMax>(a.1, b.1))
    }

    fn bottom() -> (r: Self) {
        Self::new()
    }

    fn join(&self, other: &Self) -> (r: Self) {
        LWWElementSet {
            add_set: self.add_set.join(&other.add_set),
            remove_set: self.remove_set.join(&other.remove_set),
        }
    }

    fn same_state(&self, other: &Self) -> (r: bool) {
        self.add_set.same_state(&other.add_set) && self.remove_set.same_state(&other.remove_set)
    }

    fn copy_state(&self) -> (r: Self) {
        LWWElementSet { add_set: self.add_set.copy_state(), remove_set: self.remove_set.copy_state() }
    }

    proof fn lemma_unary_laws(a: LWWSetModel<T::V>) {
        lemma_map_join_unary::<T::V, NatMax>(a.0);
        lemma_map_join_unary::<T::V, NatMax>(a.1);
    }

    proof fn lemma_binary_laws(a: LWWSetModel<T::V>, b: LWWSetModel<T::V>, c: LWWSetModel<T::V>) {
        lemma_map_join_binary::<T::V, NatMax>(a.0, b.0, c.0);
        lemma_map_join_binary::<T::V, NatMax>(a.1, b.1, c.1);
    }
}

// ---------------------------------------------------------------------------
// Defaults
// ---------------------------------------------------------------------------

impl<T: Element> Default for GSet<T> {
    fn default() -> (r: Self)
        ensures
            r.wf(),
            r@ == Set::<T::V>::empty(),
    {
        Self::new()
    }
}

impl<T: Element> Default for ORSet<T> {
    fn default() -> (r: Self)
        ensures
            r.wf(),
            r@ == (Map::<T::V, Set<Tag>>::empty(), Set::<Tag>::empty(), 0u64),
    {
        Self::new()
    }
}

impl<T: Element> Default for LWWRegister<T> {
    fn default() -> (r: Self)
        ensures
            r@ == (None::<T::V>, 0u64),
    {
        Self::new()
    }
}

impl<T: Element> Default for LWWElementSet<T> {
    fn default() -> (r: Self)
        ensures
            r.wf(),
            r@ == (Map::<T::V, u64>::empty(), Map::<T::V, u64>::empty()),
    {
        Self::new()
    }
}

} // verus!
