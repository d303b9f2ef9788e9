//! Bounded join-semilattices.
//!
//! A join-semilattice is a set with a binary join (least upper bound) that is
//! commutative, associative and idempotent; bounded means that it has a bottom
//! element that is the identity of join. Each state type models its value by a
//! view, and the laws are stated and proved over those views.

use vstd::prelude::*;
use crate::collections::{distinct_keys, entries_map, find_key, has_key, lemma_entries_map_at, lemma_entries_map_congruent, lemma_entries_map_push, lemma_entries_map_remove, lemma_entries_map_update, lemma_entries_take};
use crate::element::Element;

verus! {

/// A bounded join-semilattice.
///
/// `join_model` and `bottom_model` give join and bottom on views. The laws
/// are promised for `valid` views (for most types, every view of a
/// well-formed state) and, where they relate two views, for `compatible`
/// pairs (for most types, all pairs).
pub trait BoundedJoinSemilattice: Sized + View {
    /// Representation invariant of a state.
    spec fn wf(&self) -> bool;

    /// Views on which the laws are promised.
    spec fn valid(m: Self::V) -> bool;

    /// Pairs of views on which the semilattice laws hold.
    spec fn compatible(a: Self::V, b: Self::V) -> bool;

    /// The view of the bottom element.
    spec fn bottom_model() -> Self::V;

    /// Join on views.
    spec fn join_model(a: Self::V, b: Self::V) -> Self::V;

    /// The bottom element, the identity for join.
    fn bottom() -> (r: Self)
        ensures
            r.wf(),
            r@ == Self::bottom_model(),
    ;

    /// Join (least upper bound) of two states.
    fn join(&self, other: &Self) -> (r: Self)
        requires
            self.wf(),
            other.wf(),
        ensures
            r.wf(),
            r@ == Self::join_model(self@, other@),
    ;

    /// Whether two states have the same view.
    fn same_state(&self, other: &Self) -> (r: bool)
        requires
            self.wf(),
            other.wf(),
        ensures
            r == (self@ == other@),
    ;

    /// A copy of a state.
    fn copy_state(&self) -> (r: Self)
        requires
            self.wf(),
        ensures
            r.wf(),
            r@ == self@,
    ;

    /// Partial order: `self ⊑ other` holds when joining `self` into `other`
    /// leaves `other` unchanged.
    fn leq(&self, other: &Self) -> (r: bool)
        requires
            self.wf(),
            other.wf(),
        ensures
            r == (Self::join_model(self@, other@) == other@),
    {
        let joined = self.join(other);
        joined.same_state(other)
    }

    /// Whether this state is the bottom element.
    fn is_bottom(&self) -> (r: bool)
        requires
            self.wf(),
        ensures
            r == (self@ == Self::bottom_model()),
    {
        let b = Self::bottom();
        self.same_state(&b)
    }

    /// The laws that involve one valid view: idempotence, bottom as a right
    /// identity, and the compatibility of a view with itself.
    proof fn lemma_unary_laws(a: Self::V)
        requires
            Self::valid(a),
        ensures
            Self::valid(Self::bottom_model()),
            Self::compatible(a, a),
            Self::join_model(a, a) == a,
            Self::join_model(a, Self::bottom_model()) == a,
    ;

    /// Commutativity and associativity of join on pairwise compatible valid
    /// views, and the closure of validity and compatibility under join.
    proof fn lemma_binary_laws(a: Self::V, b: Self::V, c: Self::V)
        requires
            Self::valid(a),
            Self::valid(b),
            Self::valid(c),
            Self::compatible(a, b),
            Self::compatible(b, c),
            Self::compatible(a, c),
        ensures
            Self::compatible(b, a),
            Self::join_model(a, b) == Self::join_model(b, a),
            Self::join_model(Self::join_model(a, b), c) == Self::join_model(
                a,
                Self::join_model(b, c),
            ),
            Self::valid(Self::join_model(a, b)),
            Self::compatible(Self::join_model(a, b), c),
            Self::compatible(c, Self::join_model(a, b)),
    ;
}

/// The partial order of a semilattice on views: `a ⊑ b` iff `a ⊔ b == b`.
pub open spec fn spec_leq<L: BoundedJoinSemilattice>(a: L::V, b: L::V) -> bool {
    L::join_model(a, b) == b
}

/// The order `⊑` is a partial order on valid, pairwise compatible views:
/// reflexive, antisymmetric and transitive.
pub proof fn lemma_leq_partial_order<L: BoundedJoinSemilattice>(a: L::V, b: L::V, c: L::V)
    requires
        L::valid(a),
        L::valid(b),
        L::valid(c),
        L::compatible(a, b),
        L::compatible(b, c),
        L::compatible(a, c),
    ensures
        spec_leq::<L>(a, a),
        spec_leq::<L>(a, b) && spec_leq::<L>(b, a) ==> a == b,
        spec_leq::<L>(a, b) && spec_leq::<L>(b, c) ==> spec_leq::<L>(a, c),
{
    L::lemma_unary_laws(a);
    L::lemma_binary_laws(a, b, c);
}

/// Join is the least upper bound: `a ⊔ b` is above `a` and `b`, and below
/// every common upper bound of them.
pub proof fn lemma_join_least_upper_bound<L: BoundedJoinSemilattice>(a: L::V, b: L::V, c: L::V)
    requires
        L::valid(a),
        L::valid(b),
        L::valid(c),
        L::compatible(a, b),
        L::compatible(b, c),
        L::compatible(a, c),
    ensures
        spec_leq::<L>(a, L::join_model(a, b)),
        spec_leq::<L>(b, L::join_model(a, b)),
        spec_leq::<L>(a, c) && spec_leq::<L>(b, c) ==> spec_leq::<L>(L::join_model(a, b), c),
{
    L::lemma_unary_laws(a);
    L::lemma_unary_laws(b);
    L::lemma_binary_laws(a, b, c);
    L::lemma_binary_laws(a, a, b);
    L::lemma_binary_laws(b, b, a);
}

/// Bottom is an identity on both sides and the least element.
pub proof fn lemma_bottom_least<L: BoundedJoinSemilattice>(a: L::V)
    requires
        L::valid(a),
        L::compatible(a, L::bottom_model()),
    ensures
        L::join_model(L::bottom_model(), a) == a,
        L::join_model(a, L::bottom_model()) == a,
        spec_leq::<L>(L::bottom_model(), a),
{
    L::lemma_unary_laws(a);
    L::lemma_unary_laws(L::bottom_model());
    L::lemma_binary_laws(a, L::bottom_model(), L::bottom_model());
}

/// The views of a sequence of states.
pub open spec fn views<L: View>(s: Seq<L>) -> Seq<L::V> {
    s.map_values(|x: L| x@)
}

/// Every state of the sequence is well-formed.
pub open spec fn all_wf<L: BoundedJoinSemilattice>(s: Seq<L>) -> bool {
    forall|i: int| 0 <= i < s.len() ==> (#[trigger] s[i]).wf()
}

/// The join of a sequence of views, folded from bottom left to right.
pub open spec fn fold_join<L: BoundedJoinSemilattice>(s: Seq<L::V>) -> L::V
    decreases s.len(),
{
    if s.len() == 0 {
        L::bottom_model()
    } else {
        L::join_model(fold_join::<L>(s.drop_last()), s.last())
    }
}

/// Joins a sequence of states, from bottom, left to right.
pub fn join_all<L: BoundedJoinSemilattice>(states: &[L]) -> (r: L)
    requires
        all_wf(states@),
    ensures
        r.wf(),
        r@ == fold_join::<L>(views(states@)),
{
    let mut acc = L::bottom();
    let mut i: usize = 0;
    while i < states.len()
        invariant
            i <= states.len(),
            all_wf(states@),
            acc.wf(),
            acc@ == fold_join::<L>(views(states@.take(i as int))),
        decreases states.len() - i,
    {
        proof {
            assert(views(states@.take(i as int + 1)).drop_last() =~= views(states@.take(i as int)));
        }
        acc = acc.join(&states[i]);
        i += 1;
    }
    assert(states@.take(states@.len() as int) =~= states@);
    acc
}

// ---------------------------------------------------------------------------
// Natural numbers as a join-semilattice (max)
// ---------------------------------------------------------------------------

/// A natural number join-semilattice where join = max.
#[derive(Clone, PartialEq, Eq, Debug, PartialOrd, Ord)]
pub struct NatMax(pub u64);

impl View for NatMax {
    type V = u64;

    open spec fn view(&self) -> u64 {
        self.0
    }
}

/// The larger of two numbers.
pub open spec fn max_u64(a: u64, b: u64) -> u64 {
    if a >= b {
        a
    } else {
        b
    }
}

impl BoundedJoinSemilattice for NatMax {
    open spec fn wf(&self) -> bool {
        true
    }

    open spec fn valid(m: u64) -> bool {
        true
    }

    open spec fn compatible(a: u64, b: u64) -> bool {
        true
    }

    open spec fn bottom_model() -> u64 {
        0
    }

    open spec fn join_model(a: u64, b: u64) -> u64 {
        max_u64(a, b)
    }

    fn bottom() -> (r: Self) {
        NatMax(0)
    }

    fn join(&self, other: &Self) -> (r: Self) {
        if self.0 >= other.0 {
            NatMax(self.0)
        } else {
            NatMax(other.0)
        }
    }

    fn same_state(&self, other: &Self) -> (r: bool) {
        self.0 == other.0
    }

    fn copy_state(&self) -> (r: Self) {
        NatMax(self.0)
    }

    proof fn lemma_unary_laws(a: u64) {
    }

    proof fn lemma_binary_laws(a: u64, b: u64, c: u64) {
    }
}

// ---------------------------------------------------------------------------
// Boolean join-semilattice (OR)
// ---------------------------------------------------------------------------

/// Boolean join-semilattice where join = OR.
#[derive(Clone, PartialEq, Eq, Debug)]
pub struct BoolOr(pub bool);

impl View for BoolOr {
    type V = bool;

    open spec fn view(&self) -> bool {
        self.0
    }
}

impl BoundedJoinSemilattice for BoolOr {
    open spec fn wf(&self) -> bool {
        true
    }

    open spec fn valid(m: bool) -> bool {
        true
    }

    open spec fn compatible(a: bool, b: bool) -> bool {
        true
    }

    open spec fn bottom_model() -> bool {
        false
    }

    open spec fn join_model(a: bool, b: bool) -> bool {
        a || b
    }

    fn bottom() -> (r: Self) {
        BoolOr(false)
    }

    fn join(&self, other: &Self) -> (r: Self) {
        BoolOr(self.0 || other.0)
    }

    fn same_state(&self, other: &Self) -> (r: bool) {
        self.0 == other.0
    }

    fn copy_state(&self) -> (r: Self) {
        BoolOr(self.0)
    }

    proof fn lemma_unary_laws(a: bool) {
    }

    proof fn lemma_binary_laws(a: bool, b: bool, c: bool) {
    }
}

// ---------------------------------------------------------------------------
// Product (pair) of semilattices
// ---------------------------------------------------------------------------

/// Product of two semilattices (pointwise join).
#[derive(Clone, PartialEq, Eq, Debug)]
pub struct Product<A, B>(pub A, pub B);

impl<A: View, B: View> View for Product<A, B> {
    type V = (A::V, B::V);

    open spec fn view(&self) -> (A::V, B::V) {
        (self.0@, self.1@)
    }
}

impl<A: BoundedJoinSemilattice, B: BoundedJoinSemilattice> BoundedJoinSemilattice for Product<
    A,
    B,
> {
    open spec fn wf(&self) -> bool {
        self.0.wf() && self.1.wf()
    }

    open spec fn valid(m: (A::V, B::V)) -> bool {
        A::valid(m.0) && B::valid(m.1)
    }

    open spec fn compatible(a: (A::V, B::V), b: (A::V, B::V)) -> bool {
        A::compatible(a.0, b.0) && B::compatible(a.1, b.1)
    }

    open spec fn bottom_model() -> (A::V, B::V) {
        (A::bottom_model(), B::bottom_model())
    }

    open spec fn join_model(a: (A::V, B::V), b: (A::V, B::V)) -> (A::V, B::V) {
        (A::join_model(a.0, b.0), B::join_model(a.1, b.1))
    }

    fn bottom() -> (r: Self) {
        Product(A::bottom(), B::bottom())
    }

    fn join(&self, other: &Self) -> (r: Self) {
        Product(self.0.join(&other.0), self.1.join(&other.1))
    }

    fn same_state(&self, other: &Self) -> (r: bool) {
        self.0.same_state(&other.0) && self.1.same_state(&other.1)
    }

    fn copy_state(&self) -> (r: Self) {
        Product(self.0.copy_state(), self.1.copy_state())
    }

    proof fn lemma_unary_laws(a: (A::V, B::V)) {
        A::lemma_unary_laws(a.0);
        B::lemma_unary_laws(a.1);
    }

    proof fn lemma_binary_laws(a: (A::V, B::V), b: (A::V, B::V), c: (A::V, B::V)) {
        A::lemma_binary_laws(a.0, b.0, c.0);
        B::lemma_binary_laws(a.1, b.1, c.1);
    }
}

// ---------------------------------------------------------------------------
// Map semilattice (pointwise join on values)
// ---------------------------------------------------------------------------

/// Join of two maps of semilattice values: the union of the keys, with the
/// join of the two values where a key is in both.
pub open spec fn map_join<K, L: BoundedJoinSemilattice>(a: Map<K, L::V>, b: Map<K, L::V>) -> Map<
    K,
    L::V,
> {
    Map::new(
        |k: K| a.dom().contains(k) || b.dom().contains(k),
        |k: K|
            if a.dom().contains(k) && b.dom().contains(k) {
                L::join_model(a[k], b[k])
            } else if a.dom().contains(k) {
                a[k]
            } else {
                b[k]
            },
    )
}

/// Every value of the map is valid.
pub open spec fn map_valid<K, L: BoundedJoinSemilattice>(m: Map<K, L::V>) -> bool {
    forall|k: K| #[trigger] m.dom().contains(k) ==> L::valid(m[k])
}

/// The values of a key present in both maps are compatible.
pub open spec fn map_compatible<K, L: BoundedJoinSemilattice>(a: Map<K, L::V>, b: Map<K, L::V>) -> bool {
    forall|k: K|
        #[trigger] a.dom().contains(k) && #[trigger] b.dom().contains(k) ==> L::compatible(a[k], b[k])
}

/// Entries with distinct keys and well-formed values.
pub open spec fn entries_wf<K: View, L: BoundedJoinSemilattice>(s: Seq<(K, L)>) -> bool {
    &&& distinct_keys(s)
    &&& forall|i: int| 0 <= i < s.len() ==> (#[trigger] s[i]).1.wf()
}

/// The laws of `map_join` that involve one map.
pub proof fn lemma_map_join_unary<K, L: BoundedJoinSemilattice>(a: Map<K, L::V>)
    requires
        map_valid::<K, L>(a),
    ensures
        map_compatible::<K, L>(a, a),
        map_join::<K, L>(a, a) == a,
        map_join::<K, L>(a, Map::empty()) == a,
        map_join::<K, L>(Map::empty(), a) == a,
{
    assert forall|k: K| #[trigger] a.dom().contains(k) implies L::compatible(a[k], a[k])
        && L::join_model(a[k], a[k]) == a[k] by {
        L::lemma_unary_laws(a[k]);
    }
    assert(map_join::<K, L>(a, a) =~= a);
    assert(map_join::<K, L>(a, Map::empty()) =~= a);
    assert(map_join::<K, L>(Map::empty(), a) =~= a);
}

/// Commutativity and associativity of `map_join` on pairwise compatible valid
/// maps.
pub proof fn lemma_map_join_binary<K, L: BoundedJoinSemilattice>(
    a: Map<K, L::V>,
    b: Map<K, L::V>,
    c: Map<K, L::V>,
)
    requires
        map_valid::<K, L>(a),
        map_valid::<K, L>(b),
        map_valid::<K, L>(c),
        map_compatible::<K, L>(a, b),
        map_compatible::<K, L>(b, c),
        map_compatible::<K, L>(a, c),
    ensures
        map_compatible::<K, L>(b, a),
        map_join::<K, L>(a, b) == map_join::<K, L>(b, a),
        map_join::<K, L>(map_join::<K, L>(a, b), c) == map_join::<K, L>(a, map_join::<K, L>(b, c)),
        map_valid::<K, L>(map_join::<K, L>(a, b)),
        map_compatible::<K, L>(map_join::<K, L>(a, b), c),
        map_compatible::<K, L>(c, map_join::<K, L>(a, b)),
{
    let ab = map_join::<K, L>(a, b);
    let bc = map_join::<K, L>(b, c);
    assert forall|k: K| #[trigger] b.dom().contains(k) && a.dom().contains(k) implies L::compatible(
        b[k],
        a[k],
    ) by {
        L::lemma_unary_laws(b[k]);
        L::lemma_binary_laws(a[k], b[k], b[k]);
    }
    assert forall|k: K| #[trigger] ab.dom().contains(k) implies L::valid(ab[k]) && (
    c.dom().contains(k) ==> L::compatible(ab[k], c[k]) && L::compatible(c[k], ab[k])) by {
        if a.dom().contains(k) && b.dom().contains(k) {
            if c.dom().contains(k) {
                L::lemma_binary_laws(a[k], b[k], c[k]);
            } else {
                L::lemma_unary_laws(b[k]);
                L::lemma_binary_laws(a[k], b[k], b[k]);
            }
        } else if a.dom().contains(k) {
            if c.dom().contains(k) {
                L::lemma_unary_laws(a[k]);
                L::lemma_binary_laws(a[k], a[k], c[k]);
                L::lemma_binary_laws(c[k], a[k], a[k]);
            }
        } else {
            if c.dom().contains(k) {
                L::lemma_unary_laws(b[k]);
                L::lemma_binary_laws(b[k], b[k], c[k]);
                L::lemma_binary_laws(c[k], b[k], b[k]);
            }
        }
    }
    assert forall|k: K| #[trigger] ab.dom().contains(k) implies ab[k] == map_join::<K, L>(b, a)[k] by {
        if a.dom().contains(k) && b.dom().contains(k) {
            L::lemma_unary_laws(b[k]);
            L::lemma_binary_laws(a[k], b[k], b[k]);
        }
    }
    assert(ab =~= map_join::<K, L>(b, a));
    assert forall|k: K| #[trigger] map_join::<K, L>(ab, c).dom().contains(k) implies map_join::<
        K,
        L,
    >(ab, c)[k] == map_join::<K, L>(a, bc)[k] by {
        if a.dom().contains(k) && b.dom().contains(k) && c.dom().contains(k) {
            L::lemma_binary_laws(a[k], b[k], c[k]);
        }
    }
    assert(map_join::<K, L>(ab, c) =~= map_join::<K, L>(a, bc));
}

/// A map from keys to semilattice values — pointwise join.
#[derive(Clone, Debug)]
pub struct MapSemilattice<K, V> {
    entries: Vec<(K, V)>,
}

impl<K: View, V: View> View for MapSemilattice<K, V> {
    type V = Map<K::V, V::V>;

    closed spec fn view(&self) -> Map<K::V, V::V> {
        entries_map(self.entries@)
    }
}

impl<K: Element, V: BoundedJoinSemilattice> MapSemilattice<K, V> {
    /// An empty map.
    pub fn new() -> (r: Self)
        ensures
            r.wf(),
            r@ == Map::<K::V, V::V>::empty(),
    {
        let r = MapSemilattice { entries: Vec::new() };
        assert(r@ =~= Map::<K::V, V::V>::empty());
        r
    }

    /// Sets the value of a key, replacing any earlier value.
    pub fn insert(&mut self, key: K, value: V)
        requires
            old(self).wf(),
            value.wf(),
        ensures
            final(self).wf(),
            final(self)@ == old(self)@.insert(key@, value@),
    {
        match find_key(&self.entries, &key) {
            Some(i) => {
                proof {
                    lemma_entries_map_update(self.entries@, i as int, (key, value));
                }
                self.entries.set(i, (key, value));
            },
            None => {
                proof {
                    lemma_entries_map_push(self.entries@, (key, value));
                }
                self.entries.push((key, value));
            },
        }
    }

    /// The value of a key, if it has one.
    pub fn get(&self, key: &K) -> (r: Option<&V>)
        requires
            self.wf(),
        ensures
            r is Some <==> self@.dom().contains(key@),
            r matches Some(v) ==> v@ == self@[key@] && v.wf(),
    {
        match find_key(&self.entries, key) {
            Some(i) => {
                proof {
                    lemma_entries_map_at(self.entries@, i as int);
                }
                Some(&self.entries[i].1)
            },
            None => None,
        }
    }

    /// Removes a key and its value.
    pub(crate) fn remove_key(&mut self, key: &K)
        requires
            old(self).wf(),
        ensures
            final(self).wf(),
            final(self)@ == old(self)@.remove(key@),
    {
        match find_key(&self.entries, key) {
            Some(i) => {
                proof {
                    lemma_entries_map_remove(self.entries@, i as int);
                }
                let ghost s = self.entries@;
                self.entries.remove(i);
                proof {
                    assert(self.entries@ == s.remove(i as int));
                    assert forall|j: int| 0 <= j < self.entries@.len() implies (#[trigger] self.entries@[j]).1.wf() by {
                        let sj = if j < i { j } else { j + 1 };
                        assert(self.entries@[j] == s[sj]);
                    }
                }
            },
            None => {
                assert(self@.remove(key@) =~= self@);
            },
        }
    }

    /// The entries, one per key.
    pub fn entries(&self) -> (r: &Vec<(K, V)>)
        requires
            self.wf(),
        ensures
            entries_wf(r@),
            entries_map(r@) == self@,
    {
        &self.entries
    }
}

/// Joins the values of `other` into an entry list, key by key.
fn join_entries<K: Element, V: BoundedJoinSemilattice>(mine: &Vec<(K, V)>, other: &Vec<(K, V)>) -> (r:
    Vec<(K, V)>)
    requires
        entries_wf(mine@),
        entries_wf(other@),
    ensures
        entries_wf(r@),
        entries_map(r@) == map_join::<K::V, V>(entries_map(mine@), entries_map(other@)),
{
    let mut result: Vec<(K, V)> = Vec::new();
    let mut i: usize = 0;
    while i < mine.len()
        invariant
            i <= mine.len(),
            entries_wf(mine@),
            entries_wf(result@),
            entries_map(result@) == entries_map(mine@.take(i as int)),
        decreases mine.len() - i,
    {
        let entry = (mine[i].0.copy_value(), mine[i].1.copy_state());
        proof {
            lemma_entries_take(mine@, i as int);
            assert(!has_key(result@, entry.0@)) by {
                if has_key(result@, entry.0@) {
                    let j = choose|j: int| 0 <= j < result@.len() && #[trigger] result@[j].0@ == entry.0@;
                    lemma_entries_map_at(result@, j);
                }
            }
            lemma_entries_map_push(result@, entry);
            lemma_entries_map_push(mine@.take(i as int), mine@[i as int]);
        }
        result.push(entry);
        i += 1;
    }
    assert(mine@.take(mine@.len() as int) =~= mine@);
    let ghost a = entries_map(mine@);
    let mut j: usize = 0;
    while j < other.len()
        invariant
            j <= other.len(),
            entries_wf(other@),
            entries_wf(result@),
            entries_map(result@) == map_join::<K::V, V>(a, entries_map(other@.take(j as int))),
        decreases other.len() - j,
    {
        let ghost b = entries_map(other@.take(j as int));
        let ghost e = other@[j as int];
        let ghost before = entries_map(result@);
        proof {
            lemma_entries_take(other@, j as int);
            lemma_entries_map_push(other@.take(j as int), e);
            assert(!b.dom().contains(e.0@));
        }
        match find_key(&result, &other[j].0) {
            Some(p) => {
                proof {
                    lemma_entries_map_at(result@, p as int);
                }
                let joined = result[p].1.join(&other[j].1);
                let key = result[p].0.copy_value();
                proof {
                    lemma_entries_map_update(result@, p as int, (key, joined));
                }
                result.set(p, (key, joined));
                proof {
                    assert(before.dom().contains(e.0@));
                    assert(a.dom().contains(e.0@));
                    assert(before[e.0@] == a[e.0@]);
                    assert(entries_map(result@)[e.0@] == V::join_model(a[e.0@], e.1@));
                }
            },
            None => {
                assert(!before.dom().contains(e.0@));
                let entry = (other[j].0.copy_value(), other[j].1.copy_state());
                proof {
                    lemma_entries_map_push(result@, entry);
                }
                result.push(entry);
                proof {
                    assert(!before.dom().contains(e.0@));
                    assert(!a.dom().contains(e.0@));
                    assert(entries_map(result@)[e.0@] == e.1@);
                }
            },
        }
        proof {
            let b2 = entries_map(other@.take(j as int + 1));
            assert(b2 == b.insert(e.0@, e.1@));
            assert(before == map_join::<K::V, V>(a, b));
            assert(entries_map(result@) =~= map_join::<K::V, V>(a, b2)) by {
                assert(entries_map(result@).dom() =~= map_join::<K::V, V>(a, b2).dom());
                assert forall|k| #[trigger] entries_map(result@).dom().contains(k) implies entries_map(result@)[k] == map_join::<K::V, V>(a, b2)[k] by {
                    if k != e.0@ {
                        assert(entries_map(result@)[k] == before[k]);
                    }
                }
            }
        }
        j += 1;
    }
    assert(other@.take(other@.len() as int) =~= other@);
    result
}

/// Whether two entry lists stand for the same map.
fn same_entries<K: Element, V: BoundedJoinSemilattice>(a: &Vec<(K, V)>, b: &Vec<(K, V)>) -> (r: bool)
    requires
        entries_wf(a@),
        entries_wf(b@),
    ensures
        r == (entries_map(a@) == entries_map(b@)),
{
    let ghost ma = entries_map(a@);
    let ghost mb = entries_map(b@);
    let mut i: usize = 0;
    while i < a.len()
        invariant
            i <= a.len(),
            entries_wf(a@),
            entries_wf(b@),
            ma == entries_map(a@),
            mb == entries_map(b@),
            forall|j: int| 0 <= j < i ==> mb.dom().contains((#[trigger] a@[j]).0@) && mb[a@[j].0@]
                == a@[j].1@,
        decreases a.len() - i,
    {
        proof {
            lemma_entries_map_at(a@, i as int);
        }
        match find_key(b, &a[i].0) {
            Some(p) => {
                proof {
                    lemma_entries_map_at(b@, p as int);
                }
                if !b[p].1.same_state(&a[i].1) {
                    return false;
                }
                proof {
                    assert(b@[p as int].0@ == a@[i as int].0@);
                    assert(mb[a@[i as int].0@] == a@[i as int].1@);
                }
            },
            None => {
                return false;
            },
        }
        i += 1;
    }
    let mut j: usize = 0;
    while j < b.len()
        invariant
            j <= b.len(),
            entries_wf(a@),
            entries_wf(b@),
            ma == entries_map(a@),
            mb == entries_map(b@),
            forall|k: int| 0 <= k < j ==> #[trigger] ma.dom().contains(b@[k].0@),
        decreases b.len() - j,
    {
        if find_key(a, &b[j].0).is_none() {
            proof {
                lemma_entries_map_at(b@, j as int);
            }
            return false;
        }
        j += 1;
    }
    proof {
        assert forall|k| #[trigger] ma.dom().contains(k) implies mb.dom().contains(k) && mb[k]
            == ma[k] by {
            let x = choose|x: int| 0 <= x < a@.len() && #[trigger] a@[x].0@ == k;
            lemma_entries_map_at(a@, x);
        }
        assert forall|k| #[trigger] mb.dom().contains(k) implies ma.dom().contains(k) by {
            let x = choose|x: int| 0 <= x < b@.len() && #[trigger] b@[x].0@ == k;
        }
        assert(ma =~= mb);
    }
    true
}

/// Copies an entry list.
fn copy_entries<K: Element, V: BoundedJoinSemilattice>(a: &Vec<(K, V)>) -> (r: Vec<(K, V)>)
    requires
        entries_wf(a@),
    ensures
        entries_wf(r@),
        entries_map(r@) == entries_map(a@),
{
    let mut r: Vec<(K, V)> = Vec::new();
    let mut i: usize = 0;
    while i < a.len()
        invariant
            i <= a.len(),
            entries_wf(a@),
            r@.len() == i,
            forall|j: int|
                0 <= j < i ==> (#[trigger] r@[j]).0@ == a@[j].0@ && r@[j].1@ == a@[j].1@ && r@[j].1.wf(),
        decreases a.len() - i,
    {
        r.push((a[i].0.copy_value(), a[i].1.copy_state()));
        i += 1;
    }
    proof {
        lemma_entries_map_congruent(a@, r@);
    }
    r
}

impl<K: Element, V: BoundedJoinSemilattice> BoundedJoinSemilattice for MapSemilattice<K, V> {
    closed spec fn wf(&self) -> bool {
        entries_wf(self.entries@)
    }

    open spec fn valid(m: Map<K::V, V::V>) -> bool {
        map_valid::<K::V, V>(m)
    }

    open spec fn compatible(a: Map<K::V, V::V>, b: Map<K::V, V::V>) -> bool {
        map_compatible::<K::V, V>(a, b)
    }

    open spec fn bottom_model() -> Map<K::V, V::V> {
        Map::empty()
    }

    open spec fn join_model(a: Map<K::V, V::V>, b: Map<K::V, V::V>) -> Map<K::V, V::V> {
        map_join::<K::V, V>(a, b)
    }

    fn bottom() -> (r: Self) {
        Self::new()
    }

    fn join(&self, other: &Self) -> (r: Self) {
        MapSemilattice { entries: join_entries(&self.entries, &other.entries) }
    }

    fn same_state(&self, other: &Self) -> (r: bool) {
        same_entries(&self.entries, &other.entries)
    }

    fn copy_state(&self) -> (r: Self) {
        MapSemilattice { entries: copy_entries(&self.entries) }
    }

    proof fn lemma_unary_laws(a: Map<K::V, V::V>) {
        lemma_map_join_unary::<K::V, V>(a);
    }

    proof fn lemma_binary_laws(a: Map<K::V, V::V>, b: Map<K::V, V::V>, c: Map<K::V, V::V>) {
        lemma_map_join_binary::<K::V, V>(a, b, c);
    }
}

// ---------------------------------------------------------------------------
// Vector semilattice (pointwise max, fixed dimension)
// ---------------------------------------------------------------------------

/// The entry of a vector, counting entries past its end as zero.
pub open spec fn entry_or_zero(s: Seq<u64>, i: int) -> u64 {
    if 0 <= i < s.len() {
        s[i]
    } else {
        0
    }
}

/// Pointwise maximum of two vectors, as long as the longer one.
pub open spec fn pointwise_max(a: Seq<u64>, b: Seq<u64>) -> Seq<u64> {
    Seq::new(
        if a.len() >= b.len() {
            a.len()
        } else {
            b.len()
        },
        |i: int| max_u64(entry_or_zero(a, i), entry_or_zero(b, i)),
    )
}

/// Laws of `pointwise_max`: a bounded join-semilattice with the empty vector
/// as bottom.
pub proof fn lemma_pointwise_max_laws(a: Seq<u64>, b: Seq<u64>, c: Seq<u64>)
    ensures
        pointwise_max(a, b) == pointwise_max(b, a),
        pointwise_max(pointwise_max(a, b), c) == pointwise_max(a, pointwise_max(b, c)),
        pointwise_max(a, a) == a,
        pointwise_max(a, Seq::empty()) == a,
        pointwise_max(Seq::empty(), a) == a,
{
    assert(pointwise_max(a, b) =~= pointwise_max(b, a));
    assert(pointwise_max(pointwise_max(a, b), c) =~= pointwise_max(a, pointwise_max(b, c)));
    assert(pointwise_max(a, a) =~= a);
    assert(pointwise_max(a, Seq::empty()) =~= a);
    assert(pointwise_max(Seq::empty(), a) =~= a);
}

/// Pointwise maximum of two vectors.
pub fn max_vectors(a: &Vec<u64>, b: &Vec<u64>) -> (r: Vec<u64>)
    ensures
        r@ == pointwise_max(a@, b@),
{
    let len = if a.len() >= b.len() {
        a.len()
    } else {
        b.len()
    };
    let mut result: Vec<u64> = Vec::new();
    let mut i: usize = 0;
    while i < len
        invariant
            i <= len,
            len == pointwise_max(a@, b@).len(),
            result@ =~= pointwise_max(a@, b@).take(i as int),
        decreases len - i,
    {
        let x = if i < a.len() {
            a[i]
        } else {
            0
        };
        let y = if i < b.len() {
            b[i]
        } else {
            0
        };
        result.push(if x >= y {
            x
        } else {
            y
        });
        i += 1;
    }
    assert(result@ =~= pointwise_max(a@, b@));
    result
}

/// A vector of `n` zeros.
pub fn zeros(n: usize) -> (r: Vec<u64>)
    ensures
        r@ == Seq::new(n as nat, |i: int| 0u64),
{
    let mut v: Vec<u64> = Vec::new();
    let mut i: usize = 0;
    while i < n
        invariant
            i <= n,
            v@ =~= Seq::new(i as nat, |k: int| 0u64),
        decreases n - i,
    {
        v.push(0);
        i += 1;
    }
    v
}

/// A vector of u64 with pointwise-max join — used by G-Counter.
#[derive(Clone, PartialEq, Eq, Debug)]
pub struct VectorMax(pub Vec<u64>);

impl View for VectorMax {
    type V = Seq<u64>;

    open spec fn view(&self) -> Seq<u64> {
        self.0@
    }
}

impl VectorMax {
    /// The zero vector of the given dimension.
    pub fn new(dim: usize) -> (r: Self)
        ensures
            r@ == Seq::new(dim as nat, |i: int| 0u64),
    {
        VectorMax(zeros(dim))
    }

    /// The number of entries.
    pub fn dim(&self) -> (r: usize)
        ensures
            r == self@.len(),
    {
        self.0.len()
    }

    /// Adds one to an entry.
    pub fn inc(&mut self, index: usize)
        requires
            index < old(self)@.len(),
            old(self)@[index as int] < u64::MAX,
        ensures
            final(self)@ == old(self)@.update(index as int, (old(self)@[index as int] + 1) as u64),
    {
        let v = self.0[index];
        self.0.set(index, v + 1);
    }
}

impl BoundedJoinSemilattice for VectorMax {
    open spec fn wf(&self) -> bool {
        true
    }

    open spec fn valid(m: Seq<u64>) -> bool {
        true
    }

    open spec fn compatible(a: Seq<u64>, b: Seq<u64>) -> bool {
        true
    }

    open spec fn bottom_model() -> Seq<u64> {
        Seq::empty()
    }

    open spec fn join_model(a: Seq<u64>, b: Seq<u64>) -> Seq<u64> {
        pointwise_max(a, b)
    }

    fn bottom() -> (r: Self) {
        let r = VectorMax(Vec::new());
        assert(r@ =~= Seq::<u64>::empty());
        r
    }

    fn join(&self, other: &Self) -> (r: Self) {
        VectorMax(max_vectors(&self.0, &other.0))
    }

    fn same_state(&self, other: &Self) -> (r: bool) {
        same_u64_vectors(&self.0, &other.0)
    }

    fn copy_state(&self) -> (r: Self) {
        VectorMax(self.0.clone())
    }

    proof fn lemma_unary_laws(a: Seq<u64>) {
        lemma_pointwise_max_laws(a, a, a);
    }

    proof fn lemma_binary_laws(a: Seq<u64>, b: Seq<u64>, c: Seq<u64>) {
        lemma_pointwise_max_laws(a, b, c);
    }
}

/// Whether two vectors hold the same numbers.
pub fn same_u64_vectors(a: &Vec<u64>, b: &Vec<u64>) -> (r: bool)
    ensures
        r == (a@ == b@),
{
    if a.len() != b.len() {
        return false;
    }
    let mut i: usize = 0;
    while i < a.len()
        invariant
            i <= a.len(),
            a.len() == b.len(),
            forall|j: int| 0 <= j < i ==> a@[j] == b@[j],
        decreases a.len() - i,
    {
        if a[i] != b[i] {
            return false;
        }
        i += 1;
    }
    assert(a@ =~= b@);
    true
}

impl<K: Element, V: BoundedJoinSemilattice> Default for MapSemilattice<K, V> {
    fn default() -> (r: Self)
        ensures
            r.wf(),
            r@ == Map::<K::V, V::V>::empty(),
    {
        Self::new()
    }
}

} // verus!
