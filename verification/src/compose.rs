//! CRDT composition: product, coproduct, function space and sequence.

use vstd::prelude::*;
use crate::collections::{
    distinct_keys, entries_map, has_key, lemma_entries_map_at, lemma_entries_map_congruent,
    lemma_entries_map_len,
    lemma_entries_map_push, lemma_entries_take,
};
use crate::crdt_state::opt_view;
use crate::element::Element;
use crate::semilattice::{max_u64, BoundedJoinSemilattice, MapSemilattice, Product};

verus! {

/// Product CRDT: two independent CRDTs composed in parallel.
pub type ProductCrdt<A, B> = Product<A, B>;

// ---------------------------------------------------------------------------
// Coproduct
// ---------------------------------------------------------------------------

/// Tag for coproduct.
#[derive(Clone, Copy, PartialEq, Eq, Debug)]
pub enum CoproductTag {
    Left,
    Right,
}

/// Coproduct CRDT.
#[derive(Clone, PartialEq, Eq, Debug)]
pub struct Coproduct<A, B> {
    pub tag: Option<CoproductTag>,
    pub left: Option<A>,
    pub right: Option<B>,
}

/// The view of a coproduct: its tag and the views of its two sides.
pub type CoproductModel<X, Y> = (Option<CoproductTag>, Option<X>, Option<Y>);

impl<A: View, B: View> View for Coproduct<A, B> {
    type V = CoproductModel<A::V, B::V>;

    open spec fn view(&self) -> CoproductModel<A::V, B::V> {
        (self.tag, opt_view(self.left), opt_view(self.right))
    }
}

/// Copies an optional state.
fn copy_opt_state<A: BoundedJoinSemilattice>(o: &Option<A>) -> (r: Option<A>)
    requires
        o matches Some(x) ==> x.wf(),
    ensures
        opt_view(r) == opt_view(*o),
        r matches Some(x) ==> x.wf(),
{
    match o {
        Some(x) => Some(x.copy_state()),
        None => None,
    }
}

/// Whether two optional states have the same view.
fn same_opt_state<A: BoundedJoinSemilattice>(a: &Option<A>, b: &Option<A>) -> (r: bool)
    requires
        a matches Some(x) ==> x.wf(),
        b matches Some(x) ==> x.wf(),
    ensures
        r == (opt_view(*a) == opt_view(*b)),
{
    match (a, b) {
        (Some(x), Some(y)) => x.same_state(y),
        (None, None) => true,
        _ => false,
    }
}

impl<A: BoundedJoinSemilattice, B: BoundedJoinSemilattice> Coproduct<A, B> {
    /// The left injection.
    pub fn left(a: A) -> (r: Self)
        ensures
            r@ == (Some(CoproductTag::Left), Some(a@), None::<B::V>),
            a.wf() ==> r.wf(),
    {
        Coproduct { tag: Some(CoproductTag::Left), left: Some(a), right: None }
    }

    /// The right injection.
    pub fn right(b: B) -> (r: Self)
        ensures
            r@ == (Some(CoproductTag::Right), None::<A::V>, Some(b@)),
            b.wf() ==> r.wf(),
    {
        Coproduct { tag: Some(CoproductTag::Right), left: None, right: Some(b) }
    }
}

impl<A: BoundedJoinSemilattice, B: BoundedJoinSemilattice> BoundedJoinSemilattice for Coproduct<
    A,
    B,
> {
    open spec fn wf(&self) -> bool {
        &&& self.tag == Some(CoproductTag::Left) ==> self.left is Some
        &&& self.tag == Some(CoproductTag::Right) ==> self.right is Some
        &&& self.left matches Some(a) ==> a.wf()
        &&& self.right matches Some(b) ==> b.wf()
    }

    /// The bottom has neither side; an injection has only its own side.
    open spec fn valid(m: CoproductModel<A::V, B::V>) -> bool {
        match m.0 {
            None => m.1 is None && m.2 is None,
            Some(CoproductTag::Left) => m.1 matches Some(x) && A::valid(x) && m.2 is None,
            Some(CoproductTag::Right) => m.2 matches Some(y) && B::valid(y) && m.1 is None,
        }
    }

    /// Joining a left with a right gives bottom, which breaks associativity;
    /// the laws hold where the tags agree (or one side is bottom).
    open spec fn compatible(a: CoproductModel<A::V, B::V>, b: CoproductModel<A::V, B::V>) -> bool {
        match (a.0, b.0) {
            (None, _) => true,
            (_, None) => true,
            (Some(CoproductTag::Left), Some(CoproductTag::Left)) => A::compatible(
                a.1->Some_0,
                b.1->Some_0,
            ),
            (Some(CoproductTag::Right), Some(CoproductTag::Right)) => B::compatible(
                a.2->Some_0,
                b.2->Some_0,
            ),
            _ => false,
        }
    }

    open spec fn bottom_model() -> CoproductModel<A::V, B::V> {
        (None, None, None)
    }

    open spec fn join_model(
        a: CoproductModel<A::V, B::V>,
        b: CoproductModel<A::V, B::V>,
    ) -> CoproductModel<A::V, B::V> {
        match (a.0, b.0) {
            (None, _) => b,
            (_, None) => a,
            (Some(CoproductTag::Left), Some(CoproductTag::Left)) => (
                Some(CoproductTag::Left),
                Some(A::join_model(a.1->Some_0, b.1->Some_0)),
                None,
            ),
            (Some(CoproductTag::Right), Some(CoproductTag::Right)) => (
                Some(CoproductTag::Right),
                None,
                Some(B::join_model(a.2->Some_0, b.2->Some_0)),
            ),
            _ => (None, None, None),
        }
    }

    fn bottom() -> (r: Self) {
        let r = Coproduct { tag: None, left: None, right: None };
        assert(r@ == (None::<CoproductTag>, None::<A::V>, None::<B::V>));
        assert(Self::bottom_model() == (None::<CoproductTag>, None::<A::V>, None::<B::V>));
        r
    }

    fn join(&self, other: &Self) -> (r: Self) {
        match (self.tag, other.tag) {
            (None, _) => other.copy_state(),
            (_, None) => self.copy_state(),
            (Some(CoproductTag::Left), Some(CoproductTag::Left)) => {
                match (&self.left, &other.left) {
                    (Some(x), Some(y)) => Coproduct::left(x.join(y)),
                    _ => Self::bottom(),
                }
            },
            (Some(CoproductTag::Right), Some(CoproductTag::Right)) => {
                match (&self.right, &other.right) {
                    (Some(x), Some(y)) => Coproduct::right(x.join(y)),
                    _ => Self::bottom(),
                }
            },
            _ => Self::bottom(),
        }
    }

    fn same_state(&self, other: &Self) -> (r: bool) {
        let same_tag = match (self.tag, other.tag) {
            (None, None) => true,
            (Some(CoproductTag::Left), Some(CoproductTag::Left)) => true,
            (Some(CoproductTag::Right), Some(CoproductTag::Right)) => true,
            _ => false,
        };
        same_tag && same_opt_state(&self.left, &other.left) && same_opt_state(
            &self.right,
            &other.right,
        )
    }

    fn copy_state(&self) -> (r: Self) {
        Coproduct {
            tag: self.tag,
            left: copy_opt_state(&self.left),
            right: copy_opt_state(&self.right),
        }
    }

    proof fn lemma_unary_laws(a: CoproductModel<A::V, B::V>) {
        match a.0 {
            Some(CoproductTag::Left) => A::lemma_unary_laws(a.1->Some_0),
            Some(CoproductTag::Right) => B::lemma_unary_laws(a.2->Some_0),
            None => {},
        }
    }

    proof fn lemma_binary_laws(
        a: CoproductModel<A::V, B::V>,
        b: CoproductModel<A::V, B::V>,
        c: CoproductModel<A::V, B::V>,
    ) {
        let l = Some(CoproductTag::Left);
        let r = Some(CoproductTag::Right);
        // Compatible views that carry a tag all carry the same one; the laws
        // then come from the side they share.
        if a.0 == l {
            A::lemma_unary_laws(a.1->Some_0);
        }
        if b.0 == l {
            A::lemma_unary_laws(b.1->Some_0);
        }
        if c.0 == l {
            A::lemma_unary_laws(c.1->Some_0);
        }
        if a.0 == r {
            B::lemma_unary_laws(a.2->Some_0);
        }
        if b.0 == r {
            B::lemma_unary_laws(b.2->Some_0);
        }
        if c.0 == r {
            B::lemma_unary_laws(c.2->Some_0);
        }
        if a.0 == l && b.0 == l && c.0 == l {
            A::lemma_binary_laws(a.1->Some_0, b.1->Some_0, c.1->Some_0);
        } else if a.0 == l && b.0 == l {
            A::lemma_binary_laws(a.1->Some_0, b.1->Some_0, b.1->Some_0);
        } else if a.0 == l && c.0 == l {
            A::lemma_binary_laws(a.1->Some_0, c.1->Some_0, c.1->Some_0);
        } else if b.0 == l && c.0 == l {
            A::lemma_binary_laws(b.1->Some_0, c.1->Some_0, c.1->Some_0);
        }
        if a.0 == r && b.0 == r && c.0 == r {
            B::lemma_binary_laws(a.2->Some_0, b.2->Some_0, c.2->Some_0);
        } else if a.0 == r && b.0 == r {
            B::lemma_binary_laws(a.2->Some_0, b.2->Some_0, b.2->Some_0);
        } else if a.0 == r && c.0 == r {
            B::lemma_binary_laws(a.2->Some_0, c.2->Some_0, c.2->Some_0);
        } else if b.0 == r && c.0 == r {
            B::lemma_binary_laws(b.2->Some_0, c.2->Some_0, c.2->Some_0);
        }
    }
}

// ---------------------------------------------------------------------------
// Function space
// ---------------------------------------------------------------------------

/// Function-space CRDT: K → V pointwise join.
#[derive(Clone, Debug)]
pub struct FunctionCrdt<K, V> {
    map: MapSemilattice<K, V>,
}

impl<K: View, V: View> View for FunctionCrdt<K, V> {
    type V = Map<K::V, V::V>;

    closed spec fn view(&self) -> Map<K::V, V::V> {
        self.map@
    }
}

impl<K: Element, V: BoundedJoinSemilattice> FunctionCrdt<K, V> {
    /// The function with no key.
    pub fn new() -> (r: Self)
        ensures
            r.wf(),
            r@ == Map::<K::V, V::V>::empty(),
    {
        FunctionCrdt { map: MapSemilattice::new() }
    }

    /// Joins a value into a key's value (or sets it, for a new key).
    pub fn apply(&mut self, key: K, value: V)
        requires
            old(self).wf(),
            value.wf(),
        ensures
            final(self).wf(),
            final(self)@ == old(self)@.insert(
                key@,
                if old(self)@.dom().contains(key@) {
                    V::join_model(old(self)@[key@], value@)
                } else {
                    value@
                },
            ),
    {
        let joined = match self.map.get(&key) {
            Some(existing) => existing.join(&value),
            None => value,
        };
        self.map.insert(key, joined);
    }

    /// The value of a key, if it has one.
    pub fn lookup(&self, key: &K) -> (r: Option<&V>)
        requires
            self.wf(),
        ensures
            r is Some <==> self@.dom().contains(key@),
            r matches Some(v) ==> v@ == self@[key@],
    {
        self.map.get(key)
    }

    /// The underlying map.
    pub fn map(&self) -> (r: &MapSemilattice<K, V>)
        requires
            self.wf(),
        ensures
            r.wf(),
            r@ == self@,
    {
        &self.map
    }
}

impl<K: Element, V: BoundedJoinSemilattice> BoundedJoinSemilattice for FunctionCrdt<K, V> {
    closed spec fn wf(&self) -> bool {
        self.map.wf()
    }

    open spec fn valid(m: Map<K::V, V::V>) -> bool {
        MapSemilattice::<K, V>::valid(m)
    }

    open spec fn compatible(a: Map<K::V, V::V>, b: Map<K::V, V::V>) -> bool {
        MapSemilattice::<K, V>::compatible(a, b)
    }

    open spec fn bottom_model() -> Map<K::V, V::V> {
        Map::empty()
    }

    open spec fn join_model(a: Map<K::V, V::V>, b: Map<K::V, V::V>) -> Map<K::V, V::V> {
        MapSemilattice::<K, V>::join_model(a, b)
    }

    fn bottom() -> (r: Self) {
        Self::new()
    }

    fn join(&self, other: &Self) -> (r: Self) {
        FunctionCrdt { map: self.map.join(&other.map) }
    }

    fn same_state(&self, other: &Self) -> (r: bool) {
        self.map.same_state(&other.map)
    }

    fn copy_state(&self) -> (r: Self) {
        FunctionCrdt { map: self.map.copy_state() }
    }

    proof fn lemma_unary_laws(a: Map<K::V, V::V>) {
        MapSemilattice::<K, V>::lemma_unary_laws(a);
    }

    proof fn lemma_binary_laws(a: Map<K::V, V::V>, b: Map<K::V, V::V>, c: Map<K::V, V::V>) {
        MapSemilattice::<K, V>::lemma_binary_laws(a, b, c);
    }
}

// ---------------------------------------------------------------------------
// Sequence
// ---------------------------------------------------------------------------

/// Entries in strictly increasing order of timestamp.
pub open spec fn sorted_stamps<T>(s: Seq<(u64, T)>) -> bool {
    forall|i: int, j: int| 0 <= i < j < s.len() ==> #[trigger] s[i].0 < #[trigger] s[j].0
}

/// Every timestamp of the entries is below `bound`.
pub open spec fn stamps_below<T>(s: Seq<(u64, T)>, bound: u64) -> bool {
    forall|i: int| 0 <= i < s.len() ==> #[trigger] s[i].0 < bound
}

/// The view of a list: the item of each timestamp, and the clock.
pub type ListModel<X> = (Map<u64, X>, u64);

/// A simplified list/sequence CRDT.
///
/// Items are kept in timestamp order; when two replicas hold different items
/// under one timestamp, the join keeps the item of its left operand.
#[derive(Clone, Debug)]
pub struct ListCrdt<T> {
    elements: Vec<(u64, T)>,
    clock: u64,
}

impl<T: View> View for ListCrdt<T> {
    type V = ListModel<T::V>;

    closed spec fn view(&self) -> ListModel<T::V> {
        (entries_map(self.elements@), self.clock)
    }
}

proof fn lemma_sorted_distinct<T>(s: Seq<(u64, T)>)
    requires
        sorted_stamps(s),
    ensures
        distinct_keys(s),
{
    assert forall|i: int, j: int|
        0 <= i < s.len() && 0 <= j < s.len() && i != j implies #[trigger] s[i].0@
            != #[trigger] s[j].0@ by {
        if i < j {
            assert(s[i].0 < s[j].0);
        } else {
            assert(s[j].0 < s[i].0);
        }
    }
}

/// A stamp above every stamp of a list is not one of its keys.
proof fn lemma_fresh_stamp<T>(s: Seq<(u64, T)>, t: u64)
    requires
        stamps_below(s, t),
    ensures
        !has_key(s, t),
{
    if has_key(s, t) {
        let i = choose|i: int| 0 <= i < s.len() && #[trigger] s[i].0@ == t;
        assert(s[i].0 < t);
    }
}

/// Appending an entry above all others keeps a sorted list sorted and adds
/// its stamp to the map.
proof fn lemma_push_stamp<T: View>(s: Seq<(u64, T)>, e: (u64, T))
    requires
        sorted_stamps(s),
        stamps_below(s, e.0),
    ensures
        sorted_stamps(s.push(e)),
        entries_map(s.push(e)) == entries_map(s).insert(e.0, e.1@),
{
    lemma_sorted_distinct(s);
    lemma_fresh_stamp(s, e.0);
    lemma_entries_map_push(s, e);
    let t = s.push(e);
    assert forall|i: int, j: int| 0 <= i < j < t.len() implies #[trigger] t[i].0 < #[trigger] t[j].0 by {
        assert(t[i] == s[i]);
        if j < s.len() {
            assert(t[j] == s[j]);
        }
    }
}

impl<T: Element> ListCrdt<T> {
    /// The entries, in timestamp order.
    pub closed spec fn entries(&self) -> Seq<(u64, T)> {
        self.elements@
    }

    /// The empty list.
    pub fn new() -> (r: Self)
        ensures
            r.wf(),
            r@ == (Map::<u64, T::V>::empty(), 0u64),
            r.entries() == Seq::<(u64, T)>::empty(),
    {
        let r = ListCrdt { elements: Vec::new(), clock: 0 };
        assert(entries_map(r.elements@) =~= Map::<u64, T::V>::empty());
        r
    }

    /// Appends an item under the current clock, advances the clock and
    /// returns the item's timestamp.
    pub fn insert(&mut self, item: T) -> (r: u64)
        requires
            old(self).wf(),
            old(self)@.1 < u64::MAX,
        ensures
            final(self).wf(),
            r == old(self)@.1,
            !old(self)@.0.dom().contains(r),
            final(self)@ == (old(self)@.0.insert(r, item@), (r + 1) as u64),
            final(self)@.0.len() == old(self)@.0.len() + 1,
            final(self).entries() == old(self).entries().push((r, item)),
    {
        let ts = self.clock;
        proof {
            lemma_fresh_stamp(self.elements@, ts);
            lemma_push_stamp(self.elements@, (ts, item));
            lemma_sorted_distinct(self.elements@);
            lemma_entries_map_len(self.elements@);
        }
        self.clock = self.clock + 1;
        self.elements.push((ts, item));
        proof {
            lemma_sorted_distinct(self.elements@);
            lemma_entries_map_len(self.elements@);
        }
        ts
    }

    /// The entries, in timestamp order.
    pub fn elements(&self) -> (r: &[(u64, T)])
        requires
            self.wf(),
        ensures
            r@ == self.entries(),
            sorted_stamps(r@),
            entries_map(r@) == self@.0,
    {
        self.elements.as_slice()
    }

    /// The number of items.
    pub fn len(&self) -> (r: usize)
        requires
            self.wf(),
        ensures
            r == self@.0.len(),
            r == self.entries().len(),
    {
        proof {
            lemma_sorted_distinct(self.elements@);
            lemma_entries_map_len(self.elements@);
        }
        self.elements.len()
    }
}

/// The merge of two sorted entry lists: every stamp of either, in order; a
/// stamp that both hold keeps the item of `a`.
fn merge_entries<T: Element>(a: &Vec<(u64, T)>, b: &Vec<(u64, T)>) -> (r: Vec<(u64, T)>)
    requires
        sorted_stamps(a@),
        sorted_stamps(b@),
    ensures
        sorted_stamps(r@),
        entries_map(r@) == entries_map(b@).union_prefer_right(entries_map(a@)),
{
    let mut merged: Vec<(u64, T)> = Vec::new();
    let mut i: usize = 0;
    let mut j: usize = 0;
    proof {
        assert(entries_map(merged@) =~= entries_map(b@.take(0)).union_prefer_right(
            entries_map(a@.take(0)),
        ));
    }
    while i < a.len() || j < b.len()
        invariant
            i <= a.len(),
            j <= b.len(),
            sorted_stamps(a@),
            sorted_stamps(b@),
            sorted_stamps(merged@),
            i < a.len() ==> stamps_below(merged@, a@[i as int].0),
            j < b.len() ==> stamps_below(merged@, b@[j as int].0),
            entries_map(merged@) == entries_map(b@.take(j as int)).union_prefer_right(
                entries_map(a@.take(i as int)),
            ),
        decreases a.len() + b.len() - i - j,
    {
        proof {
            lemma_sorted_distinct(a@);
            lemma_sorted_distinct(b@);
        }
        let take_a = j >= b.len() || (i < a.len() && a[i].0 <= b[j].0);
        if take_a {
            let ts = a[i].0;
            let same = j < b.len() && b[j].0 == ts;
            let item = a[i].1.copy_value();
            proof {
                lemma_push_stamp(merged@, (ts, item));
                lemma_entries_take(a@, i as int);
                lemma_entries_map_push(a@.take(i as int), a@[i as int]);
                if same {
                    lemma_entries_take(b@, j as int);
                    lemma_entries_map_push(b@.take(j as int), b@[j as int]);
                }
            }
            merged.push((ts, item));
            i += 1;
            if same {
                j += 1;
            }
            proof {
                assert(entries_map(merged@) =~= entries_map(b@.take(j as int)).union_prefer_right(
                    entries_map(a@.take(i as int)),
                ));
            }
        } else {
            let ts = b[j].0;
            let item = b[j].1.copy_value();
            proof {
                lemma_fresh_stamp(merged@, ts);
                if entries_map(a@.take(i as int)).dom().contains(ts) {
                    assert(entries_map(b@.take(j as int)).union_prefer_right(
                        entries_map(a@.take(i as int)),
                    ).dom().contains(ts));
                    assert(entries_map(merged@).dom().contains(ts));
                }
                lemma_push_stamp(merged@, (ts, item));
                lemma_entries_take(b@, j as int);
                lemma_entries_map_push(b@.take(j as int), b@[j as int]);
            }
            merged.push((ts, item));
            j += 1;
            proof {
                assert(entries_map(merged@) =~= entries_map(b@.take(j as int)).union_prefer_right(
                    entries_map(a@.take(i as int)),
                ));
            }
        }
    }
    proof {
        assert(a@.take(a@.len() as int) =~= a@);
        assert(b@.take(b@.len() as int) =~= b@);
    }
    merged
}

impl<T: Element> BoundedJoinSemilattice for ListCrdt<T> {
    closed spec fn wf(&self) -> bool {
        sorted_stamps(self.elements@) && stamps_below(self.elements@, self.clock)
    }

    /// Finitely many items, each stamped below the clock.
    open spec fn valid(m: ListModel<T::V>) -> bool {
        &&& m.0.dom().finite()
        &&& forall|t: u64| #[trigger] m.0.dom().contains(t) ==> t < m.1
    }

    /// Replicas that agree on the item of every stamp they share.
    open spec fn compatible(a: ListModel<T::V>, b: ListModel<T::V>) -> bool {
        forall|t: u64|
            #[trigger] a.0.dom().contains(t) && b.0.dom().contains(t) ==> a.0[t] == b.0[t]
    }

    open spec fn bottom_model() -> ListModel<T::V> {
        (Map::empty(), 0)
    }

    open spec fn join_model(a: ListModel<T::V>, b: ListModel<T::V>) -> ListModel<T::V> {
        (b.0.union_prefer_right(a.0), max_u64(a.1, b.1))
    }

    fn bottom() -> (r: Self) {
        Self::new()
    }

    fn join(&self, other: &Self) -> (r: Self) {
        let merged = merge_entries(&self.elements, &other.elements);
        let clock = if self.clock >= other.clock {
            self.clock
        } else {
            other.clock
        };
        let r = ListCrdt { elements: merged, clock };
        proof {
            lemma_sorted_distinct(self.elements@);
            lemma_sorted_distinct(other.elements@);
            lemma_sorted_distinct(r.elements@);
            assert forall|k: int| 0 <= k < r.elements@.len() implies #[trigger] r.elements@[k].0 < clock by {
                lemma_entries_map_at(r.elements@, k);
                let t = r.elements@[k].0;
                if entries_map(self.elements@).dom().contains(t) {
                    let x = choose|x: int| 0 <= x < self.elements@.len() && #[trigger] self.elements@[x].0@ == t;
                    assert(self.elements@[x].0 < self.clock);
                } else {
                    let x = choose|x: int| 0 <= x < other.elements@.len() && #[trigger] other.elements@[x].0@ == t;
                    assert(other.elements@[x].0 < other.clock);
                }
            }
        }
        r
    }

    fn same_state(&self, other: &Self) -> (r: bool) {
        if self.clock != other.clock || self.elements.len() != other.elements.len() {
            proof {
                if self@ == other@ {
                    lemma_sorted_distinct(self.elements@);
                    lemma_sorted_distinct(other.elements@);
                    lemma_entries_map_len(self.elements@);
                    lemma_entries_map_len(other.elements@);
                }
            }
            return false;
        }
        let mut k: usize = 0;
        while k < self.elements.len()
            invariant
                k <= self.elements.len(),
                self.elements.len() == other.elements.len(),
                self.wf(),
                other.wf(),
                forall|x: int| 0 <= x < k ==> #[trigger] self.elements@[x].0 == other.elements@[x].0
                    && self.elements@[x].1@ == other.elements@[x].1@,
            decreases self.elements.len() - k,
        {
            if self.elements[k].0 != other.elements[k].0 || !self.elements[k].1.same_value(
                &other.elements[k].1,
            ) {
                proof {
                    lemma_sorted_distinct(self.elements@);
                    lemma_sorted_distinct(other.elements@);
                    if self@ == other@ {
                        lemma_same_sorted_map(self.elements@, other.elements@, k as int);
                    }
                }
                return false;
            }
            assert forall|x: int| 0 <= x < k + 1 implies #[trigger] self.elements@[x].0
                == other.elements@[x].0 && self.elements@[x].1@ == other.elements@[x].1@ by {
                if x == k {
                    assert(self.elements@[x].1@ == other.elements@[x].1@);
                }
            }
            k += 1;
        }
        proof {
            lemma_sorted_distinct(self.elements@);
            assert forall|t: u64| #[trigger] entries_map(self.elements@).dom().contains(t) <==> entries_map(other.elements@).dom().contains(t) by {
                if has_key(self.elements@, t) {
                    let x = choose|x: int| 0 <= x < self.elements@.len() && #[trigger] self.elements@[x].0@ == t;
                    assert(other.elements@[x].0@ == t);
                }
                if has_key(other.elements@, t) {
                    let x = choose|x: int| 0 <= x < other.elements@.len() && #[trigger] other.elements@[x].0@ == t;
                    assert(self.elements@[x].0@ == t);
                }
            }
            lemma_sorted_distinct(other.elements@);
            assert forall|t: u64| #[trigger] entries_map(self.elements@).dom().contains(t) implies entries_map(self.elements@)[t] == entries_map(other.elements@)[t] by {
                let x = choose|x: int| 0 <= x < self.elements@.len() && #[trigger] self.elements@[x].0@ == t;
                lemma_entries_map_at(self.elements@, x);
                lemma_entries_map_at(other.elements@, x);
            }
            assert(entries_map(self.elements@) =~= entries_map(other.elements@));
        }
        true
    }

    fn copy_state(&self) -> (r: Self) {
        let mut elements: Vec<(u64, T)> = Vec::new();
        let mut k: usize = 0;
        while k < self.elements.len()
            invariant
                k <= self.elements.len(),
                self.wf(),
                elements@.len() == k,
                forall|x: int| 0 <= x < k ==> #[trigger] elements@[x].0 == self.elements@[x].0
                    && elements@[x].1@ == self.elements@[x].1@,
            decreases self.elements.len() - k,
        {
            let item = self.elements[k].1.copy_value();
            elements.push((self.elements[k].0, item));
            assert(elements@[k as int].1@ == self.elements@[k as int].1@);
            k += 1;
        }
        let r = ListCrdt { elements, clock: self.clock };
        proof {
            assert(sorted_stamps(r.elements@)) by {
                assert forall|x: int, y: int| 0 <= x < y < r.elements@.len() implies #[trigger] r.elements@[x].0 < #[trigger] r.elements@[y].0 by {
                    assert(self.elements@[x].0 < self.elements@[y].0);
                }
            }
            assert(stamps_below(r.elements@, r.clock)) by {
                assert forall|x: int| 0 <= x < r.elements@.len() implies #[trigger] r.elements@[x].0 < r.clock by {
                    assert(self.elements@[x].0 < self.clock);
                }
            }
            lemma_sorted_distinct(self.elements@);
            lemma_sorted_distinct(r.elements@);
            lemma_entries_map_congruent(self.elements@, r.elements@);
        }
        r
    }

    proof fn lemma_unary_laws(a: ListModel<T::V>) {
        assert(a.0.union_prefer_right(a.0) =~= a.0);
        assert(Map::<u64, T::V>::empty().union_prefer_right(a.0) =~= a.0);
    }

    proof fn lemma_binary_laws(a: ListModel<T::V>, b: ListModel<T::V>, c: ListModel<T::V>) {
        let j = Self::join_model(a, b);
        assert(j.0.dom() =~= a.0.dom().union(b.0.dom()));
        assert forall|t: u64| #[trigger] j.0.dom().contains(t) implies t < j.1 by {
            if a.0.dom().contains(t) {
                assert(t < a.1);
            } else {
                assert(b.0.dom().contains(t));
            }
        }
        assert(b.0.union_prefer_right(a.0) =~= a.0.union_prefer_right(b.0));
        assert(c.0.union_prefer_right(b.0.union_prefer_right(a.0)) =~= c.0.union_prefer_right(
            b.0,
        ).union_prefer_right(a.0));
    }
}

/// Sorted lists with the same map agree at every position.
proof fn lemma_same_sorted_map<T: View>(s: Seq<(u64, T)>, t: Seq<(u64, T)>, k: int)
    requires
        sorted_stamps(s),
        sorted_stamps(t),
        s.len() == t.len(),
        entries_map(s) == entries_map(t),
        0 <= k < s.len(),
    ensures
        s[k].0 == t[k].0,
        s[k].1@ == t[k].1@,
    decreases k,
{
    lemma_sorted_distinct(s);
    lemma_sorted_distinct(t);
    lemma_entries_map_at(s, k);
    lemma_entries_map_at(t, k);
    let x = choose|x: int| 0 <= x < t.len() && #[trigger] t[x].0@ == s[k].0;
    if x < k {
        lemma_same_sorted_map(s, t, x);
        assert(s[x].0 < s[k].0);
    }
    assert(t[k].0 <= t[x].0);
    let y = choose|y: int| 0 <= y < s.len() && #[trigger] s[y].0@ == t[k].0;
    if y < k {
        lemma_same_sorted_map(s, t, y);
        assert(t[y].0 < t[k].0);
    }
    assert(s[k].0 <= s[y].0);
}

impl<K: Element, V: BoundedJoinSemilattice> Default for FunctionCrdt<K, V> {
    fn default() -> (r: Self)
        ensures
            r.wf(),
            r@ == Map::<K::V, V::V>::empty(),
    {
        Self::new()
    }
}

impl<T: Element> Default for ListCrdt<T> {
    fn default() -> (r: Self)
        ensures
            r.wf(),
            r@ == (Map::<u64, T::V>::empty(), 0u64),
    {
        Self::new()
    }
}

} // verus!
