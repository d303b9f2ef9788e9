//! Operation-based CRDTs (CmRDTs).
//!
//! An operation-based CRDT broadcasts operations instead of states; replicas
//! converge when concurrent operations commute. Each type states the effect
//! of an operation on its view (`step`), and the laws below say which pairs
//! of operations commute.

use vstd::prelude::*;
use crate::collections::{
    copy_entry_list, distinct_keys, distinct_views, entries_map, find_key, find_value,
    insert_value, lemma_entries_map_at, lemma_entries_map_push, lemma_entries_map_remove,
    lemma_entries_map_update, remove_value, same_entry_maps, same_values, view_set, copy_values,
};
use crate::crdt_state::{copy_option, lww_write, opt_view, same_option};
use crate::element::Element;

verus! {

/// An operation-based CRDT.
pub trait OpCrdt: Sized + View {
    type Op;

    /// Representation invariant of a state.
    spec fn inv(&self) -> bool;

    /// Whether an operation can be applied to a state with view `m` (it
    /// would otherwise overflow).
    spec fn can_apply(m: Self::V, op: Self::Op) -> bool;

    /// The view after applying an operation to a state with view `m`.
    spec fn step(m: Self::V, op: Self::Op) -> Self::V;

    /// Applies an operation.
    fn apply(&mut self, op: &Self::Op)
        requires
            old(self).inv(),
            Self::can_apply(old(self)@, *op),
        ensures
            final(self).inv(),
            final(self)@ == Self::step(old(self)@, *op),
    ;

    /// Whether two states have the same view.
    fn same_state(&self, other: &Self) -> (r: bool)
        requires
            self.inv(),
            other.inv(),
        ensures
            r == (self@ == other@),
    ;

    /// A copy of a state.
    fn copy_state(&self) -> (r: Self)
        requires
            self.inv(),
        ensures
            r.inv(),
            r@ == self@,
    ;

    /// Whether applying `a` then `b` to `base` gives the same state as
    /// applying `b` then `a`.
    fn verify_commutative(base: &Self, a: &Self::Op, b: &Self::Op) -> (r: bool)
        requires
            base.inv(),
            Self::can_apply(base@, *a),
            Self::can_apply(Self::step(base@, *a), *b),
            Self::can_apply(base@, *b),
            Self::can_apply(Self::step(base@, *b), *a),
        ensures
            r == (Self::step(Self::step(base@, *a), *b) == Self::step(Self::step(base@, *b), *a)),
    {
        let mut s1 = base.copy_state();
        s1.apply(a);
        s1.apply(b);
        let mut s2 = base.copy_state();
        s2.apply(b);
        s2.apply(a);
        s1.same_state(&s2)
    }
}

// ---------------------------------------------------------------------------
// OpCounter
// ---------------------------------------------------------------------------

/// An operation on a counter.
#[derive(Clone, Debug)]
pub enum CounterOp {
    Inc(i64),
}

/// A counter driven by increments (negative amounts decrement).
#[derive(Clone, PartialEq, Eq, Debug)]
pub struct OpCounter {
    pub value: i64,
}

impl View for OpCounter {
    type V = i64;

    open spec fn view(&self) -> i64 {
        self.value
    }
}

impl OpCounter {
    /// A counter at zero.
    pub fn new() -> (r: Self)
        ensures
            r@ == 0,
    {
        OpCounter { value: 0 }
    }
}

impl OpCrdt for OpCounter {
    type Op = CounterOp;

    open spec fn inv(&self) -> bool {
        true
    }

    /// The sum stays within `i64`.
    open spec fn can_apply(m: i64, op: CounterOp) -> bool {
        match op {
            CounterOp::Inc(amount) => i64::MIN <= m + amount <= i64::MAX,
        }
    }

    open spec fn step(m: i64, op: CounterOp) -> i64 {
        match op {
            CounterOp::Inc(amount) => (m + amount) as i64,
        }
    }

    fn apply(&mut self, op: &CounterOp) {
        match op {
            CounterOp::Inc(amount) => self.value = self.value + *amount,
        }
    }

    fn same_state(&self, other: &Self) -> (r: bool) {
        self.value == other.value
    }

    fn copy_state(&self) -> (r: Self) {
        OpCounter { value: self.value }
    }
}

/// Any two increments commute, wherever both orders stay within `i64`.
pub proof fn lemma_counter_ops_commute(m: i64, a: CounterOp, b: CounterOp)
    requires
        OpCounter::can_apply(m, a),
        OpCounter::can_apply(OpCounter::step(m, a), b),
        OpCounter::can_apply(m, b),
        OpCounter::can_apply(OpCounter::step(m, b), a),
    ensures
        OpCounter::step(OpCounter::step(m, a), b) == OpCounter::step(OpCounter::step(m, b), a),
{
}

// ---------------------------------------------------------------------------
// OpSet
// ---------------------------------------------------------------------------

/// An operation on a set.
#[derive(Clone, Debug)]
pub enum SetOp<T> {
    Add(T),
    Remove(T),
}

/// A set driven by additions and removals.
#[derive(Clone, Debug)]
pub struct OpSet<T> {
    elements: Vec<T>,
}

impl<T: View> View for OpSet<T> {
    type V = Set<T::V>;

    closed spec fn view(&self) -> Set<T::V> {
        view_set(self.elements@)
    }
}

impl<T: Element> OpSet<T> {
    /// The empty set.
    pub fn new() -> (r: Self)
        ensures
            r.inv(),
            r@ == Set::<T::V>::empty(),
    {
        let r = OpSet { elements: Vec::new() };
        assert(r@ =~= Set::<T::V>::empty());
        r
    }

    /// Whether an element is in the set.
    pub fn contains(&self, elem: &T) -> (r: bool)
        ensures
            r == self@.contains(elem@),
    {
        find_value(&self.elements, elem).is_some()
    }

    /// The elements, each once.
    pub fn elements(&self) -> (r: &Vec<T>)
        requires
            self.inv(),
        ensures
            distinct_views(r@),
            view_set(r@) == self@,
    {
        &self.elements
    }
}

impl<T: Element> OpCrdt for OpSet<T> {
    type Op = SetOp<T>;

    closed spec fn inv(&self) -> bool {
        distinct_views(self.elements@)
    }

    open spec fn can_apply(m: Set<T::V>, op: SetOp<T>) -> bool {
        true
    }

    open spec fn step(m: Set<T::V>, op: SetOp<T>) -> Set<T::V> {
        match op {
            SetOp::Add(x) => m.insert(x@),
            SetOp::Remove(x) => m.remove(x@),
        }
    }

    fn apply(&mut self, op: &SetOp<T>) {
        match op {
            SetOp::Add(x) => insert_value(&mut self.elements, x.copy_value()),
            SetOp::Remove(x) => remove_value(&mut self.elements, x),
        }
    }

    fn same_state(&self, other: &Self) -> (r: bool) {
        same_values(&self.elements, &other.elements)
    }

    fn copy_state(&self) -> (r: Self) {
        OpSet { elements: copy_values(&self.elements) }
    }
}

/// Whether two set operations touch the same element, one adding it and the
/// other removing it.
pub open spec fn set_ops_conflict<T: View>(a: SetOp<T>, b: SetOp<T>) -> bool {
    match (a, b) {
        (SetOp::Add(x), SetOp::Remove(y)) => x@ == y@,
        (SetOp::Remove(x), SetOp::Add(y)) => x@ == y@,
        _ => false,
    }
}

/// Two set operations commute exactly when they do not add and remove the
/// same element.
pub proof fn lemma_set_ops_commute<T: Element>(m: Set<T::V>, a: SetOp<T>, b: SetOp<T>)
    ensures
        !set_ops_conflict(a, b) ==> OpSet::<T>::step(OpSet::<T>::step(m, a), b) == OpSet::<
            T,
        >::step(OpSet::<T>::step(m, b), a),
{
    match (a, b) {
        (SetOp::Add(x), SetOp::Add(y)) => {
            assert(m.insert(x@).insert(y@) =~= m.insert(y@).insert(x@));
        },
        (SetOp::Remove(x), SetOp::Remove(y)) => {
            assert(m.remove(x@).remove(y@) =~= m.remove(y@).remove(x@));
        },
        (SetOp::Add(x), SetOp::Remove(y)) => {
            if x@ != y@ {
                assert(m.insert(x@).remove(y@) =~= m.remove(y@).insert(x@));
            }
        },
        (SetOp::Remove(x), SetOp::Add(y)) => {
            if x@ != y@ {
                assert(m.remove(x@).insert(y@) =~= m.insert(y@).remove(x@));
            }
        },
    }
}

/// The view after applying a sequence of set operations in order.
pub open spec fn set_apply_all<T: Element>(m: Set<T::V>, ops: Seq<SetOp<T>>) -> Set<T::V>
    decreases ops.len(),
{
    if ops.len() == 0 {
        m
    } else {
        OpSet::<T>::step(set_apply_all::<T>(m, ops.drop_last()), ops.last())
    }
}

/// The element that a set operation names.
pub open spec fn set_op_elem<T: View>(op: SetOp<T>) -> T::V {
    match op {
        SetOp::Add(x) => x@,
        SetOp::Remove(x) => x@,
    }
}

/// Some operation names `e`, and the last one that does is an addition.
pub open spec fn last_names_add<T: View>(ops: Seq<SetOp<T>>, e: T::V) -> bool
    decreases ops.len(),
{
    if ops.len() == 0 {
        false
    } else if set_op_elem(ops.last()) == e {
        ops.last() is Add
    } else {
        last_names_add(ops.drop_last(), e)
    }
}

/// Applying a sequence of operations to the empty set leaves an element in
/// the set exactly when the last operation naming it adds it.
pub proof fn lemma_set_ops_sequence<T: Element>(ops: Seq<SetOp<T>>, e: T::V)
    ensures
        set_apply_all::<T>(Set::empty(), ops).contains(e) == last_names_add(ops, e),
    decreases ops.len(),
{
    if ops.len() > 0 {
        lemma_set_ops_sequence::<T>(ops.drop_last(), e);
    }
}

// ---------------------------------------------------------------------------
// OpLWWRegister
// ---------------------------------------------------------------------------

/// A timestamped write to a register.
#[derive(Clone, Debug)]
pub struct RegisterOp<T> {
    pub value: T,
    pub timestamp: u64,
}

/// A last-writer-wins register driven by writes.
#[derive(Clone, PartialEq, Eq, Debug)]
pub struct OpLWWRegister<T> {
    pub value: Option<T>,
    pub timestamp: u64,
}

impl<T: View> View for OpLWWRegister<T> {
    type V = (Option<T::V>, u64);

    open spec fn view(&self) -> (Option<T::V>, u64) {
        (opt_view(self.value), self.timestamp)
    }
}

impl<T: Element> OpLWWRegister<T> {
    /// An empty register at timestamp zero.
    pub fn new() -> (r: Self)
        ensures
            r@ == (None::<T::V>, 0u64),
    {
        OpLWWRegister { value: None, timestamp: 0 }
    }
}

impl<T: Element> OpCrdt for OpLWWRegister<T> {
    type Op = RegisterOp<T>;

    open spec fn inv(&self) -> bool {
        true
    }

    open spec fn can_apply(m: (Option<T::V>, u64), op: RegisterOp<T>) -> bool {
        true
    }

    /// A write takes effect unless the register holds a later one.
    open spec fn step(m: (Option<T::V>, u64), op: RegisterOp<T>) -> (Option<T::V>, u64) {
        lww_write(m, op.value@, op.timestamp)
    }

    fn apply(&mut self, op: &RegisterOp<T>) {
        if op.timestamp >= self.timestamp {
            self.value = Some(op.value.copy_value());
            self.timestamp = op.timestamp;
        }
    }

    fn same_state(&self, other: &Self) -> (r: bool) {
        self.timestamp == other.timestamp && same_option(&self.value, &other.value)
    }

    fn copy_state(&self) -> (r: Self) {
        OpLWWRegister { value: copy_option(&self.value), timestamp: self.timestamp }
    }
}

/// Two writes commute when their timestamps differ or they write the same
/// value.
pub proof fn lemma_register_ops_commute<T: Element>(
    m: (Option<T::V>, u64),
    a: RegisterOp<T>,
    b: RegisterOp<T>,
)
    requires
        a.timestamp != b.timestamp || a.value@ == b.value@,
    ensures
        OpLWWRegister::<T>::step(OpLWWRegister::<T>::step(m, a), b) == OpLWWRegister::<T>::step(
            OpLWWRegister::<T>::step(m, b),
            a,
        ),
{
}

// ---------------------------------------------------------------------------
// OpMap
// ---------------------------------------------------------------------------

/// An operation on a map.
#[derive(Clone, Debug)]
pub enum MapOp<K, V> {
    Put(K, V),
    Remove(K),
}

/// A map driven by puts and removals; each key carries a version that counts
/// the puts since it was last absent.
#[derive(Clone, Debug)]
pub struct OpMap<K, V> {
    data: Vec<(K, (V, u64))>,
}

impl<K: View, V: View> View for OpMap<K, V> {
    type V = Map<K::V, (V::V, u64)>;

    closed spec fn view(&self) -> Map<K::V, (V::V, u64)> {
        entries_map(self.data@)
    }
}

impl<K: Element, V: Element> OpMap<K, V> {
    /// The empty map.
    pub fn new() -> (r: Self)
        ensures
            r.inv(),
            r@ == Map::<K::V, (V::V, u64)>::empty(),
    {
        let r = OpMap { data: Vec::new() };
        assert(r@ =~= Map::<K::V, (V::V, u64)>::empty());
        r
    }

    /// The value of a key, if it has one.
    pub fn get(&self, k: &K) -> (r: Option<&V>)
        requires
            self.inv(),
        ensures
            r is Some <==> self@.dom().contains(k@),
            r matches Some(v) ==> v@ == self@[k@].0,
    {
        match find_key(&self.data, k) {
            Some(i) => {
                proof {
                    lemma_entries_map_at(self.data@, i as int);
                }
                Some(&self.data[i].1.0)
            },
            None => None,
        }
    }
}

impl<K: Element, V: Element> OpCrdt for OpMap<K, V> {
    type Op = MapOp<K, V>;

    closed spec fn inv(&self) -> bool {
        distinct_keys(self.data@)
    }

    /// A put must not overflow the version of its key.
    open spec fn can_apply(m: Map<K::V, (V::V, u64)>, op: MapOp<K, V>) -> bool {
        match op {
            MapOp::Put(k, v) => m.dom().contains(k@) ==> m[k@].1 < u64::MAX,
            MapOp::Remove(k) => true,
        }
    }

    open spec fn step(m: Map<K::V, (V::V, u64)>, op: MapOp<K, V>) -> Map<K::V, (V::V, u64)> {
        match op {
            MapOp::Put(k, v) => m.insert(
                k@,
                (
                    v@,
                    if m.dom().contains(k@) {
                        (m[k@].1 + 1) as u64
                    } else {
                        1u64
                    },
                ),
            ),
            MapOp::Remove(k) => m.remove(k@),
        }
    }

    fn apply(&mut self, op: &MapOp<K, V>) {
        match op {
            MapOp::Put(k, v) => {
                match find_key(&self.data, k) {
                    Some(i) => {
                        proof {
                            lemma_entries_map_at(self.data@, i as int);
                        }
                        let ts = self.data[i].1.1 + 1;
                        let e = (k.copy_value(), (v.copy_value(), ts));
                        proof {
                            lemma_entries_map_update(self.data@, i as int, e);
                        }
                        self.data.set(i, e);
                    },
                    None => {
                        let e = (k.copy_value(), (v.copy_value(), 1u64));
                        proof {
                            lemma_entries_map_push(self.data@, e);
                        }
                        self.data.push(e);
                    },
                }
            },
            MapOp::Remove(k) => {
                match find_key(&self.data, k) {
                    Some(i) => {
                        proof {
                            lemma_entries_map_remove(self.data@, i as int);
                        }
                        self.data.remove(i);
                    },
                    None => {
                        proof {
                            assert(self@.remove(k@) =~= self@);
                        }
                    },
                }
            },
        }
    }

    fn same_state(&self, other: &Self) -> (r: bool) {
        same_entry_maps(&self.data, &other.data)
    }

    fn copy_state(&self) -> (r: Self) {
        OpMap { data: copy_entry_list(&self.data) }
    }
}

/// The key that a map operation touches.
pub open spec fn map_op_key<K: View, V>(op: MapOp<K, V>) -> K::V {
    match op {
        MapOp::Put(k, v) => k@,
        MapOp::Remove(k) => k@,
    }
}

/// Map operations commute when they touch different keys, when both remove,
/// and when both put the same value.
pub proof fn lemma_map_ops_commute<K: Element, V: Element>(
    m: Map<K::V, (V::V, u64)>,
    a: MapOp<K, V>,
    b: MapOp<K, V>,
)
    requires
        map_op_key(a) != map_op_key(b) || (a is Remove && b is Remove) || (match (a, b) {
            (MapOp::Put(_, x), MapOp::Put(_, y)) => x@ == y@,
            _ => false,
        }),
    ensures
        OpMap::<K, V>::step(OpMap::<K, V>::step(m, a), b) == OpMap::<K, V>::step(
            OpMap::<K, V>::step(m, b),
            a,
        ),
{
    let ab = OpMap::<K, V>::step(OpMap::<K, V>::step(m, a), b);
    let ba = OpMap::<K, V>::step(OpMap::<K, V>::step(m, b), a);
    assert(ab =~= ba);
}

// ---------------------------------------------------------------------------
// Defaults
// ---------------------------------------------------------------------------

impl Default for OpCounter {
    fn default() -> (r: Self)
        ensures
            r@ == 0,
    {
        Self::new()
    }
}

impl<T: Element> Default for OpSet<T> {
    fn default() -> (r: Self)
        ensures
            r.inv(),
            r@ == Set::<T::V>::empty(),
    {
        Self::new()
    }
}

impl<T: Element> Default for OpLWWRegister<T> {
    fn default() -> (r: Self)
        ensures
            r@ == (None::<T::V>, 0u64),
    {
        Self::new()
    }
}

impl<K: Element, V: Element> Default for OpMap<K, V> {
    fn default() -> (r: Self)
        ensures
            r.inv(),
            r@ == Map::<K::V, (V::V, u64)>::empty(),
    {
        Self::new()
    }
}

} // verus!
