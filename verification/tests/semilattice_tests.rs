use lau_calm_crdt::semilattice::{BoolOr, BoundedJoinSemilattice, MapSemilattice, NatMax, Product, VectorMax};
use lau_calm_crdt::semilattice::join_all;

#[test]
fn nat_max_bottom_is_zero() {
    assert_eq!(NatMax::bottom(), NatMax(0));
}

#[test]
fn nat_max_join_commutative() {
    let a = NatMax(3);
    let b = NatMax(7);
    assert_eq!(a.join(&b), b.join(&a));
}

#[test]
fn nat_max_join_associative() {
    let a = NatMax(1);
    let b = NatMax(5);
    let c = NatMax(3);
    assert_eq!(a.join(&b).join(&c), a.join(&b.join(&c)));
}

#[test]
fn nat_max_join_idempotent() {
    let a = NatMax(42);
    assert_eq!(a.join(&a), a);
}

#[test]
fn nat_max_join_identity() {
    let a = NatMax(10);
    assert_eq!(a.join(&NatMax::bottom()), a);
}

#[test]
fn nat_max_leq_consistent() {
    let a = NatMax(3);
    let b = NatMax(5);
    assert!(a.leq(&b));
    assert!(!b.leq(&a));
}

#[test]
fn bool_or_laws() {
    let t = BoolOr(true);
    let f = BoolOr(false);
    assert_eq!(f.join(&f), f);
    assert_eq!(f.join(&t), t);
    assert_eq!(t.join(&t), t);
    assert!(f.leq(&t));
}

#[test]
fn product_laws() {
    let a = Product(NatMax(1), BoolOr(false));
    let b = Product(NatMax(3), BoolOr(true));
    assert_eq!(a.join(&b), Product(NatMax(3), BoolOr(true)));
}

#[test]
fn vector_max_join() {
    let a = VectorMax(vec![1, 0, 3]);
    let b = VectorMax(vec![0, 2, 1]);
    assert_eq!(a.join(&b), VectorMax(vec![1, 2, 3]));
}

#[test]
fn vector_max_idempotent() {
    let a = VectorMax(vec![1, 2, 3]);
    assert_eq!(a.join(&a), a);
}

#[test]
fn map_semilattice_join() {
    let mut a = MapSemilattice::new();
    a.insert("x", NatMax(1));
    a.insert("y", NatMax(5));
    let mut b = MapSemilattice::new();
    b.insert("x", NatMax(3));
    b.insert("z", NatMax(7));
    let joined = a.join(&b);
    assert_eq!(joined.get(&"x"), Some(&NatMax(3)));
    assert_eq!(joined.get(&"y"), Some(&NatMax(5)));
    assert_eq!(joined.get(&"z"), Some(&NatMax(7)));
}

#[test]
fn vector_max_join_pads_shorter() {
    let a = VectorMax(vec![4]);
    let b = VectorMax(vec![1, 2, 3]);
    assert_eq!(a.join(&b), VectorMax(vec![4, 2, 3]));
    assert_eq!(VectorMax::bottom().join(&b), b);
}

#[test]
fn map_semilattice_join_commutes() {
    let mut a = MapSemilattice::new();
    a.insert(1u64, NatMax(2));
    let mut b = MapSemilattice::new();
    b.insert(1u64, NatMax(9));
    b.insert(2u64, NatMax(1));
    let ab = a.join(&b);
    let ba = b.join(&a);
    assert!(ab.same_state(&ba));
    assert_eq!(ab.get(&1), Some(&NatMax(9)));
    assert!(a.leq(&ab));
    assert!(!ab.leq(&a));
}

#[test]
fn join_all_is_maximum() {
    let states = vec![NatMax(4), NatMax(9), NatMax(2)];
    assert_eq!(join_all(&states), NatMax(9));
    let empty: Vec<NatMax> = vec![];
    assert_eq!(join_all(&empty), NatMax(0));
}

#[test]
fn is_bottom_detects_bottom() {
    assert!(NatMax(0).is_bottom());
    assert!(!NatMax(1).is_bottom());
    assert!(BoolOr(false).is_bottom());
}

#[test]
fn join_is_least_upper_bound_on_samples() {
    let a = NatMax(3);
    let b = NatMax(8);
    let c = NatMax(10);
    let j = a.join(&b);
    assert!(a.leq(&j) && b.leq(&j));
    assert!(a.leq(&c) && b.leq(&c) && j.leq(&c));
    assert!(a.leq(&a));
}

#[test]
fn join_order_does_not_matter() {
    let forward = vec![NatMax(2), NatMax(9), NatMax(4)];
    let shuffled = vec![NatMax(4), NatMax(2), NatMax(9), NatMax(9)];
    assert_eq!(join_all(&forward), join_all(&shuffled));
}

#[test]
fn str_keys_are_compared_by_content() {
    let mut m = MapSemilattice::new();
    m.insert("a", NatMax(1));
    assert_eq!(m.get(&"b"), None);
    let owned = String::from("a");
    assert_eq!(m.get(&owned.as_str()), Some(&NatMax(1)));
}
