use lau_calm_crdt::compose::{Coproduct, FunctionCrdt, ListCrdt, ProductCrdt};
use lau_calm_crdt::semilattice::{BoolOr, BoundedJoinSemilattice, NatMax, Product};

#[test]
fn product_crdt_join() {
    let joined = Product(NatMax(1), BoolOr(false)).join(&Product(NatMax(3), BoolOr(true)));
    assert_eq!(joined.0, NatMax(3));
    assert_eq!(joined.1, BoolOr(true));
}

#[test]
fn coproduct_left_join() {
    let joined = Coproduct::<NatMax, NatMax>::left(NatMax(1)).join(&Coproduct::left(NatMax(3)));
    assert_eq!(joined.left, Some(NatMax(3)));
}

#[test]
fn coproduct_right_join() {
    let joined = Coproduct::<BoolOr, BoolOr>::right(BoolOr(false)).join(&Coproduct::right(BoolOr(true)));
    assert_eq!(joined.right, Some(BoolOr(true)));
}

#[test]
fn coproduct_mixed_gives_bottom() {
    let a = Coproduct::<NatMax, BoolOr>::left(NatMax(1));
    let b = Coproduct::<NatMax, BoolOr>::right(BoolOr(true));
    assert_eq!(a.join(&b), Coproduct::bottom());
}

#[test]
fn function_crdt_apply_and_join() {
    let mut f: FunctionCrdt<&str, NatMax> = FunctionCrdt::new();
    f.apply("a", NatMax(1));
    f.apply("b", NatMax(5));
    f.apply("a", NatMax(3));
    assert_eq!(f.lookup(&"a"), Some(&NatMax(3)));
    assert_eq!(f.lookup(&"b"), Some(&NatMax(5)));
}

#[test]
fn function_crdt_merge() {
    let mut f1: FunctionCrdt<&str, NatMax> = FunctionCrdt::new();
    f1.apply("x", NatMax(1));
    let mut f2: FunctionCrdt<&str, NatMax> = FunctionCrdt::new();
    f2.apply("x", NatMax(5));
    f2.apply("y", NatMax(2));
    let merged = f1.join(&f2);
    assert_eq!(merged.lookup(&"x"), Some(&NatMax(5)));
    assert_eq!(merged.lookup(&"y"), Some(&NatMax(2)));
}

#[test]
fn list_crdt_merge() {
    let mut a: ListCrdt<String> = ListCrdt::new();
    a.insert("x".to_string());
    a.insert("y".to_string());
    let mut b: ListCrdt<String> = ListCrdt::new();
    // b's clock starts at 0, so "z" gets ts=0 which collides with a's ts=0 ("x")
    // Join dedupes by ts, so merged has {"x"(ts=0), "y"(ts=1)}
    b.insert("z".to_string());
    let merged = a.join(&b);
    assert_eq!(merged.len(), 2);
}

#[test]
fn product_crdt_alias_joins_componentwise() {
    let a: ProductCrdt<NatMax, NatMax> = Product(NatMax(2), NatMax(9));
    let b: ProductCrdt<NatMax, NatMax> = Product(NatMax(4), NatMax(1));
    assert_eq!(a.join(&b), Product(NatMax(4), NatMax(9)));
}

#[test]
fn coproduct_bottom_is_identity() {
    let a = Coproduct::<NatMax, BoolOr>::left(NatMax(6));
    let bottom = Coproduct::<NatMax, BoolOr>::bottom();
    assert_eq!(a.join(&bottom), a);
    assert_eq!(bottom.join(&a), a);
    assert!(bottom.is_bottom());
    assert!(!a.is_bottom());
}

#[test]
fn function_crdt_merge_commutes() {
    let mut f1: FunctionCrdt<u64, NatMax> = FunctionCrdt::new();
    f1.apply(1, NatMax(4));
    f1.apply(2, NatMax(1));
    let mut f2: FunctionCrdt<u64, NatMax> = FunctionCrdt::new();
    f2.apply(1, NatMax(2));
    f2.apply(3, NatMax(8));
    let a = f1.join(&f2);
    let b = f2.join(&f1);
    assert!(a.same_state(&b));
    assert_eq!(a.lookup(&1), Some(&NatMax(4)));
    assert_eq!(a.lookup(&3), Some(&NatMax(8)));
    assert_eq!(a.lookup(&4), None);
    assert_eq!(a.map().entries().len(), 3);
}

#[test]
fn list_crdt_merge_orders_by_timestamp() {
    let mut a: ListCrdt<u64> = ListCrdt::new();
    assert_eq!(a.insert(10), 0);
    assert_eq!(a.insert(11), 1);
    let mut b: ListCrdt<u64> = ListCrdt::new();
    b.insert(20);
    b.insert(21);
    b.insert(22);
    let merged = a.join(&b);
    assert_eq!(merged.len(), 3);
    assert_eq!(merged.elements(), &[(0, 10), (1, 11), (2, 22)]);
    let other_way = b.join(&a);
    assert_eq!(other_way.elements(), &[(0, 20), (1, 21), (2, 22)]);
    let mut c = merged;
    assert_eq!(c.insert(30), 3);
}

#[test]
fn list_crdt_insert_appends_fresh_entry() {
    let mut l: ListCrdt<&str> = ListCrdt::new();
    assert_eq!(l.insert("x"), 0);
    assert_eq!(l.insert("y"), 1);
    assert_eq!(l.len(), 2);
    assert_eq!(l.elements(), &[(0, "x"), (1, "y")]);
}
