use lau_calm_crdt::scott::{verify_scott_continuous, verify_scott_continuous_multi, Dcpo, DirectedSet};
use lau_calm_crdt::semilattice::NatMax;

#[test]
fn directed_set_valid() {
    assert!(DirectedSet::new(vec![NatMax(1), NatMax(2), NatMax(3)]).is_directed());
}

#[test]
fn directed_set_supremum() {
    assert_eq!(DirectedSet::new(vec![NatMax(1), NatMax(2), NatMax(3)]).supremum(), NatMax(3));
}

#[test]
fn scott_continuous_monotone() {
    let d = DirectedSet::new(vec![NatMax(0), NatMax(2), NatMax(4)]);
    assert!(verify_scott_continuous(&d, &|x: &NatMax| NatMax(x.0 + 1)));
}

#[test]
fn scott_continuous_identity() {
    let d = DirectedSet::new(vec![NatMax(1), NatMax(5)]);
    assert!(verify_scott_continuous(&d, &|x: &NatMax| x.clone()));
}

#[test]
fn scott_continuous_constant() {
    let d = DirectedSet::new(vec![NatMax(1), NatMax(3)]);
    assert!(verify_scott_continuous(&d, &|_: &NatMax| NatMax(42)));
}

#[test]
fn dcpo_bottom_and_supremum() {
    let dcpo = Dcpo::new(vec![NatMax(1), NatMax(3), NatMax(5)]);
    assert_eq!(dcpo.bottom(), NatMax(0));
    assert_eq!(dcpo.supremum_of(&[0, 1, 2]), NatMax(5));
}

#[test]
fn verify_multi_scott() {
    let sets = vec![
        DirectedSet::new(vec![NatMax(0), NatMax(2)]),
        DirectedSet::new(vec![NatMax(1), NatMax(5)]),
    ];
    assert!(verify_scott_continuous_multi(&sets, &|x: &NatMax| NatMax(x.0 * 2)));
}

#[test]
fn scott_not_continuous_when_join_not_preserved() {
    let d = DirectedSet::new(vec![NatMax(1), NatMax(2)]);
    assert!(!verify_scott_continuous(&d, &|x: &NatMax| NatMax(if x.0 == 2 { 0 } else { x.0 })));
}

#[test]
fn dcpo_contains_and_partial_supremum() {
    let dcpo = Dcpo::new(vec![NatMax(1), NatMax(3), NatMax(5)]);
    assert!(dcpo.contains(&NatMax(3)));
    assert!(!dcpo.contains(&NatMax(4)));
    assert_eq!(dcpo.supremum_of(&[0, 1]), NatMax(3));
    assert_eq!(dcpo.supremum_of(&[]), NatMax(0));
}

#[test]
fn empty_directed_set() {
    let d: DirectedSet<NatMax> = DirectedSet::new(vec![]);
    assert!(d.is_directed());
    assert_eq!(d.supremum(), NatMax(0));
}
