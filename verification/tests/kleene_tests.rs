use lau_calm_crdt::crdt_state::GCounter;
use lau_calm_crdt::kleene::{kleene_fixpoint, verify_fixpoint, AscendingChain};
use lau_calm_crdt::semilattice::{BoundedJoinSemilattice, NatMax};

#[test]
fn kleene_fixpoint_constant() {
    let fp = kleene_fixpoint(&|x: &NatMax| x.clone(), 100);
    assert_eq!(fp, NatMax::bottom());
}

#[test]
fn kleene_fixpoint_ascending() {
    let fp = kleene_fixpoint(&|x: &NatMax| NatMax(x.0.min(4) + 1), 100);
    assert_eq!(fp, NatMax(5));
}

#[test]
fn ascending_chain_valid() {
    let mut chain = AscendingChain::from_bottom();
    chain.push(NatMax(1));
    chain.push(NatMax(3));
    chain.push(NatMax(5));
    assert_eq!(chain.supremum(), NatMax(5));
    assert!(!chain.is_stabilized());
}

#[test]
fn ascending_chain_invalid_push() {
    let mut chain = AscendingChain::from_bottom();
    chain.push(NatMax(5));
    assert!(!chain.push(NatMax(3)));
}

#[test]
fn ascending_chain_stabilized() {
    let mut chain = AscendingChain::from_bottom();
    chain.push(NatMax(5));
    chain.push(NatMax(5));
    assert!(chain.is_stabilized());
}

#[test]
fn ascending_chain_iterate() {
    let chain = AscendingChain::iterate(&|x: &NatMax| NatMax(x.0.min(9) + 1), 100);
    assert!(chain.is_stabilized());
    assert_eq!(chain.supremum(), NatMax(10));
}

#[test]
fn verify_fixpoint_found() {
    let fp = verify_fixpoint(&|x: &NatMax| NatMax(x.0.saturating_add(1).min(3)), 100);
    assert_eq!(fp, Some(NatMax(3)));
}

#[test]
fn gcounter_fixpoint() {
    let state = GCounter::new(2);
    let fp = kleene_fixpoint(&|x: &GCounter| x.join(&state), 100);
    assert_eq!(fp, state);
}

#[test]
fn verify_fixpoint_not_reached() {
    let fp = verify_fixpoint(&|x: &NatMax| NatMax(x.0 + 1), 10);
    assert_eq!(fp, None);
}

#[test]
fn kleene_fixpoint_stops_at_budget() {
    let fp = kleene_fixpoint(&|x: &NatMax| NatMax(x.0 + 1), 3);
    assert_eq!(fp, NatMax(3));
}

#[test]
fn ascending_chain_empty_and_default() {
    let chain: AscendingChain<NatMax> = AscendingChain::new();
    assert!(!chain.is_stabilized());
    assert_eq!(chain.supremum(), NatMax(0));
    let d: AscendingChain<NatMax> = AscendingChain::default();
    assert_eq!(d.supremum(), NatMax(0));
}

#[test]
fn verify_fixpoint_agrees_with_kleene_fixpoint() {
    let f = |x: &NatMax| NatMax(x.0.saturating_add(1).min(3));
    assert_eq!(verify_fixpoint(&f, 100), Some(kleene_fixpoint(&f, 100)));
}

#[test]
fn ascending_chain_iterate_links_results() {
    let chain = AscendingChain::iterate(&|x: &NatMax| NatMax(x.0.min(2) + 1), 100);
    assert_eq!(chain.elements, vec![NatMax(0), NatMax(1), NatMax(2), NatMax(3), NatMax(3)]);
}
