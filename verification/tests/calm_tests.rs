use lau_calm_crdt::calm::{calm_analysis, decidability, verify_monotone, verify_monotone_sequence, verify_semilattice_axioms, Decidability};
use lau_calm_crdt::semilattice::{BoolOr, NatMax};

#[test]
fn monotone_function_detected() {
    let samples = vec![NatMax(0), NatMax(1), NatMax(2), NatMax(3), NatMax(10)];
    assert!(verify_monotone(&samples, &|x: &NatMax| NatMax(x.0 + 1)));
}

#[test]
fn non_monotone_function_detected() {
    let samples = vec![BoolOr(false), BoolOr(true)];
    assert!(!verify_monotone(&samples, &|x: &BoolOr| BoolOr(!x.0)));
}

#[test]
fn calm_analysis_monotone() {
    let samples = vec![NatMax(0), NatMax(5), NatMax(10)];
    let a = calm_analysis(&samples, &|x: &NatMax| NatMax(x.0 * 2), "double");
    assert!(a.is_monotone);
    assert!(a.is_coordination_free);
}

#[test]
fn calm_analysis_non_monotone() {
    let samples = vec![BoolOr(false), BoolOr(true)];
    let a = calm_analysis(&samples, &|x: &BoolOr| BoolOr(!x.0), "not");
    assert!(!a.is_monotone);
    assert!(!a.is_coordination_free);
}

#[test]
fn monotone_sequence_valid() {
    assert!(verify_monotone_sequence(&[NatMax(0), NatMax(1), NatMax(3), NatMax(10)]));
}

#[test]
fn monotone_sequence_invalid() {
    assert!(!verify_monotone_sequence(&[NatMax(5), NatMax(3)]));
}

#[test]
fn semilattice_axioms_hold() {
    let samples = vec![NatMax(0), NatMax(1), NatMax(5), NatMax(10)];
    assert!(verify_semilattice_axioms(&samples));
}

#[test]
fn decidability_finite() {
    let samples = vec![BoolOr(false), BoolOr(true)];
    assert!(decidability(&samples, Some(2)).is_decidable());
}

#[test]
fn decidability_infinite() {
    let samples = vec![NatMax(0), NatMax(1)];
    assert!(!decidability(&samples, None).is_decidable());
}

#[test]
fn calm_analysis_explanations() {
    let samples = vec![NatMax(0), NatMax(5)];
    let a = calm_analysis(&samples, &|x: &NatMax| NatMax(x.0 + 1), "inc");
    assert_eq!(a.explanation, "Function 'inc' IS monotone → coordination-free per CALM theorem.");
    let bools = vec![BoolOr(false), BoolOr(true)];
    let b = calm_analysis(&bools, &|x: &BoolOr| BoolOr(!x.0), "not");
    assert_eq!(b.explanation, "Function 'not' is NOT monotone → requires coordination per CALM theorem.");
}

#[test]
fn decidability_too_few_samples() {
    let samples = vec![BoolOr(false)];
    assert_eq!(decidability(&samples, Some(2)), Decidability::SemiDecidable);
    assert_eq!(decidability(&samples, Some(1)), Decidability::Decidable);
}

#[test]
fn monotone_sequence_short() {
    assert!(verify_monotone_sequence::<NatMax>(&[]));
    assert!(verify_monotone_sequence(&[NatMax(7)]));
    assert!(verify_monotone_sequence(&[NatMax(2), NatMax(2)]));
}
