use std::cmp::Ordering;
use tsumego_solver::proof_number::ProofNumber;

#[test]
fn infinite_is_greater_than_finite() {
    assert!(ProofNumber::infinite().cmp(&ProofNumber::finite(1)) == Ordering::Greater);
}

#[test]
#[should_panic]
fn infinity_subtract_infinity_errors() {
    ProofNumber::infinite().sub(ProofNumber::infinite());
}

#[test]
fn infinity_subtract_finite_is_infinity() {
    assert_eq!(
        ProofNumber::infinite().sub(ProofNumber::finite(1)),
        ProofNumber::infinite()
    );
}

#[test]
#[should_panic]
fn finite_subtract_infinity_errors() {
    ProofNumber::finite(1).sub(ProofNumber::infinite());
}

#[test]
fn finite_subtract_finite_succeeds_if_result_is_positive() {
    assert_eq!(
        ProofNumber::finite(10).sub(ProofNumber::finite(4)),
        ProofNumber::finite(6)
    );
}

#[test]
fn finite_subtract_finite_succeeds_if_result_is_zero() {
    assert_eq!(
        ProofNumber::finite(10).sub(ProofNumber::finite(10)),
        ProofNumber::finite(0)
    );
}

#[test]
#[should_panic]
fn finite_subtract_finite_errors_if_result_is_negative() {
    ProofNumber::finite(4).sub(ProofNumber::finite(10));
}
