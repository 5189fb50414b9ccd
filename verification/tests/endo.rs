use apk_proofs::field::{is_one, pow_u64, PrimeFieldElement};
use apk_proofs::instances::{bls12_377_bw6_761, bls12_381_bw6_767};

#[test]
fn test_omega() {
    let omega = bls12_377_bw6_761::omega();
    assert!(is_one(&pow_u64(&omega, 3)));
}

#[test]
fn test_omega_767() {
    let omega = bls12_381_bw6_767::omega();
    assert!(is_one(&pow_u64(&omega, 3)));
}

#[test]
fn test_lambda_767() {
    let lambda = bls12_381_bw6_767::lambda();
    assert!(is_one(&pow_u64(&lambda, 3)));
}

#[test]
fn endo_constants_are_nontrivial_cube_roots() {
    let lambda761 = bls12_377_bw6_761::lambda();
    assert!(!is_one(&lambda761));
    assert!(is_one(&pow_u64(&lambda761, 3)));
    let omega767 = bls12_381_bw6_767::omega();
    assert!(!is_one(&omega767));
    // ω² + ω + 1 = 0 for a primitive cube root of unity
    let s = omega767.mul(&omega767).add(&omega767).add(&PrimeFieldElement::one());
    assert!(s.equals(&PrimeFieldElement::zero()));
}

#[test]
fn u_parameters() {
    assert_eq!(bls12_381_bw6_767::u(), [0xd201000000010000]);
    assert_eq!(bls12_377_bw6_761::u(), [0x8508c00000000001]);
}
