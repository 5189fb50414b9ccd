use apk_proofs::bitmask::Bitmask;
use apk_proofs::field::{Fr761, Fr767, PrimeFieldElement};
use apk_proofs::smooth_domain::SmoothSubgroupDomain;
use apk_proofs::quotient_check::aggregate_evaluations_at_zeta;
use apk_proofs::piop::affine_addition::{
    compute_constraints_linearized, compute_public_inputs_constraint_polynomials,
    compute_bitmask_booleanity_constraint_polynomial, compute_conditional_affine_addition_constraint_polynomials,
    evaluate_bitmask_booleanity_constraint, evaluate_conditional_affine_addition_constraints,
    evaluate_conditional_affine_addition_constraints_linearized, AffineAdditionEvaluations, PartialSumsAndBitmaskCommitments,
    PartialSumsCommitments,
};
use apk_proofs::piop::bitmask_packing::{
    compute_inner_product_constraint_polynomial, compute_multipacking_mask_constraint_polynomial,
    compute_block_size, BitmaskPackingCommitments, BitmaskPackingRegisters, SuccinctAccountableRegisterEvaluations,
};
use apk_proofs::piop::counting::{BitCountingEvaluation, CountingCommitments, CountingEvaluations};
use apk_proofs::piop::{LagrangeEvaluations, RegisterCommitments, RegisterEvaluations, VerifierProtocol};
use apk_proofs::utils::{horner_field, powers};
use apk_proofs::setup::{max_degree_for_keyset_smooth, highest_degree_to_commit, log_domain_size_for_keyset, max_degree_for_domain, params_fit};
use apk_proofs::{AccountablePublicInput, CountingPublicInput, PublicInput};
use ark_ff::{PrimeField, UniformRand};
use ark_std::test_rng;

fn to_fr(x: ark_bw6_761::Fr) -> Fr761 {
    Fr761::from_canonical_limbs(x.into_bigint().0).unwrap()
}

fn f(x: u64) -> Fr761 {
    Fr761::from_u64(x)
}

#[test]
fn test_multipacking_mask_register() {
    let r = to_fr(ark_bw6_761::Fr::rand(&mut test_rng()));
    let two = f(2);
    let multipacking_mask = BitmaskPackingRegisters::<Fr761>::build_multipacking_mask_register(4, 2, r);
    assert_eq!(multipacking_mask, vec![f(1), two, r, r.mul(&two)]);
}

#[test]
fn test_partial_inner_products_register() {
    let from_u8_vec = |v: [u8; 4]| v.iter().map(|&x| f(x as u64)).collect::<Vec<Fr761>>();
    let a = from_u8_vec([1, 2, 3, 4]);
    let b = from_u8_vec([5, 6, 7, 8]);
    let partial_inner_product = BitmaskPackingRegisters::<Fr761>::build_partial_inner_products_register(4, &a, &b);
    assert_eq!(partial_inner_product, from_u8_vec([0, 1 * 5, 1 * 5 + 2 * 6, 1 * 5 + 2 * 6 + 3 * 7]));
}

#[test]
fn block_size_is_largest_fitting_divisor() {
    assert_eq!(compute_block_size(256, 376), 256);
    assert_eq!(compute_block_size(1034, 380), 94);
    assert_eq!(compute_block_size(1034, 1), 1);
    assert_eq!(compute_block_size(0, 10), 1);
    assert_eq!(compute_block_size(13, 10), 1);
    assert_eq!(compute_block_size(12, 5), 4);
}

fn zero_lagrange() -> LagrangeEvaluations<Fr761> {
    LagrangeEvaluations { vanishing_polynomial: f(0), l_first: f(0), l_last: f(0), zeta_minus_omega_inv: f(0), zeta_omega: f(0) }
}

#[test]
fn packing_registers_satisfy_constraints_on_every_row() {
    let rng = &mut test_rng();
    let n = 16usize;
    let bits: Vec<bool> = (0..n - 1).map(|i| i % 3 != 1).collect();
    let bitmask = Bitmask::from_bits(&bits);
    let r = to_fr(ark_bw6_761::Fr::rand(rng));
    let regs = BitmaskPackingRegisters::<Fr761>::new(n, &bitmask, r);
    assert_eq!(regs.block_size, 16);
    for i in 0..n {
        let mut l = zero_lagrange();
        if i == n - 1 {
            l.l_last = f(1);
        }
        let c = BitmaskPackingRegisters::<Fr761>::evaluate_inner_product_constraint(
            &regs.bitmask_chunks_aggregated, &l, &regs.bitmask[i], &regs.c[i], &regs.acc[i], &regs.acc_shifted[i]);
        assert_eq!(c, f(0), "inner product constraint at row {}", i);
        let s = regs.block_size as u64;
        let a = if (i + 1) % regs.block_size == 0 {
            r.mul(&apk_proofs::field::pow_u64(&f(2), s - 1).inverse().unwrap())
        } else {
            f(2)
        };
        let r_pow_m = apk_proofs::field::pow_u64(&r, (n / regs.block_size) as u64);
        let c2 = BitmaskPackingRegisters::<Fr761>::evaluate_multipacking_mask_constraint(&a, &r_pow_m, &l, &regs.c[i], &regs.c_shifted[i]);
        assert_eq!(c2, f(0), "multipacking mask constraint at row {}", i);
    }
    // The aggregate equals Σ_j chunk_j · r^j.
    let chunks = bitmask.to_chunks_by_bits::<Fr761>(16);
    assert_eq!(regs.bitmask_chunks_aggregated, chunks[0]);
}

#[test]
fn bitmask_chunks_and_counts() {
    let bits = vec![true, false, true, true, false, true, true];
    let b = Bitmask::from_bits(&bits);
    assert_eq!(b.size(), 7);
    assert_eq!(b.count_ones(), 5);
    assert_eq!(b.to_bits(), bits);
    let chunks = b.to_chunks_by_bits::<Fr761>(3);
    assert_eq!(chunks, vec![f(0b101), f(0b101), f(0b1)]);
    let fe = b.to_bits_as_field_elements::<Fr761>();
    assert_eq!(fe, vec![f(1), f(0), f(1), f(1), f(0), f(1), f(1)]);
}

#[test]
fn booleanity_and_affine_addition_constraints() {
    assert_eq!(evaluate_bitmask_booleanity_constraint(&f(0)), f(0));
    assert_eq!(evaluate_bitmask_booleanity_constraint(&f(1)), f(0));
    assert_eq!(evaluate_bitmask_booleanity_constraint(&f(3)), f(0).sub(&f(6)));
    // b = 0: the accumulator must not move.
    let z = f(7);
    let (c1, c2) = evaluate_conditional_affine_addition_constraints(&z, &f(0), &f(4), &f(5), &f(9), &f(11), &f(4), &f(5));
    assert_eq!((c1, c2), (f(0), f(0)));
    let (c1, c2) = evaluate_conditional_affine_addition_constraints(&z, &f(0), &f(4), &f(5), &f(9), &f(11), &f(6), &f(5));
    assert_eq!(c1, f(0));
    assert_eq!(c2, f(14));
    // linearized = full with x3 = y3 = 0
    let lin = evaluate_conditional_affine_addition_constraints_linearized(&z, &f(1), &f(4), &f(5), &f(9), &f(11));
    let full = evaluate_conditional_affine_addition_constraints(&z, &f(1), &f(4), &f(5), &f(9), &f(11), &f(0), &f(0));
    assert_eq!(lin, full);
}

#[test]
fn register_vectors_are_in_order() {
    let e = AffineAdditionEvaluations { keyset: (f(1), f(2)), bitmask: f(3), partial_sums: (f(4), f(5)) };
    assert_eq!(e.as_vec(), vec![f(1), f(2), f(3), f(4), f(5)]);
    let s = SuccinctAccountableRegisterEvaluations { c: f(6), acc: f(7), basic_evaluations: AffineAdditionEvaluations { keyset: (f(1), f(2)), bitmask: f(3), partial_sums: (f(4), f(5)) } };
    assert_eq!(s.as_vec(), vec![f(1), f(2), f(3), f(4), f(5), f(6), f(7)]);
    let c = CountingEvaluations { affine_addition_evaluations: AffineAdditionEvaluations { keyset: (f(1), f(2)), bitmask: f(3), partial_sums: (f(4), f(5)) }, partial_counts_evaluation: BitCountingEvaluation(f(9)) };
    assert_eq!(c.as_vec(), vec![f(1), f(2), f(3), f(4), f(5), f(9)]);
    let pc = PartialSumsAndBitmaskCommitments { partial_sums: PartialSumsCommitments(10u32, 11u32), bitmask: 12u32 };
    assert_eq!(pc.as_vec(), vec![12, 10, 11]);
    let cc = CountingCommitments { affine_addition_commitments: PartialSumsAndBitmaskCommitments { partial_sums: PartialSumsCommitments(10u32, 11u32), bitmask: 12u32 }, partial_counts_commitment: 13u32 };
    assert_eq!(cc.as_vec(), vec![12, 10, 11, 13]);
    let bc = BitmaskPackingCommitments::new(20u32, 21u32);
    assert_eq!(bc.as_vec(), vec![20, 21]);
    assert_eq!(RegisterCommitments::<u32>::as_vec(&()), Vec::<u32>::new());
}

#[test]
fn linearization_terms() {
    let e = AffineAdditionEvaluations { keyset: (f(2), f(3)), bitmask: f(1), partial_sums: (f(5), f(7)) };
    let phi = f(10);
    let z = f(2);
    let terms = VerifierProtocol::<Fr761, u32>::restore_commitment_to_linearization_polynomial(
        &e, &phi, &z, &PartialSumsCommitments(100u32, 200u32), &());
    // x: z·(b(x1-x2)² + b(y1-y2)φ + (1-b)φ) = 2·(9 + 40) = 98
    // y: z·((1-b) + b(x1-x2)φ) = 2·30 = 60
    assert_eq!(terms, vec![(f(98), 100), (f(60), 200)]);
    assert_eq!(<AffineAdditionEvaluations<Fr761> as VerifierProtocol<Fr761, u32>>::polys_opened_at_zeta(), 5);
}

#[test]
fn public_inputs() {
    let b = Bitmask::from_bits(&[true, false, true]);
    let acc = AccountablePublicInput::<u8>::new(&7, &b);
    assert_eq!(acc.apk, 7);
    assert_eq!(acc.bitmask.to_bits(), vec![true, false, true]);
    let cnt = CountingPublicInput::<u8>::new(&7, &b);
    assert_eq!(cnt.count, 2);
}

#[test]
fn powers_and_horner() {
    let p = powers(&f(3), 4);
    assert_eq!(p, vec![f(1), f(3), f(9), f(27), f(81)]);
    // 1 + 2·5 + 3·25 = 86
    assert_eq!(horner_field(&vec![f(1), f(2), f(3)], &f(5)), f(86));
    assert_eq!(horner_field(&vec![], &f(5)), f(0));
}

#[test]
fn setup_degrees() {
    assert_eq!(highest_degree_to_commit(256), 765);
    assert!(params_fit(765, 256));
    assert!(!params_fit(764, 256));
    assert_eq!(log_domain_size_for_keyset(100), 7);
    assert_eq!(log_domain_size_for_keyset(0), 0);
    assert_eq!(log_domain_size_for_keyset(127), 7);
    assert_eq!(log_domain_size_for_keyset(128), 8);
    assert_eq!(max_degree_for_domain(8, 46), 765);
}

#[test]
fn packed_constraint_evaluations_have_seven_entries() {
    let basic = AffineAdditionEvaluations { keyset: (f(2), f(3)), bitmask: f(1), partial_sums: (f(5), f(7)) };
    let e = SuccinctAccountableRegisterEvaluations { c: f(4), acc: f(6), basic_evaluations: basic };
    let l = LagrangeEvaluations { vanishing_polynomial: f(1), l_first: f(2), l_last: f(3), zeta_minus_omega_inv: f(4), zeta_omega: f(5) };
    let bm = Bitmask::from_bits(&[true, true, false, true]);
    let res = e.evaluate_constraint_polynomials((f(1), f(1)), (f(2), f(2)), &l, &f(9), &bm, 8);
    assert_eq!(res.len(), 7);
    assert_eq!(res[2], f(0));
}

#[test]
fn fr767_roundtrip_limbs() {
    let x = Fr767::from_u64(12345);
    assert_eq!(Fr767::from_canonical_limbs(x.to_limbs()), Some(x));
    assert!(Fr767::from_canonical_limbs([u64::MAX; 6]).is_none());
}

#[test]
fn affine_addition_constraints_vanish_on_chord_sum() {
    // (x1, y1) + (x2, y2) by the chord rule: λ = (y2 - y1)/(x2 - x1),
    // x3 = λ² - x1 - x2, y3 = λ(x1 - x3) - y1.
    let (x1, y1, x2, y2) = (f(3), f(5), f(7), f(11));
    let lambda = y2.sub(&y1).mul(&x2.sub(&x1).inverse().unwrap());
    let x3 = lambda.mul(&lambda).sub(&x1).sub(&x2);
    let y3 = lambda.mul(&x1.sub(&x3)).sub(&y1);
    let z = f(1);
    let (c1, c2) = evaluate_conditional_affine_addition_constraints(&z, &f(1), &x1, &y1, &x2, &y2, &x3, &y3);
    assert_eq!((c1, c2), (f(0), f(0)));
    // any other third point violates a constraint
    let (c1, c2) = evaluate_conditional_affine_addition_constraints(&z, &f(1), &x1, &y1, &x2, &y2, &x3, &y3.add(&f(1)));
    assert!(c1 != f(0) || c2 != f(0));
    let (c1, c2) = evaluate_conditional_affine_addition_constraints(&z, &f(1), &x1, &y1, &x2, &y2, &x3.add(&f(1)), &y3);
    assert!(c1 != f(0) || c2 != f(0));
    // with the bit unset the accumulator must stay put
    let (c1, c2) = evaluate_conditional_affine_addition_constraints(&z, &f(0), &x1, &y1, &x2, &y2, &x1, &y1);
    assert_eq!((c1, c2), (f(0), f(0)));
    let (c1, c2) = evaluate_conditional_affine_addition_constraints(&z, &f(0), &x1, &y1, &x2, &y2, &x3, &y3);
    assert!(c1 != f(0) || c2 != f(0));
}

#[test]
fn booleanity_constraint_vanishes_only_on_bits() {
    assert_eq!(evaluate_bitmask_booleanity_constraint(&f(0)), f(0));
    assert_eq!(evaluate_bitmask_booleanity_constraint(&f(1)), f(0));
    for v in [2u64, 3, 1000, u64::MAX] {
        assert!(evaluate_bitmask_booleanity_constraint(&f(v)) != f(0));
    }
    let minus_one = f(0).sub(&f(1));
    assert!(evaluate_bitmask_booleanity_constraint(&minus_one) != f(0));
}

#[test]
fn keyset_setup_over_the_smooth_domain() {
    // 1033 keys and the accumulator's initial value fit the 1034-point domain
    assert_eq!(max_degree_for_keyset_smooth::<Fr767>(1033), Some(3 * 1034 - 3));
    assert_eq!(max_degree_for_keyset_smooth::<Fr767>(0), Some(0));
    assert_eq!(max_degree_for_keyset_smooth::<Fr767>(1), Some(3 * 2 - 3));
    assert_eq!(max_degree_for_keyset_smooth::<Fr767>(2_178_264_726), None);
}

fn horner_at(p: &Vec<Fr761>, x: &Fr761) -> Fr761 {
    horner_field(p, x)
}

#[test]
fn affine_addition_constraint_polynomials_on_the_amplified_domain() {
    let domain = SmoothSubgroupDomain::<Fr761>::new_from_size(8).unwrap();
    let col = |v: [u64; 8]| v.iter().map(|&x| f(x)).collect::<Vec<Fr761>>();
    let b = col([1, 0, 1, 1, 0, 1, 0, 0]);
    let x1 = col([3, 4, 5, 6, 7, 8, 9, 10]);
    let y1 = col([11, 12, 13, 14, 15, 16, 17, 18]);
    let x2 = col([19, 20, 21, 22, 23, 24, 25, 26]);
    let y2 = col([27, 28, 29, 30, 31, 32, 33, 34]);
    let omega_inv = domain.group_gen_inv();
    let (p1, p2) = compute_conditional_affine_addition_constraint_polynomials(&domain, &b, &x1, &y1, &x2, &y2, &omega_inv);
    assert_eq!(p1.len(), 9);
    assert_eq!(p2.len(), 9);
    // the selector switches both off at ω^(n-1)
    assert_eq!(horner_at(&p1, &omega_inv), f(0));
    assert_eq!(horner_at(&p2, &omega_inv), f(0));
    // on the domain: (e_i - ω^(n-1))·c(row i), the next row 4 points ahead
    let points = domain.elements();
    for i in 0..8 {
        let k = (i + 4) % 8;
        let sel = points[i].sub(&omega_inv);
        let (c1, c2) = evaluate_conditional_affine_addition_constraints(&sel, &b[i], &x1[i], &y1[i], &x2[i], &y2[i], &x1[k], &y1[k]);
        assert_eq!(horner_at(&p1, &points[i]), c1);
        assert_eq!(horner_at(&p2, &points[i]), c2);
    }
    let bool_poly = compute_bitmask_booleanity_constraint_polynomial(&domain, &col([0, 1, 2, 1, 0, 3, 1, 0]));
    assert_eq!(bool_poly.len(), 8);
    for i in 0..8 {
        let v = [0u64, 1, 2, 1, 0, 3, 1, 0][i];
        assert_eq!(horner_at(&bool_poly, &points[i]), evaluate_bitmask_booleanity_constraint(&f(v)));
    }
}

#[test]
fn aggregated_evaluation_claims() {
    let evals = vec![f(3), f(5), f(7)];
    let nus = vec![f(1), f(10), f(100), f(1000)];
    // 1·3 + 10·5 + 100·7 + 1000·q
    assert_eq!(aggregate_evaluations_at_zeta(&evals, &f(2), &nus), f(3 + 50 + 700 + 2000));
}

#[test]
fn linearized_affine_addition_constraints() {
    let e = AffineAdditionEvaluations { keyset: (f(2), f(3)), bitmask: f(1), partial_sums: (f(7), f(11)) };
    let acc_x = vec![f(1), f(2)];
    let acc_y = vec![f(5)];
    let lin = compute_constraints_linearized(&e, &f(9), &f(4), &acc_x, &acc_y);
    assert_eq!(lin.len(), 5);
    assert!(lin[2].is_empty() && lin[3].is_empty() && lin[4].is_empty());
    // z = 5; b = 1: a1 = 5·(25·acc_x), a2 = 5·(5·acc_y + 8·acc_x)
    assert_eq!(lin[0], vec![f(5 * 25 * 1), f(5 * 25 * 2)]);
    assert_eq!(lin[1], vec![f(5 * (5 * 5 + 8 * 1)), f(5 * (8 * 2))]);
}

#[test]
fn public_input_and_packing_constraint_polynomials() {
    let domain = SmoothSubgroupDomain::<Fr761>::new_from_size(8).unwrap();
    let points = domain.elements();
    let col = |v: [u64; 8]| v.iter().map(|&x| f(x)).collect::<Vec<Fr761>>();
    let x1 = col([3, 4, 5, 6, 7, 8, 9, 10]);
    let y1 = col([11, 12, 13, 14, 15, 16, 17, 18]);
    let lf = col([1, 0, 0, 0, 2, 0, 0, 5]);
    let ll = col([0, 0, 0, 0, 1, 3, 0, 0]);
    let (p4, p5) = compute_public_inputs_constraint_polynomials(&domain, &x1, &y1, &lf, &ll);
    for i in 0..8 {
        let lg = LagrangeEvaluations { vanishing_polynomial: f(0), l_first: lf[i], l_last: ll[i], zeta_minus_omega_inv: f(0), zeta_omega: f(0) };
        let (c4, c5) = apk_proofs::piop::affine_addition::evaluate_public_inputs_constraints((x1[0], y1[0]), (x1[4], y1[4]), &lg, &x1[i], &y1[i]);
        assert_eq!(horner_field(&p4, &points[i]), c4);
        assert_eq!(horner_field(&p5, &points[i]), c5);
    }
    let c = col([1, 2, 3, 4, 5, 6, 7, 8]);
    let cs = col([2, 3, 4, 5, 6, 7, 8, 1]);
    let a = col([2, 2, 2, 9, 2, 2, 2, 9]);
    let r = f(3);
    let mask = compute_multipacking_mask_constraint_polynomial(&domain, &c, &cs, &a, &ll, &r, 2);
    let acc = col([0, 1, 2, 3, 4, 5, 6, 7]);
    let acc_s = col([1, 2, 3, 4, 5, 6, 7, 0]);
    let b = col([1, 0, 1, 1, 0, 0, 1, 0]);
    let ip = compute_inner_product_constraint_polynomial(&domain, &acc, &acc_s, &b, &c, &ll, &f(4));
    for i in 0..8 {
        let lg = LagrangeEvaluations { vanishing_polynomial: f(0), l_first: f(0), l_last: ll[i], zeta_minus_omega_inv: f(0), zeta_omega: f(0) };
        assert_eq!(horner_field(&mask, &points[i]),
            BitmaskPackingRegisters::<Fr761>::evaluate_multipacking_mask_constraint(&a[i], &f(9), &lg, &c[i], &cs[i]));
        assert_eq!(horner_field(&ip, &points[i]),
            BitmaskPackingRegisters::<Fr761>::evaluate_inner_product_constraint(&f(4), &lg, &b[i], &c[i], &acc[i], &acc_s[i]));
    }
}
