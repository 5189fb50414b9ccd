use apk_proofs::field::{Fr767, PrimeFieldElement};
use apk_proofs::number_theory::{mod_inverse, primitive_root, smallest_smooth_divisor_geq};
use apk_proofs::smooth_domain::{
    cooley_tukey_fft, dft_naive, find_root_of_unity, good_thomas_fft, rader_fft, small_fft,
    SmoothDomainConfig, SmoothSubgroupDomain,
};
use ark_ff::{PrimeField, UniformRand};
use ark_std::test_rng;
use ark_poly::polynomial::univariate::DensePolynomial;
use ark_poly::{DenseUVPolynomial, Polynomial};

type Bw6767Fr = ark_bw6_767::Fr;

fn to_fr(x: Bw6767Fr) -> Fr767 {
    Fr767::from_canonical_limbs(x.into_bigint().0).unwrap()
}

fn random_vec<R: ark_std::rand::Rng>(n: usize, rng: &mut R) -> Vec<Fr767> {
    (0..n).map(|_| to_fr(Bw6767Fr::rand(rng))).collect()
}

fn scale(vals: &mut Vec<Fr767>, n: u64) {
    let n_inv = Fr767::from_u64(n).inverse().unwrap();
    for v in vals.iter_mut() {
        *v = v.mul(&n_inv);
    }
}

#[test]
fn test_smooth_divisor() {
    let smooth = <Fr767 as SmoothDomainConfig>::smooth_part();
    assert_eq!(smooth, 2_178_264_726);
    assert_eq!(smallest_smooth_divisor_geq(smooth, 1024).unwrap(), 1034);
    assert!(smallest_smooth_divisor_geq(smooth, 2068).unwrap() >= 2068);
    assert!(smallest_smooth_divisor_geq(smooth, 4136).unwrap() >= 4136);
}

#[test]
fn test_primitive_root() {
    assert_eq!(primitive_root(11), 2);
    assert_eq!(primitive_root(47), 5);
}

#[test]
fn test_mod_inverse() {
    assert_eq!((mod_inverse(3, 11) * 3) % 11, 1);
    assert_eq!((mod_inverse(5, 47) * 5) % 47, 1);
}

#[test]
fn test_naive_dft_roundtrip() {
    let rng = &mut test_rng();
    let n = 11u64;
    let omega = find_root_of_unity::<Fr767>(n).unwrap();
    let input = random_vec(n as usize, rng);
    let mut vals = input.clone();
    dft_naive(&mut vals, &omega);
    dft_naive(&mut vals, &omega.inverse().unwrap());
    scale(&mut vals, n);
    assert_eq!(input, vals);
}

#[test]
fn test_rader_vs_naive() {
    let rng = &mut test_rng();
    for &p in &[11usize, 23, 47] {
        let omega = find_root_of_unity::<Fr767>(p as u64).unwrap();
        let input = random_vec(p, rng);
        let mut naive = input.clone();
        dft_naive(&mut naive, &omega);
        let mut rader = input.clone();
        rader_fft(&mut rader, &omega);
        assert_eq!(naive, rader, "Rader vs naive mismatch for p={}", p);
    }
}

#[test]
fn test_good_thomas_vs_naive() {
    let rng = &mut test_rng();
    let n = 22usize;
    let omega = find_root_of_unity::<Fr767>(n as u64).unwrap();
    let input = random_vec(n, rng);
    let mut naive = input.clone();
    dft_naive(&mut naive, &omega);
    let mut gt = input.clone();
    good_thomas_fft(&mut gt, &omega, &[2, 11]);
    assert_eq!(naive, gt, "Good-Thomas vs naive mismatch for N=22");
}

#[test]
fn test_good_thomas_1034() {
    let rng = &mut test_rng();
    let n = 1034usize;
    let omega = find_root_of_unity::<Fr767>(n as u64).unwrap();
    let input = random_vec(n, rng);
    let mut vals = input.clone();
    good_thomas_fft(&mut vals, &omega, &[2, 11, 47]);
    good_thomas_fft(&mut vals, &omega.inverse().unwrap(), &[2, 11, 47]);
    scale(&mut vals, n as u64);
    assert_eq!(input, vals, "Good-Thomas roundtrip failed for N=1034");
}

#[test]
fn test_cooley_tukey_vs_naive() {
    let rng = &mut test_rng();
    let n = 22usize;
    let omega = find_root_of_unity::<Fr767>(n as u64).unwrap();
    let input = random_vec(n, rng);
    let mut naive = input.clone();
    dft_naive(&mut naive, &omega);
    let mut ct = input.clone();
    cooley_tukey_fft(&mut ct, &omega, &[2, 11]);
    assert_eq!(naive, ct, "Cooley-Tukey vs naive mismatch for N=22");
}

#[test]
fn test_cooley_tukey_1034() {
    let rng = &mut test_rng();
    let n = 1034usize;
    let omega = find_root_of_unity::<Fr767>(n as u64).unwrap();
    let input = random_vec(n, rng);
    let mut vals = input.clone();
    cooley_tukey_fft(&mut vals, &omega, &[2, 11, 47]);
    cooley_tukey_fft(&mut vals, &omega.inverse().unwrap(), &[2, 11, 47]);
    scale(&mut vals, n as u64);
    assert_eq!(input, vals, "Cooley-Tukey roundtrip failed for N=1034");
}

#[test]
fn test_good_thomas_matches_cooley_tukey() {
    let rng = &mut test_rng();
    let n = 1034usize;
    let omega = find_root_of_unity::<Fr767>(n as u64).unwrap();
    let input = random_vec(n, rng);
    let mut gt = input.clone();
    good_thomas_fft(&mut gt, &omega, &[2, 11, 47]);
    let mut ct = input.clone();
    cooley_tukey_fft(&mut ct, &omega, &[2, 11, 47]);
    assert_eq!(gt, ct, "Good-Thomas and Cooley-Tukey disagree for N=1034");
}

#[test]
fn test_domain_fft_ifft_roundtrip() {
    let rng = &mut test_rng();
    let domain = SmoothSubgroupDomain::<Fr767>::new(1024).unwrap();
    let n = domain.size();
    let input = random_vec(n, rng);
    let mut evals = input.clone();
    domain.fft_in_place(&mut evals);
    let mut recovered = evals.clone();
    domain.ifft_in_place(&mut recovered);
    assert_eq!(input, recovered, "Domain FFT/IFFT roundtrip failed");
}

#[test]
fn test_domain_polynomial_evaluation() {
    let rng = &mut test_rng();
    let domain = SmoothSubgroupDomain::<Fr767>::new(1024).unwrap();
    let n = domain.size();
    let poly = DensePolynomial::<Bw6767Fr>::rand(n - 1, rng);
    let mut evals: Vec<Fr767> = poly.coeffs.iter().map(|c| to_fr(*c)).collect();
    domain.fft_in_place(&mut evals);
    let omega = domain.group_gen;
    let omega_ark = Bw6767Fr::from_bigint(ark_ff::BigInt::new(omega.to_limbs())).unwrap();
    let mut point = Bw6767Fr::from(1u64);
    for (i, eval) in evals.iter().enumerate() {
        let direct = to_fr(poly.evaluate(&point));
        assert_eq!(*eval, direct, "eval mismatch at domain point {}", i);
        point *= omega_ark;
    }
}

#[test]
fn test_domain_with_evaluations_type() {
    let rng = &mut test_rng();
    let domain = SmoothSubgroupDomain::<Fr767>::new(1024).unwrap();
    let n = domain.size();
    let evals_vec = random_vec(n, rng);
    let mut coeffs = evals_vec.clone();
    domain.ifft_in_place(&mut coeffs);
    let mut re_evals = coeffs.clone();
    domain.fft_in_place(&mut re_evals);
    assert_eq!(evals_vec, re_evals);
}

#[test]
fn small_fft_butterfly_and_trivial_sizes() {
    let omega = find_root_of_unity::<Fr767>(2).unwrap();
    let mut one = vec![Fr767::from_u64(5)];
    small_fft(&mut one, &omega);
    assert_eq!(one, vec![Fr767::from_u64(5)]);
    let mut two = vec![Fr767::from_u64(5), Fr767::from_u64(3)];
    small_fft(&mut two, &omega);
    assert_eq!(two, vec![Fr767::from_u64(8), Fr767::from_u64(2)]);
    let mut empty: Vec<Fr767> = vec![];
    small_fft(&mut empty, &omega);
    assert!(empty.is_empty());
}

#[test]
fn dft_of_constant_is_spike() {
    // DFT of (1, 1, …, 1) at a primitive root of order n is (n, 0, …, 0).
    let n = 22usize;
    let omega = find_root_of_unity::<Fr767>(n as u64).unwrap();
    let mut vals = vec![Fr767::from_u64(1); n];
    dft_naive(&mut vals, &omega);
    assert_eq!(vals[0], Fr767::from_u64(n as u64));
    for v in &vals[1..] {
        assert_eq!(*v, Fr767::from_u64(0));
    }
}

#[test]
fn domain_sizes_and_factors() {
    assert_eq!(SmoothSubgroupDomain::<Fr767>::compute_size_of_domain(0), Some(1));
    assert_eq!(SmoothSubgroupDomain::<Fr767>::compute_size_of_domain(1024), Some(1034));
    assert_eq!(SmoothSubgroupDomain::<Fr767>::compute_size_of_domain(2_178_264_727), None);
    let d = SmoothSubgroupDomain::<Fr767>::new(1024).unwrap();
    assert_eq!(d.size(), 1034);
    assert_eq!(d.log_size_of_group(), 11);
    assert!(SmoothSubgroupDomain::<Fr767>::new_from_size(0).is_none());
    // 7 does not divide p - 1
    assert!(SmoothSubgroupDomain::<Fr767>::new_from_size(7).is_none());
    let one = SmoothSubgroupDomain::<Fr767>::new_from_size(1);
    assert!(one.is_none());
}

#[test]
fn domain_elements_and_coset() {
    let d = SmoothSubgroupDomain::<Fr767>::new_from_size(22).unwrap();
    let elems = d.elements();
    assert_eq!(elems.len(), 22);
    assert_eq!(elems[0], Fr767::from_u64(1));
    assert_eq!(elems[1], d.group_gen());
    assert!(d.get_coset(Fr767::from_u64(0)).is_none());
    let c = d.get_coset(Fr767::from_u64(3)).unwrap();
    assert_eq!(c.coset_offset(), Fr767::from_u64(3));
    assert_eq!(c.elements()[0], Fr767::from_u64(3));
    assert_eq!(c.coset_offset_inv().mul(&Fr767::from_u64(3)), Fr767::from_u64(1));
    // coset FFT / IFFT round trip
    let rng = &mut test_rng();
    let input = random_vec(22, rng);
    let mut v = input.clone();
    c.fft_in_place(&mut v);
    c.ifft_in_place(&mut v);
    assert_eq!(v, input);
}

#[test]
fn find_root_of_unity_orders() {
    let g = find_root_of_unity::<Fr767>(1034).unwrap();
    assert_eq!(apk_proofs::field::pow_u64(&g, 1034), Fr767::from_u64(1));
    assert_ne!(apk_proofs::field::pow_u64(&g, 517), Fr767::from_u64(1));
    assert!(find_root_of_unity::<Fr767>(7).is_none());
}

#[test]
fn coset_fft_evaluates_at_coset_elements() {
    let rng = &mut test_rng();
    let d = SmoothSubgroupDomain::<Fr767>::new_from_size(22).unwrap();
    let c = d.get_coset(Fr767::from_u64(5)).unwrap();
    // fewer coefficients than the size: the rest are taken as zero
    let coeffs = random_vec(17, rng);
    let mut evals = coeffs.clone();
    c.fft_in_place(&mut evals);
    let points = c.elements();
    assert_eq!(evals.len(), 22);
    for k in 0..22 {
        assert_eq!(evals[k], apk_proofs::utils::horner_field(&coeffs, &points[k]));
    }
}
