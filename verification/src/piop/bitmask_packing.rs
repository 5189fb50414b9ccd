//! Bitmask packing: the bitmask is split into chunks that are packed into
//! field elements and aggregated with powers of a verifier challenge.
use vstd::prelude::*;
use vstd::arithmetic::div_mod::*;
use vstd::arithmetic::mul::*;
use vstd::arithmetic::power::*;
use crate::number_theory::lemma_le_div_iff_square_le;
use crate::field::{
    PrimeFieldElement, fmod, finv, lemma_fmod_ops, lemma_fmod_value, lemma_fmod_twice, lemma_fmod_congruent,
    lemma_finv_is_inverse, lemma_fmod_sub_zero,
};
use crate::sums::sum;
use crate::smooth_domain::lemma_geometric_sum;
use crate::bitmask::{Bitmask, chunk_value};
use crate::piop::{RegisterCommitments, RegisterEvaluations, VerifierProtocol, LagrangeEvaluations};
use crate::piop::affine_addition::{
    AffineAdditionEvaluations, PartialSumsAndBitmaskCommitments, linearization_x_scalar, linearization_y_scalar,
};
use crate::utils::{powers, poly_eval, field_values};
use crate::smooth_domain::{SmoothSubgroupDomain, lemma_ifft_interpolates};
use crate::number_theory::is_prime_spec;
use crate::field::pow_u64;
use crate::field::lemma_inverse_is_finv;
use vstd::arithmetic::power2::*;

verus! {

/// `d` is a chunk size usable for a domain of size `n` with a field of
/// capacity `cap` bits: it divides `n` and fits into a field element.
pub open spec fn is_fitting_divisor(d: nat, n: nat, cap: nat) -> bool {
    &&& d >= 1
    &&& n % d == 0
    &&& d <= cap
}

proof fn lemma_cofactor(d: nat, n: nat)
    requires
        d >= 1,
        n >= 1,
        n % d == 0,
    ensures
        n / d >= 1,
        n % (n / d) == 0,
        n / (n / d) == d,
        d * (n / d) == n,
{
    lemma_fundamental_div_mod(n as int, d as int);
    let c = n / d;
    assert(c >= 1) by (nonlinear_arith)
        requires
            n == d * c + 0,
            n >= 1,
    {
    }
    lemma_mul_is_commutative(d as int, c as int);
    lemma_mod_multiples_basic(d as int, c as int);
    lemma_div_multiples_vanish(d as int, c as int);
}

/// The block size for a domain of size `n` and a field of capacity `cap`
/// bits: the largest fitting divisor, or 1 when there is none.
pub open spec fn block_size_spec(n: nat, cap: nat) -> nat {
    if n >= 1 && exists|d: nat| #[trigger] is_fitting_divisor(d, n, cap) {
        choose|d: nat| is_fitting_divisor(d, n, cap)
            && forall|e: nat| #[trigger] is_fitting_divisor(e, n, cap) ==> e <= d
    } else {
        1
    }
}

/// The optimal bitmask packing block size for a domain: the largest divisor
/// of `domain_size` that is at most `field_bit_capacity`, or 1 when there is
/// none (and for an empty domain).
pub fn compute_block_size(domain_size: usize, field_bit_capacity: usize) -> (best: usize)
    ensures
        best == block_size_spec(domain_size as nat, field_bit_capacity as nat),
        best >= 1,
        domain_size == 0 ==> best == 1,
        domain_size >= 1 ==> (best == 1 || is_fitting_divisor(best as nat, domain_size as nat, field_bit_capacity as nat)),
        domain_size >= 1 ==> forall|d: nat| #[trigger] is_fitting_divisor(d, domain_size as nat, field_bit_capacity as nat) ==> d <= best,
{
    let mut best: usize = 1;
    if domain_size == 0 {
        return best;
    }
    let ghost n = domain_size as nat;
    let ghost cap = field_bit_capacity as nat;
    let mut d: usize = 1;
    proof {
        lemma_le_div_iff_square_le(1, n);
        assert forall|k: nat| #[trigger] is_fitting_divisor(k, n, cap) && (k < 1 || n / k < 1) implies k <= best by {
            lemma_cofactor(k, n);
        }
    }
    while d <= domain_size / d
        invariant
            n == domain_size as nat,
            cap == field_bit_capacity as nat,
            n >= 1,
            1 <= d,
            (d <= domain_size / d) <==> ((d as nat) * (d as nat) <= n),
            best >= 1,
            best == 1 || is_fitting_divisor(best as nat, n, cap),
            // every fitting divisor with a cofactor pair below d is accounted for
            forall|k: nat| #[trigger] is_fitting_divisor(k, n, cap) && (k < d || n / k < d) ==> k <= best,
        decreases domain_size + 1 - d,
    {
        let ghost dn = d as nat;
        assert(dn <= n && dn < usize::MAX) by (nonlinear_arith)
            requires
                dn * dn <= n,
                dn >= 1,
                n <= usize::MAX,
        {
        }
        if domain_size % d == 0 {
            proof {
                lemma_cofactor(dn, n);
            }
            if d <= field_bit_capacity {
                if d > best {
                    best = d;
                }
            }
            let other = domain_size / d;
            if other <= field_bit_capacity {
                if other > best {
                    best = other;
                }
            }
        }
        proof {
            assert forall|k: nat| #[trigger] is_fitting_divisor(k, n, cap) && (k < dn + 1 || n / k < dn + 1) implies k <= best by {
                if k == dn {
                } else if n / k == dn {
                    lemma_cofactor(k, n);
                    lemma_fundamental_div_mod(n as int, k as int);
                    lemma_cofactor(dn, n);
                    assert(k == n / dn) by {
                        lemma_div_multiples_vanish(dn as int, k as int);
                        lemma_mul_is_commutative(dn as int, k as int);
                    }
                }
            }
        }
        d += 1;
        proof {
            lemma_le_div_iff_square_le(d as nat, n);
        }
    }
    proof {
        assert forall|k: nat| #[trigger] is_fitting_divisor(k, n, cap) implies k <= best by {
            lemma_cofactor(k, n);
            let c = n / k;
            if k >= d && c >= d {
                assert((d as nat) * (d as nat) <= k * c) by (nonlinear_arith)
                    requires
                        k >= d,
                        c >= d,
                        d >= 1,
                {
                }
                assert(false);
            }
        }
        if exists|k: nat| #[trigger] is_fitting_divisor(k, n, cap) {
            let k = choose|k: nat| #[trigger] is_fitting_divisor(k, n, cap);
            assert(k <= best);
            if best == 1 {
                assert(k == 1);
                assert(is_fitting_divisor(best as nat, n, cap));
            }
            assert(is_fitting_divisor(best as nat, n, cap)
                && forall|e: nat| #[trigger] is_fitting_divisor(e, n, cap) ==> e <= best);
            let c = block_size_spec(n, cap);
            assert(is_fitting_divisor(c, n, cap) && forall|e: nat| #[trigger] is_fitting_divisor(e, n, cap) ==> e <= c);
            assert(c <= best);
            assert(best <= c);
        }
    }
    best
}

/// Commitments to the packing registers: the multipacking mask `c` and the
/// partial inner products `acc`.
#[derive(Debug, PartialEq, Eq)]
pub struct BitmaskPackingCommitments<G> {
    pub c_comm: G,
    pub acc_comm: G,
}

impl<G: Copy> BitmaskPackingCommitments<G> {
    pub fn new(c_comm: G, acc_comm: G) -> (r: Self)
        ensures
            r.c_comm == c_comm,
            r.acc_comm == acc_comm,
    {
        BitmaskPackingCommitments { c_comm, acc_comm }
    }
}

impl<G: Copy> RegisterCommitments<G> for BitmaskPackingCommitments<G> {
    open spec fn commitments(&self) -> Seq<G> {
        seq![self.c_comm, self.acc_comm]
    }

    fn as_vec(&self) -> (r: Vec<G>) {
        vec![self.c_comm, self.acc_comm]
    }
}

/// Evaluations at ζ of the affine-addition registers and of the packing
/// registers `c` and `acc`.
#[derive(Debug, PartialEq, Eq)]
pub struct SuccinctAccountableRegisterEvaluations<F> {
    pub c: F,
    pub acc: F,
    pub basic_evaluations: AffineAdditionEvaluations<F>,
}

impl<F: PrimeFieldElement> RegisterEvaluations<F> for SuccinctAccountableRegisterEvaluations<F> {
    open spec fn evaluations(&self) -> Seq<F> {
        self.basic_evaluations.evaluations().push(self.c).push(self.acc)
    }

    fn as_vec(&self) -> (r: Vec<F>) {
        let mut res = self.basic_evaluations.as_vec();
        res.push(self.c);
        res.push(self.acc);
        res
    }
}

impl<F: PrimeFieldElement, G: Copy> VerifierProtocol<F, G> for SuccinctAccountableRegisterEvaluations<F> {
    type C1 = PartialSumsAndBitmaskCommitments<G>;
    type C2 = BitmaskPackingCommitments<G>;

    open spec fn polys_opened_at_zeta_spec() -> nat {
        8
    }

    fn polys_opened_at_zeta() -> (r: usize) {
        8
    }

    /// The affine-addition terms, `φ^5` times the `acc` commitment and `φ^6`
    /// times the `c` commitment.
    fn restore_commitment_to_linearization_polynomial(
        &self,
        phi: &F,
        zeta_minus_omega_inv: &F,
        commitments: &PartialSumsAndBitmaskCommitments<G>,
        extra_commitments: &BitmaskPackingCommitments<G>,
    ) -> (r: Vec<(F, G)>)
        ensures
            r@.len() == 4,
            r@[0].1 == commitments.partial_sums.0,
            r@[1].1 == commitments.partial_sums.1,
            r@[2].1 == extra_commitments.acc_comm,
            r@[3].1 == extra_commitments.c_comm,
            ({
                let e = self.basic_evaluations;
                &&& r@[0].0.value() == fmod::<F>(linearization_x_scalar(e.bitmask.value() as int,
                    e.partial_sums.0.value() as int, e.partial_sums.1.value() as int,
                    e.keyset.0.value() as int, e.keyset.1.value() as int, phi.value() as int,
                    zeta_minus_omega_inv.value() as int))
                &&& r@[1].0.value() == fmod::<F>(linearization_y_scalar(e.bitmask.value() as int,
                    e.partial_sums.0.value() as int, e.partial_sums.1.value() as int,
                    e.keyset.0.value() as int, e.keyset.1.value() as int, phi.value() as int,
                    zeta_minus_omega_inv.value() as int))
            }),
            r@[2].0.value() == fmod::<F>(pow(phi.value() as int, 5)),
            r@[3].0.value() == fmod::<F>(pow(phi.value() as int, 6)),
    {
        let powers_of_phi = powers(phi, 6);
        let (s0, s1) = self.basic_evaluations.linearization_scalars(phi, zeta_minus_omega_inv);
        vec![
            (s0, commitments.partial_sums.0),
            (s1, commitments.partial_sums.1),
            (powers_of_phi[5], extra_commitments.acc_comm),
            (powers_of_phi[6], extra_commitments.c_comm),
        ]
    }
}

/// Entry `i` of the multipacking mask with chunks of `chunk_size` bits:
/// `r^(i / chunk_size) · 2^(i mod chunk_size)`.
pub open spec fn multipacking_mask_value(r: int, chunk_size: nat, i: nat) -> int {
    pow(r, i / chunk_size) * pow(2, i % chunk_size)
}

/// `Σ_{t < i} a_t · b_t`.
pub open spec fn inner_product_prefix(a: Seq<int>, b: Seq<int>, i: nat) -> int
    decreases i,
{
    if i == 0 {
        0
    } else {
        inner_product_prefix(a, b, (i - 1) as nat) + a[i - 1] * b[i - 1]
    }
}

/// The values of a sequence of field elements, as integers.
pub open spec fn vals<F: PrimeFieldElement>(s: Seq<F>) -> Seq<int> {
    Seq::new(s.len(), |i: int| s[i].value() as int)
}

/// `s` rotated left by one position.
pub open spec fn rotated_left<T>(s: Seq<T>) -> Seq<T> {
    if s.len() == 0 { s } else { s.drop_first().push(s[0]) }
}

/// The registers of the bitmask packing: the bitmask `b`, the
/// multipacking mask `c`, the partial inner products `acc` and their left
/// rotations, with the aggregated bitmask `Σ b_i c_i`, the challenge `r`
/// and the block size.
pub struct BitmaskPackingRegisters<F> {
    pub bitmask: Vec<F>,
    pub c: Vec<F>,
    pub c_shifted: Vec<F>,
    pub acc: Vec<F>,
    pub acc_shifted: Vec<F>,
    pub bitmask_chunks_aggregated: F,
    pub r: F,
    pub block_size: usize,
}

/// `v` rotated left by one position.
fn rotate_left_by_one<T: Copy>(v: &Vec<T>) -> (r: Vec<T>)
    ensures
        r@ == rotated_left(v@),
{
    let n = v.len();
    let mut r: Vec<T> = Vec::new();
    if n == 0 {
        return r;
    }
    let mut i: usize = 1;
    while i < n
        invariant
            n == v@.len(),
            1 <= i <= n,
            r@ == v@.subrange(1, i as int),
        decreases n - i,
    {
        r.push(v[i]);
        i += 1;
        proof {
            assert(r@ =~= v@.subrange(1, i as int));
        }
    }
    r.push(v[0]);
    proof {
        assert(v@.subrange(1, n as int) =~= v@.drop_first());
    }
    r
}

impl<F: PrimeFieldElement> BitmaskPackingRegisters<F> {
    /// The mask `c = (r^j · 2^k)` for the `domain_size / chunk_size` chunks
    /// `j` and the positions `k` within a chunk: the tensor product of the
    /// powers of `r` and the powers of 2.
    pub fn build_multipacking_mask_register(domain_size: usize, chunk_size: usize, randomizer: F) -> (r: Vec<F>)
        requires
            1 <= chunk_size <= domain_size,
        ensures
            r@.len() == (domain_size / chunk_size) * chunk_size,
            forall|i: int| 0 <= i < r@.len() ==> #[trigger] r@[i].value()
                == fmod::<F>(multipacking_mask_value(randomizer.value() as int, chunk_size as nat, i as nat)),
    {
        let two = F::from_u64(2);
        let powers_of_2 = powers(&two, chunk_size - 1);
        let m = domain_size / chunk_size;
        proof {
            lemma_div_is_ordered(chunk_size as int, domain_size as int, chunk_size as int);
            lemma_div_by_self(chunk_size as int);
        }
        let powers_of_r = powers(&randomizer, m - 1);
        let ghost rv = randomizer.value() as int;
        let mut res: Vec<F> = Vec::new();
        let mut j: usize = 0;
        while j < m
            invariant
                m == domain_size / chunk_size,
                m >= 1,
                1 <= chunk_size,
                rv == randomizer.value() as int,
                two.value() == 2,
                powers_of_2@.len() == chunk_size,
                powers_of_r@.len() == m,
                forall|k: int| 0 <= k < chunk_size ==> #[trigger] powers_of_2@[k].value() == fmod::<F>(pow(2, k as nat)),
                forall|k: int| 0 <= k < m ==> #[trigger] powers_of_r@[k].value() == fmod::<F>(pow(rv, k as nat)),
                0 <= j <= m,
                res@.len() == j * chunk_size,
                forall|i: int| 0 <= i < res@.len() ==> #[trigger] res@[i].value()
                    == fmod::<F>(multipacking_mask_value(rv, chunk_size as nat, i as nat)),
            decreases m - j,
        {
            let mut k: usize = 0;
            while k < chunk_size
                invariant
                    m == domain_size / chunk_size,
                    1 <= chunk_size,
                    0 <= j < m,
                    rv == randomizer.value() as int,
                    powers_of_2@.len() == chunk_size,
                    powers_of_r@.len() == m,
                    forall|k: int| 0 <= k < chunk_size ==> #[trigger] powers_of_2@[k].value() == fmod::<F>(pow(2, k as nat)),
                    forall|k: int| 0 <= k < m ==> #[trigger] powers_of_r@[k].value() == fmod::<F>(pow(rv, k as nat)),
                    0 <= k <= chunk_size,
                    res@.len() == j * chunk_size + k,
                    forall|i: int| 0 <= i < res@.len() ==> #[trigger] res@[i].value()
                        == fmod::<F>(multipacking_mask_value(rv, chunk_size as nat, i as nat)),
                decreases chunk_size - k,
            {
                let v = powers_of_r[j].mul(&powers_of_2[k]);
                proof {
                    let i = j * chunk_size + k;
                    lemma_fundamental_div_mod_converse(i as int, chunk_size as int, j as int, k as int);
                    lemma_fmod_value(randomizer);
                    F::lemma_field_basics(v);
                    lemma_fmod_ops::<F>(pow(rv, j as nat), pow(2, k as nat));
                }
                res.push(v);
                k += 1;
            }
            proof {
                assert((j + 1) * chunk_size == j * chunk_size + chunk_size) by (nonlinear_arith);
            }
            j += 1;
        }
        res
    }

    /// `(0, a_0 b_0, a_0 b_0 + a_1 b_1, …)`, of length `domain_size`: entry
    /// `i` is the inner product of the first `i` entries.
    pub fn build_partial_inner_products_register(domain_size: usize, a: &Vec<F>, b: &Vec<F>) -> (r: Vec<F>)
        requires
            domain_size >= 1,
            a@.len() == domain_size,
            b@.len() == domain_size,
        ensures
            r@.len() == domain_size,
            forall|i: int| 0 <= i < domain_size ==> #[trigger] r@[i].value()
                == fmod::<F>(inner_product_prefix(vals(a@), vals(b@), i as nat)),
    {
        let ghost av = vals(a@);
        let ghost bv = vals(b@);
        let mut acc: Vec<F> = Vec::new();
        let mut last = F::zero();
        proof {
            lemma_fmod_value(last);
        }
        acc.push(last);
        let mut i: usize = 0;
        while i < domain_size - 1
            invariant
                domain_size >= 1,
                a@.len() == domain_size,
                b@.len() == domain_size,
                av == vals(a@),
                bv == vals(b@),
                0 <= i <= domain_size - 1,
                acc@.len() == i + 1,
                last == acc@[i as int],
                F::modulus() > 0,
                forall|t: int| 0 <= t <= i ==> #[trigger] acc@[t].value()
                    == fmod::<F>(inner_product_prefix(av, bv, t as nat)),
            decreases domain_size - 1 - i,
        {
            let x = a[i].mul(&b[i]);
            let next = x.add(&last);
            proof {
                lemma_fmod_value(a@[i as int]);
                lemma_fmod_value(b@[i as int]);
                lemma_fmod_ops::<F>(av[i as int], bv[i as int]);
                lemma_fmod_ops::<F>(av[i as int] * bv[i as int], inner_product_prefix(av, bv, i as nat));
            }
            acc.push(next);
            last = next;
            i += 1;
        }
        acc
    }

    /// `acc(ζω) - acc(ζ) - b(ζ)c(ζ) + (Σ b_i c_i)·L_last(ζ)`.
    pub fn evaluate_inner_product_constraint(
        bitmask_chunks_aggregated: &F,
        evals_at_zeta: &LagrangeEvaluations<F>,
        b_zeta: &F,
        c_zeta: &F,
        acc_zeta: &F,
        acc_zeta_omega: &F,
    ) -> (r: F)
        ensures
            r.value() == fmod::<F>(acc_zeta_omega.value() - acc_zeta.value() - b_zeta.value() * c_zeta.value()
                + bitmask_chunks_aggregated.value() * evals_at_zeta.l_last.value()),
    {
        let ghost (g, ll, bz, cz, az, azw) = (bitmask_chunks_aggregated.value() as int, evals_at_zeta.l_last.value() as int,
            b_zeta.value() as int, c_zeta.value() as int, acc_zeta.value() as int, acc_zeta_omega.value() as int);
        let t1 = acc_zeta_omega.sub(acc_zeta);
        let t2 = b_zeta.mul(c_zeta);
        let t3 = t1.sub(&t2);
        let t4 = bitmask_chunks_aggregated.mul(&evals_at_zeta.l_last);
        let r = t3.add(&t4);
        proof {
            lemma_fmod_value(*bitmask_chunks_aggregated);
            lemma_fmod_value(evals_at_zeta.l_last);
            lemma_fmod_value(*b_zeta);
            lemma_fmod_value(*c_zeta);
            lemma_fmod_value(*acc_zeta);
            lemma_fmod_value(*acc_zeta_omega);
            lemma_fmod_ops::<F>(azw, az);
            lemma_fmod_ops::<F>(bz, cz);
            lemma_fmod_ops::<F>(azw - az, bz * cz);
            lemma_fmod_ops::<F>(g, ll);
            lemma_fmod_ops::<F>(azw - az - bz * cz, g * ll);
        }
        r
    }

    /// The inner-product constraint with `acc(ζω)` taken as zero.
    pub fn evaluate_inner_product_constraint_linearized(
        bitmask_chunks_aggregated: &F,
        evals_at_zeta: &LagrangeEvaluations<F>,
        b_zeta: &F,
        c_zeta: &F,
        acc_zeta: &F,
    ) -> (r: F)
        ensures
            r.value() == fmod::<F>(0 - acc_zeta.value() - b_zeta.value() * c_zeta.value()
                + bitmask_chunks_aggregated.value() * evals_at_zeta.l_last.value()),
    {
        let zero = F::zero();
        Self::evaluate_inner_product_constraint(bitmask_chunks_aggregated, evals_at_zeta, b_zeta, c_zeta, acc_zeta, &zero)
    }

    /// `c(ζω) - c(ζ)·a - (1 - r^m)·L_last(ζ)`.
    pub fn evaluate_multipacking_mask_constraint(
        a: &F,
        r_pow_m: &F,
        evals_at_zeta: &LagrangeEvaluations<F>,
        c_zeta: &F,
        c_zeta_omega: &F,
    ) -> (r: F)
        ensures
            r.value() == fmod::<F>(c_zeta_omega.value() - c_zeta.value() * a.value()
                - (1 - r_pow_m.value()) * evals_at_zeta.l_last.value()),
    {
        let ghost (av, rm, ll, cz, czw) = (a.value() as int, r_pow_m.value() as int, evals_at_zeta.l_last.value() as int,
            c_zeta.value() as int, c_zeta_omega.value() as int);
        let one = F::one();
        let t1 = c_zeta.mul(a);
        let t2 = c_zeta_omega.sub(&t1);
        let t3 = one.sub(r_pow_m);
        let t4 = t3.mul(&evals_at_zeta.l_last);
        let r = t2.sub(&t4);
        proof {
            lemma_fmod_value(*a);
            lemma_fmod_value(*r_pow_m);
            lemma_fmod_value(evals_at_zeta.l_last);
            lemma_fmod_value(*c_zeta);
            lemma_fmod_value(*c_zeta_omega);
            lemma_fmod_value(one);
            lemma_fmod_ops::<F>(cz, av);
            lemma_fmod_ops::<F>(czw, cz * av);
            lemma_fmod_ops::<F>(1, rm);
            lemma_fmod_ops::<F>(1 - rm, ll);
            lemma_fmod_ops::<F>(czw - cz * av, (1 - rm) * ll);
        }
        r
    }

    /// The multipacking-mask constraint with `c(ζω)` taken as zero.
    pub fn evaluate_multipacking_mask_constraint_linearized(
        a: &F,
        r_pow_m: &F,
        evals_at_zeta: &LagrangeEvaluations<F>,
        c_zeta: &F,
    ) -> (r: F)
        ensures
            r.value() == fmod::<F>(0 - c_zeta.value() * a.value() - (1 - r_pow_m.value()) * evals_at_zeta.l_last.value()),
    {
        let zero = F::zero();
        Self::evaluate_multipacking_mask_constraint(a, r_pow_m, evals_at_zeta, c_zeta, &zero)
    }
}

impl<F: PrimeFieldElement> BitmaskPackingRegisters<F> {
    /// The registers hold the packing of the bits `bits` for a domain of
    /// size `n` and the challenge `r`.
    pub open spec fn is_packing_of(&self, n: nat, bits: Seq<bool>) -> bool {
        let s = self.block_size as nat;
        &&& n >= 1
        &&& s >= 1
        &&& n % s == 0
        &&& self.bitmask@.len() == n
        &&& forall|i: int| 0 <= i < n ==> #[trigger] self.bitmask@[i].value()
            == (if i < bits.len() && bits[i] { 1nat } else { 0nat })
        &&& self.c@.len() == n
        &&& forall|i: int| 0 <= i < n ==> #[trigger] self.c@[i].value()
            == fmod::<F>(multipacking_mask_value(self.r.value() as int, s, i as nat))
        &&& self.acc@.len() == n
        &&& forall|i: int| 0 <= i < n ==> #[trigger] self.acc@[i].value()
            == fmod::<F>(inner_product_prefix(vals(self.bitmask@), vals(self.c@), i as nat))
        &&& self.c_shifted@ == rotated_left(self.c@)
        &&& self.acc_shifted@ == rotated_left(self.acc@)
        &&& self.bitmask_chunks_aggregated.value()
            == fmod::<F>(inner_product_prefix(vals(self.bitmask@), vals(self.c@), n))
    }

    /// The packing registers for a domain of size `domain_size`, the bitmask
    /// (padded with zeros or truncated to the domain) and the challenge `r`
    /// that aggregates the chunks. The block size is the largest divisor of
    /// the domain size that fits into the field, and must exceed 1.
    pub fn new(domain_size: usize, bitmask: &Bitmask, bitmask_chunks_aggregation_challenge: F) -> (r: Self)
        requires
            domain_size >= 1,
            block_size_spec(domain_size as nat, F::capacity()) > 1,
        ensures
            r.is_packing_of(domain_size as nat, bitmask@),
            r.r == bitmask_chunks_aggregation_challenge,
            r.block_size == block_size_spec(domain_size as nat, F::capacity()),
    {
        let n = domain_size;
        let field_bit_capacity = F::capacity_bits();
        let bits_in_bitmask_chunk = compute_block_size(n, field_bit_capacity);
        proof {
            let s = bits_in_bitmask_chunk as nat;
            let cap = field_bit_capacity as nat;
            assert(exists|d: nat| #[trigger] is_fitting_divisor(d, n as nat, cap));
            assert(is_fitting_divisor(s, n as nat, cap));
            lemma_cofactor(s, n as nat);
            lemma_fundamental_div_mod(n as int, s as int);
        }
        let mut bits: Vec<F> = bitmask.to_bits_as_field_elements();
        bits.truncate(n);
        while bits.len() < n
            invariant
                bits@.len() <= n,
                bits@.len() >= bitmask@.len() || bits@.len() == n,
                forall|i: int| 0 <= i < bits@.len() ==> #[trigger] bits@[i].value()
                    == (if i < bitmask@.len() && bitmask@[i] { 1nat } else { 0nat }),
            decreases n - bits@.len(),
        {
            bits.push(F::zero());
        }
        let r = bitmask_chunks_aggregation_challenge;
        let c = Self::build_multipacking_mask_register(n, bits_in_bitmask_chunk, r);
        proof {
            vstd::arithmetic::mul::lemma_mul_is_commutative((n / bits_in_bitmask_chunk) as int, bits_in_bitmask_chunk as int);
        }
        let acc = Self::build_partial_inner_products_register(n, &bits, &c);

        // Σ b_i c_i
        let ghost bv = vals(bits@);
        let ghost cv = vals(c@);
        let mut aggregated = F::zero();
        let mut i: usize = 0;
        proof {
            lemma_fmod_value(aggregated);
        }
        while i < n
            invariant
                bits@.len() == n,
                c@.len() == n,
                bv == vals(bits@),
                cv == vals(c@),
                0 <= i <= n,
                F::modulus() > 0,
                aggregated.value() == fmod::<F>(inner_product_prefix(bv, cv, i as nat)),
            decreases n - i,
        {
            let t = bits[i].mul(&c[i]);
            proof {
                lemma_fmod_value(bits@[i as int]);
                lemma_fmod_value(c@[i as int]);
                lemma_fmod_ops::<F>(bv[i as int], cv[i as int]);
                lemma_fmod_ops::<F>(inner_product_prefix(bv, cv, i as nat), bv[i as int] * cv[i as int]);
            }
            aggregated = aggregated.add(&t);
            i += 1;
        }
        let c_shifted = rotate_left_by_one(&c);
        let acc_shifted = rotate_left_by_one(&acc);
        BitmaskPackingRegisters {
            bitmask: bits,
            c,
            c_shifted,
            acc,
            acc_shifted,
            bitmask_chunks_aggregated: aggregated,
            r,
            block_size: bits_in_bitmask_chunk,
        }
    }
}

/// Completeness of the inner-product constraint: on the packing registers
/// of any bitmask, `acc_shifted - acc - b·c + (Σ b c)·L_last` vanishes on
/// every row `i` of the domain (`L_last` is 1 on the last row, else 0).
pub proof fn lemma_inner_product_constraint_vanishes<F: PrimeFieldElement>(
    regs: &BitmaskPackingRegisters<F>,
    n: nat,
    bits: Seq<bool>,
    i: int,
)
    requires
        regs.is_packing_of(n, bits),
        0 <= i < n,
    ensures
        fmod::<F>(regs.acc_shifted@[i].value() - regs.acc@[i].value()
            - regs.bitmask@[i].value() * regs.c@[i].value()
            + regs.bitmask_chunks_aggregated.value() * (if i == n - 1 { 1int } else { 0int })) == 0,
{
    let bv = vals(regs.bitmask@);
    let cv = vals(regs.c@);
    let b = regs.bitmask@[i].value() as int;
    let c = regs.c@[i].value() as int;
    assert(bv[i] == b && cv[i] == c);
    let p_i = inner_product_prefix(bv, cv, i as nat);
    let p_next = inner_product_prefix(bv, cv, (i + 1) as nat);
    assert(p_next == p_i + b * c);
    lemma_fmod_value(regs.bitmask@[i]);
    lemma_fmod_value(regs.c@[i]);
    let m = F::modulus() as int;
    if i < n - 1 {
        assert(regs.acc_shifted@[i] == regs.acc@[i + 1]);
        // fmod(fmod(p + bc) - fmod(p) - bc) = fmod(0)
        lemma_fmod_ops::<F>(p_next, p_i);
        lemma_fmod_ops::<F>(p_next - p_i, b * c);
        lemma_fmod_value(regs.acc@[i]);
        lemma_fmod_value(regs.acc@[i + 1]);
        lemma_fmod_ops::<F>(b, c);
        lemma_fmod_ops::<F>(fmod::<F>(p_next) - fmod::<F>(p_i), b * c);
        vstd::arithmetic::div_mod::lemma_small_mod(0, m as nat);
        vstd::arithmetic::div_mod::lemma_mod_twice(b * c, m);
        assert(fmod::<F>(fmod::<F>(p_next - p_i) - fmod::<F>(b * c)) == fmod::<F>(p_next - p_i - b * c));
        vstd::arithmetic::div_mod::lemma_mod_twice(p_next - p_i, m);
        vstd::arithmetic::div_mod::lemma_sub_mod_noop(p_next, p_i, m);
        vstd::arithmetic::div_mod::lemma_sub_mod_noop(fmod::<F>(p_next) - fmod::<F>(p_i), b * c, m);
        vstd::arithmetic::div_mod::lemma_sub_mod_noop(p_next - p_i, b * c, m);
    } else {
        assert(regs.acc_shifted@[i] == regs.acc@[0]);
        assert(inner_product_prefix(bv, cv, 0) == 0);
        vstd::arithmetic::div_mod::lemma_small_mod(0, m as nat);
        let a = fmod::<F>(p_i);
        let g = fmod::<F>(p_next);
        // fmod(0 - a - bc + g) with a ≡ p_i, g ≡ p_i + bc
        vstd::arithmetic::div_mod::lemma_add_mod_noop(0 - a - b * c, g, m);
        vstd::arithmetic::div_mod::lemma_mod_twice(p_next, m);
        vstd::arithmetic::div_mod::lemma_sub_mod_noop(0 - b * c, a, m);
        vstd::arithmetic::div_mod::lemma_mod_twice(p_i, m);
        vstd::arithmetic::div_mod::lemma_add_mod_noop(0 - b * c - p_i, p_next, m);
        assert(0 - a - b * c == (0 - b * c) - a);
        vstd::arithmetic::div_mod::lemma_sub_mod_noop(0 - b * c, p_i, m);
        assert((0 - b * c - p_i) + p_next == 0);
        assert(fmod::<F>((0 - b * c) - a) == fmod::<F>(0 - b * c - p_i)) by {
            vstd::arithmetic::div_mod::lemma_sub_mod_noop(0 - b * c, a, m);
            vstd::arithmetic::div_mod::lemma_sub_mod_noop(0 - b * c, p_i, m);
        }
        assert(fmod::<F>(0 - a - b * c + g) == fmod::<F>(fmod::<F>(0 - a - b * c) + fmod::<F>(g)));
        assert(fmod::<F>(fmod::<F>(0 - b * c - p_i) + fmod::<F>(p_next)) == fmod::<F>(0 - b * c - p_i + p_next)) by {
            vstd::arithmetic::div_mod::lemma_add_mod_noop(0 - b * c - p_i, p_next, m);
        }
    }
}

/// `Σ_{j < m} chunk_j · r^j`, where `chunk_j` packs the bits
/// `j·s .. j·s + s` little-endian.
pub open spec fn aggregated_chunks(bits: Seq<bool>, s: nat, r: int, m: nat) -> int
    decreases m,
{
    if m == 0 {
        0
    } else {
        aggregated_chunks(bits, s, r, (m - 1) as nat) + chunk_value(bits, ((m - 1) * s) as int, s) * pow(r, (m - 1) as nat)
    }
}

/// Bit `t` of `bits` as 0 or 1 (0 past the end).
pub open spec fn bit_at(bits: Seq<bool>, t: int) -> int {
    if 0 <= t < bits.len() && bits[t] { 1 } else { 0 }
}

/// `Σ_{t < i} bit_t · r^(t / s) · 2^(t mod s)` over the integers.
pub open spec fn masked_bits_sum(bits: Seq<bool>, s: nat, r: int, i: nat) -> int
    decreases i,
{
    if i == 0 {
        0
    } else {
        masked_bits_sum(bits, s, r, (i - 1) as nat) + bit_at(bits, i - 1) * multipacking_mask_value(r, s, (i - 1) as nat)
    }
}

proof fn lemma_prefix_reduces<F: PrimeFieldElement>(regs: &BitmaskPackingRegisters<F>, n: nat, bits: Seq<bool>, i: nat)
    requires
        regs.is_packing_of(n, bits),
        i <= n,
    ensures
        fmod::<F>(inner_product_prefix(vals(regs.bitmask@), vals(regs.c@), i))
            == fmod::<F>(masked_bits_sum(bits, regs.block_size as nat, regs.r.value() as int, i)),
    decreases i,
{
    if i > 0 {
        lemma_prefix_reduces(regs, n, bits, (i - 1) as nat);
        let t = (i - 1) as int;
        let bv = vals(regs.bitmask@);
        let cv = vals(regs.c@);
        let mv = multipacking_mask_value(regs.r.value() as int, regs.block_size as nat, t as nat);
        assert(bv[t] == bit_at(bits, t));
        assert(cv[t] == fmod::<F>(mv));
        F::lemma_field_basics(regs.r);
        let pa = inner_product_prefix(bv, cv, t as nat);
        let pb = masked_bits_sum(bits, regs.block_size as nat, regs.r.value() as int, t as nat);
        // fmod(pa + b·fmod(mv)) == fmod(pb + b·mv)
        lemma_fmod_ops::<F>(pa, bv[t] * cv[t]);
        lemma_fmod_ops::<F>(pb, bv[t] * mv);
        lemma_fmod_ops::<F>(bv[t], mv);
        lemma_fmod_ops::<F>(bv[t], cv[t]);
        vstd::arithmetic::div_mod::lemma_mod_twice(mv, F::modulus() as int);
    }
}

proof fn lemma_masked_sum_by_chunks(bits: Seq<bool>, s: nat, r: int, j: nat, k: nat)
    requires
        s >= 1,
        k <= s,
    ensures
        masked_bits_sum(bits, s, r, j * s + k)
            == aggregated_chunks(bits, s, r, j) + chunk_value(bits, (j * s) as int, k) * pow(r, j),
    decreases j, k,
{
    if k == 0 {
        if j > 0 {
            lemma_masked_sum_by_chunks(bits, s, r, (j - 1) as nat, s);
            assert((j - 1) * s + s == j * s) by (nonlinear_arith);
        } else {
            assert(j * s + k == 0) by (nonlinear_arith) requires j == 0, k == 0;
        }
    } else {
        lemma_masked_sum_by_chunks(bits, s, r, j, (k - 1) as nat);
        let t = j * s + k - 1;
        assert(t == j * s + (k - 1)) by (nonlinear_arith) requires t == j * s + k - 1;
        vstd::arithmetic::div_mod::lemma_fundamental_div_mod_converse(t as int, s as int, j as int, (k - 1) as int);
        vstd::arithmetic::power2::lemma_pow2((k - 1) as nat);
        assert(bit_at(bits, t) * multipacking_mask_value(r, s, t as nat)
            == (if 0 <= j * s + k - 1 < bits.len() && bits[j * s + k - 1] { vstd::arithmetic::power2::pow2((k - 1) as nat) as int } else { 0 })
                * pow(r, j)) by (nonlinear_arith)
            requires
                multipacking_mask_value(r, s, t as nat) == pow(r, j) * pow(2, (k - 1) as nat),
                pow(2, (k - 1) as nat) == vstd::arithmetic::power2::pow2((k - 1) as nat) as int,
                bit_at(bits, t) == (if 0 <= j * s + k - 1 < bits.len() && bits[j * s + k - 1] { 1int } else { 0int }),
        {
        }
        let cv0 = chunk_value(bits, (j * s) as int, (k - 1) as nat);
        let inc = (if 0 <= j * s + k - 1 < bits.len() && bits[j * s + k - 1] { vstd::arithmetic::power2::pow2((k - 1) as nat) as int } else { 0 });
        assert(chunk_value(bits, (j * s) as int, k) == cv0 + inc);
        assert(cv0 * pow(r, j) + inc * pow(r, j) == (cv0 + inc) * pow(r, j)) by (nonlinear_arith);
    }
}

/// Soundness of the packing for the verifier: the aggregated bitmask
/// `Σ b_i c_i` the prover commits to equals `Σ_j chunk_j · r^j`, computed
/// from the bitmask chunks alone.
#[verifier::spinoff_prover]
pub proof fn lemma_packed_bitmask_aggregates_chunks<F: PrimeFieldElement>(
    regs: &BitmaskPackingRegisters<F>,
    n: nat,
    bits: Seq<bool>,
)
    requires
        regs.is_packing_of(n, bits),
    ensures
        regs.bitmask_chunks_aggregated.value() == fmod::<F>(aggregated_chunks(bits, regs.block_size as nat,
            regs.r.value() as int, n / (regs.block_size as nat))),
{
    let s = regs.block_size as nat;
    lemma_prefix_reduces(regs, n, bits, n);
    vstd::arithmetic::div_mod::lemma_fundamental_div_mod(n as int, s as int);
    let m = n / s;
    assert(n == m * s + 0) by (nonlinear_arith) requires n == s * m + 0;
    lemma_masked_sum_by_chunks(bits, s, regs.r.value() as int, m, 0);
    assert(chunk_value(bits, (m * s) as int, 0) == 0);
}

/// The multiplier between consecutive mask entries at row `i`: 2 inside a
/// chunk, and `r / 2^(s-1)` from the last entry of a chunk to the first of
/// the next.
pub open spec fn mask_step<F: PrimeFieldElement>(r: int, s: nat, i: nat) -> int {
    if (i + 1) % s == 0 {
        fmod::<F>(r * finv::<F>(pow(2, (s - 1) as nat)))
    } else {
        2
    }
}

proof fn lemma_fmod_zero<F: PrimeFieldElement>(x: int, y: int)
    requires
        F::modulus() > 0,
        fmod::<F>(x) == fmod::<F>(y),
    ensures
        fmod::<F>(x - y) == 0,
{
    let m = F::modulus() as int;
    vstd::arithmetic::div_mod::lemma_sub_mod_noop(x, y, m);
    vstd::arithmetic::div_mod::lemma_small_mod(0, m as nat);
}

/// Completeness of the multipacking-mask constraint: on the packing
/// registers, `c_shifted - c·a - (1 - r^m)·L_last` vanishes on every row,
/// where `a` is the step between consecutive mask entries (`m` chunks).
pub proof fn lemma_multipacking_mask_constraint_vanishes<F: PrimeFieldElement>(
    regs: &BitmaskPackingRegisters<F>,
    n: nat,
    bits: Seq<bool>,
    i: int,
)
    requires
        regs.is_packing_of(n, bits),
        0 <= i < n,
        fmod::<F>(pow(2, (regs.block_size - 1) as nat) * finv::<F>(pow(2, (regs.block_size - 1) as nat))) == 1,
    ensures
        fmod::<F>(regs.c_shifted@[i].value() - regs.c@[i].value()
            * mask_step::<F>(regs.r.value() as int, regs.block_size as nat, i as nat)
            - (1 - fmod::<F>(pow(regs.r.value() as int, n / (regs.block_size as nat))))
                * (if i == n - 1 { 1int } else { 0int })) == 0,
{
    let s = regs.block_size as nat;
    let r = regs.r.value() as int;
    let mm = F::modulus() as int;
    F::lemma_field_basics(regs.r);
    vstd::arithmetic::div_mod::lemma_fundamental_div_mod(i, s as int);
    vstd::arithmetic::div_mod::lemma_mod_bound(i, s as int);
    let j = i / (s as int);
    let k = i % (s as int);
    assert(i == j * (s as int) + k) by (nonlinear_arith) requires i == (s as int) * j + k;
    let ci = regs.c@[i].value() as int;
    assert(ci == fmod::<F>(pow(r, j as nat) * pow(2, k as nat)));
    let a = mask_step::<F>(r, s, i as nat);
    let inv = finv::<F>(pow(2, (s - 1) as nat));
    lemma_fmod_value(regs.c@[i]);
    vstd::arithmetic::div_mod::lemma_fundamental_div_mod(n as int, s as int);
    let m = n / s;
    assert(n == m * s) by (nonlinear_arith) requires n == s * m + 0;
    if (i + 1) % (s as int) != 0 {
        // Inside a chunk: c_{i+1} = 2·c_i.
        assert(k + 1 < s) by {
            if k + 1 == s {
                assert(i + 1 == (j + 1) * (s as int) + 0) by (nonlinear_arith)
                    requires i == j * (s as int) + k, k + 1 == s;
                vstd::arithmetic::div_mod::lemma_fundamental_div_mod_converse(i + 1, s as int, j + 1, 0);
            }
        }
        assert(i + 1 < n) by {
            if i + 1 == n {
                assert(i + 1 == (m as int) * (s as int) + 0);
                vstd::arithmetic::div_mod::lemma_fundamental_div_mod_converse(i + 1, s as int, m as int, 0);
            }
        }
        assert(regs.c_shifted@[i] == regs.c@[i + 1]);
        vstd::arithmetic::div_mod::lemma_fundamental_div_mod_converse(i + 1, s as int, j, k + 1);
        let next = regs.c@[i + 1].value() as int;
        assert(next == fmod::<F>(pow(r, j as nat) * pow(2, (k + 1) as nat)));
        lemma_pow_adds(2, k as nat, 1);
        lemma_pow1(2);
        let x = pow(r, j as nat) * pow(2, k as nat);
        assert(pow(r, j as nat) * pow(2, (k + 1) as nat) == x * 2) by (nonlinear_arith)
            requires pow(2, (k + 1) as nat) == pow(2, k as nat) * 2, x == pow(r, j as nat) * pow(2, k as nat);
        lemma_fmod_ops::<F>(x, 2);
        vstd::arithmetic::div_mod::lemma_small_mod(2, mm as nat);
        assert(fmod::<F>(ci * 2) == fmod::<F>(x * 2));
        vstd::arithmetic::div_mod::lemma_mod_twice(x * 2, mm);
        vstd::arithmetic::div_mod::lemma_sub_mod_noop(next, ci * 2, mm);
        assert(fmod::<F>(next) == fmod::<F>(x * 2));
        vstd::arithmetic::div_mod::lemma_small_mod(0, mm as nat);
        assert(fmod::<F>(fmod::<F>(next) - fmod::<F>(ci * 2)) == 0);
    } else {
        // Last entry of a chunk: c_i · r / 2^(s-1) = r^(j+1).
        assert(k == s - 1) by {
            vstd::arithmetic::div_mod::lemma_fundamental_div_mod(i + 1, s as int);
            if k + 1 < s {
                assert(i + 1 == j * (s as int) + (k + 1));
                vstd::arithmetic::div_mod::lemma_fundamental_div_mod_converse(i + 1, s as int, j, k + 1);
            }
        }
        let p2 = pow(2, (s - 1) as nat);
        let x = pow(r, j as nat) * p2;
        // c_i · a ≡ r^j · 2^(s-1) · r · inv ≡ r^(j+1) · (2^(s-1) · inv) ≡ r^(j+1)
        lemma_fmod_ops::<F>(x, r * inv);
        lemma_fmod_ops::<F>(p2 * inv, pow(r, (j + 1) as nat));
        lemma_pow_adds(r, j as nat, 1);
        lemma_pow1(r);
        assert(x * (r * inv) == (p2 * inv) * pow(r, (j + 1) as nat)) by (nonlinear_arith)
            requires x == pow(r, j as nat) * p2, pow(r, (j + 1) as nat) == pow(r, j as nat) * r;
        vstd::arithmetic::div_mod::lemma_mod_twice(x, mm);
        vstd::arithmetic::div_mod::lemma_mod_twice(r * inv, mm);
        lemma_fmod_ops::<F>(1, pow(r, (j + 1) as nat));
        vstd::arithmetic::div_mod::lemma_small_mod(1, mm as nat);
        vstd::arithmetic::div_mod::lemma_mod_twice(pow(r, (j + 1) as nat), mm);
        assert(fmod::<F>(ci * a) == fmod::<F>(pow(r, (j + 1) as nat))) by {
            assert(fmod::<F>(ci * a) == fmod::<F>(fmod::<F>(x) * fmod::<F>(r * inv)));
            assert(fmod::<F>(x * (r * inv)) == fmod::<F>(fmod::<F>(p2 * inv) * fmod::<F>(pow(r, (j + 1) as nat))));
            vstd::arithmetic::mul::lemma_mul_basics(fmod::<F>(pow(r, (j + 1) as nat)));
        }
        if i + 1 < n {
            assert(regs.c_shifted@[i] == regs.c@[i + 1]);
            assert(i + 1 == (j + 1) * (s as int) + 0) by (nonlinear_arith)
                requires i == j * (s as int) + k, k == s - 1;
            vstd::arithmetic::div_mod::lemma_fundamental_div_mod_converse(i + 1, s as int, j + 1, 0);
            lemma_pow0(2);
            let next = regs.c@[i + 1].value() as int;
            assert(next == fmod::<F>(pow(r, (j + 1) as nat) * pow(2, 0)));
            vstd::arithmetic::mul::lemma_mul_basics(pow(r, (j + 1) as nat));
            lemma_fmod_value(regs.c@[i + 1]);
            vstd::arithmetic::div_mod::lemma_sub_mod_noop(next, ci * a, mm);
            vstd::arithmetic::div_mod::lemma_small_mod(0, mm as nat);
        } else {
            // The last row wraps around to c_0 = 1, and r^(j+1) = r^m.
            assert(i == n - 1);
            assert(regs.c_shifted@[i] == regs.c@[0]);
            vstd::arithmetic::div_mod::lemma_fundamental_div_mod_converse(0, s as int, 0, 0);
            lemma_pow0(r);
            lemma_pow0(2);
            assert(regs.c@[0].value() == fmod::<F>(1int * 1int));
            assert(j + 1 == m) by (nonlinear_arith)
                requires i == j * s + (s - 1), i == n - 1, n == m * s, s >= 1;
            let rm = fmod::<F>(pow(r, m));
            // fmod(1 - c_i·a - (1 - rm)) with c_i·a ≡ r^m
            vstd::arithmetic::div_mod::lemma_sub_mod_noop(1 - ci * a, 1 - rm, mm);
            vstd::arithmetic::div_mod::lemma_sub_mod_noop(1, ci * a, mm);
            vstd::arithmetic::div_mod::lemma_sub_mod_noop(1, rm, mm);
            vstd::arithmetic::div_mod::lemma_mod_twice(pow(r, m), mm);
            vstd::arithmetic::div_mod::lemma_sub_mod_noop(fmod::<F>(1 - rm), fmod::<F>(1 - rm), mm);
            assert(fmod::<F>(1 - ci * a) == fmod::<F>(1 - rm)) by {
                vstd::arithmetic::div_mod::lemma_sub_mod_noop(1, ci * a, mm);
                vstd::arithmetic::div_mod::lemma_sub_mod_noop(1, rm, mm);
            }
            lemma_fmod_zero::<F>(1 - ci * a, 1 - rm);
            assert((1 - rm) * 1 == 1 - rm);
        }
    }
}

proof fn lemma_chunk_value_past_end(bits: Seq<bool>, start: int, len: nat)
    requires
        start >= bits.len(),
    ensures
        chunk_value(bits, start, len) == 0,
    decreases len,
{
    if len > 0 {
        lemma_chunk_value_past_end(bits, start, (len - 1) as nat);
    }
}

/// The step `a(ζω)` of the multipacking-mask constraint at ζω for chunks
/// of `s` bits, with `x = (ζω)^m`:
/// `2 + (r / 2^(s-1) - 2) · (1/s) · (x^s - 1) / (x - 1)`.
pub open spec fn packed_a<F: PrimeFieldElement>(r: int, s: nat, x: int) -> int {
    let a1 = fmod::<F>(fmod::<F>(finv::<F>(s as int) * fmod::<F>(pow(x, s) - 1)) * finv::<F>(fmod::<F>(x - 1)));
    let t = fmod::<F>(r * finv::<F>(fmod::<F>(pow(2, (s - 1) as nat))));
    fmod::<F>(2 + fmod::<F>(fmod::<F>(t - 2) * a1))
}

/// The multipacking mask factor at ζω is the value there of the interpolant
/// of the prover's per-row factor `2 + (r/2^(s-1) - 2)·δ`, where δ marks a
/// chunk's last row. In `x = (ζω)^m`, that interpolant of δ is
/// `(1/s)·Σ_{j<s} x^j` (1 at `x = 1`, 0 at the other `s`-th roots of unity),
/// so for `x ≠ 1` the factor is `2 + (r/2^(s-1) - 2)·(1/s)·Σ_{j<s} x^j`, and
/// it is 2 wherever `x^s = 1`.
pub proof fn lemma_packed_a_is_mask_interpolant<F: PrimeFieldElement>(r: int, s: nat, x: int)
    requires
        is_prime_spec(F::modulus()),
        1 <= s,
        fmod::<F>(x - 1) != 0,
    ensures
        packed_a::<F>(r, s, x) == fmod::<F>(2 + (fmod::<F>(r * finv::<F>(fmod::<F>(pow(2, (s - 1) as nat)))) - 2)
            * finv::<F>(s as int) * sum(|j: int| pow(x, j as nat), s)),
        fmod::<F>(pow(x, s)) == 1 ==> packed_a::<F>(r, s, x) == 2,
{
    F::lemma_field_basics(arbitrary());
    let m = F::modulus() as int;
    let g = sum(|j: int| pow(x, j as nat), s);
    lemma_geometric_sum(x, s);
    let fs = finv::<F>(s as int);
    let xm = fmod::<F>(x - 1);
    let iv = finv::<F>(xm);
    lemma_fmod_twice::<F>(x - 1);
    lemma_finv_is_inverse::<F>(xm);
    let ps1 = pow(x, s) - 1;
    lemma_fmod_twice::<F>(ps1);
    let big_a = fmod::<F>(fs * fmod::<F>(ps1));
    lemma_fmod_congruent::<F>(fs, fs, fmod::<F>(ps1), ps1);
    lemma_fmod_twice::<F>(fs * ps1);
    lemma_fmod_twice::<F>(fs * fmod::<F>(ps1));
    lemma_fmod_congruent::<F>(big_a, fs * ps1, iv, iv);
    assert(fs * ps1 * iv == (fs * g) * ((x - 1) * iv)) by (nonlinear_arith)
        requires ps1 == (x - 1) * g;
    lemma_fmod_congruent::<F>(x - 1, xm, iv, iv);
    lemma_small_mod(1, m as nat);
    lemma_fmod_congruent::<F>(fs * g, fs * g, (x - 1) * iv, 1);
    let a1 = fmod::<F>(big_a * iv);
    assert(a1 == fmod::<F>(fs * g));
    let t = fmod::<F>(r * finv::<F>(fmod::<F>(pow(2, (s - 1) as nat))));
    lemma_fmod_twice::<F>(t - 2);
    lemma_fmod_twice::<F>(fs * g);
    lemma_fmod_congruent::<F>(fmod::<F>(t - 2), t - 2, a1, fs * g);
    lemma_fmod_twice::<F>((t - 2) * (fs * g));
    lemma_fmod_twice::<F>(fmod::<F>(t - 2) * a1);
    lemma_fmod_congruent::<F>(2, 2, fmod::<F>(fmod::<F>(t - 2) * a1), (t - 2) * (fs * g));
    assert((t - 2) * fs * g == (t - 2) * (fs * g)) by (nonlinear_arith);
    if fmod::<F>(pow(x, s)) == 1 {
        lemma_fmod_sub_zero::<F>(pow(x, s), 1);
        lemma_small_mod(0, m as nat);
        assert(fmod::<F>(ps1) == 0);
        let zp = fmod::<F>(ps1);
        assert(fs * zp == 0) by (nonlinear_arith)
            requires zp == 0;
        assert(big_a == 0);
        assert(a1 == fmod::<F>(0 * iv));
        assert(fmod::<F>(t - 2) * 0 == 0);
        lemma_small_mod(2, m as nat);
    }
}

/// The number of chunks for a domain of size `n`.
pub open spec fn chunks_in_bitmask<F: PrimeFieldElement>(n: nat) -> nat {
    n / block_size_spec(n, F::capacity())
}

impl<F: PrimeFieldElement> SuccinctAccountableRegisterEvaluations<F> {
    /// The seven constraints at ζ checked by the verifier of the packed
    /// scheme: the five affine-addition constraints, the linearized
    /// inner-product constraint against the aggregated bitmask chunks, and
    /// the linearized multipacking-mask constraint.
    pub fn evaluate_constraint_polynomials(
        &self,
        h: (F, F),
        apk_plus_h: (F, F),
        evals_at_zeta: &LagrangeEvaluations<F>,
        r: &F,
        bitmask: &Bitmask,
        domain_size: u64,
    ) -> (res: Vec<F>)
        requires
            1 <= domain_size <= usize::MAX,
            fmod::<F>(pow(evals_at_zeta.zeta_omega.value() as int, chunks_in_bitmask::<F>(domain_size as nat))) != 1,
        ensures
            res@.len() == 7,
            self.basic_evaluations.are_constraint_values(h, apk_plus_h, *evals_at_zeta, res@.take(5)),
            ({
                let s = block_size_spec(domain_size as nat, F::capacity());
                let m = chunks_in_bitmask::<F>(domain_size as nat);
                let agg = fmod::<F>(aggregated_chunks(bitmask@, s, r.value() as int, m));
                let b = self.basic_evaluations.bitmask.value() as int;
                let x = fmod::<F>(pow(evals_at_zeta.zeta_omega.value() as int, m));
                let a = packed_a::<F>(r.value() as int, s, x);
                let ll = evals_at_zeta.l_last.value() as int;
                &&& res@[5].value() == fmod::<F>(0 - self.acc.value() - b * self.c.value() + agg * ll)
                &&& res@[6].value() == fmod::<F>(0 - self.c.value() * a
                    - (1 - fmod::<F>(pow(r.value() as int, m))) * ll)
            }),
    {
        let n = domain_size as usize;
        let field_bit_capacity = F::capacity_bits();
        let s = compute_block_size(n, field_bit_capacity);
        let ghost cap = field_bit_capacity as nat;
        proof {
            if exists|d: nat| #[trigger] is_fitting_divisor(d, n as nat, cap) {
                let c = block_size_spec(n as nat, cap);
                assert(is_fitting_divisor(c, n as nat, cap));
                lemma_cofactor(c, n as nat);
                lemma_fundamental_div_mod(n as int, c as int);
            }
            lemma_div_is_ordered(s as int, n as int, s as int);
            lemma_div_by_self(s as int);
        }
        let chunks = n / s;
        proof {
            assert(chunks >= 1) by {
                if !(exists|d: nat| #[trigger] is_fitting_divisor(d, n as nat, cap)) {
                    assert(s == 1);
                    lemma_div_by_self(1);
                    assert(n / 1 == n);
                }
            }
        }
        let s_field = F::from_u64(s as u64);
        proof {
            F::lemma_field_basics(s_field);
        }
        let s_inv = s_field.inverse().unwrap();

        let powers_of_r = powers(r, chunks - 1);
        let r_pow_m = r.mul(&powers_of_r[chunks - 1]);
        let mut bitmask_chunks: Vec<F> = bitmask.to_chunks_by_bits(s);
        let ghost nc = bitmask_chunks@.len();
        bitmask_chunks.truncate(chunks);
        while bitmask_chunks.len() < chunks
            invariant
                bitmask_chunks@.len() <= chunks,
                bitmask_chunks@.len() >= nc || bitmask_chunks@.len() == chunks,
                forall|j: int| 0 <= j < bitmask_chunks@.len() ==> #[trigger] bitmask_chunks@[j].value()
                    == (if j < nc { fmod::<F>(chunk_value(bitmask@, j * s, s as nat)) } else { 0 }),
            decreases chunks - bitmask_chunks@.len(),
        {
            bitmask_chunks.push(F::zero());
        }

        // Σ_j chunk_j · r^j
        let ghost rv = r.value() as int;
        let mut aggregated = F::zero();
        let mut j: usize = 0;
        proof {
            lemma_fmod_value(aggregated);
            lemma_fmod_value(*r);
        }
        while j < chunks
            invariant
                bitmask_chunks@.len() == chunks,
                powers_of_r@.len() == chunks,
                rv == r.value() as int,
                s >= 1,
                nc == (bitmask@.len() + s - 1) / (s as int),
                F::modulus() > 0,
                forall|t: int| 0 <= t < chunks ==> #[trigger] powers_of_r@[t].value() == fmod::<F>(pow(rv, t as nat)),
                forall|t: int| 0 <= t < bitmask_chunks@.len() ==> #[trigger] bitmask_chunks@[t].value()
                    == (if t < nc { fmod::<F>(chunk_value(bitmask@, t * s, s as nat)) } else { 0 }),
                0 <= j <= chunks,
                aggregated.value() == fmod::<F>(aggregated_chunks(bitmask@, s as nat, rv, j as nat)),
            decreases chunks - j,
        {
            let t = bitmask_chunks[j].mul(&powers_of_r[j]);
            proof {
                let cvj = chunk_value(bitmask@, j * s, s as nat);
                if j >= nc {
                    lemma_fundamental_div_mod((bitmask@.len() + s - 1) as int, s as int);
                    lemma_mod_bound((bitmask@.len() + s - 1) as int, s as int);
                    assert(j * s >= bitmask@.len()) by (nonlinear_arith)
                        requires j >= nc, (bitmask@.len() + s - 1) == s * nc + (bitmask@.len() + s - 1) % (s as int),
                            (bitmask@.len() + s - 1) % (s as int) < s, s >= 1;
                    lemma_chunk_value_past_end(bitmask@, j * s, s as nat);
                    vstd::arithmetic::div_mod::lemma_small_mod(0, F::modulus());
                }
                assert(bitmask_chunks@[j as int].value() == fmod::<F>(cvj));
                lemma_fmod_ops::<F>(cvj, pow(rv, j as nat));
                lemma_fmod_ops::<F>(aggregated_chunks(bitmask@, s as nat, rv, j as nat), cvj * pow(rv, j as nat));
                F::lemma_field_basics(t);
                lemma_fmod_value(t);
                lemma_fmod_value(aggregated);
            }
            aggregated = aggregated.add(&t);
            j += 1;
        }

        // A(ζω) = (1/s)·((ζω)^n - 1) / ((ζω)^m - 1)
        let zeta_omega_pow_m = pow_u64_checked(&evals_at_zeta.zeta_omega, chunks as u64);
        let zeta_omega_pow_n = pow_u64_checked(&zeta_omega_pow_m, s as u64);
        let one = F::one();
        let num = s_inv.mul(&zeta_omega_pow_n.sub(&one));
        let den = zeta_omega_pow_m.sub(&one);
        proof {
            lemma_fmod_value(one);
            lemma_fmod_value(zeta_omega_pow_m);
            assert(chunks == chunks_in_bitmask::<F>(domain_size as nat));
            lemma_minus_one_nonzero::<F>(zeta_omega_pow_m.value() as int);
        }
        let den_inv = den.inverse().unwrap();
        let a_zeta_omega1 = num.mul(&den_inv);

        let two = F::from_u64(2);
        let two_pow = pow_u64_checked(&two, (s - 1) as u64);
        proof {
            F::lemma_field_basics(two);
            lemma_two_pow_nonzero::<F>((s - 1) as nat, cap);
        }
        let two_pow_inv = two_pow.inverse().unwrap();
        let t = r.mul(&two_pow_inv);
        let a = two.add(&t.sub(&two).mul(&a_zeta_omega1));
        proof {
            let x = zeta_omega_pow_m.value() as int;
            lemma_fmod_value(s_inv);
            lemma_fmod_value(den_inv);
            lemma_fmod_value(two_pow_inv);
            lemma_fmod_value(s_field);
            vstd::arithmetic::mul::lemma_mul_is_commutative(s_inv.value() as int, s as int);
            vstd::arithmetic::mul::lemma_mul_is_commutative(den_inv.value() as int, den.value() as int);
            vstd::arithmetic::mul::lemma_mul_is_commutative(two_pow_inv.value() as int, two_pow.value() as int);
            lemma_inverse_is_finv::<F>(s as int, s_inv.value() as int);
            lemma_inverse_is_finv::<F>(den.value() as int, den_inv.value() as int);
            lemma_inverse_is_finv::<F>(two_pow.value() as int, two_pow_inv.value() as int);
            lemma_fmod_value(zeta_omega_pow_n);
            lemma_fmod_ops::<F>(pow(x, s as nat), 1);
            lemma_small_two::<F>();
        }

        let b = self.basic_evaluations.bitmask;
        let a6 = BitmaskPackingRegisters::<F>::evaluate_inner_product_constraint_linearized(
            &aggregated, evals_at_zeta, &b, &self.c, &self.acc);
        let a7 = BitmaskPackingRegisters::<F>::evaluate_multipacking_mask_constraint_linearized(
            &a, &r_pow_m, evals_at_zeta, &self.c);
        proof {
            lemma_fmod_value(*r);
            lemma_fmod_ops::<F>(rv, pow(rv, (chunks - 1) as nat));
            lemma_pow_adds(rv, (chunks - 1) as nat, 1);
            lemma_pow1(rv);
            vstd::arithmetic::mul::lemma_mul_is_commutative(rv, pow(rv, (chunks - 1) as nat));
        }
        let mut res = self.basic_evaluations.evaluate_constraint_polynomials(h, apk_plus_h, evals_at_zeta);
        let ghost old_res = res@;
        res.push(a6);
        res.push(a7);
        proof {
            assert(res@.take(5) =~= old_res);
        }
        res
    }
}

/// `x^e` with the exponent as a `u64`; the result is reduced.
fn pow_u64_checked<F: PrimeFieldElement>(x: &F, e: u64) -> (r: F)
    ensures
        r.value() == fmod::<F>(pow(x.value() as int, e as nat)),
{
    crate::field::pow_u64(x, e)
}

proof fn lemma_minus_one_nonzero<F: PrimeFieldElement>(x: int)
    requires
        0 <= x < F::modulus(),
        x != 1,
    ensures
        fmod::<F>(x - 1) != 0,
{
    let m = F::modulus() as int;
    F::lemma_field_basics(arbitrary());
    if x == 0 {
        vstd::arithmetic::div_mod::lemma_mod_add_multiples_vanish(-1, m);
        vstd::arithmetic::div_mod::lemma_small_mod((m - 1) as nat, m as nat);
    } else {
        vstd::arithmetic::div_mod::lemma_small_mod((x - 1) as nat, m as nat);
    }
}

proof fn lemma_small_two<F: PrimeFieldElement>()
    ensures
        fmod::<F>(2) == 2,
{
    F::lemma_field_basics(arbitrary());
    vstd::arithmetic::div_mod::lemma_small_mod(2, F::modulus());
}

proof fn lemma_two_pow_nonzero<F: PrimeFieldElement>(e: nat, cap: nat)
    requires
        e < cap,
        pow2(cap) <= F::modulus(),
    ensures
        fmod::<F>(pow(2, e)) != 0,
{
    lemma_pow2(e);
    lemma_pow2_strictly_increases(e, cap);
    lemma_pow2_pos(e);
    vstd::arithmetic::div_mod::lemma_small_mod(pow2(e), F::modulus());
}

/// The prover's multipacking-mask constraint polynomial. The registers `c`
/// and its shift `c_shifted`, the mask factor `a`, and the last Lagrange
/// polynomial `l_last` are given on the `4n`-point domain; the constraint
/// `c_shifted - c·a - (1 - r^m)·l_last` (with `m` the number of chunks) is
/// evaluated pointwise and interpolated over the domain. In a prime field the
/// result takes that value at every domain element.
pub fn compute_multipacking_mask_constraint_polynomial<F: PrimeFieldElement>(
    domain: &SmoothSubgroupDomain<F>,
    c: &Vec<F>,
    c_shifted: &Vec<F>,
    a: &Vec<F>,
    l_last: &Vec<F>,
    r: &F,
    chunks: u64,
) -> (res: Vec<F>)
    requires
        domain.wf(),
        domain.rader_ready(),
        domain.size <= usize::MAX,
        c@.len() == domain.size,
        c_shifted@.len() == domain.size,
        a@.len() == domain.size,
        l_last@.len() == domain.size,
    ensures
        res@.len() == domain.size,
        is_prime_spec(F::modulus()) ==> forall|i: int| 0 <= i < domain.size ==>
            poly_eval(field_values(res@), #[trigger] domain.element_value(i as nat)) % (F::modulus() as int)
                == fmod::<F>(c_shifted@[i].value() - c@[i].value() * a@[i].value()
                    - (1 - fmod::<F>(pow(r.value() as int, chunks as nat))) * l_last@[i].value()),
{
    let n = domain.size as usize;
    let r_pow_m = pow_u64(r, chunks);
    let zero = F::zero();
    let mut v: Vec<F> = Vec::new();
    let mut i: usize = 0;
    while i < n
        invariant
            n == domain.size,
            c@.len() == n,
            c_shifted@.len() == n,
            a@.len() == n,
            l_last@.len() == n,
            r_pow_m.value() == fmod::<F>(pow(r.value() as int, chunks as nat)),
            0 <= i <= n,
            v@.len() == i,
            forall|t: int| 0 <= t < i ==> #[trigger] v@[t].value() == fmod::<F>(c_shifted@[t].value()
                - c@[t].value() * a@[t].value() - (1 - fmod::<F>(pow(r.value() as int, chunks as nat))) * l_last@[t].value()),
        decreases n - i,
    {
        let lagrange = LagrangeEvaluations {
            vanishing_polynomial: zero,
            l_first: zero,
            l_last: l_last[i],
            zeta_minus_omega_inv: zero,
            zeta_omega: zero,
        };
        v.push(BitmaskPackingRegisters::<F>::evaluate_multipacking_mask_constraint(&a[i], &r_pow_m, &lagrange, &c[i],
            &c_shifted[i]));
        i += 1;
    }
    let ghost vals = v@;
    domain.ifft_in_place(&mut v);
    proof {
        if is_prime_spec(F::modulus()) {
            assert forall|i: int| 0 <= i < domain.size implies
                poly_eval(field_values(v@), #[trigger] domain.element_value(i as nat)) % (F::modulus() as int)
                    == fmod::<F>(c_shifted@[i].value() - c@[i].value() * a@[i].value()
                        - (1 - fmod::<F>(pow(r.value() as int, chunks as nat))) * l_last@[i].value()) by {
                lemma_ifft_interpolates(*domain, vals, field_values(v@), i as nat);
            }
        }
    }
    v
}

/// The prover's inner-product constraint polynomial. The registers `acc`, its
/// shift `acc_shifted`, the bitmask `b`, the mask `c` and the last Lagrange
/// polynomial `l_last` are given on the `4n`-point domain; the constraint
/// `acc_shifted - acc - b·c + agg·l_last` (with `agg` the aggregated bitmask
/// chunks) is evaluated pointwise and interpolated over the domain. In a
/// prime field the result takes that value at every domain element.
pub fn compute_inner_product_constraint_polynomial<F: PrimeFieldElement>(
    domain: &SmoothSubgroupDomain<F>,
    acc: &Vec<F>,
    acc_shifted: &Vec<F>,
    b: &Vec<F>,
    c: &Vec<F>,
    l_last: &Vec<F>,
    bitmask_chunks_aggregated: &F,
) -> (res: Vec<F>)
    requires
        domain.wf(),
        domain.rader_ready(),
        domain.size <= usize::MAX,
        acc@.len() == domain.size,
        acc_shifted@.len() == domain.size,
        b@.len() == domain.size,
        c@.len() == domain.size,
        l_last@.len() == domain.size,
    ensures
        res@.len() == domain.size,
        is_prime_spec(F::modulus()) ==> forall|i: int| 0 <= i < domain.size ==>
            poly_eval(field_values(res@), #[trigger] domain.element_value(i as nat)) % (F::modulus() as int)
                == fmod::<F>(acc_shifted@[i].value() - acc@[i].value() - b@[i].value() * c@[i].value()
                    + bitmask_chunks_aggregated.value() * l_last@[i].value()),
{
    let n = domain.size as usize;
    let zero = F::zero();
    let mut v: Vec<F> = Vec::new();
    let mut i: usize = 0;
    while i < n
        invariant
            n == domain.size,
            acc@.len() == n,
            acc_shifted@.len() == n,
            b@.len() == n,
            c@.len() == n,
            l_last@.len() == n,
            0 <= i <= n,
            v@.len() == i,
            forall|t: int| 0 <= t < i ==> #[trigger] v@[t].value() == fmod::<F>(acc_shifted@[t].value()
                - acc@[t].value() - b@[t].value() * c@[t].value() + bitmask_chunks_aggregated.value() * l_last@[t].value()),
        decreases n - i,
    {
        let lagrange = LagrangeEvaluations {
            vanishing_polynomial: zero,
            l_first: zero,
            l_last: l_last[i],
            zeta_minus_omega_inv: zero,
            zeta_omega: zero,
        };
        v.push(BitmaskPackingRegisters::<F>::evaluate_inner_product_constraint(bitmask_chunks_aggregated, &lagrange,
            &b[i], &c[i], &acc[i], &acc_shifted[i]));
        i += 1;
    }
    let ghost vals = v@;
    domain.ifft_in_place(&mut v);
    proof {
        if is_prime_spec(F::modulus()) {
            assert forall|i: int| 0 <= i < domain.size implies
                poly_eval(field_values(v@), #[trigger] domain.element_value(i as nat)) % (F::modulus() as int)
                    == fmod::<F>(acc_shifted@[i].value() - acc@[i].value() - b@[i].value() * c@[i].value()
                        + bitmask_chunks_aggregated.value() * l_last@[i].value()) by {
                lemma_ifft_interpolates(*domain, vals, field_values(v@), i as nat);
            }
        }
    }
    v
}

} // verus!
