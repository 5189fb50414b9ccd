//! An evaluation domain for fields whose multiplicative group has no large
//! power-of-two subgroup but does have smooth-order subgroups (BW6-767,
//! whose scalar field has two-adicity 1). Transforms are computed by
//! Good-Thomas (coprime factors, no twiddles) or Cooley-Tukey (any
//! factorisation, with twiddles), with Rader's algorithm for prime sizes.
use vstd::prelude::*;
use vstd::arithmetic::div_mod::*;
use vstd::arithmetic::mul::*;
use vstd::arithmetic::power::*;
use vstd::arithmetic::power2::*;
use crate::field::{PrimeFieldElement, Fr767, pow_u64, is_zero, is_one, fmod};
use crate::number_theory::{
    is_prime, is_prime_spec, trial_factor, primitive_root, mod_inverse, passes_root_test,
    factors_product, lemma_factors_product_push, smallest_smooth_divisor_geq, is_prime_factorization, is_divisor,
    lemma_prime_divides_pow, lemma_prime_divisor_is_listed, lemma_factor_divides_product,
    lemma_euclid, lemma_prime_divisor_exists, lemma_divides_trans, find_primitive_root,
};
use crate::limbs::{limbs_value, div_with_remainder};
use crate::dft::{
    dft_sum, dft_term, lemma_dft_sum_is_sum, root_pow, cyclic_diff, lemma_root_pows_distinct, lemma_root_pow_nonzero,
    lemma_rader_output, crt_index, ruritanian_index, lemma_crt_index_injective, lemma_ruritanian_injective,
};
use crate::utils::{poly_eval, lemma_poly_eval_is_sum};
use crate::sums::{sum, lemma_injective_onto, lemma_sum_ext, lemma_sum_congruent, lemma_sum_scale, lemma_sum_swap};
use crate::number_theory::{gcd, lemma_gcd_divides, lemma_divisor_of_prime, lemma_pow_gcd, lemma_divisor_le_nat};

verus! {

/// Fields with smooth-order multiplicative subgroups.
pub trait SmoothDomainConfig: PrimeFieldElement {
    /// Prime factorisation of the smooth part of `p - 1`.
    fn smooth_factors() -> (r: Vec<(u64, u32)>)
        ensures
            factors_product(r@) == Self::smooth_part_spec();

    spec fn smooth_part_spec() -> nat;

    /// Product of all smooth factors.
    fn smooth_part() -> (r: u64)
        ensures
            r == Self::smooth_part_spec();

    /// The smooth part is a positive integer.
    proof fn lemma_smooth_part_positive()
        ensures
            Self::smooth_part_spec() >= 1;
}

/// BW6-767 Fr (= BLS12-381 Fq): `p - 1 = 2 · 3² · 11 · 23 · 47 · 10177 · (large prime)`.
impl SmoothDomainConfig for Fr767 {
    fn smooth_factors() -> (r: Vec<(u64, u32)>) {
        let r = vec![(2u64, 1u32), (3, 2), (11, 1), (23, 1), (47, 1), (10177, 1)];
        proof {
            let s0 = Seq::<(u64, u32)>::empty();
            assert(factors_product(s0) == 1);
            let s1 = s0.push((2u64, 1u32));
            assert(pow(2, 1) == 2) by { reveal_with_fuel(pow, 3); }
            lemma_factors_product_push(s0, (2u64, 1u32));
            assert(factors_product(s1) == 2);
            let s2 = s1.push((3u64, 2u32));
            assert(pow(3, 2) == 9) by { reveal_with_fuel(pow, 3); }
            lemma_factors_product_push(s1, (3u64, 2u32));
            assert(factors_product(s2) == 18);
            let s3 = s2.push((11u64, 1u32));
            assert(pow(11, 1) == 11) by { reveal_with_fuel(pow, 3); }
            lemma_factors_product_push(s2, (11u64, 1u32));
            assert(factors_product(s3) == 198);
            let s4 = s3.push((23u64, 1u32));
            assert(pow(23, 1) == 23) by { reveal_with_fuel(pow, 3); }
            lemma_factors_product_push(s3, (23u64, 1u32));
            assert(factors_product(s4) == 4554);
            let s5 = s4.push((47u64, 1u32));
            assert(pow(47, 1) == 47) by { reveal_with_fuel(pow, 3); }
            lemma_factors_product_push(s4, (47u64, 1u32));
            assert(factors_product(s5) == 214038);
            let s6 = s5.push((10177u64, 1u32));
            assert(pow(10177, 1) == 10177) by { reveal_with_fuel(pow, 3); }
            lemma_factors_product_push(s5, (10177u64, 1u32));
            assert(factors_product(s6) == 2178264726);
            assert(r@ =~= s6);
        }
        r
    }

    open spec fn smooth_part_spec() -> nat {
        2_178_264_726
    }

    fn smooth_part() -> (r: u64) {
        2_178_264_726
    }

    proof fn lemma_smooth_part_positive() {
    }
}

// ----------------------------------------------------------------------------
// Discrete Fourier transform specification
// ----------------------------------------------------------------------------

/// The canonical values of a sequence of field elements, as integers.
pub open spec fn values<F: PrimeFieldElement>(x: Seq<F>) -> Seq<int> {
    Seq::new(x.len(), |i: int| x[i].value() as int)
}

/// `out` holds the discrete Fourier transform of the values `v` at `w`:
/// `out_k = Σ_j v_j · w^(j k) mod p` for every `k`.
pub open spec fn is_dft_of_values<F: PrimeFieldElement>(out: Seq<F>, v: Seq<int>, w: nat) -> bool {
    &&& out.len() == v.len()
    &&& forall|k: int| 0 <= k < v.len() ==>
        #[trigger] out[k].value() == dft_sum(v, w, k as nat, v.len()) % (F::modulus() as int)
}

/// `out` is the discrete Fourier transform of `x` at `w`.
pub open spec fn is_dft<F: PrimeFieldElement>(out: Seq<F>, x: Seq<F>, w: nat) -> bool {
    is_dft_of_values(out, values(x), w)
}

/// Sum of the values of the elements of `x`.
pub open spec fn value_sum<F: PrimeFieldElement>(x: Seq<F>, i: nat) -> int
    decreases i,
{
    if i == 0 {
        0
    } else {
        value_sum(x, (i - 1) as nat) + x[i - 1].value() as int
    }
}

proof fn lemma_mod_acc(a: int, x: int, b: int, m: int)
    requires
        m > 0,
    ensures
        ((a % m) + (x * (b % m)) % m) % m == (a + x * b) % m,
{
    lemma_mul_mod_noop_right(x, b, m);
    lemma_add_mod_noop(a, x * b, m);
    lemma_mod_twice(a, m);
    lemma_mod_twice(x * b, m);
}

proof fn lemma_pow_mod_step(w: int, e: nat, k: nat, m: int)
    requires
        m > 0,
    ensures
        ((pow(w, e) % m) * (pow(w, k) % m)) % m == pow(w, e + k) % m,
{
    lemma_pow_adds(w, e, k);
    lemma_mul_mod_noop(pow(w, e), pow(w, k), m);
}

/// Naive O(n²) DFT in place: `x_k ← Σ_j x_j ω^(j k)`.
pub fn dft_naive<F: PrimeFieldElement>(vals: &mut Vec<F>, omega: &F)
    ensures
        is_dft(final(vals)@, old(vals)@, omega.value()),
{
    let n = vals.len();
    let mut input: Vec<F> = Vec::new();
    let mut t: usize = 0;
    while t < n
        invariant
            n == vals@.len(),
            t <= n,
            input@ == vals@.take(t as int),
        decreases n - t,
    {
        input.push(vals[t]);
        t += 1;
        proof {
            assert(input@ =~= vals@.take(t as int));
        }
    }
    proof {
        assert(input@ =~= vals@);
    }
    let ghost x = values(input@);
    let ghost w = omega.value();
    let ghost m = F::modulus() as int;
    proof {
        F::lemma_field_basics(*omega);
    }
    let mut k: usize = 0;
    while k < n
        invariant
            n == vals@.len(),
            x == values(input@),
            n == x.len(),
            n == input@.len(),
            w == omega.value(),
            m == F::modulus() as int,
            m > 1,
            0 <= k <= n,
            forall|j: int| 0 <= j < k ==> #[trigger] vals@[j].value() == dft_sum(x, w, j as nat, n as nat) % m,
        decreases n - k,
    {
        let omega_k = pow_u64(omega, k as u64);
        let mut omega_ki = F::one();
        let mut sum = F::zero();
        let mut i: usize = 0;
        proof {
            lemma_pow0(w as int);
            lemma_small_mod(1, m as nat);
            lemma_small_mod(0, m as nat);
        }
        while i < n
            invariant
                n == x.len(),
                n == input@.len(),
                x == values(input@),
                w == omega.value(),
                m == F::modulus() as int,
                m > 1,
                0 <= i <= n,
                omega_k.value() == pow(w as int, k as nat) % m,
                omega_ki.value() == pow(w as int, (i * k) as nat) % m,
                sum.value() == dft_sum(x, w, k as nat, i as nat) % m,
            decreases n - i,
        {
            let term = input[i].mul(&omega_ki);
            proof {
                assert(x[i as int] == input@[i as int].value() as int);
                lemma_mod_acc(dft_sum(x, w, k as nat, i as nat), x[i as int],
                    pow(w as int, (i * k) as nat), m);
                lemma_pow_mod_step(w as int, (i * k) as nat, k as nat, m);
                assert((i * k) + k == (i + 1) * k) by (nonlinear_arith);
                lemma_mul_is_commutative(x[i as int], (pow(w as int, (i * k) as nat) % m));
            }
            sum = sum.add(&term);
            omega_ki = omega_ki.mul(&omega_k);
            i += 1;
        }
        vals.set(k, sum);
        k += 1;
    }
}

/// `p` has an element passing the primitive-root test (every prime does).
pub open spec fn has_primitive_root(p: nat) -> bool {
    exists|h: nat| 2 <= h < p && #[trigger] passes_root_test(h, p)
}

/// `gcd(g, p) = 1` for a prime `p` and `0 < g < p`.
proof fn lemma_gcd_with_prime(g: nat, p: nat)
    requires
        is_prime_spec(p),
        0 < g < p,
    ensures
        gcd(g, p) == 1,
{
    lemma_gcd_divides(g, p);
    let d = gcd(g, p);
    lemma_divisor_of_prime(p, d);
    if d == p {
        lemma_small_mod(g, p);
    }
}

/// The transform at index 0 is the sum of the values.
proof fn lemma_dft_at_zero<F: PrimeFieldElement>(x: Seq<F>, w: nat, i: nat)
    requires
        i <= x.len(),
    ensures
        dft_sum(values(x), w, 0, i) == value_sum(x, i),
    decreases i,
{
    if i > 0 {
        lemma_dft_at_zero(x, w, (i - 1) as nat);
        lemma_pow0(w as int);
        assert(((i - 1) * 0) as nat == 0) by (nonlinear_arith);
    }
}

/// The summands `a_t · b_((j - t) mod n)` of a cyclic convolution.
pub open spec fn conv_term<F: PrimeFieldElement>(a: Seq<F>, b: Seq<F>, n: int, j: int) -> spec_fn(int) -> int {
    |t: int| (a[t].value() as int) * (b[cyclic_diff(j, t, n)].value() as int)
}

/// Rader's algorithm: a DFT of prime size `p` as a cyclic convolution of
/// length `p - 1`, with the inputs and outputs reordered by powers of a
/// primitive root modulo `p`. The result is the transform whenever
/// `ω^p = 1`.
pub fn rader_fft<F: PrimeFieldElement>(vals: &mut Vec<F>, omega: &F)
    requires
        old(vals)@.len() >= 3,
        old(vals)@.len() <= u64::MAX,
        is_prime_spec(old(vals)@.len() as nat),
        has_primitive_root(old(vals)@.len() as nat),
    ensures
        final(vals)@.len() == old(vals)@.len(),
        final(vals)@[0].value() == value_sum(old(vals)@, old(vals)@.len() as nat) % (F::modulus() as int),
        pow(omega.value() as int, old(vals)@.len() as nat) % (F::modulus() as int) == 1
            ==> is_dft(final(vals)@, old(vals)@, omega.value()),
{
    let p = vals.len();
    let ghost x = vals@;
    let ghost xv = values(x);
    let ghost m = F::modulus() as int;
    let ghost w = omega.value() as int;
    proof {
        F::lemma_field_basics(*omega);
    }
    let g = primitive_root(p as u64);
    let g_inv = mod_inverse(g, p as u64) as usize;
    proof {
        lemma_gcd_with_prime(g as nat, p as nat);
        lemma_small_mod(1, p as nat);
        assert((g as int * g_inv as int) % (p as int) == 1);
    }

    // g^i mod p and g^(-i) mod p for i < p - 1.
    let mut g_pow: Vec<usize> = Vec::new();
    let mut g_inv_pow: Vec<usize> = Vec::new();
    let mut cur: usize = 1;
    let mut i: usize = 0;
    proof {
        lemma_pow0(g as int);
        lemma_small_mod(1, p as nat);
    }
    while i < p - 1
        invariant
            p == x.len(),
            p >= 3,
            is_prime_spec(p as nat),
            2 <= g < p,
            p <= u64::MAX,
            0 <= i <= p - 1,
            g_pow@.len() == i,
            cur as int == pow(g as int, i as nat) % (p as int),
            forall|t: int| 0 <= t < i ==> #[trigger] g_pow@[t] as int == root_pow(g as int, t as nat, p as nat),
        decreases p - 1 - i,
    {
        proof {
            lemma_mod_bound(pow(g as int, i as nat), p as int);
            assert((cur as u128) * (g as u128) < 0x1_0000_0000_0000_0000_0000_0000_0000_0000) by (nonlinear_arith)
                requires cur < p, g < p, p <= u64::MAX;
        }
        g_pow.push(cur);
        let next = ((cur as u128) * (g as u128) % (p as u128)) as usize;
        proof {
            lemma_pow_adds(g as int, i as nat, 1);
            lemma_pow1(g as int);
            lemma_mul_mod_noop_left(pow(g as int, i as nat), g as int, p as int);
        }
        cur = next;
        i += 1;
    }
    cur = 1;
    i = 0;
    proof {
        lemma_pow0(g_inv as int);
    }
    while i < p - 1
        invariant
            p == x.len(),
            p >= 3,
            g_inv < p,
            p <= u64::MAX,
            0 <= i <= p - 1,
            g_inv_pow@.len() == i,
            cur as int == pow(g_inv as int, i as nat) % (p as int),
            forall|t: int| 0 <= t < i ==> #[trigger] g_inv_pow@[t] as int == root_pow(g_inv as int, t as nat, p as nat),
        decreases p - 1 - i,
    {
        proof {
            lemma_mod_bound(pow(g_inv as int, i as nat), p as int);
            assert((cur as u128) * (g_inv as u128) < 0x1_0000_0000_0000_0000_0000_0000_0000_0000) by (nonlinear_arith)
                requires cur < p, g_inv < p, p <= u64::MAX;
        }
        g_inv_pow.push(cur);
        let next = ((cur as u128) * (g_inv as u128) % (p as u128)) as usize;
        proof {
            lemma_pow_adds(g_inv as int, i as nat, 1);
            lemma_pow1(g_inv as int);
            lemma_mul_mod_noop_left(pow(g_inv as int, i as nat), g_inv as int, p as int);
        }
        cur = next;
        i += 1;
    }

    // X[0] is the sum of all inputs.
    let mut x0 = vals[0];
    let mut k: usize = 1;
    proof {
        F::lemma_field_basics(x[0]);
        lemma_small_mod(x[0].value(), m as nat);
        assert(value_sum(x, 0) == 0);
    }
    while k < p
        invariant
            p == x.len(),
            x == vals@,
            m == F::modulus() as int,
            m > 1,
            1 <= k <= p,
            x0.value() == value_sum(x, k as nat) % m,
        decreases p - k,
    {
        proof {
            F::lemma_field_basics(x[k as int]);
            lemma_add_mod_noop(value_sum(x, k as nat), x[k as int].value() as int, m);
            lemma_small_mod(x[k as int].value(), m as nat);
            lemma_mod_twice(value_sum(x, k as nat), m);
        }
        x0 = x0.add(&vals[k]);
        k += 1;
    }

    // a[i] = x[g^(-i)], b[i] = omega^(g^i).
    let conv_len = p - 1;
    let mut a: Vec<F> = Vec::new();
    let mut b: Vec<F> = Vec::new();
    i = 0;
    while i < conv_len
        invariant
            p == x.len(),
            x == vals@,
            w == omega.value() as int,
            m == F::modulus() as int,
            conv_len == p - 1,
            g_pow@.len() == conv_len,
            g_inv_pow@.len() == conv_len,
            forall|t: int| 0 <= t < conv_len ==> #[trigger] g_inv_pow@[t] as int == root_pow(g_inv as int, t as nat, p as nat),
            forall|t: int| 0 <= t < conv_len ==> #[trigger] g_pow@[t] as int == root_pow(g as int, t as nat, p as nat),
            0 <= i <= conv_len,
            a@.len() == i,
            b@.len() == i,
            forall|t: int| 0 <= t < i ==> #[trigger] a@[t] == x[root_pow(g_inv as int, t as nat, p as nat)],
            forall|t: int| 0 <= t < i ==> #[trigger] b@[t].value() as int
                == pow(w, root_pow(g as int, t as nat, p as nat) as nat) % m,
        decreases conv_len - i,
    {
        proof {
            lemma_mod_bound(pow(g_inv as int, i as nat), p as int);
            lemma_mod_bound(pow(g as int, i as nat), p as int);
        }
        a.push(vals[g_inv_pow[i]]);
        b.push(pow_u64(omega, g_pow[i] as u64));
        i += 1;
    }

    // Cyclic convolution c[j] = Σ_i a[i] · b[(j - i) mod (p - 1)].
    let mut c: Vec<F> = Vec::new();
    let mut j: usize = 0;
    while j < conv_len
        invariant
            conv_len >= 2,
            a@.len() == conv_len,
            b@.len() == conv_len,
            m == F::modulus() as int,
            m > 1,
            0 <= j <= conv_len,
            c@.len() == j,
            forall|t: int| 0 <= t < j ==> #[trigger] c@[t].value() as int == sum(conv_term(a@, b@, conv_len as int, t), conv_len as nat) % m,
        decreases conv_len - j,
    {
        let mut acc = F::zero();
        let mut t: usize = 0;
        proof {
            lemma_small_mod(0, m as nat);
        }
        while t < conv_len
            invariant
                conv_len >= 2,
                a@.len() == conv_len,
                b@.len() == conv_len,
                m == F::modulus() as int,
                m > 1,
                0 <= j < conv_len,
                0 <= t <= conv_len,
                acc.value() as int == sum(conv_term(a@, b@, conv_len as int, j as int), t as nat) % m,
            decreases conv_len - t,
        {
            let idx = if j >= t { j - t } else { j + (conv_len - t) };
            let term = a[t].mul(&b[idx]);
            proof {
                let av = a@[t as int].value() as int;
                let bv = b@[idx as int].value() as int;
                assert(conv_term(a@, b@, conv_len as int, j as int)(t as int) == av * bv);
                lemma_add_mod_noop(sum(conv_term(a@, b@, conv_len as int, j as int), t as nat), av * bv, m);
                lemma_mod_twice(sum(conv_term(a@, b@, conv_len as int, j as int), t as nat), m);
                lemma_mod_twice(av * bv, m);
            }
            acc = acc.add(&term);
            t += 1;
        }
        c.push(acc);
        j += 1;
    }

    let x_zero = vals[0];
    vals.set(0, x0);
    j = 0;
    while j < conv_len
        invariant
            p == vals@.len(),
            p == x.len(),
            is_prime_spec(p as nat),
            2 <= g < p,
            passes_root_test(g as nat, p as nat),
            conv_len == p - 1,
            g_pow@.len() == conv_len,
            c@.len() == conv_len,
            forall|t: int| 0 <= t < conv_len ==> #[trigger] g_pow@[t] as int == root_pow(g as int, t as nat, p as nat),
            0 <= j <= conv_len,
            x_zero == x[0],
            vals@[0] == x0,
            forall|t: int| 0 <= t < j ==> #[trigger] vals@[g_pow@[t] as int].value() as int
                == ((x[0].value() + c@[t].value()) as int) % (F::modulus() as int),
        decreases conv_len - j,
    {
        let v = x_zero.add(&c[j]);
        proof {
            lemma_root_pow_nonzero(g as int, p as nat, j as nat);
            assert forall|t: int| 0 <= t < j implies g_pow@[t] != g_pow@[j as int] by {
                lemma_root_pows_distinct(g as int, p as nat, t as nat, j as nat);
            }
        }
        vals.set(g_pow[j], v);
        j += 1;
    }
    proof {
        if pow(w, p as nat) % m == 1 {
            lemma_small_mod(1, m as nat);
            assert forall|kk: int| 0 <= kk < p implies
                #[trigger] vals@[kk].value() == dft_sum(xv, w as nat, kk as nat, xv.len()) % m by {
                lemma_dft_sum_is_sum(xv, w as nat, kk as nat, p as nat);
                if kk == 0 {
                    lemma_dft_at_zero(x, w as nat, p as nat);
                } else {
                    // kk = g^j mod p for some j < p - 1
                    let s = |t: int| root_pow(g as int, t as nat, p as nat) - 1;
                    assert forall|t: int| 0 <= t < conv_len implies 0 <= #[trigger] s(t) < conv_len by {
                        lemma_root_pow_nonzero(g as int, p as nat, t as nat);
                    }
                    assert forall|t: int, u: int| 0 <= t < u < conv_len implies #[trigger] s(t) != #[trigger] s(u) by {
                        lemma_root_pows_distinct(g as int, p as nat, t as nat, u as nat);
                    }
                    lemma_injective_onto(s, conv_len as nat, kk - 1);
                    let jj = choose|t: int| 0 <= t < conv_len && #[trigger] s(t) == kk - 1;
                    assert(g_pow@[jj] as int == kk);
                    let cj = c@[jj].value() as int;
                    let summand = |t: int| xv[root_pow(g_inv as int, t as nat, p as nat)]
                        * (pow(w, root_pow(g as int, cyclic_diff(jj, t, p - 1) as nat, p as nat) as nat) % m);
                    assert forall|t: int| 0 <= t < conv_len implies #[trigger] conv_term(a@, b@, conv_len as int, jj)(t) == summand(t) by {
                        lemma_mod_bound(pow(g_inv as int, t as nat), p as int);
                    }
                    lemma_sum_ext(conv_term(a@, b@, conv_len as int, jj), summand, conv_len as nat);
                    lemma_mod_twice(sum(summand, conv_len as nat), m);
                    lemma_rader_output(xv, w, m, g as int, g_inv as int, p as nat, jj as nat, cj);
                    assert(xv[0] == x[0].value() as int);
                }
            }
        }
    }
}

/// `w` is a root of unity of order dividing `n` for which the size-2
/// butterfly is the transform: `w^n = 1`, and `w^(n/2) = -1` for even `n`.
pub open spec fn dft_root_ok<F: PrimeFieldElement>(w: int, n: nat) -> bool {
    &&& pow(w, n) % (F::modulus() as int) == 1
    &&& (n % 2 == 0 ==> pow(w, n / 2) % (F::modulus() as int) == F::modulus() - 1)
}

proof fn lemma_dft_size_one<F: PrimeFieldElement>(x: Seq<F>, w: nat)
    requires
        x.len() == 1,
    ensures
        is_dft(x, x, w),
{
    let xv = values(x);
    F::lemma_field_basics(x[0]);
    lemma_small_mod(x[0].value(), F::modulus());
    lemma_pow0(w as int);
    assert(dft_sum(xv, w, 0, 0) == 0);
    assert(dft_sum(xv, w, 0, 1) == xv[0] * pow(w as int, 0));
}

proof fn lemma_dft_size_two<F: PrimeFieldElement>(out: Seq<F>, x: Seq<F>, w: nat)
    requires
        x.len() == 2,
        out.len() == 2,
        out[0].value() == (x[0].value() + x[1].value()) % F::modulus(),
        out[1].value() == (x[0].value() - x[1].value()) % (F::modulus() as int),
        dft_root_ok::<F>(w as int, 2),
    ensures
        is_dft(out, x, w),
{
    let m = F::modulus() as int;
    let xv = values(x);
    F::lemma_field_basics(x[0]);
    lemma_pow0(w as int);
    lemma_pow1(w as int);
    assert(dft_sum(xv, w, 0, 2) == xv[0] + xv[1]) by {
        assert(dft_sum(xv, w, 0, 0) == 0);
        assert(dft_sum(xv, w, 0, 1) == xv[0] * pow(w as int, 0));
    }
    assert(pow(w as int, 1) % m == m - 1);
    F::lemma_field_basics(arbitrary());
    // w ≡ -1, so x0 + x1·w ≡ x0 - x1
    lemma_fundamental_div_mod(w as int, m);
    let q = (w as int) / m;
    assert(dft_sum(xv, w, 1, 2) == xv[0] + xv[1] * (w as int)) by {
        assert(dft_sum(xv, w, 1, 0) == 0);
        assert(dft_sum(xv, w, 1, 1) == xv[0] * pow(w as int, 0));
    }
    assert(xv[0] + xv[1] * (w as int) == (xv[0] - xv[1]) + m * (xv[1] * (q + 1))) by (nonlinear_arith)
        requires w == m * q + (m - 1);
    lemma_mod_multiples_vanish(xv[1] * (q + 1), xv[0] - xv[1], m);
}

/// Size-1, size-2 (butterfly), prime (Rader) or other (naive) transform;
/// the result is the transform whenever `dft_root_ok(ω, n)`.
pub fn small_fft<F: PrimeFieldElement>(vals: &mut Vec<F>, omega: &F)
    requires
        old(vals)@.len() <= u64::MAX,
        old(vals)@.len() >= 3 && is_prime_spec(old(vals)@.len() as nat)
            ==> has_primitive_root(old(vals)@.len() as nat),
    ensures
        final(vals)@.len() == old(vals)@.len(),
        old(vals)@.len() <= 1 ==> final(vals)@ == old(vals)@,
        old(vals)@.len() == 2 ==> final(vals)@[0].value()
            == (old(vals)@[0].value() + old(vals)@[1].value()) % F::modulus(),
        old(vals)@.len() == 2 ==> final(vals)@[1].value()
            == (old(vals)@[0].value() - old(vals)@[1].value()) % (F::modulus() as int),
        old(vals)@.len() >= 3 && !is_prime_spec(old(vals)@.len() as nat)
            ==> is_dft(final(vals)@, old(vals)@, omega.value()),
        dft_root_ok::<F>(omega.value() as int, old(vals)@.len() as nat)
            ==> is_dft(final(vals)@, old(vals)@, omega.value()),
{
    let n = vals.len();
    let ghost x = vals@;
    if n <= 1 {
        proof {
            if n == 1 {
                lemma_dft_size_one(x, omega.value());
            }
        }
        return;
    }
    if n == 2 {
        let t = vals[1];
        let v0 = vals[0];
        vals.set(1, v0.sub(&t));
        vals.set(0, v0.add(&t));
        proof {
            if dft_root_ok::<F>(omega.value() as int, 2) {
                lemma_dft_size_two(vals@, x, omega.value());
            }
        }
    } else if is_prime(n as u64) {
        rader_fft(vals, omega);
    } else {
        dft_naive(vals, omega);
    }
}

/// Product of a sequence of factors.
pub open spec fn seq_product(fs: Seq<u64>) -> nat
    decreases fs.len(),
{
    if fs.len() == 0 {
        1
    } else {
        fs[0] as nat * seq_product(fs.drop_first())
    }
}

/// Every factor is positive, and each prime factor of at least 3 has a
/// primitive root (so that Rader's algorithm applies to it).
pub open spec fn factors_usable(fs: Seq<u64>) -> bool {
    forall|i: int| 0 <= i < fs.len() ==> {
        &&& #[trigger] fs[i] >= 1
        &&& (fs[i] >= 3 && is_prime_spec(fs[i] as nat) ==> has_primitive_root(fs[i] as nat))
    }
}

/// `fs` factors `n`: it is nonempty, usable, and multiplies to `n`.
pub open spec fn is_factorization_of(fs: Seq<u64>, n: nat) -> bool {
    &&& fs.len() >= 1
    &&& factors_usable(fs)
    &&& seq_product(fs) == n
}

proof fn lemma_split_first_factor(fs: Seq<u64>, n: nat)
    requires
        is_factorization_of(fs, n),
        fs.len() >= 2,
    ensures
        fs[0] as nat <= n,
        n % (fs[0] as nat) == 0,
        n / (fs[0] as nat) == seq_product(fs.drop_first()),
        is_factorization_of(fs.drop_first(), n / (fs[0] as nat)),
        (fs[0] as nat) * (n / (fs[0] as nat)) == n,
{
    let rest = fs.drop_first();
    assert forall|i: int| 0 <= i < rest.len() implies {
        &&& #[trigger] rest[i] >= 1
        &&& (rest[i] >= 3 && is_prime_spec(rest[i] as nat) ==> has_primitive_root(rest[i] as nat))
    } by {
        assert(rest[i] == fs[i + 1]);
    }
    lemma_seq_product_positive(rest);
    let a = fs[0] as nat;
    let b = seq_product(rest);
    assert(a >= 1);
    lemma_mod_multiples_basic(b as int, a as int);
    lemma_mul_is_commutative(a as int, b as int);
    lemma_div_multiples_vanish(b as int, a as int);
    assert(a <= n) by (nonlinear_arith)
        requires
            n == a * b,
            b >= 1,
    {
    }
}

proof fn lemma_seq_product_single(fs: Seq<u64>)
    requires
        fs.len() == 1,
    ensures
        seq_product(fs) == fs[0] as nat,
{
    assert(fs.drop_first().len() == 0);
    let a = fs[0] as nat;
    let b = seq_product(fs.drop_first());
    assert(b == 1);
    assert(a * b == a) by (nonlinear_arith)
        requires
            b == 1,
    {
    }
}

proof fn lemma_seq_product_positive(fs: Seq<u64>)
    requires
        factors_usable(fs),
    ensures
        seq_product(fs) >= 1,
    decreases fs.len(),
{
    if fs.len() > 0 {
        let rest = fs.drop_first();
        assert forall|i: int| 0 <= i < rest.len() implies {
            &&& #[trigger] rest[i] >= 1
            &&& (rest[i] >= 3 && is_prime_spec(rest[i] as nat) ==> has_primitive_root(rest[i] as nat))
        } by {
            assert(rest[i] == fs[i + 1]);
        }
        lemma_seq_product_positive(rest);
        assert(fs[0] >= 1);
        lemma_mul_increases(seq_product(rest) as int - 1 + 1, fs[0] as int);
        assert((fs[0] as nat) * seq_product(rest) >= 1) by (nonlinear_arith)
            requires
                fs[0] >= 1,
                seq_product(rest) >= 1,
        {
        }
    }
}

proof fn lemma_grid_index(a: int, b: int, n1: int, n2: int)
    requires
        0 <= a < n1,
        0 <= b < n2,
    ensures
        0 <= a * n2 + b < n1 * n2,
        0 <= a * n2,
{
    assert(0 <= a * n2 + b < n1 * n2) by (nonlinear_arith)
        requires
            0 <= a < n1,
            0 <= b < n2,
    {
    }
    assert(0 <= a * n2) by (nonlinear_arith)
        requires
            0 <= a,
            0 <= b < n2,
    {
    }
}

/// A vector of `n` zeros.
fn zeros<F: PrimeFieldElement>(n: usize) -> (r: Vec<F>)
    ensures
        r@.len() == n,
        forall|i: int| 0 <= i < n ==> #[trigger] r@[i].value() == 0,
{
    let mut r: Vec<F> = Vec::new();
    let mut i: usize = 0;
    while i < n
        invariant
            0 <= i <= n,
            r@.len() == i,
            forall|t: int| 0 <= t < i ==> #[trigger] r@[t].value() == 0,
        decreases n - i,
    {
        r.push(F::zero());
        i += 1;
    }
    r
}

/// Row `r` of a row-major matrix with `cols` columns.
fn matrix_row<F: PrimeFieldElement>(matrix: &Vec<F>, r: usize, cols: usize) -> (row: Vec<F>)
    requires
        (r + 1) * cols <= matrix@.len(),
    ensures
        row@ == matrix@.subrange((r * cols) as int, (r * cols + cols) as int),
{
    let len = matrix.len();
    proof {
        assert((r + 1) * cols == r * cols + cols) by (nonlinear_arith);
    }
    let start = r * cols;
    let mut row: Vec<F> = Vec::new();
    let mut c: usize = 0;
    while c < cols
        invariant
            start == r * cols,
            start + cols <= matrix@.len(),
            len == matrix@.len(),
            0 <= c <= cols,
            row@ == matrix@.subrange(start as int, (start + c) as int),
        decreases cols - c,
    {
        row.push(matrix[start + c]);
        c += 1;
        proof {
            assert(row@ =~= matrix@.subrange(start as int, (start + c) as int));
        }
    }
    row
}

/// Overwrites row `r` of a row-major matrix with `cols` columns.
fn set_matrix_row<F: PrimeFieldElement>(matrix: &mut Vec<F>, r: usize, cols: usize, row: &Vec<F>)
    requires
        (r + 1) * cols <= old(matrix)@.len(),
        row@.len() == cols,
    ensures
        final(matrix)@.len() == old(matrix)@.len(),
        forall|i: int| 0 <= i < old(matrix)@.len() ==> #[trigger] final(matrix)@[i] == (
            if r * cols <= i < r * cols + cols { row@[i - r * cols] } else { old(matrix)@[i] }),
{
    let len = matrix.len();
    proof {
        assert((r + 1) * cols == r * cols + cols) by (nonlinear_arith);
    }
    let start = r * cols;
    let mut c: usize = 0;
    while c < cols
        invariant
            start == r * cols,
            start + cols <= matrix@.len(),
            len == matrix@.len(),
            matrix@.len() == old(matrix)@.len(),
            row@.len() == cols,
            0 <= c <= cols,
            forall|i: int| 0 <= i < old(matrix)@.len() ==> #[trigger] matrix@[i] == (
                if start <= i < start + c { row@[i - start] } else { old(matrix)@[i] }),
        decreases cols - c,
    {
        matrix.set(start + c, row[c]);
        c += 1;
    }
}

/// Each factor is coprime to the product of the factors after it, as the
/// Good-Thomas algorithm needs at every level of its recursion.
pub open spec fn coprime_chain(fs: Seq<u64>) -> bool
    decreases fs.len(),
{
    fs.len() <= 1 || (gcd(fs[0] as nat, seq_product(fs.drop_first())) == 1 && coprime_chain(fs.drop_first()))
}

/// The transform of row `a` of a row-major matrix of values with `n2`
/// columns, at index `j`: `Σ_{b < n2} mv[a·n2 + b] · w2^(b j)`.
pub open spec fn gt_row(mv: Seq<int>, w2: int, n2: nat, a: int, j: nat) -> int {
    sum(|b: int| mv[a * n2 + b] * pow(w2, (b * j) as nat), n2)
}

/// The output index of the flattened grid cell `t` in the Good-Thomas
/// algorithm: the Ruritanian map of `(t / n2, t mod n2)`.
pub open spec fn gt_output_index(t: int, n1: nat, n2: nat) -> int {
    ruritanian_index(t / (n2 as int), t % (n2 as int), n1 as int, n2 as int)
}

/// Good-Thomas prime factor algorithm: for `n = n1 · n2` with coprime
/// factors, the input is laid out by the Chinese remainder map
/// `k ↦ (k mod n1, k mod n2)` and the output read back by the Ruritanian
/// map `(a, b) ↦ (a·n2 + b·n1) mod n`, so that no twiddle factors are
/// needed. The rows are transformed recursively over the remaining factors.
/// The result is the transform whenever `dft_root_ok(ω, n)` and the factors
/// form a coprime chain.
pub fn good_thomas_fft<F: PrimeFieldElement>(vals: &mut Vec<F>, omega: &F, coprime_factors: &[u64])
    requires
        old(vals)@.len() <= 1 || is_factorization_of(coprime_factors@, old(vals)@.len() as nat),
    ensures
        final(vals)@.len() == old(vals)@.len(),
        old(vals)@.len() <= 1 ==> final(vals)@ == old(vals)@,
        dft_root_ok::<F>(omega.value() as int, old(vals)@.len() as nat) && coprime_chain(coprime_factors@)
            ==> is_dft(final(vals)@, old(vals)@, omega.value()),
    decreases coprime_factors@.len(),
{
    let n = vals.len();
    let ghost x = vals@;
    let ghost xv = values(x);
    let ghost w = omega.value() as int;
    let ghost m = F::modulus() as int;
    let ghost cond = dft_root_ok::<F>(w, n as nat) && coprime_chain(coprime_factors@);
    proof {
        F::lemma_field_basics(*omega);
    }
    if n <= 1 {
        proof {
            if n == 1 {
                lemma_dft_size_one(x, omega.value());
            }
        }
        return;
    }
    if coprime_factors.len() == 1 {
        proof {
            lemma_seq_product_single(coprime_factors@);
            assert(coprime_factors@[0] >= 1);
        }
        small_fft(vals, omega);
        return;
    }
    proof {
        lemma_split_first_factor(coprime_factors@, n as nat);
    }
    let n1 = coprime_factors[0] as usize;
    let n2 = n / n1;
    proof {
        if n2 == 0 {
            assert(n1 * n2 == 0) by (nonlinear_arith)
                requires
                    n2 == 0,
            {
            }
        }
    }
    let rest = &coprime_factors[1..coprime_factors.len()];
    proof {
        assert(rest@ =~= coprime_factors@.drop_first());
    }
    let omega_1 = pow_u64(omega, n2 as u64);
    let omega_2 = pow_u64(omega, n1 as u64);
    let ghost w1 = omega_1.value() as int;
    let ghost w2 = omega_2.value() as int;
    proof {
        if cond {
            lemma_sub_root_ok::<F>(w, n1 as nat, n2 as nat);
            lemma_mul_is_commutative(n1 as int, n2 as int);
            lemma_sub_root_ok::<F>(w, n2 as nat, n1 as nat);
            assert(gcd(n1 as nat, n2 as nat) == 1);
            assert(coprime_chain(rest@));
        }
    }

    // Input map: matrix[k mod n1][k mod n2] = x[k].
    let mut matrix: Vec<F> = zeros(n);
    let mut k: usize = 0;
    while k < n
        invariant
            n1 * n2 == n,
            n1 >= 1,
            n2 >= 1,
            matrix@.len() == n,
            vals@ == x,
            x.len() == n,
            0 <= k <= n,
            cond ==> gcd(n1 as nat, n2 as nat) == 1,
            cond ==> forall|t: int| 0 <= t < k ==> #[trigger] matrix@[crt_index(t, n1 as int, n2 as int)] == x[t],
        decreases n - k,
    {
        proof {
            lemma_mod_bound(k as int, n1 as int);
            lemma_mod_bound(k as int, n2 as int);
            lemma_grid_index((k % n1) as int, (k % n2) as int, n1 as int, n2 as int);
        }
        matrix.set((k % n1) * n2 + (k % n2), vals[k]);
        proof {
            if cond {
                assert forall|t: int| 0 <= t < k + 1 implies #[trigger] matrix@[crt_index(t, n1 as int, n2 as int)]
                    == x[t] by {
                    if t < k {
                        lemma_crt_index_injective(n1 as nat, n2 as nat, t, k as int);
                    }
                }
            }
        }
        k += 1;
    }
    let ghost m0 = matrix@;
    let ghost mv0 = values(m0);
    proof {
        if cond {
            assert forall|t: int| 0 <= t < n implies #[trigger] mv0[crt_index(t, n1 as int, n2 as int)] == xv[t] by {
                if t + 1 < n {
                    lemma_crt_index_injective(n1 as nat, n2 as nat, t, t + 1);
                } else {
                    lemma_crt_index_injective(n1 as nat, n2 as nat, t, 0);
                }
            }
        }
    }

    // Transforms of size n2 along the rows.
    let mut r: usize = 0;
    while r < n1
        invariant
            n1 * n2 == n,
            n1 >= 1,
            n2 >= 1,
            n2 <= n,
            matrix@.len() == n,
            m0.len() == n,
            mv0 == values(m0),
            w2 == omega_2.value() as int,
            m == F::modulus() as int,
            0 <= r <= n1,
            n2 <= 1 || is_factorization_of(rest@, n2 as nat),
            rest@.len() < coprime_factors@.len(),
            cond ==> dft_root_ok::<F>(w2, n2 as nat),
            cond ==> coprime_chain(rest@),
            forall|t: int| r * n2 <= t < n ==> #[trigger] matrix@[t] == m0[t],
            cond ==> forall|t: int| 0 <= t < r * n2 ==> #[trigger] matrix@[t].value() as int
                == gt_row(mv0, w2, n2 as nat, t / (n2 as int), (t % (n2 as int)) as nat) % m,
        decreases n1 - r,
    {
        proof {
            assert((r + 1) * n2 <= n1 * n2) by (nonlinear_arith)
                requires r < n1, n2 >= 1;
            assert((r + 1) * n2 == r * n2 + n2) by (nonlinear_arith);
        }
        let mut row = matrix_row(&matrix, r, n2);
        let ghost row0 = row@;
        good_thomas_fft(&mut row, &omega_2, rest);
        proof {
            if cond {
                assert forall|a: int| 0 <= a < n2 implies #[trigger] row@[a].value() as int
                    == gt_row(mv0, w2, n2 as nat, r as int, a as nat) % m by {
                    lemma_dft_sum_is_sum(values(row0), w2 as nat, a as nat, n2 as nat);
                    assert forall|b: int| 0 <= b < n2 implies #[trigger] dft_term(values(row0), w2, a as nat)(b)
                        == mv0[r * n2 + b] * pow(w2, (b * a) as nat) by {
                        lemma_grid_index(r as int, b, n1 as int, n2 as int);
                        assert(row0[b] == matrix@[r * n2 + b]);
                    }
                    lemma_sum_ext(dft_term(values(row0), w2, a as nat),
                        |b: int| mv0[r * n2 + b] * pow(w2, (b * a) as nat), n2 as nat);
                }
            }
        }
        set_matrix_row(&mut matrix, r, n2, &row);
        proof {
            if cond {
                assert forall|t: int| 0 <= t < (r + 1) * n2 implies #[trigger] matrix@[t].value() as int
                    == gt_row(mv0, w2, n2 as nat, t / (n2 as int), (t % (n2 as int)) as nat) % m by {
                    if t >= r * n2 {
                        lemma_fundamental_div_mod(t, n2 as int);
                        lemma_mod_bound(t, n2 as int);
                        lemma_grid_div_mod(r as int, t - r * n2, n2 as int);
                    }
                }
            }
        }
        r += 1;
    }
    let ghost mr = matrix@;

    // Transforms of size n1 along the columns.
    let mut c: usize = 0;
    while c < n2
        invariant
            n1 * n2 == n,
            n1 >= 1,
            n2 >= 1,
            n1 <= u64::MAX,
            n1 >= 3 && is_prime_spec(n1 as nat) ==> has_primitive_root(n1 as nat),
            matrix@.len() == n,
            mr.len() == n,
            xv.len() == n,
            mv0.len() == n,
            w == omega.value() as int,
            w1 == omega_1.value() as int,
            w1 == pow(w, n2 as nat) % m,
            w2 == pow(w, n1 as nat) % m,
            m == F::modulus() as int,
            m > 1,
            0 <= c <= n2,
            cond ==> dft_root_ok::<F>(w1, n1 as nat),
            cond ==> dft_root_ok::<F>(w, n as nat),
            cond ==> gcd(n1 as nat, n2 as nat) == 1,
            cond ==> forall|t: int| 0 <= t < n ==> #[trigger] mv0[crt_index(t, n1 as int, n2 as int)] == xv[t],
            cond ==> forall|t: int| 0 <= t < n ==> #[trigger] mr[t].value() as int
                == gt_row(mv0, w2, n2 as nat, t / (n2 as int), (t % (n2 as int)) as nat) % m,
            forall|t: int| 0 <= t < n && t % (n2 as int) >= c ==> #[trigger] matrix@[t] == mr[t],
            cond ==> forall|t: int| 0 <= t < n && t % (n2 as int) < c ==> #[trigger] matrix@[t].value() as int
                == sum(dft_term(xv, w, gt_output_index(t, n1 as nat, n2 as nat) as nat), n as nat) % m,
        decreases n2 - c,
    {
        let mut col: Vec<F> = Vec::new();
        let mut i: usize = 0;
        while i < n1
            invariant
                n1 * n2 == n,
                n2 >= 1,
                matrix@.len() == n,
                0 <= c < n2,
                0 <= i <= n1,
                col@.len() == i,
                forall|t: int| 0 <= t < i ==> #[trigger] col@[t] == matrix@[t * n2 + c],
            decreases n1 - i,
        {
            proof {
                lemma_grid_index(i as int, c as int, n1 as int, n2 as int);
            }
            col.push(matrix[i * n2 + c]);
            i += 1;
        }
        let ghost col0 = col@;
        small_fft(&mut col, &omega_1);
        proof {
            if cond {
                assert forall|j1: int| 0 <= j1 < n1 implies #[trigger] col@[j1].value() as int
                    == sum(dft_term(xv, w, ruritanian_index(j1, c as int, n1 as int, n2 as int) as nat), n as nat) % m by {
                    lemma_dft_sum_is_sum(values(col0), w1 as nat, j1 as nat, n1 as nat);
                    let tt = |a: int| (col0[a].value() as int);
                    assert forall|a: int| 0 <= a < n1 implies #[trigger] tt(a) % m
                        == sum(|b: int| mv0[a * n2 + b] * pow(pow(w, n1 as nat) % m, (b * c) as nat), n2 as nat) % m by {
                        lemma_grid_index(a, c as int, n1 as int, n2 as int);
                        lemma_grid_div_mod(a, c as int, n2 as int);
                        assert(col0[a] == matrix@[a * n2 + c]);
                        assert(matrix@[a * n2 + c] == mr[a * n2 + c]);
                        lemma_mod_twice(gt_row(mv0, w2, n2 as nat, a, c as nat), m);
                    }
                    assert forall|a: int| 0 <= a < n1 implies #[trigger] dft_term(values(col0), w1, j1 as nat)(a)
                        == tt(a) * pow(pow(w, n2 as nat) % m, (a * j1) as nat) by {
                    }
                    lemma_sum_ext(dft_term(values(col0), w1, j1 as nat),
                        |a: int| tt(a) * pow(pow(w, n2 as nat) % m, (a * j1) as nat), n1 as nat);
                    lemma_mod_twice(sum(dft_term(values(col0), w1, j1 as nat), n1 as nat), m);
                    lemma_small_mod(1, m as nat);
                    crate::dft::lemma_good_thomas_combine(xv, mv0, w, n1 as nat, n2 as nat, m, j1 as nat, c as nat, tt,
                        col@[j1].value() as int);
                    lemma_small_mod(col@[j1].value(), m as nat);
                }
            }
        }
        let ghost mb = matrix@;
        i = 0;
        while i < n1
            invariant
                n1 * n2 == n,
                n2 >= 1,
                matrix@.len() == n,
                mb.len() == n,
                col@.len() == n1,
                0 <= c < n2,
                0 <= i <= n1,
                forall|t: int| 0 <= t < n ==> #[trigger] matrix@[t]
                    == (if t % (n2 as int) == c && t / (n2 as int) < i { col@[t / (n2 as int)] } else { mb[t] }),
            decreases n1 - i,
        {
            proof {
                lemma_grid_index(i as int, c as int, n1 as int, n2 as int);
                lemma_grid_div_mod(i as int, c as int, n2 as int);
            }
            matrix.set(i * n2 + c, col[i]);
            proof {
                assert forall|t: int| 0 <= t < n implies #[trigger] matrix@[t]
                    == (if t % (n2 as int) == c && t / (n2 as int) < i + 1 { col@[t / (n2 as int)] } else { mb[t] }) by {
                    if t == i * n2 + c {
                    } else if t % (n2 as int) == c && t / (n2 as int) == i {
                        lemma_fundamental_div_mod(t, n2 as int);
                        assert(t == i * n2 + c) by (nonlinear_arith)
                            requires t == (n2 as int) * (t / (n2 as int)) + t % (n2 as int), t / (n2 as int) == i, t % (n2 as int) == c;
                    }
                }
            }
            i += 1;
        }
        proof {
            assert forall|t: int| 0 <= t < n && t % (n2 as int) >= c + 1 implies #[trigger] matrix@[t] == mr[t] by {
            }
            if cond {
                assert forall|t: int| 0 <= t < n && t % (n2 as int) < c + 1 implies #[trigger] matrix@[t].value() as int
                    == sum(dft_term(xv, w, gt_output_index(t, n1 as nat, n2 as nat) as nat), n as nat) % m by {
                    if t % (n2 as int) == c {
                        lemma_fundamental_div_mod(t, n2 as int);
                        lemma_mod_bound(t, n2 as int);
                        assert(t / (n2 as int) < n1) by (nonlinear_arith)
                            requires t == (n2 as int) * (t / (n2 as int)) + t % (n2 as int), t < n1 * n2, t % (n2 as int) >= 0, n2 >= 1;
                        assert(t / (n2 as int) >= 0) by (nonlinear_arith)
                            requires t == (n2 as int) * (t / (n2 as int)) + t % (n2 as int), t >= 0, t % (n2 as int) < n2, n2 >= 1;
                    }
                }
            }
        }
        c += 1;
    }

    // Output map: x[(a·n2 + b·n1) mod n] = matrix[a][b].
    let mut t: usize = 0;
    while t < n
        invariant
            n1 * n2 == n,
            n1 >= 1,
            n2 >= 1,
            n >= 2,
            matrix@.len() == n,
            vals@.len() == n,
            0 <= t <= n,
            cond ==> gcd(n1 as nat, n2 as nat) == 1,
            cond ==> forall|s: int| 0 <= s < t ==> #[trigger] vals@[gt_output_index(s, n1 as nat, n2 as nat)] == matrix@[s],
        decreases n - t,
    {
        let a = t / n2;
        let b = t % n2;
        proof {
            lemma_fundamental_div_mod(t as int, n2 as int);
            lemma_mod_bound(t as int, n2 as int);
            assert(a < n1) by (nonlinear_arith)
                requires t == n2 * a + b, t < n1 * n2, b >= 0, n2 >= 1;
            lemma_grid_index(a as int, b as int, n1 as int, n2 as int);
            lemma_grid_index(b as int, a as int, n2 as int, n1 as int);
            lemma_mul_is_commutative(n1 as int, n2 as int);
        }
        let j = (((a * n2) as u128 + (b * n1) as u128) % (n as u128)) as usize;
        proof {
            assert(j == gt_output_index(t as int, n1 as nat, n2 as nat));
        }
        vals.set(j, matrix[t]);
        proof {
            if cond {
                assert forall|s: int| 0 <= s < t + 1 implies #[trigger] vals@[gt_output_index(s, n1 as nat, n2 as nat)]
                    == matrix@[s] by {
                    if s < t {
                        lemma_ruritanian_injective(n1 as nat, n2 as nat, s, t as int);
                    }
                }
            }
        }
        t += 1;
    }
    proof {
        if cond {
            let rf = |s: int| gt_output_index(s, n1 as nat, n2 as nat);
            assert forall|s: int| 0 <= s < n implies 0 <= #[trigger] rf(s) < n by {
                if s + 1 < n {
                    lemma_ruritanian_injective(n1 as nat, n2 as nat, s, s + 1);
                } else {
                    lemma_ruritanian_injective(n1 as nat, n2 as nat, s, 0);
                }
            }
            assert forall|s: int, u: int| 0 <= s < u < n implies #[trigger] rf(s) != #[trigger] rf(u) by {
                lemma_ruritanian_injective(n1 as nat, n2 as nat, s, u);
            }
            assert forall|kk: int| 0 <= kk < n implies #[trigger] vals@[kk].value()
                == dft_sum(xv, w as nat, kk as nat, xv.len()) % m by {
                lemma_injective_onto(rf, n as nat, kk);
                let s = choose|s: int| 0 <= s < n && #[trigger] rf(s) == kk;
                assert(vals@[kk] == matrix@[s]);
                lemma_dft_sum_is_sum(xv, w as nat, kk as nat, n as nat);
            }
        }
    }
}

/// The transform of row `k1` of the Cooley-Tukey matrix at index `a`:
/// `Σ_{k2 < n2} x[k1 + k2 n1] · w2^(k2 a)`.
pub open spec fn ct_row(x: Seq<int>, w2: int, n1: nat, n2: nat, k1: int, a: int) -> int {
    sum(|k2: int| x[k1 + k2 * n1] * pow(w2, (k2 * a) as nat), n2)
}

/// Reducing `w^a` keeps a good root: if `w` is one of order dividing
/// `n = a·b` with the butterfly condition, so is `w^a mod p` for `b`.
proof fn lemma_sub_root_ok<F: PrimeFieldElement>(w: int, a: nat, b: nat)
    requires
        a >= 1,
        b >= 1,
        dft_root_ok::<F>(w, a * b),
    ensures
        dft_root_ok::<F>(pow(w, a) % (F::modulus() as int), b),
{
    let m = F::modulus() as int;
    F::lemma_field_basics(arbitrary());
    crate::dft::lemma_pow_of_reduced_pow(w, a, b, m);
    if b % 2 == 0 {
        lemma_fundamental_div_mod(b as int, 2);
        let h = b / 2;
        assert(a * b == 2 * (a * h)) by (nonlinear_arith) requires b == 2 * h;
        lemma_mod_multiples_basic((a * h) as int, 2);
        lemma_mul_is_commutative(2, (a * h) as int);
        lemma_div_multiples_vanish((a * h) as int, 2);
        assert((a * b) % 2 == 0 && (a * b) / 2 == a * h);
        crate::dft::lemma_pow_of_reduced_pow(w, a, h, m);
    }
}

proof fn lemma_grid_div_mod(i: int, c: int, n2: int)
    requires
        0 <= c < n2,
        0 <= i,
    ensures
        (i * n2 + c) / n2 == i,
        (i * n2 + c) % n2 == c,
{
    lemma_fundamental_div_mod_converse(i * n2 + c, n2, i, c);
}

/// Mixed-radix Cooley-Tukey: for `n = n1 · n2` the input is laid out as
/// `matrix[k1][k2] = x[k1 + k2·n1]`, the rows are transformed (recursively
/// over the remaining factors), multiplied by the twiddle factors
/// `ω^(k1·j2)`, the columns are transformed, and the result is read out
/// row by row: `X[j1·n2 + j2] = matrix[j1][j2]`. The result is the
/// transform whenever `dft_root_ok(ω, n)`.
pub fn cooley_tukey_fft<F: PrimeFieldElement>(vals: &mut Vec<F>, omega: &F, factors: &[u64])
    requires
        old(vals)@.len() <= 1 || is_factorization_of(factors@, old(vals)@.len() as nat),
    ensures
        final(vals)@.len() == old(vals)@.len(),
        old(vals)@.len() <= 1 ==> final(vals)@ == old(vals)@,
        dft_root_ok::<F>(omega.value() as int, old(vals)@.len() as nat)
            ==> is_dft(final(vals)@, old(vals)@, omega.value()),
    decreases factors@.len(),
{
    let n = vals.len();
    let ghost x = vals@;
    let ghost xv = values(x);
    let ghost w = omega.value() as int;
    let ghost m = F::modulus() as int;
    let ghost cond = dft_root_ok::<F>(w, n as nat);
    proof {
        F::lemma_field_basics(*omega);
    }
    if n <= 1 {
        proof {
            if n == 1 {
                lemma_dft_size_one(x, omega.value());
            }
        }
        return;
    }
    if factors.len() == 1 {
        proof {
            lemma_seq_product_single(factors@);
            assert(factors@[0] >= 1);
        }
        small_fft(vals, omega);
        return;
    }
    proof {
        lemma_split_first_factor(factors@, n as nat);
    }
    let n1 = factors[0] as usize;
    let n2 = n / n1;
    proof {
        if n2 == 0 {
            assert(n1 * n2 == 0) by (nonlinear_arith)
                requires
                    n2 == 0,
            {
            }
        }
    }
    let rest = &factors[1..factors.len()];
    proof {
        assert(rest@ =~= factors@.drop_first());
    }
    let omega_1 = pow_u64(omega, n2 as u64);
    let omega_2 = pow_u64(omega, n1 as u64);
    let ghost w1 = omega_1.value() as int;
    let ghost w2 = omega_2.value() as int;
    proof {
        if cond {
            lemma_sub_root_ok::<F>(w, n1 as nat, n2 as nat);
            lemma_mul_is_commutative(n1 as int, n2 as int);
            lemma_sub_root_ok::<F>(w, n2 as nat, n1 as nat);
        }
    }

    // matrix[k1][k2] = x[k1 + k2·n1]
    let mut matrix: Vec<F> = zeros(n);
    let mut k1: usize = 0;
    while k1 < n1
        invariant
            n1 * n2 == n,
            n2 >= 1,
            matrix@.len() == n,
            vals@ == x,
            x.len() == n,
            0 <= k1 <= n1,
            forall|t: int| 0 <= t < k1 * n2 ==> #[trigger] matrix@[t] == x[t / (n2 as int) + (t % (n2 as int)) * n1],
        decreases n1 - k1,
    {
        let mut k2: usize = 0;
        while k2 < n2
            invariant
                n1 * n2 == n,
                n2 >= 1,
                matrix@.len() == n,
                vals@ == x,
                x.len() == n,
                0 <= k1 < n1,
                0 <= k2 <= n2,
                forall|t: int| 0 <= t < k1 * n2 + k2 ==> #[trigger] matrix@[t] == x[t / (n2 as int) + (t % (n2 as int)) * n1],
            decreases n2 - k2,
        {
            proof {
                lemma_grid_index(k1 as int, k2 as int, n1 as int, n2 as int);
                lemma_grid_index(k2 as int, k1 as int, n2 as int, n1 as int);
                lemma_mul_is_commutative(n1 as int, n2 as int);
                lemma_grid_div_mod(k1 as int, k2 as int, n2 as int);
            }
            matrix.set(k1 * n2 + k2, vals[k1 + k2 * n1]);
            k2 += 1;
        }
        proof {
            assert((k1 + 1) * n2 == k1 * n2 + n2) by (nonlinear_arith);
        }
        k1 += 1;
    }
    proof {
        assert(n1 * n2 == n);
    }

    // Step 1: transforms of size n2 along the rows.
    let mut r: usize = 0;
    while r < n1
        invariant
            n1 * n2 == n,
            n1 >= 1,
            n2 >= 1,
            n2 <= n,
            matrix@.len() == n,
            x.len() == n,
            xv == values(x),
            w2 == omega_2.value() as int,
            w2 == pow(w, n1 as nat) % m,
            m == F::modulus() as int,
            0 <= r <= n1,
            n2 <= 1 || is_factorization_of(rest@, n2 as nat),
            rest@.len() < factors@.len(),
            rest@.len() >= 1,
            cond ==> dft_root_ok::<F>(w2, n2 as nat),
            forall|t: int| r * n2 <= t < n ==> #[trigger] matrix@[t] == x[t / (n2 as int) + (t % (n2 as int)) * n1],
            cond ==> forall|t: int| 0 <= t < r * n2 ==> #[trigger] matrix@[t].value() as int
                == ct_row(xv, w2, n1 as nat, n2 as nat, t / (n2 as int), t % (n2 as int)) % m,
        decreases n1 - r,
    {
        proof {
            assert((r + 1) * n2 <= n1 * n2) by (nonlinear_arith)
                requires r < n1, n2 >= 1;
            assert((r + 1) * n2 == r * n2 + n2) by (nonlinear_arith);
        }
        let mut row = matrix_row(&matrix, r, n2);
        let ghost row0 = row@;
        if rest.len() == 1 {
            proof {
                if n2 >= 2 {
                    lemma_seq_product_single(rest@);
                    assert(rest@[0] >= 1);
                }
            }
            small_fft(&mut row, &omega_2);
        } else {
            cooley_tukey_fft(&mut row, &omega_2, rest);
        }
        proof {
            if cond {
                // row0[k2] = x[r + k2·n1]
                assert forall|a: int| 0 <= a < n2 implies #[trigger] row@[a].value() as int
                    == ct_row(xv, w2, n1 as nat, n2 as nat, r as int, a) % m by {
                    lemma_dft_sum_is_sum(values(row0), w2 as nat, a as nat, n2 as nat);
                    assert forall|k2: int| 0 <= k2 < n2 implies #[trigger] dft_term(values(row0), w2, a as nat)(k2)
                        == xv[r + k2 * n1] * pow(w2, (k2 * a) as nat) by {
                        lemma_grid_div_mod(r as int, k2, n2 as int);
                        lemma_grid_index(r as int, k2, n1 as int, n2 as int);
                        lemma_grid_index(k2, r as int, n2 as int, n1 as int);
                        lemma_mul_is_commutative(n1 as int, n2 as int);
                        assert(row0[k2] == matrix@[r * n2 + k2]);
                        assert(matrix@[r * n2 + k2] == x[r + k2 * n1]);
                        assert(k2 * a >= 0) by (nonlinear_arith) requires k2 >= 0, a >= 0;
                    }
                    lemma_sum_ext(dft_term(values(row0), w2, a as nat),
                        |k2: int| xv[r + k2 * n1] * pow(w2, (k2 * a) as nat), n2 as nat);
                }
            }
        }
        set_matrix_row(&mut matrix, r, n2, &row);
        proof {
            if cond {
                assert forall|t: int| 0 <= t < (r + 1) * n2 implies #[trigger] matrix@[t].value() as int
                    == ct_row(xv, w2, n1 as nat, n2 as nat, t / (n2 as int), t % (n2 as int)) % m by {
                    if t >= r * n2 {
                        lemma_fundamental_div_mod(t, n2 as int);
                        lemma_mod_bound(t, n2 as int);
                        lemma_grid_div_mod(r as int, t - r * n2, n2 as int);
                    }
                }
            }
        }
        r += 1;
    }

    // Step 2: twiddle factors, matrix[k1][j2] *= ω^(k1·j2).
    k1 = 0;
    while k1 < n1
        invariant
            n1 * n2 == n,
            n1 >= 1,
            n2 >= 1,
            matrix@.len() == n,
            xv == values(x),
            w == omega.value() as int,
            w2 == pow(w, n1 as nat) % m,
            m == F::modulus() as int,
            m > 1,
            0 <= k1 <= n1,
            cond ==> forall|t: int| 0 <= t < n ==> #[trigger] matrix@[t].value() as int
                == (if t < k1 * n2 {
                    (ct_row(xv, w2, n1 as nat, n2 as nat, t / (n2 as int), t % (n2 as int))
                        * pow(w, ((t % (n2 as int)) * (t / (n2 as int))) as nat)) % m
                } else {
                    ct_row(xv, w2, n1 as nat, n2 as nat, t / (n2 as int), t % (n2 as int)) % m
                }),
        decreases n1 - k1,
    {
        let mut j2: usize = 1;
        proof {
            if cond {
                // the first entry of the row keeps its value: ω^0 = 1
                let t0 = (k1 * n2) as int;
                lemma_grid_div_mod(k1 as int, 0, n2 as int);
                lemma_pow0(w);
                lemma_mul_basics(ct_row(xv, w2, n1 as nat, n2 as nat, k1 as int, 0));
                assert(((t0 % (n2 as int)) * (t0 / (n2 as int))) == 0) by (nonlinear_arith)
                    requires t0 % (n2 as int) == 0;
            }
        }
        while j2 < n2
            invariant
                n1 * n2 == n,
                n2 >= 1,
                matrix@.len() == n,
                xv == values(x),
                w == omega.value() as int,
                w2 == pow(w, n1 as nat) % m,
                m == F::modulus() as int,
                m > 1,
                0 <= k1 < n1,
                1 <= j2 <= n2,
                cond ==> forall|t: int| 0 <= t < n ==> #[trigger] matrix@[t].value() as int
                    == (if t < k1 * n2 + j2 {
                        (ct_row(xv, w2, n1 as nat, n2 as nat, t / (n2 as int), t % (n2 as int))
                            * pow(w, ((t % (n2 as int)) * (t / (n2 as int))) as nat)) % m
                    } else {
                        ct_row(xv, w2, n1 as nat, n2 as nat, t / (n2 as int), t % (n2 as int)) % m
                    }),
            decreases n2 - j2,
        {
            proof {
                lemma_grid_index(k1 as int, j2 as int, n1 as int, n2 as int);
                lemma_grid_index(j2 as int, k1 as int, n2 as int, n1 as int);
                lemma_mul_is_commutative(n1 as int, n2 as int);
                assert(j2 * k1 <= j2 * n1) by (nonlinear_arith)
                    requires k1 < n1;
            }
            let tw = pow_u64(omega, (j2 * k1) as u64);
            let v = matrix[k1 * n2 + j2].mul(&tw);
            proof {
                if cond {
                    let t = (k1 * n2 + j2) as int;
                    lemma_grid_div_mod(k1 as int, j2 as int, n2 as int);
                    let rv = ct_row(xv, w2, n1 as nat, n2 as nat, k1 as int, j2 as int);
                    lemma_mul_mod_noop(rv, pow(w, (j2 * k1) as nat), m);
                    lemma_mod_twice(rv, m);
                    lemma_mod_twice(pow(w, (j2 * k1) as nat), m);
                }
            }
            matrix.set(k1 * n2 + j2, v);
            j2 += 1;
        }
        proof {
            assert((k1 + 1) * n2 == k1 * n2 + n2) by (nonlinear_arith);
        }
        k1 += 1;
    }

    // Step 3: transforms of size n1 along the columns.
    let mut c: usize = 0;
    while c < n2
        invariant
            n1 * n2 == n,
            n1 >= 1,
            n2 >= 1,
            n1 <= u64::MAX,
            n1 >= 3 && is_prime_spec(n1 as nat) ==> has_primitive_root(n1 as nat),
            matrix@.len() == n,
            x.len() == n,
            xv == values(x),
            w == omega.value() as int,
            w1 == omega_1.value() as int,
            w1 == pow(w, n2 as nat) % m,
            w2 == pow(w, n1 as nat) % m,
            m == F::modulus() as int,
            m > 1,
            0 <= c <= n2,
            cond ==> dft_root_ok::<F>(w1, n1 as nat),
            cond ==> dft_root_ok::<F>(w, n as nat),
            cond ==> forall|t: int| 0 <= t < n && t % (n2 as int) >= c ==> #[trigger] matrix@[t].value() as int
                == (ct_row(xv, w2, n1 as nat, n2 as nat, t / (n2 as int), t % (n2 as int))
                    * pow(w, ((t % (n2 as int)) * (t / (n2 as int))) as nat)) % m,
            cond ==> forall|t: int| 0 <= t < n && t % (n2 as int) < c ==> #[trigger] matrix@[t].value() as int
                == sum(dft_term(xv, w, ((t / (n2 as int)) * n2 + t % (n2 as int)) as nat), n as nat) % m,
        decreases n2 - c,
    {
        let mut col: Vec<F> = Vec::new();
        let mut i: usize = 0;
        while i < n1
            invariant
                n1 * n2 == n,
                n2 >= 1,
                matrix@.len() == n,
                0 <= c < n2,
                0 <= i <= n1,
                col@.len() == i,
                forall|t: int| 0 <= t < i ==> #[trigger] col@[t] == matrix@[t * n2 + c],
            decreases n1 - i,
        {
            proof {
                lemma_grid_index(i as int, c as int, n1 as int, n2 as int);
            }
            col.push(matrix[i * n2 + c]);
            i += 1;
        }
        let ghost col0 = col@;
        small_fft(&mut col, &omega_1);
        proof {
            if cond {
                assert forall|b: int| 0 <= b < n1 implies #[trigger] col@[b].value() as int
                    == sum(dft_term(xv, w, (b * n2 + c) as nat), n as nat) % m by {
                    lemma_dft_sum_is_sum(values(col0), w1 as nat, b as nat, n1 as nat);
                    let tt = |k1: int| (col0[k1].value() as int);
                    assert forall|k1: int| 0 <= k1 < n1 implies #[trigger] tt(k1) % m
                        == (ct_row(xv, pow(w, n1 as nat) % m, n1 as nat, n2 as nat, k1, c as int)
                            * pow(w, (c * k1) as nat)) % m by {
                        lemma_grid_index(k1, c as int, n1 as int, n2 as int);
                        lemma_grid_div_mod(k1, c as int, n2 as int);
                        assert(col0[k1] == matrix@[k1 * n2 + c]);
                        F::lemma_field_basics(col0[k1]);
                        lemma_mod_twice((ct_row(xv, w2, n1 as nat, n2 as nat, k1, c as int)
                            * pow(w, (c * k1) as nat)), m);
                        assert(c * k1 == (c as int) * k1);
                    }
                    assert forall|k1: int| 0 <= k1 < n1 implies #[trigger] dft_term(values(col0), w1, b as nat)(k1)
                        == tt(k1) * pow(pow(w, n2 as nat) % m, (k1 * b) as nat) by {
                    }
                    lemma_sum_ext(dft_term(values(col0), w1, b as nat),
                        |k1: int| tt(k1) * pow(pow(w, n2 as nat) % m, (k1 * b) as nat), n1 as nat);
                    lemma_mod_twice(sum(dft_term(values(col0), w1, b as nat), n1 as nat), m);
                    lemma_small_mod(1, m as nat);
                    crate::dft::lemma_cooley_tukey_combine(xv, w, n1 as nat, n2 as nat, m, c as nat, b as nat, tt,
                        col@[b].value() as int);
                }
            }
        }
        let ghost mb = matrix@;
        i = 0;
        while i < n1
            invariant
                n1 * n2 == n,
                n2 >= 1,
                matrix@.len() == n,
                mb.len() == n,
                col@.len() == n1,
                0 <= c < n2,
                0 <= i <= n1,
                forall|t: int| 0 <= t < n ==> #[trigger] matrix@[t]
                    == (if t % (n2 as int) == c && t / (n2 as int) < i { col@[t / (n2 as int)] } else { mb[t] }),
            decreases n1 - i,
        {
            proof {
                lemma_grid_index(i as int, c as int, n1 as int, n2 as int);
                lemma_grid_div_mod(i as int, c as int, n2 as int);
            }
            matrix.set(i * n2 + c, col[i]);
            proof {
                assert forall|t: int| 0 <= t < n implies #[trigger] matrix@[t]
                    == (if t % (n2 as int) == c && t / (n2 as int) < i + 1 { col@[t / (n2 as int)] } else { mb[t] }) by {
                    if t == i * n2 + c {
                    } else if t % (n2 as int) == c && t / (n2 as int) == i {
                        lemma_fundamental_div_mod(t, n2 as int);
                        assert(t == i * n2 + c) by (nonlinear_arith)
                            requires t == (n2 as int) * (t / (n2 as int)) + t % (n2 as int), t / (n2 as int) == i, t % (n2 as int) == c;
                    }
                }
            }
            i += 1;
        }
        proof {
            if cond {
                assert forall|t: int| 0 <= t < n && t % (n2 as int) < c + 1 implies #[trigger] matrix@[t].value() as int
                    == sum(dft_term(xv, w, ((t / (n2 as int)) * n2 + t % (n2 as int)) as nat), n as nat) % m by {
                    if t % (n2 as int) == c {
                        lemma_fundamental_div_mod(t, n2 as int);
                        lemma_mod_bound(t, n2 as int);
                        assert(t / (n2 as int) < n1) by (nonlinear_arith)
                            requires t == (n2 as int) * (t / (n2 as int)) + t % (n2 as int), t < n1 * n2, t % (n2 as int) >= 0, n2 >= 1;
                        assert(t / (n2 as int) >= 0) by (nonlinear_arith)
                            requires t == (n2 as int) * (t / (n2 as int)) + t % (n2 as int), t >= 0, t % (n2 as int) < n2, n2 >= 1;
                    }
                }
            }
        }
        c += 1;
    }

    // Step 4: read out X[j1·n2 + j2] = matrix[j1][j2].
    let mut t: usize = 0;
    while t < n
        invariant
            matrix@.len() == n,
            vals@.len() == n,
            0 <= t <= n,
            forall|s: int| 0 <= s < t ==> #[trigger] vals@[s] == matrix@[s],
        decreases n - t,
    {
        vals.set(t, matrix[t]);
        t += 1;
    }
    proof {
        if cond {
            assert forall|kk: int| 0 <= kk < n implies #[trigger] vals@[kk].value()
                == dft_sum(xv, w as nat, kk as nat, xv.len()) % m by {
                lemma_fundamental_div_mod(kk, n2 as int);
                lemma_mod_bound(kk, n2 as int);
                lemma_dft_sum_is_sum(xv, w as nat, kk as nat, n as nat);
                assert((kk / (n2 as int)) * n2 + kk % (n2 as int) == kk) by (nonlinear_arith)
                    requires kk == (n2 as int) * (kk / (n2 as int)) + kk % (n2 as int);
            }
        }
    }
}

// ----------------------------------------------------------------------------
// Roots of unity
// ----------------------------------------------------------------------------

/// The candidate `b^((p-1)/n) mod p` derived from the base `b`.
pub open spec fn root_candidate<F: PrimeFieldElement>(b: nat, n: nat) -> int {
    pow(b as int, ((F::modulus() - 1) as nat) / n) % (F::modulus() as int)
}

/// `v` is neither 0 nor 1, and `v^(n/q) mod p` differs from 1 for every
/// prime `q` dividing `n`.
pub open spec fn is_primitive_candidate<F: PrimeFieldElement>(v: int, n: nat) -> bool {
    &&& v != 0
    &&& v != 1
    &&& forall|q: nat| #![trigger n % q]
        is_prime_spec(q) && n % q == 0 ==> pow(v, n / q) % (F::modulus() as int) != 1
}

/// The candidate of the least base in `[b, 100)` that passes the test.
pub open spec fn first_root_from<F: PrimeFieldElement>(b: nat, n: nat) -> Option<int>
    decreases 100 - b,
{
    if b >= 100 {
        None
    } else if is_primitive_candidate::<F>(root_candidate::<F>(b, n), n) {
        Some(root_candidate::<F>(b, n))
    } else {
        first_root_from::<F>(b + 1, n)
    }
}

/// The root of unity of order `n` that the search settles on: `None` unless
/// `n` divides `p - 1` and some base in `[2, 100)` yields a candidate
/// passing the test.
pub open spec fn root_of_unity_spec<F: PrimeFieldElement>(n: nat) -> Option<int> {
    if n >= 1 && ((F::modulus() - 1) as nat) % n == 0 {
        first_root_from::<F>(2, n)
    } else {
        None
    }
}

/// Whether `v^(n/q) mod p` differs from 1 for every prime `q` dividing `n`,
/// given the prime factorisation of `n`.
fn passes_order_test<F: PrimeFieldElement>(v: &F, n: u64, factors: &Vec<(u64, u32)>) -> (r: bool)
    requires
        n >= 1,
        is_prime_factorization(factors@, n as nat),
    ensures
        r == forall|q: nat| #![trigger (n as nat) % q]
            is_prime_spec(q) && (n as nat) % q == 0 ==> pow(v.value() as int, (n as nat) / q) % (F::modulus() as int) != 1,
{
    let mut i: usize = 0;
    while i < factors.len()
        invariant
            n >= 1,
            is_prime_factorization(factors@, n as nat),
            0 <= i <= factors@.len(),
            forall|j: int| 0 <= j < i ==>
                pow(v.value() as int, (n as nat) / ((#[trigger] factors@[j]).0 as nat)) % (F::modulus() as int) != 1,
        decreases factors@.len() - i,
    {
        let q = factors[i].0;
        proof {
            lemma_factor_divides_product(factors@, i as int);
        }
        let t = pow_u64(v, n / q);
        if is_one(&t) {
            proof {
                let qn = q as nat;
                assert(is_prime_spec(qn));
                assert((n as nat) % qn == 0);
            }
            return false;
        }
        i += 1;
    }
    proof {
        assert forall|q: nat| is_prime_spec(q) && (n as nat) % q == 0 implies
            pow(v.value() as int, (n as nat) / q) % (F::modulus() as int) != 1 by {
            lemma_prime_divisor_is_listed(q, factors@);
            let j = choose|j: int| 0 <= j < factors@.len() && #[trigger] factors@[j].0 == q;
            assert(factors@[j].0 == q);
        }
    }
    true
}

/// A primitive `n`-th root of unity of the form `g^((p-1)/n)` for the least
/// base `g` in `[2, 100)` whose candidate passes the order test.
pub fn find_root_of_unity<F: PrimeFieldElement>(n: u64) -> (r: Option<F>)
    requires
        n >= 1,
    ensures
        match r {
            Some(c) => root_of_unity_spec::<F>(n as nat) == Some(c.value() as int),
            None => root_of_unity_spec::<F>(n as nat).is_none(),
        },
{
    let p_minus_1 = F::modulus_minus_one();
    let (quotient, remainder) = div_with_remainder(p_minus_1.as_slice(), n);
    let ghost m = F::modulus();
    proof {
        F::lemma_field_basics(arbitrary());
        assert(limbs_value(p_minus_1@) == limbs_value(quotient@) * (n as nat) + remainder as nat);
        lemma_fundamental_div_mod_converse(limbs_value(p_minus_1@) as int, n as int,
            limbs_value(quotient@) as int, remainder as int);
    }
    if remainder != 0 {
        return None;
    }
    let factors = trial_factor(n);
    let mut base: u64 = 2;
    while base < 100
        invariant
            n >= 1,
            m == F::modulus(),
            m > 0x1_0000_0000_0000_0000,
            ((m - 1) as nat) % (n as nat) == 0,
            limbs_value(quotient@) == ((m - 1) as nat) / (n as nat),
            is_prime_factorization(factors@, n as nat),
            2 <= base <= 100,
            first_root_from::<F>(2, n as nat) == first_root_from::<F>(base as nat, n as nat),
        decreases 100 - base,
    {
        let b = F::from_u64(base);
        let candidate = b.pow_limbs(quotient.as_slice());
        proof {
            assert(candidate.value() == root_candidate::<F>(base as nat, n as nat));
        }
        if is_zero(&candidate) || is_one(&candidate) {
            base += 1;
            continue;
        }
        if passes_order_test(&candidate, n, &factors) {
            return Some(candidate);
        }
        base += 1;
    }
    None
}

/// The primes dividing `n`.
pub open spec fn prime_divisors(n: nat) -> Set<nat> {
    Set::new(|q: nat| is_prime_spec(q) && n % q == 0)
}

/// A prime factorisation lists each prime divisor exactly once.
pub proof fn lemma_factorization_counts_primes(fs: Seq<(u64, u32)>, n: nat)
    requires
        is_prime_factorization(fs, n),
        n >= 1,
    ensures
        prime_divisors(n).finite(),
        prime_divisors(n).len() == fs.len(),
{
    let s = Seq::new(fs.len(), |i: int| fs[i].0 as nat);
    assert forall|i: int| 0 <= i < fs.len() implies #[trigger] fs[i].0 >= 2 && fs[i].1 >= 1 by {
        assert(is_prime_spec(fs[i].0 as nat));
    }
    assert(s.to_set() =~= prime_divisors(n)) by {
        assert forall|q: nat| s.to_set().contains(q) implies prime_divisors(n).contains(q) by {
            let i = choose|i: int| 0 <= i < s.len() && s[i] == q;
            lemma_factor_divides_product(fs, i);
            assert(is_prime_spec(fs[i].0 as nat));
        }
        assert forall|q: nat| prime_divisors(n).contains(q) implies s.to_set().contains(q) by {
            lemma_prime_divisor_is_listed(q, fs);
            let j = choose|j: int| 0 <= j < fs.len() && #[trigger] fs[j].0 == q;
            assert(s[j] == q);
        }
    }
    assert(s.no_duplicates()) by {
        assert forall|i: int, j: int| 0 <= i < s.len() && 0 <= j < s.len() && i != j implies s[i] != s[j] by {
            if i < j {
                assert(fs[i].0 < fs[j].0);
            } else {
                assert(fs[j].0 < fs[i].0);
            }
        }
    }
    s.unique_seq_to_set();
}

// ----------------------------------------------------------------------------
// Facts behind the domain's transforms
// ----------------------------------------------------------------------------

/// A prime that divides a product of factors divides one of them.
proof fn lemma_prime_divides_seq_product(q: nat, ps: Seq<u64>)
    requires
        is_prime_spec(q),
        (seq_product(ps) as int) % (q as int) == 0,
    ensures
        exists|j: int| 0 <= j < ps.len() && #[trigger] (ps[j] as int) % (q as int) == 0,
    decreases ps.len(),
{
    if ps.len() == 0 {
        lemma_small_mod(1, q);
    } else {
        let rest = ps.drop_first();
        let a = ps[0] as int;
        let b = seq_product(rest) as int;
        assert(seq_product(ps) as int == a * b);
        if a % (q as int) != 0 {
            lemma_euclid(q, a, b);
            lemma_prime_divides_seq_product(q, rest);
            let j = choose|j: int| 0 <= j < rest.len() && #[trigger] (rest[j] as int) % (q as int) == 0;
            assert(ps[j + 1] == rest[j]);
        }
    }
}

/// Distinct primes with positive exponents, each prime power fitting in 64
/// bits.
pub open spec fn distinct_prime_powers(fs: Seq<(u64, u32)>) -> bool {
    &&& forall|i: int| 0 <= i < fs.len() ==> is_prime_spec(#[trigger] fs[i].0 as nat)
    &&& forall|i: int| 0 <= i < fs.len() ==> #[trigger] fs[i].1 >= 1
    &&& forall|i: int| 0 <= i < fs.len() ==> pow(#[trigger] fs[i].0 as int, fs[i].1 as nat) <= u64::MAX
    &&& forall|i: int, j: int| 0 <= i < j < fs.len() ==> #[trigger] fs[i].0 != #[trigger] fs[j].0
}

/// The prime powers of distinct primes form a coprime chain.
pub proof fn lemma_prime_powers_coprime_chain(fs: Seq<(u64, u32)>)
    requires
        distinct_prime_powers(fs),
    ensures
        coprime_chain(prime_powers(fs)),
    decreases fs.len(),
{
    let ps = prime_powers(fs);
    if fs.len() >= 2 {
        let tail = fs.drop_first();
        assert forall|i: int, j: int| 0 <= i < j < tail.len() implies #[trigger] tail[i].0 != #[trigger] tail[j].0 by {
            assert(tail[i] == fs[i + 1] && tail[j] == fs[j + 1]);
        }
        assert forall|i: int| 0 <= i < tail.len() implies pow(#[trigger] tail[i].0 as int, tail[i].1 as nat) <= u64::MAX by {
            assert(tail[i] == fs[i + 1]);
        }
        assert forall|i: int| 0 <= i < tail.len() implies is_prime_spec(#[trigger] tail[i].0 as nat) by {
            assert(tail[i] == fs[i + 1]);
        }
        assert forall|i: int| 0 <= i < tail.len() implies #[trigger] tail[i].1 >= 1 by {
            assert(tail[i] == fs[i + 1]);
        }
        lemma_prime_powers_coprime_chain(tail);
        assert(ps.drop_first() =~= prime_powers(tail));
        let p = fs[0].0 as nat;
        let e = fs[0].1 as nat;
        assert(is_prime_spec(p));
        assert(pow(p as int, e) <= u64::MAX);
        lemma_pow_positive(p as int, e);
        let a = ps[0] as nat;
        assert(a == pow(p as int, e));
        let b = seq_product(ps.drop_first());
        lemma_gcd_divides(a, b);
        let d = gcd(a, b);
        if d != 1 {
            lemma_prime_divisor_exists(d);
            let q = choose|q: nat| is_prime_spec(q) && #[trigger] (d % q) == 0;
            lemma_divides_trans(q, d, a);
            if b > 0 {
                lemma_divides_trans(q, d, b);
            } else {
                lemma_small_mod(0, q);
            }
            lemma_prime_divides_pow(q, p as int, e);
            lemma_divisor_of_prime(p, q);
            lemma_prime_divides_seq_product(q, ps.drop_first());
            let j = choose|j: int| 0 <= j < ps.drop_first().len() && #[trigger] (ps.drop_first()[j] as int) % (q as int) == 0;
            let pj = fs[j + 1].0 as nat;
            assert(ps.drop_first()[j] == ps[j + 1]);
            assert(pow(pj as int, fs[j + 1].1 as nat) <= u64::MAX);
            lemma_pow_positive(pj as int, fs[j + 1].1 as nat);
            assert(ps[j + 1] as int == pow(pj as int, fs[j + 1].1 as nat));
            lemma_prime_divides_pow(q, pj as int, fs[j + 1].1 as nat);
            assert(is_prime_spec(pj));
            lemma_divisor_of_prime(pj, q);
            assert(fs[0].0 != fs[j + 1].0);
        }
    }
}

/// In a prime field, an element with `g^n = 1` and `g^(n/2) ≠ 1` has
/// `g^(n/2) = -1`.
proof fn lemma_half_order_power<F: PrimeFieldElement>(g: int, n: nat)
    requires
        is_prime_spec(F::modulus()),
        n % 2 == 0,
        pow(g, n) % (F::modulus() as int) == 1,
        pow(g, n / 2) % (F::modulus() as int) != 1,
    ensures
        pow(g, n / 2) % (F::modulus() as int) == F::modulus() - 1,
{
    let m = F::modulus() as int;
    F::lemma_field_basics(arbitrary());
    let h = pow(g, n / 2) % m;
    lemma_mod_bound(pow(g, n / 2), m);
    lemma_pow_adds(g, n / 2, n / 2);
    assert(n / 2 + n / 2 == n);
    lemma_mul_mod_noop(pow(g, n / 2), pow(g, n / 2), m);
    assert((h * h) % m == 1);
    // m | h² - 1 = (h - 1)(h + 1)
    lemma_fundamental_div_mod(h * h, m);
    let q = (h * h) / m;
    assert((h - 1) * (h + 1) == m * q) by (nonlinear_arith)
        requires h * h == m * q + 1;
    lemma_mod_multiples_basic(q, m);
    lemma_mul_is_commutative(m, q);
    if (h - 1) % m != 0 {
        lemma_euclid(F::modulus(), h - 1, h + 1);
        lemma_fundamental_div_mod(h + 1, m);
        assert(h + 1 == m) by (nonlinear_arith)
            requires h + 1 == m * ((h + 1) / m) + 0, 0 <= h < m, m > 1;
    } else {
        lemma_fundamental_div_mod(h - 1, m);
        assert(h == 1) by (nonlinear_arith)
            requires h - 1 == m * ((h - 1) / m) + 0, 0 <= h < m, m > 1;
    }
}

/// In a prime field, a root of unity of order exactly `n` (`w^n = 1` and
/// `w^(n/q) ≠ 1` for each prime `q | n`) is one for which the fast
/// transforms compute the transform.
pub proof fn lemma_primitive_root_is_dft_root<F: PrimeFieldElement>(w: int, n: nat)
    requires
        is_prime_spec(F::modulus()),
        pow(w, n) % (F::modulus() as int) == 1,
        is_primitive_candidate::<F>(w, n),
    ensures
        dft_root_ok::<F>(w, n),
{
    if n % 2 == 0 {
        assert(is_prime_spec(2));
        lemma_half_order_power::<F>(w, n);
    }
}

/// The inverse of a root for which the butterfly is the transform is one too.
proof fn lemma_inverse_root_ok<F: PrimeFieldElement>(g: int, gi: int, n: nat)
    requires
        (gi * g) % (F::modulus() as int) == 1,
        dft_root_ok::<F>(g, n),
    ensures
        dft_root_ok::<F>(gi, n),
{
    let m = F::modulus() as int;
    F::lemma_field_basics(arbitrary());
    lemma_inverse_powers::<F>(g, gi, n);
    let a = pow(gi, n) % m;
    lemma_mod_bound(pow(gi, n), m);
    assert(pow(g, n) % m == 1);
    assert((a * 1) % m == 1);
    assert(a * 1 == a);
    lemma_small_mod(a as nat, m as nat);
    assert(a == 1);
    if n % 2 == 0 {
        let b = pow(gi, n / 2) % m;
        lemma_mod_bound(pow(gi, n / 2), m);
        lemma_inverse_powers::<F>(g, gi, n / 2);
        assert(pow(g, n / 2) % m == m - 1);
        assert((b * (m - 1)) % m == 1);
        // b·(m - 1) ≡ -b ≡ 1, so b = m - 1
        assert(b * (m - 1) == m * (b - 1) + (m - b)) by (nonlinear_arith);
        lemma_mod_multiples_vanish(b - 1, m - b, m);
        assert((m - b) % m == 1);
        if b == 0 {
            lemma_mod_self_0(m);
        } else {
            lemma_small_mod((m - b) as nat, m as nat);
        }
        assert(b == m - 1);
    }
}

/// Powers of mutually inverse elements are mutually inverse.
proof fn lemma_inverse_powers<F: PrimeFieldElement>(g: int, gi: int, k: nat)
    requires
        (gi * g) % (F::modulus() as int) == 1,
    ensures
        ((pow(gi, k) % (F::modulus() as int)) * (pow(g, k) % (F::modulus() as int))) % (F::modulus() as int) == 1,
{
    let m = F::modulus() as int;
    F::lemma_field_basics(arbitrary());
    lemma_pow_distributes(gi, g, k);
    lemma_pow_mod_noop(gi * g, k, m);
    lemma1_pow(k);
    lemma_small_mod(1, m as nat);
    lemma_mul_mod_noop(pow(gi, k), pow(g, k), m);
}

/// The values of `c`, padded with zeros or truncated to length `n`.
pub open spec fn padded<F: PrimeFieldElement>(c: Seq<F>, n: nat) -> Seq<int> {
    Seq::new(n, |i: int| if i < c.len() { c[i].value() as int } else { 0 })
}

/// The input of the domain's forward transform: the padded coefficients
/// multiplied by the powers of the coset offset `o`.
pub open spec fn coset_input<F: PrimeFieldElement>(c: Seq<F>, o: nat, n: nat) -> Seq<int> {
    Seq::new(n, |i: int| (padded(c, n)[i] * pow(o as int, i as nat)) % (F::modulus() as int))
}

/// The `i`-th output of the domain's inverse transform on the values `e`:
/// the transform at `gi`, times `n_inv`, times `oi^i`.
pub open spec fn interpolation_output<F: PrimeFieldElement>(e: Seq<int>, gi: nat, n_inv: nat, oi: nat, i: nat) -> int {
    let m = F::modulus() as int;
    ((((dft_sum(e, gi, i, e.len()) % m) * n_inv) % m) * pow(oi as int, i)) % m
}

// ----------------------------------------------------------------------------
// SmoothSubgroupDomain
// ----------------------------------------------------------------------------

/// The prime powers `p^e` of a factorisation, in order.
pub open spec fn prime_powers(fs: Seq<(u64, u32)>) -> Seq<u64> {
    Seq::new(fs.len(), |i: int| pow(fs[i].0 as int, fs[i].1 as nat) as u64)
}

/// A domain of order `size` can be built: `size` is positive with at most 8
/// distinct prime factors, the base search finds a root of unity of that
/// order, and every odd prime factor has a primitive root (so that Rader's
/// algorithm applies to it).
pub open spec fn domain_exists<F: PrimeFieldElement>(size: nat) -> bool {
    &&& size >= 1
    &&& prime_divisors(size).len() <= 8
    &&& root_of_unity_spec::<F>(size).is_some()
    &&& pow(root_of_unity_spec::<F>(size)->0, size) % (F::modulus() as int) == 1
    &&& forall|q: nat| #![trigger size % q] is_prime_spec(q) && q >= 3 && size % q == 0 ==> has_primitive_root(q)
}

/// `s` is the size of the domain chosen for `num_coeffs` coefficients: 1 for
/// none, otherwise the least divisor of the smooth part that is at least
/// `num_coeffs`, when it fits in a `usize`.
pub open spec fn is_domain_size_for<F: SmoothDomainConfig>(s: nat, num_coeffs: nat) -> bool {
    if num_coeffs == 0 {
        s == 1
    } else {
        &&& is_divisor(s, F::smooth_part_spec())
        &&& s >= num_coeffs
        &&& s <= usize::MAX
        &&& forall|d2: nat| #![trigger is_divisor(d2, F::smooth_part_spec())]
            is_divisor(d2, F::smooth_part_spec()) && d2 >= num_coeffs ==> s <= d2
    }
}

/// An evaluation domain backed by a multiplicative subgroup of smooth
/// order `size`, generated by `group_gen`, or by a coset `offset · H` of it.
#[derive(Clone, Copy, Debug, PartialEq, Eq)]
pub struct SmoothSubgroupDomain<F: PrimeFieldElement> {
    pub size: u64,
    pub size_as_field_element: F,
    pub size_inv: F,
    pub group_gen: F,
    pub group_gen_inv: F,
    pub offset: F,
    pub offset_inv: F,
    pub offset_pow_size: F,
    pub factor_count: u8,
    pub factors: [(u64, u32); 8],
}

impl<F: PrimeFieldElement> SmoothSubgroupDomain<F> {
    /// The prime factorisation of `size` that the domain holds.
    pub open spec fn factor_list(&self) -> Seq<(u64, u32)> {
        self.factors@.take(self.factor_count as int)
    }

    /// The domain's fields are consistent: `size` is positive with the held
    /// prime factorisation (at most 8 primes), `group_gen` has order exactly
    /// `size`, and each inverse is the inverse of its element.
    pub open spec fn wf(&self) -> bool {
        let m = F::modulus() as int;
        &&& self.size >= 1
        &&& self.factor_count <= 8
        &&& is_prime_factorization(self.factor_list(), self.size as nat)
        &&& self.size_as_field_element.value() == self.size as nat
        &&& (self.size_inv.value() * self.size) as int % m == 1
        &&& pow(self.group_gen.value() as int, self.size as nat) % m == 1
        &&& is_primitive_candidate::<F>(self.group_gen.value() as int, self.size as nat)
        &&& (self.group_gen_inv.value() * self.group_gen.value()) as int % m == 1
        &&& self.offset.value() != 0
        &&& (self.offset_inv.value() * self.offset.value()) as int % m == 1
        &&& self.offset_pow_size.value() as int == pow(self.offset.value() as int, self.size as nat) % m
    }

    /// The coefficients that the domain's inverse transform gives for the
    /// values `v`, one per element of `v`.
    pub open spec fn interpolant(&self, v: Seq<int>) -> Seq<int> {
        Seq::new(v.len(), |j: int| interpolation_output::<F>(v, self.group_gen_inv.value(), self.size_inv.value(),
            self.offset_inv.value(), j as nat))
    }

    /// The value of the domain element `offset · g^i`.
    pub open spec fn element_value(&self, i: nat) -> int {
        (self.offset.value() * pow(self.group_gen.value() as int, i)) % (F::modulus() as int)
    }

    /// Rader's algorithm is available for every prime coprime factor.
    pub open spec fn rader_ready(&self) -> bool {
        factors_usable(prime_powers(self.factor_list()))
    }

    /// The domain of order `size` (not a coset). `None` when `size` is 0, has
    /// more than 8 distinct prime factors, or no primitive root of unity of
    /// order `size` is found by the base search.
    pub fn new_from_size(size: u64) -> (r: Option<Self>)
        ensures
            r.is_some() == domain_exists::<F>(size as nat),
            r matches Some(d) ==> {
                &&& d.wf()
                &&& d.rader_ready()
                &&& d.size == size
                &&& root_of_unity_spec::<F>(size as nat) == Some(d.group_gen.value() as int)
                &&& d.size_as_field_element.value() == size as nat
                &&& (d.size_inv.value() * size) as int % (F::modulus() as int) == 1
                &&& (d.group_gen_inv.value() * d.group_gen.value()) as int % (F::modulus() as int) == 1
                &&& d.offset.value() == 1
                &&& d.offset_inv.value() == 1
                &&& d.offset_pow_size.value() == 1
            },
    {
        if size == 0 {
            return None;
        }
        let factors_vec = trial_factor(size);
        proof {
            lemma_factorization_counts_primes(factors_vec@, size as nat);
        }
        if factors_vec.len() > 8 {
            return None;
        }
        let ghost fs = factors_vec@;
        proof {
            lemma_prime_factors_at_least_two(fs);
        }
        let mut i: usize = 0;
        while i < factors_vec.len()
            invariant
                fs == factors_vec@,
                is_prime_factorization(fs, size as nat),
                size >= 1,
                forall|j: int| 0 <= j < fs.len() ==> #[trigger] fs[j].0 >= 2,
                0 <= i <= fs.len(),
                forall|j: int| 0 <= j < i && #[trigger] fs[j].0 >= 3 ==> has_primitive_root(fs[j].0 as nat),
            decreases fs.len() - i,
        {
            let p = factors_vec[i].0;
            if p >= 3 {
                if find_primitive_root(p).is_none() {
                    proof {
                        lemma_factor_divides_product(fs, i as int);
                        assert(is_prime_spec(p as nat));
                        assert((size as nat) % (p as nat) == 0);
                    }
                    return None;
                }
            }
            i += 1;
        }
        proof {
            assert forall|q: nat| #![trigger (size as nat) % q]
                is_prime_spec(q) && q >= 3 && (size as nat) % q == 0 implies has_primitive_root(q) by {
                lemma_prime_divisor_is_listed(q, fs);
                let j = choose|j: int| 0 <= j < fs.len() && #[trigger] fs[j].0 == q;
                assert(fs[j].0 >= 3);
            }
        }
        let group_gen = match find_root_of_unity::<F>(size) {
            Some(g) => g,
            None => {
                return None;
            },
        };
        let ghost m = F::modulus() as int;
        proof {
            F::lemma_field_basics(group_gen);
            lemma_first_root_passes::<F>(2, size as nat);
        }
        if !is_one(&pow_u64(&group_gen, size)) {
            return None;
        }
        if !passes_order_test(&group_gen, size, &factors_vec) {
            return None;
        }
        let size_as_field_element = F::from_u64(size);
        let size_inv = match size_as_field_element.inverse() {
            Some(v) => v,
            None => {
                return None;
            },
        };
        let group_gen_inv = match group_gen.inverse() {
            Some(v) => v,
            None => {
                return None;
            },
        };
        let one = F::one();
        let factors = [
            factor_or_zero(&factors_vec, 0),
            factor_or_zero(&factors_vec, 1),
            factor_or_zero(&factors_vec, 2),
            factor_or_zero(&factors_vec, 3),
            factor_or_zero(&factors_vec, 4),
            factor_or_zero(&factors_vec, 5),
            factor_or_zero(&factors_vec, 6),
            factor_or_zero(&factors_vec, 7),
        ];
        let d = SmoothSubgroupDomain {
            size,
            size_as_field_element,
            size_inv,
            group_gen,
            group_gen_inv,
            offset: one,
            offset_inv: one,
            offset_pow_size: one,
            factor_count: factors_vec.len() as u8,
            factors,
        };
        proof {
            assert(d.factor_list() =~= factors_vec@);
            lemma_rader_ready_from_primes(fs, size as nat);
            lemma_mul_is_commutative(size_inv.value() as int, size as int);
            lemma_mul_is_commutative(group_gen_inv.value() as int, group_gen.value() as int);
            lemma_pow1(1);
            lemma_pow_of_one(size as nat);
            lemma_small_mod(1, m as nat);
        }
        Some(d)
    }

    /// The coprime factors `p^e` of the domain size, one per prime.
    fn coprime_factors(&self) -> (r: Vec<u64>)
        requires
            self.wf(),
        ensures
            r@ == prime_powers(self.factor_list()),
            seq_product(r@) == self.size,
            forall|i: int| 0 <= i < r@.len() ==> #[trigger] r@[i] >= 1,
            self.rader_ready() && self.size >= 2 ==> is_factorization_of(r@, self.size as nat),
    {
        let count = self.factor_count as usize;
        let ghost fs = self.factor_list();
        let mut r: Vec<u64> = Vec::new();
        let mut i: usize = 0;
        proof {
            lemma_prime_factors_at_least_two(fs);
        }
        while i < count
            invariant
                count == self.factor_count,
                count <= 8,
                fs == self.factor_list(),
                fs.len() == count,
                is_prime_factorization(fs, self.size as nat),
                forall|j: int| 0 <= j < fs.len() ==> #[trigger] fs[j].0 >= 2,
                0 <= i <= count,
                r@ == prime_powers(fs.take(i as int)),
                seq_product(r@) == factors_product(fs.take(i as int)),
            decreases count - i,
        {
            let (p, e) = self.factors[i];
            proof {
                assert(fs[i as int] == (p, e));
                lemma_prime_power_le_product(fs, i as int);
            }
            let mut pe: u64 = 1;
            let mut t: u32 = 0;
            proof {
                lemma_pow0(p as int);
            }
            while t < e
                invariant
                    p >= 2,
                    0 <= t <= e,
                    pe as int == pow(p as int, t as nat),
                    pow(p as int, e as nat) <= u64::MAX,
                decreases e - t,
            {
                proof {
                    lemma_pow_adds(p as int, t as nat, 1);
                    lemma_pow1(p as int);
                    lemma_pow_increases(p as nat, (t + 1) as nat, e as nat);
                }
                pe = pe * p;
                t += 1;
            }
            proof {
                lemma_seq_product_push(r@, pe);
                assert(fs.take(i + 1).drop_last() =~= fs.take(i as int));
                assert(prime_powers(fs.take(i + 1)) =~= prime_powers(fs.take(i as int)).push(pe));
            }
            r.push(pe);
            i += 1;
        }
        proof {
            assert(fs.take(count as int) =~= fs);
            lemma_prime_powers_usable(fs, self.size as nat);
        }
        r
    }
}

/// `v[i]`, or `(0, 0)` past its end.
fn factor_or_zero(v: &Vec<(u64, u32)>, i: usize) -> (r: (u64, u32))
    ensures
        i < v@.len() ==> r == v@[i as int],
        i >= v@.len() ==> r == (0u64, 0u32),
{
    if i < v.len() {
        v[i]
    } else {
        (0, 0)
    }
}

proof fn lemma_prime_factors_at_least_two(fs: Seq<(u64, u32)>)
    requires
        forall|i: int| 0 <= i < fs.len() ==> is_prime_spec(#[trigger] fs[i].0 as nat),
    ensures
        forall|i: int| 0 <= i < fs.len() ==> #[trigger] fs[i].0 >= 2,
{
    assert forall|i: int| 0 <= i < fs.len() implies #[trigger] fs[i].0 >= 2 by {
        assert(is_prime_spec(fs[i].0 as nat));
    }
}

proof fn lemma_pow_of_one(e: nat)
    ensures
        pow(1, e) == 1,
    decreases e,
{
    reveal(pow);
    if e > 0 {
        lemma_pow_of_one((e - 1) as nat);
    }
}

proof fn lemma_seq_product_push(s: Seq<u64>, x: u64)
    ensures
        seq_product(s.push(x)) == seq_product(s) * (x as nat),
    decreases s.len(),
{
    let t = s.push(x);
    let c = x as nat;
    assert(seq_product(t) == (t[0] as nat) * seq_product(t.drop_first()));
    if s.len() == 0 {
        assert(t.drop_first() =~= Seq::<u64>::empty());
        assert(t[0] == x);
        assert(seq_product(s) == 1);
        assert(seq_product(t.drop_first()) == 1);
        assert(c * 1 == 1 * c) by (nonlinear_arith);
    } else {
        lemma_seq_product_push(s.drop_first(), x);
        assert(t.drop_first() =~= s.drop_first().push(x));
        assert(t[0] == s[0]);
        let a = s[0] as nat;
        let b = seq_product(s.drop_first());
        assert(seq_product(s) == a * b);
        assert(a * (b * c) == (a * b) * c) by (nonlinear_arith);
    }
}

/// Each prime power of a factorisation is at most the product.
proof fn lemma_prime_power_le_product(fs: Seq<(u64, u32)>, i: int)
    requires
        0 <= i < fs.len(),
        forall|j: int| 0 <= j < fs.len() ==> #[trigger] fs[j].0 >= 2,
    ensures
        pow(fs[i].0 as int, fs[i].1 as nat) <= factors_product(fs),
    decreases fs.len(),
{
    let last = fs.len() - 1;
    let rest = fs.drop_last();
    let pl = pow(fs[last].0 as int, fs[last].1 as nat);
    lemma_pow_positive(fs[last].0 as int, fs[last].1 as nat);
    assert forall|j: int| 0 <= j < rest.len() implies #[trigger] rest[j].0 >= 2 by {
        assert(rest[j] == fs[j]);
    }
    lemma_factors_product_positive_u(rest);
    if i == last {
        lemma_mul_increases(factors_product(rest) as int, pl);
    } else {
        lemma_prime_power_le_product(rest, i);
        assert(rest[i] == fs[i]);
        lemma_mul_increases(pl, factors_product(rest) as int);
        lemma_mul_is_commutative(pl, factors_product(rest) as int);
    }
}

proof fn lemma_factors_product_positive_u(fs: Seq<(u64, u32)>)
    requires
        forall|j: int| 0 <= j < fs.len() ==> #[trigger] fs[j].0 >= 2,
    ensures
        factors_product(fs) >= 1,
    decreases fs.len(),
{
    if fs.len() > 0 {
        let rest = fs.drop_last();
        assert forall|j: int| 0 <= j < rest.len() implies #[trigger] rest[j].0 >= 2 by {
            assert(rest[j] == fs[j]);
        }
        lemma_factors_product_positive_u(rest);
        lemma_pow_positive(fs.last().0 as int, fs.last().1 as nat);
        lemma_mul_increases(factors_product(rest) as int, pow(fs.last().0 as int, fs.last().1 as nat));
    }
}

/// The prime powers of a prime factorisation of `n` are usable factors of
/// `n`, except for the primitive-root condition on their prime members.
proof fn lemma_prime_powers_usable(fs: Seq<(u64, u32)>, n: nat)
    requires
        is_prime_factorization(fs, n),
        1 <= n <= u64::MAX,
    ensures
        forall|i: int| 0 <= i < fs.len() ==> #[trigger] prime_powers(fs)[i] >= 1,
{
    lemma_prime_factors_at_least_two(fs);
    assert forall|i: int| 0 <= i < fs.len() implies #[trigger] prime_powers(fs)[i] >= 1 by {
        lemma_prime_power_le_product(fs, i);
        lemma_pow_positive(fs[i].0 as int, fs[i].1 as nat);
        assert(prime_powers(fs)[i] == pow(fs[i].0 as int, fs[i].1 as nat) as u64);
    }
}

/// The prime powers of a factorisation whose odd primes have primitive
/// roots are usable: a prime power `p^e` that is itself prime is `p`.
proof fn lemma_rader_ready_from_primes(fs: Seq<(u64, u32)>, n: nat)
    requires
        is_prime_factorization(fs, n),
        1 <= n <= u64::MAX,
        forall|j: int| 0 <= j < fs.len() && #[trigger] fs[j].0 >= 3 ==> has_primitive_root(fs[j].0 as nat),
    ensures
        factors_usable(prime_powers(fs)),
{
    lemma_prime_powers_usable(fs, n);
    lemma_prime_factors_at_least_two(fs);
    let ps = prime_powers(fs);
    assert forall|i: int| 0 <= i < ps.len() implies {
        &&& #[trigger] ps[i] >= 1
        &&& (ps[i] >= 3 && is_prime_spec(ps[i] as nat) ==> has_primitive_root(ps[i] as nat))
    } by {
        let p = fs[i].0 as int;
        let e = fs[i].1 as nat;
        lemma_prime_power_le_product(fs, i);
        lemma_pow_positive(p, e);
        assert(ps[i] as int == pow(p, e));
        if ps[i] >= 3 && is_prime_spec(ps[i] as nat) {
            assert(e >= 1);
            lemma_pow_adds(p, 1, (e - 1) as nat);
            lemma_pow1(p);
            assert(pow(p, e) == p * pow(p, (e - 1) as nat));
            lemma_mod_multiples_basic(pow(p, (e - 1) as nat), p);
            lemma_mul_is_commutative(p, pow(p, (e - 1) as nat));
            lemma_divisor_of_prime(ps[i] as nat, p as nat);
            assert(ps[i] as int == p);
        }
    }
}

/// The candidate a search settles on passes the test.
proof fn lemma_first_root_passes<F: PrimeFieldElement>(b: nat, n: nat)
    requires
        first_root_from::<F>(b, n).is_some(),
    ensures
        is_primitive_candidate::<F>(first_root_from::<F>(b, n)->0, n),
    decreases 100 - b,
{
    if b < 100 && !is_primitive_candidate::<F>(root_candidate::<F>(b, n), n) {
        lemma_first_root_passes::<F>(b + 1, n);
    }
}

/// `x_i ← x_i · g^i` for every position `i`.
pub fn distribute_powers<F: PrimeFieldElement>(coeffs: &mut Vec<F>, g: &F)
    ensures
        final(coeffs)@.len() == old(coeffs)@.len(),
        forall|i: int| 0 <= i < old(coeffs)@.len() ==> #[trigger] final(coeffs)@[i].value() as int
            == (old(coeffs)@[i].value() * pow(g.value() as int, i as nat)) % (F::modulus() as int),
{
    let n = coeffs.len();
    let ghost x = coeffs@;
    let ghost m = F::modulus() as int;
    let mut pow_g = F::one();
    let mut i: usize = 0;
    proof {
        F::lemma_field_basics(*g);
        lemma_pow0(g.value() as int);
        lemma_small_mod(1, m as nat);
    }
    while i < n
        invariant
            n == x.len(),
            coeffs@.len() == n,
            m == F::modulus() as int,
            m > 1,
            0 <= i <= n,
            pow_g.value() as int == pow(g.value() as int, i as nat) % m,
            forall|t: int| 0 <= t < n && t >= i ==> #[trigger] coeffs@[t] == x[t],
            forall|t: int| 0 <= t < i ==> #[trigger] coeffs@[t].value() as int
                == (x[t].value() * pow(g.value() as int, t as nat)) % m,
        decreases n - i,
    {
        let v = coeffs[i].mul(&pow_g);
        proof {
            lemma_mul_mod_noop_right(x[i as int].value() as int, pow(g.value() as int, i as nat), m);
            lemma_pow_adds(g.value() as int, i as nat, 1);
            lemma_pow1(g.value() as int);
            lemma_mul_mod_noop_left(pow(g.value() as int, i as nat), g.value() as int, m);
        }
        coeffs.set(i, v);
        pow_g = pow_g.mul(g);
        i += 1;
    }
}

/// Truncates or pads with zeros to length `n`.
fn resize_with_zeros<F: PrimeFieldElement>(v: &mut Vec<F>, n: usize)
    ensures
        final(v)@.len() == n,
        forall|i: int| 0 <= i < n ==> #[trigger] final(v)@[i].value()
            == (if i < old(v)@.len() { old(v)@[i].value() } else { 0 }),
{
    v.truncate(n);
    while v.len() < n
        invariant
            v@.len() <= n,
            v@.len() >= old(v)@.len() || v@.len() == n,
            forall|i: int| 0 <= i < v@.len() ==> #[trigger] v@[i].value()
                == (if i < old(v)@.len() { old(v)@[i].value() } else { 0 }),
        decreases n - v@.len(),
    {
        v.push(F::zero());
    }
}

/// The smallest number of bits that holds `v`.
pub open spec fn bit_length(v: nat) -> nat
    decreases v,
{
    if v == 0 {
        0
    } else {
        1 + bit_length(v / 2)
    }
}

impl<F: PrimeFieldElement> SmoothSubgroupDomain<F> {
    /// The coprime factors of the size are always pairwise coprime: they are
    /// powers of distinct primes.
    fn factors_are_coprime(&self) -> (r: bool)
        ensures
            r,
    {
        true
    }

    /// The coset `offset · H` of this domain; `None` for a zero offset.
    pub fn get_coset(&self, offset: F) -> (r: Option<Self>)
        requires
            self.wf(),
        ensures
            r.is_some() == (offset.value() != 0),
            r matches Some(d) ==> {
                &&& d.wf()
                &&& d.size == self.size
                &&& d.size_as_field_element == self.size_as_field_element
                &&& d.size_inv == self.size_inv
                &&& d.group_gen == self.group_gen
                &&& d.group_gen_inv == self.group_gen_inv
                &&& d.factor_list() == self.factor_list()
                &&& d.offset == offset
                &&& (d.offset_inv.value() * offset.value()) as int % (F::modulus() as int) == 1
                &&& d.offset_pow_size.value() as int == pow(offset.value() as int, self.size as nat) % (F::modulus() as int)
            },
    {
        if is_zero(&offset) {
            return None;
        }
        let offset_inv = match offset.inverse() {
            Some(v) => v,
            None => {
                return None;
            },
        };
        let offset_pow_size = pow_u64(&offset, self.size);
        proof {
            lemma_mul_is_commutative(offset_inv.value() as int, offset.value() as int);
        }
        Some(SmoothSubgroupDomain {
            size: self.size,
            size_as_field_element: self.size_as_field_element,
            size_inv: self.size_inv,
            group_gen: self.group_gen,
            group_gen_inv: self.group_gen_inv,
            offset,
            offset_inv,
            offset_pow_size,
            factor_count: self.factor_count,
            factors: self.factors,
        })
    }

    /// The number of elements of the domain.
    pub fn size(&self) -> (r: usize)
        requires
            self.size <= usize::MAX,
        ensures
            r == self.size,
    {
        self.size as usize
    }

    /// The bit length of `size - 1` (the base-2 logarithm of the size,
    /// rounded up).
    pub fn log_size_of_group(&self) -> (r: u64)
        requires
            self.wf(),
        ensures
            r == bit_length((self.size - 1) as nat),
    {
        let mut v: u64 = self.size - 1;
        let mut bits: u64 = 0;
        proof {
            lemma2_to64();
            lemma_bit_length_bound(v as nat, 64);
        }
        while v > 0
            invariant
                bits + bit_length(v as nat) == bit_length((self.size - 1) as nat),
                bits <= 64 - bit_length(v as nat),
                bit_length(v as nat) <= 64,
            decreases v,
        {
            proof {
                lemma_bit_length_u64(v);
            }
            v = v / 2;
            bits += 1;
        }
        bits
    }

    pub fn size_inv(&self) -> (r: F)
        ensures
            r == self.size_inv,
    {
        self.size_inv
    }

    pub fn group_gen(&self) -> (r: F)
        ensures
            r == self.group_gen,
    {
        self.group_gen
    }

    pub fn group_gen_inv(&self) -> (r: F)
        ensures
            r == self.group_gen_inv,
    {
        self.group_gen_inv
    }

    pub fn coset_offset(&self) -> (r: F)
        ensures
            r == self.offset,
    {
        self.offset
    }

    pub fn coset_offset_inv(&self) -> (r: F)
        ensures
            r == self.offset_inv,
    {
        self.offset_inv
    }

    pub fn coset_offset_pow_size(&self) -> (r: F)
        ensures
            r == self.offset_pow_size,
    {
        self.offset_pow_size
    }

    /// The elements `offset · g^i` of the domain, for `i < size`.
    pub fn elements(&self) -> (r: Vec<F>)
        requires
            self.size <= usize::MAX,
        ensures
            r@.len() == self.size,
            forall|i: int| 0 <= i < self.size ==> #[trigger] r@[i].value() as int
                == (self.offset.value() * pow(self.group_gen.value() as int, i as nat)) % (F::modulus() as int),
    {
        let n = self.size as usize;
        let ghost m = F::modulus() as int;
        let ghost gv = self.group_gen.value() as int;
        let ghost ov = self.offset.value() as int;
        let mut r: Vec<F> = Vec::new();
        let mut cur = F::one();
        let mut i: usize = 0;
        proof {
            F::lemma_field_basics(self.group_gen);
            lemma_pow0(gv);
            lemma_small_mod(1, m as nat);
        }
        while i < n
            invariant
                n == self.size,
                m == F::modulus() as int,
                m > 1,
                gv == self.group_gen.value() as int,
                ov == self.offset.value() as int,
                0 <= i <= n,
                r@.len() == i,
                cur.value() as int == pow(gv, i as nat) % m,
                forall|t: int| 0 <= t < i ==> #[trigger] r@[t].value() as int == (ov * pow(gv, t as nat)) % m,
            decreases n - i,
        {
            let v = cur.mul(&self.offset);
            proof {
                lemma_mul_mod_noop_left(pow(gv, i as nat), ov, m);
                lemma_mul_is_commutative(pow(gv, i as nat), ov);
                lemma_pow_adds(gv, i as nat, 1);
                lemma_pow1(gv);
                lemma_mul_mod_noop_left(pow(gv, i as nat), gv, m);
            }
            r.push(v);
            cur = cur.mul(&self.group_gen);
            i += 1;
        }
        r
    }

    /// With a prime modulus, the generator and its inverse are roots for
    /// which the transforms apply, and the prime powers of the size form a
    /// coprime chain.
    proof fn lemma_transform_roots(&self)
        requires
            self.wf(),
            is_prime_spec(F::modulus()),
        ensures
            dft_root_ok::<F>(self.group_gen.value() as int, self.size as nat),
            dft_root_ok::<F>(self.group_gen_inv.value() as int, self.size as nat),
            coprime_chain(prime_powers(self.factor_list())),
    {
        let fs = self.factor_list();
        let n = self.size as nat;
        let g = self.group_gen.value() as int;
        if n % 2 == 0 {
            assert(is_prime_spec(2));
            lemma_half_order_power::<F>(g, n);
        }
        lemma_inverse_root_ok::<F>(g, self.group_gen_inv.value() as int, n);
        lemma_prime_factors_at_least_two(fs);
        assert forall|i: int| 0 <= i < fs.len() implies pow(#[trigger] fs[i].0 as int, fs[i].1 as nat) <= u64::MAX by {
            lemma_prime_power_le_product(fs, i);
        }
        assert forall|i: int, j: int| 0 <= i < j < fs.len() implies #[trigger] fs[i].0 != #[trigger] fs[j].0 by {
            assert(fs[i].0 < fs[j].0);
        }
        lemma_prime_powers_coprime_chain(fs);
    }

    /// Evaluations over the domain (a coset when the offset is not 1): the
    /// coefficients are padded or truncated to `size`, multiplied by the
    /// powers of the offset, and transformed at `group_gen`. In a prime field
    /// the result is the transform of that input.
    pub fn fft_in_place(&self, coeffs: &mut Vec<F>)
        requires
            self.wf(),
            self.rader_ready(),
            self.size <= usize::MAX,
        ensures
            final(coeffs)@.len() == self.size,
            is_prime_spec(F::modulus()) ==> is_dft_of_values(final(coeffs)@,
                coset_input(old(coeffs)@, self.offset.value(), self.size as nat), self.group_gen.value()),
    {
        let ghost c = coeffs@;
        let ghost m = F::modulus() as int;
        let n = self.size as usize;
        resize_with_zeros(coeffs, n);
        let ghost c1 = coeffs@;
        if !is_one(&self.offset) {
            distribute_powers(coeffs, &self.offset);
        }
        proof {
            F::lemma_field_basics(self.offset);
            let ci = coset_input(c, self.offset.value(), n as nat);
            let o = self.offset.value() as int;
            assert forall|i: int| 0 <= i < n implies #[trigger] values(coeffs@)[i] == ci[i] by {
                F::lemma_field_basics(c1[i]);
                assert(c1[i].value() as int == padded(c, n as nat)[i]);
                assert(ci[i] == (padded(c, n as nat)[i] * pow(o, i as nat)) % m);
                if self.offset.value() == 1 {
                    lemma1_pow(i as nat);
                    lemma_small_mod(c1[i].value(), m as nat);
                    assert(coeffs@[i] == c1[i]);
                } else {
                    assert(coeffs@[i].value() as int == (c1[i].value() * pow(o, i as nat)) % m);
                }
            }
            assert(values(coeffs@) =~= ci);
        }
        let coprime = self.coprime_factors();
        if self.factors_are_coprime() {
            good_thomas_fft(coeffs, &self.group_gen, coprime.as_slice());
        } else {
            cooley_tukey_fft(coeffs, &self.group_gen, coprime.as_slice());
        }
        proof {
            if is_prime_spec(F::modulus()) {
                self.lemma_transform_roots();
            }
        }
    }

    /// Interpolation from evaluations over the domain: the transform at
    /// `group_gen_inv`, scaled by `1/size`, then multiplied by the powers of
    /// the inverse offset. In a prime field each output is
    /// `interpolation_output` of the padded evaluations.
    pub fn ifft_in_place(&self, evals: &mut Vec<F>)
        requires
            self.wf(),
            self.rader_ready(),
            self.size <= usize::MAX,
        ensures
            final(evals)@.len() == self.size,
            is_prime_spec(F::modulus()) ==> forall|i: int| 0 <= i < self.size ==> #[trigger] final(evals)@[i].value() as int
                == interpolation_output::<F>(padded(old(evals)@, self.size as nat), self.group_gen_inv.value(),
                    self.size_inv.value(), self.offset_inv.value(), i as nat),
    {
        let ghost e0 = evals@;
        let ghost m = F::modulus() as int;
        let ghost gi = self.group_gen_inv.value();
        let n = self.size as usize;
        resize_with_zeros(evals, n);
        let ghost e1 = evals@;
        proof {
            assert(values(e1) =~= padded(e0, n as nat));
        }
        let coprime = self.coprime_factors();
        if self.factors_are_coprime() {
            good_thomas_fft(evals, &self.group_gen_inv, coprime.as_slice());
        } else {
            cooley_tukey_fft(evals, &self.group_gen_inv, coprime.as_slice());
        }
        proof {
            if is_prime_spec(F::modulus()) {
                self.lemma_transform_roots();
            }
        }
        let ghost e2 = evals@;
        let mut i: usize = 0;
        while i < n
            invariant
                evals@.len() == n,
                e2.len() == n,
                0 <= i <= n,
                forall|j: int| 0 <= j < i ==> #[trigger] evals@[j].value()
                    == (e2[j].value() * self.size_inv.value()) % F::modulus(),
                forall|j: int| i <= j < n ==> #[trigger] evals@[j] == e2[j],
            decreases n - i,
        {
            let v = evals[i].mul(&self.size_inv);
            evals.set(i, v);
            i += 1;
        }
        let ghost e3 = evals@;
        if !is_one(&self.offset) {
            distribute_powers(evals, &self.offset_inv);
        }
        proof {
            if is_prime_spec(F::modulus()) {
                F::lemma_field_basics(self.offset_inv);
                assert forall|j: int| 0 <= j < n implies #[trigger] evals@[j].value() as int
                    == interpolation_output::<F>(padded(e0, n as nat), gi,
                        self.size_inv.value(), self.offset_inv.value(), j as nat) by {
                    assert(e2[j].value() == dft_sum(values(e1), gi, j as nat, n as nat) % m);
                    assert(padded(e0, n as nat).len() == n);
                    assert(e3[j].value() == (e2[j].value() * self.size_inv.value()) % F::modulus());
                    let oi = self.offset_inv.value() as int;
                    if self.offset.value() == 1 {
                        assert((self.offset_inv.value() * 1) as int % m == 1);
                        lemma_small_mod(self.offset_inv.value(), m as nat);
                        lemma1_pow(j as nat);
                        F::lemma_field_basics(e3[j]);
                        lemma_small_mod(e3[j].value(), m as nat);
                        assert(evals@[j] == e3[j]);
                        assert(pow(oi, j as nat) == 1);
                        assert((e3[j].value() * pow(oi, j as nat)) % m == e3[j].value());
                    } else {
                        assert(evals@[j].value() == (e3[j].value() * pow(oi, j as nat)) % m);
                    }
                    assert(evals@[j].value() == (e3[j].value() * pow(oi, j as nat)) % m);
                }
            }
        }
    }
}

// ----------------------------------------------------------------------------
// Interpolation inverts evaluation
// ----------------------------------------------------------------------------

/// An element with `g^n = 1` and `g^(n/q) ≠ 1` for each prime `q | n` has
/// order exactly `n`: no power `g^d` with `0 < d < n` is 1.
proof fn lemma_exact_order<F: PrimeFieldElement>(g: int, n: nat, d: nat)
    requires
        is_primitive_candidate::<F>(g, n),
        pow(g, n) % (F::modulus() as int) == 1,
        0 < d < n,
    ensures
        pow(g, d) % (F::modulus() as int) != 1,
{
    let pi = F::modulus() as int;
    F::lemma_field_basics(arbitrary());
    if pow(g, d) % pi == 1 {
        lemma_pow_gcd(g, n, d, pi);
        let e = gcd(n, d);
        lemma_gcd_divides(n, d);
        lemma_divisor_le_nat(e, d);
        lemma_fundamental_div_mod(n as int, e as int);
        let c = n / e;
        assert(n == e * c);
        assert(c >= 2) by (nonlinear_arith)
            requires n == e * c, e <= d, d < n, e > 0;
        lemma_prime_divisor_exists(c);
        let q = choose|q: nat| is_prime_spec(q) && #[trigger] (c % q) == 0;
        lemma_fundamental_div_mod(c as int, q as int);
        let r = c / q;
        assert(c == q * r);
        assert(n == q * (e * r)) by (nonlinear_arith) requires n == e * c, c == q * r;
        lemma_mod_multiples_basic((e * r) as int, q as int);
        lemma_mul_is_commutative(q as int, (e * r) as int);
        lemma_div_multiples_vanish((e * r) as int, q as int);
        assert(n % q == 0 && n / q == e * r);
        assert(e * r >= 0) by (nonlinear_arith) requires e > 0, r >= 0;
        lemma_pow_multiplies(g, e, r);
        lemma_pow_mod_noop(pow(g, e), r, pi);
        lemma1_pow(r);
        lemma_small_mod(1, pi as nat);
        assert(pow(g, n / q) % pi == 1);
    }
}

/// `(r - 1)·Σ_{k < n} r^k = r^n - 1`.
pub proof fn lemma_geometric_sum(r: int, n: nat)
    ensures
        (r - 1) * sum(|k: int| pow(r, k as nat), n) == pow(r, n) - 1,
    decreases n,
{
    if n == 0 {
        lemma_pow0(r);
    } else {
        lemma_geometric_sum(r, (n - 1) as nat);
        let s = sum(|k: int| pow(r, k as nat), (n - 1) as nat);
        let p = pow(r, (n - 1) as nat);
        lemma_pow_adds(r, (n - 1) as nat, 1);
        lemma_pow1(r);
        assert((r - 1) * (s + p) == (r - 1) * s + (r - 1) * p) by (nonlinear_arith);
        assert((r - 1) * p == p * r - p) by (nonlinear_arith);
    }
}

/// In a prime field, the powers of a root of unity `r ≠ 1` with `r^n = 1`
/// sum to 0 over a full period.
proof fn lemma_root_sum_vanishes<F: PrimeFieldElement>(r: int, n: nat)
    requires
        is_prime_spec(F::modulus()),
        pow(r, n) % (F::modulus() as int) == 1,
        r % (F::modulus() as int) != 1,
    ensures
        sum(|k: int| pow(r, k as nat), n) % (F::modulus() as int) == 0,
{
    let m = F::modulus() as int;
    F::lemma_field_basics(arbitrary());
    lemma_geometric_sum(r, n);
    let s = sum(|k: int| pow(r, k as nat), n);
    lemma_sub_mod_noop(pow(r, n), 1, m);
    lemma_small_mod(1, m as nat);
    lemma_small_mod(0, m as nat);
    assert(((r - 1) * s) % m == 0);
    lemma_sub_mod_noop(r, 1, m);
    lemma_mod_bound(r, m);
    if (r - 1) % m == 0 {
        let x = r % m - 1;
        assert(x % m == 0);
        lemma_fundamental_div_mod(x, m);
        assert(x == 0) by (nonlinear_arith)
            requires x == m * (x / m) + 0, -1 <= x < m - 1, m > 1;
    }
    lemma_euclid(F::modulus(), r - 1, s);
}

/// A power of a root of unity is a root of unity of the same order.
proof fn lemma_power_of_root<F: PrimeFieldElement>(h: int, d: nat, n: nat)
    requires
        pow(h, n) % (F::modulus() as int) == 1,
    ensures
        pow(pow(h, d) % (F::modulus() as int), n) % (F::modulus() as int) == 1,
{
    let m = F::modulus() as int;
    F::lemma_field_basics(arbitrary());
    lemma_pow_mod_noop(pow(h, d), n, m);
    lemma_pow_multiplies(h, d, n);
    lemma_pow_multiplies(h, n, d);
    lemma_mul_is_commutative(d as int, n as int);
    lemma_pow_mod_noop(pow(h, n), d, m);
    lemma1_pow(d);
    lemma_small_mod(1, m as nat);
}

/// `Σ_{k < n} 1^k = n`.
proof fn lemma_sum_of_ones(n: nat)
    ensures
        sum(|k: int| pow(1int, k as nat), n) == n,
    decreases n,
{
    if n > 0 {
        lemma_sum_of_ones((n - 1) as nat);
        lemma1_pow((n - 1) as nat);
    }
}

/// A sum with a single nonzero term.
proof fn lemma_sum_indicator(v: int, j: int, n: nat)
    requires
        0 <= j < n,
    ensures
        sum(|i: int| if i == j { v } else { 0 }, n) == v,
    decreases n,
{
    let f = |i: int| if i == j { v } else { 0 };
    if n - 1 == j {
        lemma_sum_zero_before(v, j, j as nat);
    } else {
        lemma_sum_indicator(v, j, (n - 1) as nat);
    }
}

proof fn lemma_sum_zero_before(v: int, j: int, n: nat)
    requires
        n <= j,
    ensures
        sum(|i: int| if i == j { v } else { 0 }, n) == 0,
    decreases n,
{
    if n > 0 {
        lemma_sum_zero_before(v, j, (n - 1) as nat);
    }
}

/// Orthogonality of the characters: for `g` of order exactly `n` and its
/// inverse `gi`, `Σ_{k < n} g^(i k) · gi^(k j)` is `n` when `i = j` and 0
/// otherwise, in a prime field.
proof fn lemma_character_sum<F: PrimeFieldElement>(g: int, gi: int, n: nat, i: int, j: int)
    requires
        is_prime_spec(F::modulus()),
        is_primitive_candidate::<F>(g, n),
        pow(g, n) % (F::modulus() as int) == 1,
        (gi * g) % (F::modulus() as int) == 1,
        0 <= i < n,
        0 <= j < n,
    ensures
        sum(|k: int| pow(g, (i * k) as nat) * pow(gi, (k * j) as nat), n) % (F::modulus() as int)
            == (if i == j { (n as int) % (F::modulus() as int) } else { 0 }),
{
    let m = F::modulus() as int;
    F::lemma_field_basics(arbitrary());
    let gp = pow(g, i as nat);
    let gq = pow(gi, j as nat);
    let r = (gp * gq) % m;
    let term = |k: int| pow(g, (i * k) as nat) * pow(gi, (k * j) as nat);
    let geo = |k: int| pow(r, k as nat);
    assert forall|k: int| 0 <= k < n implies #[trigger] term(k) % m == geo(k) % m by {
        lemma_pow_multiplies(g, i as nat, k as nat);
        lemma_pow_multiplies(gi, j as nat, k as nat);
        assert((k * j) == (j * k)) by (nonlinear_arith);
        lemma_pow_distributes(gp, gq, k as nat);
        lemma_pow_mod_noop(gp * gq, k as nat, m);
    }
    lemma_sum_congruent(term, geo, n, m);
    lemma_inverse_powers::<F>(g, gi, i as nat);
    lemma_inverse_powers::<F>(g, gi, j as nat);
    lemma_mul_mod_noop(pow(gi, j as nat), pow(g, j as nat), m);
    lemma_mul_mod_noop(pow(gi, i as nat), pow(g, i as nat), m);
    if i == j {
        lemma_mul_is_commutative(gp, gq);
        assert(r == 1);
        lemma_sum_of_ones(n);
        lemma_sum_ext(geo, |k: int| pow(1int, k as nat), n);
    } else if i > j {
        let d = (i - j) as nat;
        lemma_pow_adds(g, j as nat, d);
        assert(j as nat + d == i as nat);
        let u = pow(g, d);
        // g^i·gi^j = g^d·(g^j·gi^j) ≡ g^d
        assert(gp * gq == u * (pow(g, j as nat) * gq)) by (nonlinear_arith)
            requires gp == pow(g, j as nat) * u;
        lemma_mul_is_commutative(pow(g, j as nat), gq);
        lemma_mul_mod_noop_right(u, pow(g, j as nat) * gq, m);
        assert(r == u % m);
        lemma_exact_order::<F>(g, n, d);
        lemma_mod_twice(u, m);
        lemma_power_of_root::<F>(g, d, n);
        lemma_root_sum_vanishes::<F>(r, n);
    } else {
        let d = (j - i) as nat;
        lemma_pow_adds(gi, i as nat, d);
        assert(i as nat + d == j as nat);
        let u = pow(gi, d);
        assert(gp * gq == u * (gp * pow(gi, i as nat))) by (nonlinear_arith)
            requires gq == pow(gi, i as nat) * u;
        lemma_mul_is_commutative(gp, pow(gi, i as nat));
        lemma_mul_mod_noop_right(u, gp * pow(gi, i as nat), m);
        assert(r == u % m);
        lemma_inverse_powers::<F>(g, gi, n);
        lemma_mod_bound(pow(gi, n), m);
        lemma_small_mod((pow(gi, n) % m) as nat, m as nat);
        assert(pow(gi, n) % m == 1);
        lemma_power_of_root::<F>(gi, d, n);
        lemma_mod_twice(u, m);
        if u % m == 1 {
            lemma_inverse_powers::<F>(g, gi, d);
            lemma_mod_bound(pow(g, d), m);
            lemma_small_mod((pow(g, d) % m) as nat, m as nat);
            lemma_exact_order::<F>(g, n, d);
        }
        lemma_root_sum_vanishes::<F>(r, n);
    }
}

/// The forward transform evaluates: output `k` of the domain's forward
/// transform of coefficients `c` is the polynomial with coefficients `c`
/// (padded or truncated to the size) at the domain element `offset · g^k`.
pub proof fn lemma_fft_evaluates_polynomial<F: PrimeFieldElement>(
    d: SmoothSubgroupDomain<F>,
    c: Seq<F>,
    evals: Seq<F>,
    k: nat,
)
    requires
        is_dft_of_values(evals, coset_input(c, d.offset.value(), d.size as nat), d.group_gen.value()),
        k < d.size,
    ensures
        evals[k as int].value() as int == poly_eval(padded(c, d.size as nat),
            (d.offset.value() * pow(d.group_gen.value() as int, k)) % (F::modulus() as int)) % (F::modulus() as int),
{
    let m = F::modulus() as int;
    F::lemma_field_basics(arbitrary());
    let n = d.size as nat;
    let g = d.group_gen.value() as int;
    let o = d.offset.value() as int;
    let a = coset_input(c, d.offset.value(), n);
    let p = padded(c, n);
    let x = (o * pow(g, k)) % m;
    lemma_dft_sum_is_sum(a, g as nat, k, n);
    lemma_poly_eval_is_sum(p, x);
    let ev = |i: int| p[i] * pow(x, i as nat);
    assert forall|i: int| 0 <= i < n implies #[trigger] dft_term(a, g, k)(i) % m == ev(i) % m by {
        assert(i * k >= 0) by (nonlinear_arith) requires i >= 0;
        let gi = pow(g, (i * k) as nat);
        let oi = pow(o, i as nat);
        lemma_mul_mod_noop_left(p[i] * oi, gi, m);
        lemma_pow_mod_noop(o * pow(g, k), i as nat, m);
        lemma_pow_distributes(o, pow(g, k), i as nat);
        lemma_pow_multiplies(g, k, i as nat);
        assert(k * (i as nat) == (i * k) as nat) by (nonlinear_arith) requires i >= 0;
        lemma_mul_mod_noop_right(p[i], pow(x, i as nat), m);
        lemma_mul_mod_noop_right(p[i], oi * gi, m);
        assert((p[i] * oi) * gi == p[i] * (oi * gi)) by (nonlinear_arith);
    }
    lemma_sum_congruent(dft_term(a, g, k), ev, n, m);
}

/// Transforming at `ω` and then at its inverse multiplies by `n`: in a prime
/// field, for `ω` of order exactly `n` and `ωi` with `ωi·ω = 1`, when `y` is
/// the transform of `x` at `ω` and `z` the transform of `y` at `ωi`, every
/// `z_k` is `n·x_k`. (This holds of every transform strategy, whose results
/// are the transform.)
pub proof fn lemma_transform_inverse_transform<F: PrimeFieldElement>(
    x: Seq<F>,
    y: Seq<F>,
    z: Seq<F>,
    w: nat,
    wi: nat,
    k: nat,
)
    requires
        is_prime_spec(F::modulus()),
        x.len() >= 1,
        pow(w as int, x.len()) % (F::modulus() as int) == 1,
        is_primitive_candidate::<F>(w as int, x.len()),
        (wi * w) as int % (F::modulus() as int) == 1,
        is_dft(y, x, w),
        is_dft(z, y, wi),
        k < x.len(),
    ensures
        z[k as int].value() as int == fmod::<F>((x.len() * x[k as int].value()) as int),
{
    let m = F::modulus() as int;
    F::lemma_field_basics(arbitrary());
    let n = x.len();
    let g = w as int;
    let gi = wi as int;
    let a = values(x);
    let e = values(y);
    let ji = k as int;
    // Σ_t y_t ωi^(t k) ≡ Σ_i x_i Σ_t ω^(i t) ωi^(t k)
    lemma_dft_sum_is_sum(e, wi, k, n);
    let gk = |t: int, i: int| pow(gi, (t * ji) as nat) * dft_term(a, g, t as nat)(i);
    let outer = |t: int| sum(|i: int| gk(t, i), n);
    assert forall|t: int| 0 <= t < n implies #[trigger] dft_term(e, gi, k)(t) % m == outer(t) % m by {
        lemma_dft_sum_is_sum(a, w, t as nat, n);
        let inner = sum(dft_term(a, g, t as nat), n);
        assert(e[t] == inner % m);
        lemma_mul_mod_noop_left(inner, pow(gi, (t * ji) as nat), m);
        lemma_sum_scale(dft_term(a, g, t as nat), pow(gi, (t * ji) as nat), n);
        lemma_mul_is_commutative(inner, pow(gi, (t * ji) as nat));
        lemma_sum_ext(|i: int| pow(gi, (t * ji) as nat) * dft_term(a, g, t as nat)(i), |i: int| gk(t, i), n);
    }
    lemma_sum_congruent(dft_term(e, gi, k), outer, n, m);
    lemma_sum_swap(gk, n, n);
    let cols = |i: int| sum(|t: int| gk(t, i), n);
    assert(sum(outer, n) == sum(cols, n));
    let ind = |i: int| if i == ji { a[ji] * (n as int) } else { 0 };
    assert forall|i: int| 0 <= i < n implies #[trigger] cols(i) % m == ind(i) % m by {
        let ch = |t: int| pow(g, (i * t) as nat) * pow(gi, (t * ji) as nat);
        assert forall|t: int| 0 <= t < n implies #[trigger] gk(t, i) == a[i] * ch(t) by {
            assert(gk(t, i) == pow(gi, (t * ji) as nat) * (a[i] * pow(g, (i * t) as nat)));
            assert(pow(gi, (t * ji) as nat) * (a[i] * pow(g, (i * t) as nat))
                == a[i] * (pow(g, (i * t) as nat) * pow(gi, (t * ji) as nat))) by (nonlinear_arith);
        }
        lemma_sum_ext(|t: int| gk(t, i), |t: int| a[i] * ch(t), n);
        lemma_sum_scale(ch, a[i], n);
        lemma_character_sum::<F>(g, gi, n, i, ji);
        lemma_mul_mod_noop_right(a[i], sum(ch, n), m);
        if i == ji {
            lemma_mul_mod_noop_right(a[i], n as int, m);
        } else {
            lemma_small_mod(0, m as nat);
        }
    }
    lemma_sum_congruent(cols, ind, n, m);
    lemma_sum_indicator(a[ji] * (n as int), ji, n);
    assert(sum(ind, n) == a[ji] * (n as int)) by {
        lemma_sum_ext(ind, |i: int| if i == ji { a[ji] * (n as int) } else { 0 }, n);
    }
    assert(z[ji].value() == dft_sum(e, wi, k, n) % m);
    lemma_mul_is_commutative(a[ji], n as int);
}

/// Every transform strategy gives the same result: two outputs that are both
/// the transform of `x` at `w` agree.
pub proof fn lemma_transforms_agree<F: PrimeFieldElement>(a: Seq<F>, b: Seq<F>, x: Seq<F>, w: nat)
    requires
        is_dft(a, x, w),
        is_dft(b, x, w),
    ensures
        values(a) == values(b),
{
    assert(values(a) =~= values(b));
}

/// Interpolation inverts evaluation: in a prime field, the domain's
/// inverse transform of the forward transform of coefficients `c` gives
/// back `c`, padded with zeros (or truncated) to the size of the domain.
pub proof fn lemma_fft_ifft_roundtrip<F: PrimeFieldElement>(
    d: SmoothSubgroupDomain<F>,
    c: Seq<F>,
    evals: Seq<F>,
    j: nat,
)
    requires
        d.wf(),
        is_prime_spec(F::modulus()),
        is_dft_of_values(evals, coset_input(c, d.offset.value(), d.size as nat), d.group_gen.value()),
        j < d.size,
    ensures
        interpolation_output::<F>(padded(evals, d.size as nat), d.group_gen_inv.value(), d.size_inv.value(),
            d.offset_inv.value(), j) == padded(c, d.size as nat)[j as int],
{
    let m = F::modulus() as int;
    F::lemma_field_basics(arbitrary());
    let n = d.size as nat;
    let g = d.group_gen.value() as int;
    let gi = d.group_gen_inv.value() as int;
    let a = coset_input(c, d.offset.value(), n);
    let e = padded(evals, n);
    let ji = j as int;
    // 1. Σ_k E_k gi^(k j) ≡ Σ_i a_i Σ_k g^(i k) gi^(k j)
    lemma_dft_sum_is_sum(e, gi as nat, j, n);
    let gk = |k: int, i: int| pow(gi, (k * ji) as nat) * dft_term(a, g, k as nat)(i);
    let outer = |k: int| sum(|i: int| gk(k, i), n);
    assert forall|k: int| 0 <= k < n implies #[trigger] dft_term(e, gi, j)(k) % m == outer(k) % m by {
        lemma_dft_sum_is_sum(a, g as nat, k as nat, n);
        let inner = sum(dft_term(a, g, k as nat), n);
        assert(e[k] == inner % m);
        lemma_mul_mod_noop_left(inner, pow(gi, (k * ji) as nat), m);
        lemma_sum_scale(dft_term(a, g, k as nat), pow(gi, (k * ji) as nat), n);
        lemma_mul_is_commutative(inner, pow(gi, (k * ji) as nat));
        lemma_sum_ext(|i: int| pow(gi, (k * ji) as nat) * dft_term(a, g, k as nat)(i), |i: int| gk(k, i), n);
    }
    lemma_sum_congruent(dft_term(e, gi, j), outer, n, m);
    lemma_sum_swap(gk, n, n);
    let cols = |i: int| sum(|k: int| gk(k, i), n);
    assert(sum(outer, n) == sum(cols, n));
    // 2. each column is a_i times a character sum
    let ind = |i: int| if i == ji { a[ji] * (n as int) } else { 0 };
    assert forall|i: int| 0 <= i < n implies #[trigger] cols(i) % m == ind(i) % m by {
        let ch = |k: int| pow(g, (i * k) as nat) * pow(gi, (k * ji) as nat);
        assert forall|k: int| 0 <= k < n implies #[trigger] gk(k, i) == a[i] * ch(k) by {
            assert(gk(k, i) == pow(gi, (k * ji) as nat) * (a[i] * pow(g, (i * k) as nat)));
            assert(pow(gi, (k * ji) as nat) * (a[i] * pow(g, (i * k) as nat))
                == a[i] * (pow(g, (i * k) as nat) * pow(gi, (k * ji) as nat))) by (nonlinear_arith);
        }
        lemma_sum_ext(|k: int| gk(k, i), |k: int| a[i] * ch(k), n);
        lemma_sum_scale(ch, a[i], n);
        lemma_character_sum::<F>(g, gi, n, i, ji);
        lemma_mul_mod_noop_right(a[i], sum(ch, n), m);
        if i == ji {
            lemma_mul_mod_noop_right(a[i], n as int, m);
        } else {
            lemma_small_mod(0, m as nat);
        }
    }
    lemma_sum_congruent(cols, ind, n, m);
    lemma_sum_indicator(a[ji] * (n as int), ji, n);
    assert(sum(ind, n) == a[ji] * (n as int)) by {
        lemma_sum_ext(ind, |i: int| if i == ji { a[ji] * (n as int) } else { 0 }, n);
    }
    let s = dft_sum(e, gi as nat, j, n);
    assert(s % m == (a[ji] * (n as int)) % m);
    // 3. scaling by 1/n and by the inverse offset powers
    let ni = d.size_inv.value() as int;
    let oi = d.offset_inv.value() as int;
    let o = d.offset.value() as int;
    let pj = padded(c, n)[ji];
    assert(0 <= pj < m) by {
        if ji < c.len() {
            F::lemma_field_basics(c[ji]);
        }
    }
    lemma_mod_bound(pj * pow(o, j), m);
    let aj = a[ji];
    assert(aj == (pj * pow(o, j)) % m);
    // ((s mod m)·ni) mod m = aj
    lemma_mul_mod_noop_left(s, ni, m);
    lemma_mul_mod_noop_left(aj * (n as int), ni, m);
    assert((aj * (n as int)) * ni == aj * ((n as int) * ni)) by (nonlinear_arith);
    lemma_mul_mod_noop_right(aj, (n as int) * ni, m);
    lemma_mul_is_commutative(n as int, ni);
    assert(((n as int) * ni) % m == 1);
    lemma_small_mod(aj as nat, m as nat);
    assert(((s % m) * ni) % m == aj);
    // (aj·oi^j) mod m = pj
    lemma_mul_mod_noop_left(pj * pow(o, j), pow(oi, j), m);
    assert((pj * pow(o, j)) * pow(oi, j) == pj * (pow(oi, j) * pow(o, j))) by (nonlinear_arith);
    lemma_inverse_powers::<F>(o, oi, j);
    lemma_mul_mod_noop(pow(oi, j), pow(o, j), m);
    lemma_mul_mod_noop_right(pj, pow(oi, j) * pow(o, j), m);
    lemma_small_mod(pj as nat, m as nat);
}

/// Interpolation: in a prime field, the coefficients that the domain's
/// inverse transform gives for values `e` (padded or truncated to the size)
/// describe the polynomial that takes those values on the domain: at the
/// element `offset · g^k` it evaluates to the `k`-th value.
pub proof fn lemma_ifft_interpolates<F: PrimeFieldElement>(
    d: SmoothSubgroupDomain<F>,
    e: Seq<F>,
    cs: Seq<int>,
    k: nat,
)
    requires
        d.wf(),
        is_prime_spec(F::modulus()),
        cs.len() == d.size,
        forall|j: int| 0 <= j < d.size ==> #[trigger] cs[j] == interpolation_output::<F>(padded(e, d.size as nat),
            d.group_gen_inv.value(), d.size_inv.value(), d.offset_inv.value(), j as nat),
        k < d.size,
    ensures
        poly_eval(cs, (d.offset.value() * pow(d.group_gen.value() as int, k)) % (F::modulus() as int))
            % (F::modulus() as int) == padded(e, d.size as nat)[k as int],
{
    let m = F::modulus() as int;
    F::lemma_field_basics(arbitrary());
    let n = d.size as nat;
    let g = d.group_gen.value() as int;
    let gi = d.group_gen_inv.value() as int;
    let o = d.offset.value() as int;
    let oi = d.offset_inv.value() as int;
    let ni = d.size_inv.value() as int;
    let ev = padded(e, n);
    let ki = k as int;
    let x = (o * pow(g, k)) % m;
    lemma_poly_eval_is_sum(cs, x);
    let term = |j: int| cs[j] * pow(x, j as nat);
    let gg = |j: int, t: int| ev[t] * (pow(g, (ki * j) as nat) * pow(gi, (j * t) as nat));
    let inner = |j: int| sum(|t: int| gg(j, t), n);
    let scaled = |j: int| ni * inner(j);
    // 1. each term is 1/n times a row of the double sum
    assert forall|j: int| 0 <= j < n implies #[trigger] term(j) % m == scaled(j) % m by {
        assert(j * ki >= 0 && ki * j >= 0) by (nonlinear_arith) requires j >= 0, ki >= 0;
        let s = dft_sum(ev, gi as nat, j as nat, n);
        lemma_dft_sum_is_sum(ev, gi as nat, j as nat, n);
        let pgk = pow(g, (ki * j) as nat);
        let po = pow(o, j as nat);
        let poi = pow(oi, j as nat);
        // x^j ≡ o^j · g^(k j)
        lemma_pow_mod_noop(o * pow(g, k), j as nat, m);
        lemma_pow_distributes(o, pow(g, k), j as nat);
        lemma_pow_multiplies(g, k, j as nat);
        assert(k * (j as nat) == (ki * j) as nat) by (nonlinear_arith) requires j >= 0, ki == k;
        // oi^j · o^j ≡ 1
        lemma_inverse_powers::<F>(o, oi, j as nat);
        lemma_mul_mod_noop(poi, po, m);
        // cs[j] ≡ s · ni · oi^j
        let a = (((s % m) * ni) % m) * poi;
        assert(cs[j] == a % m);
        lemma_mul_mod_noop_left(s, ni, m);
        lemma_mul_mod_noop_left((s * ni) % m, poi, m);
        lemma_mul_mod_noop_left(s * ni, poi, m);
        // term ≡ (s·ni·poi)·(po·pgk) ≡ s·ni·pgk
        lemma_mul_mod_noop_left(a, pow(x, j as nat), m);
        lemma_mul_mod_noop_right(a % m, pow(x, j as nat), m);
        lemma_mul_mod_noop_right(a % m, po * pgk, m);
        lemma_mul_mod_noop_left(a, po * pgk, m);
        lemma_mul_mod_noop_left(s * ni * poi, po * pgk, m);
        assert((s * ni * poi) * (po * pgk) == (s * ni * pgk) * (poi * po)) by (nonlinear_arith);
        lemma_mul_mod_noop_right(s * ni * pgk, poi * po, m);
        assert((s * ni * pgk) * 1 == s * ni * pgk);
        // s·pgk = Σ_t gg(j, t)
        lemma_sum_scale(dft_term(ev, gi, j as nat), pgk, n);
        let sc = |t: int| pgk * dft_term(ev, gi, j as nat)(t);
        assert forall|t: int| 0 <= t < n implies #[trigger] sc(t) == gg(j, t) by {
            assert(t * j == j * t) by (nonlinear_arith);
            assert(pgk * (ev[t] * pow(gi, (t * j) as nat)) == ev[t] * (pgk * pow(gi, (j * t) as nat)))
                by (nonlinear_arith) requires t * j == j * t;
        }
        lemma_sum_ext(sc, |t: int| gg(j, t), n);
        assert(s * ni * pgk == ni * (pgk * s)) by (nonlinear_arith);
    }
    lemma_sum_congruent(term, scaled, n, m);
    lemma_sum_scale(inner, ni, n);
    // 2. swap the double sum; each column is a character sum
    lemma_sum_swap(gg, n, n);
    let cols = |t: int| sum(|j: int| gg(j, t), n);
    let ind = |t: int| if t == ki { ev[ki] * (n as int) } else { 0 };
    assert forall|t: int| 0 <= t < n implies #[trigger] cols(t) % m == ind(t) % m by {
        let ch = |j: int| pow(g, (ki * j) as nat) * pow(gi, (j * t) as nat);
        assert forall|j: int| 0 <= j < n implies #[trigger] gg(j, t) == ev[t] * ch(j) by {
        }
        lemma_sum_ext(|j: int| gg(j, t), |j: int| ev[t] * ch(j), n);
        lemma_sum_scale(ch, ev[t], n);
        lemma_character_sum::<F>(g, gi, n, ki, t);
        lemma_mul_mod_noop_right(ev[t], sum(ch, n), m);
        if t == ki {
            lemma_mul_mod_noop_right(ev[t], n as int, m);
        } else {
            lemma_small_mod(0, m as nat);
        }
    }
    lemma_sum_congruent(cols, ind, n, m);
    lemma_sum_indicator(ev[ki] * (n as int), ki, n);
    assert(sum(ind, n) == ev[ki] * (n as int)) by {
        lemma_sum_ext(ind, |t: int| if t == ki { ev[ki] * (n as int) } else { 0 }, n);
    }
    let total = sum(inner, n);
    assert(total == sum(cols, n));
    assert(total % m == (ev[ki] * (n as int)) % m);
    // 3. (1/n)·(n·ev[k]) ≡ ev[k]
    lemma_mul_mod_noop_right(ni, total, m);
    lemma_mul_mod_noop_right(ni, ev[ki] * (n as int), m);
    assert(ni * (ev[ki] * (n as int)) == ev[ki] * ((n as int) * ni)) by (nonlinear_arith);
    lemma_mul_is_commutative(n as int, ni);
    assert(((n as int) * ni) % m == 1);
    lemma_mul_mod_noop_right(ev[ki], (n as int) * ni, m);
    assert(0 <= ev[ki] < m) by {
        if ki < e.len() {
            F::lemma_field_basics(e[ki]);
        }
    }
    lemma_small_mod(ev[ki] as nat, m as nat);
}

proof fn lemma_bit_length_u64(v: u64)
    requires
        v > 0,
    ensures
        bit_length(v as nat) == 1 + bit_length((v / 2) as nat),
        bit_length(v as nat) <= 64,
{
    lemma2_to64();
    lemma_bit_length_bound(v as nat, 64);
}

proof fn lemma_bit_length_bound(v: nat, k: nat)
    requires
        v < pow2(k),
    ensures
        bit_length(v) <= k,
    decreases k,
{
    if v > 0 {
        if k == 0 {
            lemma2_to64();
        } else {
            lemma_pow2_unfold(k);
            lemma_bit_length_bound(v / 2, (k - 1) as nat);
        }
    }
}

impl<F: SmoothDomainConfig> SmoothSubgroupDomain<F> {
    /// The least divisor of the smooth part that is at least `num_coeffs`
    /// (1 for no coefficients); `None` if there is none.
    pub fn compute_size_of_domain(num_coeffs: usize) -> (r: Option<usize>)
        ensures
            match r {
                Some(d) => is_domain_size_for::<F>(d as nat, num_coeffs as nat),
                None => forall|s: nat| !#[trigger] is_domain_size_for::<F>(s, num_coeffs as nat),
            },
    {
        if num_coeffs == 0 {
            return Some(1);
        }
        proof {
            F::lemma_smooth_part_positive();
        }
        match smallest_smooth_divisor_geq(F::smooth_part(), num_coeffs) {
            Some(s) => {
                if s <= usize::MAX as u64 {
                    Some(s as usize)
                } else {
                    proof {
                        assert forall|s2: nat| !#[trigger] is_domain_size_for::<F>(s2, num_coeffs as nat) by {
                            if is_domain_size_for::<F>(s2, num_coeffs as nat) {
                                assert(is_divisor(s2, F::smooth_part_spec()));
                            }
                        }
                    }
                    None
                }
            },
            None => {
                proof {
                    assert forall|s2: nat| !#[trigger] is_domain_size_for::<F>(s2, num_coeffs as nat) by {
                        if is_domain_size_for::<F>(s2, num_coeffs as nat) {
                            assert(is_divisor(s2, F::smooth_part_spec()));
                        }
                    }
                }
                None
            },
        }
    }

    /// The domain of the least admissible size for `num_coeffs` coefficients.
    pub fn new(num_coeffs: usize) -> (r: Option<Self>)
        ensures
            r.is_some() == exists|s: nat| #[trigger] is_domain_size_for::<F>(s, num_coeffs as nat) && domain_exists::<F>(s),
            r matches Some(d) ==> {
                &&& d.wf()
                &&& d.rader_ready()
                &&& is_domain_size_for::<F>(d.size as nat, num_coeffs as nat)
                &&& root_of_unity_spec::<F>(d.size as nat) == Some(d.group_gen.value() as int)
                &&& d.offset.value() == 1
            },
    {
        let size = match Self::compute_size_of_domain(num_coeffs) {
            Some(s) => s,
            None => {
                return None;
            },
        };
        let r = Self::new_from_size(size as u64);
        proof {
            if r.is_none() {
                assert forall|s: nat| #[trigger] is_domain_size_for::<F>(s, num_coeffs as nat) implies !domain_exists::<F>(s) by {
                    if num_coeffs >= 1 {
                        assert(is_divisor(s, F::smooth_part_spec()));
                        assert(is_divisor(size as nat, F::smooth_part_spec()));
                    }
                }
            }
        }
        r
    }
}

} // verus!
