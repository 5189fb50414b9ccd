//! Integer number theory used to build smooth-order evaluation domains:
//! primality, trial factorisation, modular exponentiation and inversion.
use vstd::prelude::*;
use vstd::arithmetic::div_mod::*;
use vstd::arithmetic::mul::*;
use vstd::arithmetic::power::*;

use crate::sums::{prod, lemma_prod_permute, lemma_prod_congruent, lemma_prod_scale};

verus! {

/// `n` is a prime number.
pub open spec fn is_prime_spec(n: nat) -> bool {
    &&& n >= 2
    &&& forall|k: nat| 2 <= k < n ==> #[trigger] (n % k) != 0
}

/// No integer in `[2, d)` divides `n`.
pub open spec fn no_divisor_below(n: nat, d: nat) -> bool {
    forall|k: nat| 2 <= k < d ==> #[trigger] (n % k) != 0
}

/// Divisibility is transitive: `k | d` and `d | n` give `k | n`.
pub proof fn lemma_divides_trans(k: nat, d: nat, n: nat)
    requires
        k > 0,
        d > 0,
        d % k == 0,
        n % d == 0,
    ensures
        n % k == 0,
{
    lemma_fundamental_div_mod(d as int, k as int);
    lemma_fundamental_div_mod(n as int, d as int);
    let a = d / k;
    let b = n / d;
    assert(n == k * (a * b)) by {
        lemma_mul_is_associative(k as int, a as int, b as int);
    }
    lemma_mod_multiples_basic((a * b) as int, k as int);
    lemma_mul_is_commutative(k as int, (a * b) as int);
}

/// A number with no divisor in `[2, d)` and `d * d > n` is 1 or prime.
pub proof fn lemma_no_small_divisor_is_prime(n: nat, d: nat)
    requires
        n >= 2,
        d >= 2,
        no_divisor_below(n, d),
        d * d > n,
    ensures
        is_prime_spec(n),
{
    assert forall|k: nat| 2 <= k < n implies #[trigger] (n % k) != 0 by {
        if n % k == 0 {
            if k >= d {
                lemma_fundamental_div_mod(n as int, k as int);
                let c = n / k;
                assert(n == k * c);
                if c >= d {
                    lemma_mul_le(d, k, d, c);
                } else {
                    if c < 2 {
                        if c == 0 {
                            lemma_mul_basics(k as int);
                        } else {
                            lemma_mul_basics(k as int);
                        }
                        assert(false);
                    }
                    lemma_mul_is_commutative(k as int, c as int);
                    lemma_mod_multiples_basic(k as int, c as int);
                    assert(n % c == 0);
                }
            }
        }
    }
}

/// For positive `d`, `d <= n / d` exactly when `d * d <= n`.
pub proof fn lemma_le_div_iff_square_le(d: nat, n: nat)
    requires
        d > 0,
    ensures
        (d <= n / d) <==> (d * d <= n),
{
    lemma_fundamental_div_mod(n as int, d as int);
    lemma_mod_bound(n as int, d as int);
    let q = n / d;
    if d <= q {
        lemma_mul_le(d, d, d, q);
    } else {
        assert(q + 1 <= d);
        lemma_mul_le(d, d, q + 1, d);
        lemma_mul_is_distributive_add(d as int, q as int, 1);
    }
}

proof fn lemma_mul_le(a: nat, b: nat, c: nat, d: nat)
    requires
        a <= b,
        c <= d,
    ensures
        a * c <= b * d,
{
    lemma_mul_inequality(a as int, b as int, c as int);
    lemma_mul_inequality(c as int, d as int, b as int);
    lemma_mul_is_commutative(b as int, c as int);
    lemma_mul_is_commutative(b as int, d as int);
}

/// Primality test by trial division with candidates `6k ± 1`.
pub fn is_prime(n: u64) -> (r: bool)
    ensures
        r == is_prime_spec(n as nat),
{
    if n < 2 {
        return false;
    }
    if n < 4 {
        assert(no_divisor_below(n as nat, n as nat));
        return true;
    }
    if n % 2 == 0 {
        return false;
    }
    if n % 3 == 0 {
        return false;
    }
    let mut d: u64 = 5;
    assert(no_divisor_below(n as nat, 5)) by {
        assert forall|k: nat| 2 <= k < 5 implies #[trigger] ((n as nat) % k) != 0 by {
            if k == 4 && (n as nat) % 4 == 0 {
                lemma_divides_trans(2, 4, n as nat);
            }
        }
    }
    proof {
        lemma_le_div_iff_square_le(d as nat, n as nat);
    }
    while d <= n / d
        invariant
            5 <= d <= 0x1_0000_0005,
            (d <= n / d) <==> ((d as nat) * (d as nat) <= n as nat),
            d % 6 == 5,
            n >= 4,
            (n as nat) % 2 != 0,
            (n as nat) % 3 != 0,
            no_divisor_below(n as nat, d as nat),
        decreases 0x1_0000_0005 - d,
    {
        assert(d < 0x1_0000_0000) by (nonlinear_arith)
            requires
                (d as int) * (d as int) <= n as int,
                n <= u64::MAX,
        {
        }
        assert(d + 2 < n) by (nonlinear_arith)
            requires
                (d as int) * (d as int) <= n as int,
                d >= 5,
        {
        }
        if n % d == 0 || n % (d + 2) == 0 {
            return false;
        }
        let ghost dn = d as nat;
        let ghost nn = n as nat;
        assert(no_divisor_below(nn, dn + 6)) by {
            assert forall|k: nat| 2 <= k < dn + 6 implies #[trigger] (nn % k) != 0 by {
                if k >= dn && nn % k == 0 {
                    if k == dn + 1 || k == dn + 3 || k == dn + 5 {
                        assert(k % 2 == 0);
                        lemma_divides_trans(2, k, nn);
                    } else if k == dn + 4 {
                        assert(k % 3 == 0);
                        lemma_divides_trans(3, k, nn);
                    }
                }
            }
        }
        d += 6;
        proof {
            lemma_le_div_iff_square_le(d as nat, n as nat);
        }
    }
    proof {
        lemma_no_small_divisor_is_prime(n as nat, d as nat);
    }
    true
}


/// Product of the prime powers `p^e` listed in `fs`.
pub open spec fn factors_product(fs: Seq<(u64, u32)>) -> nat
    decreases fs.len(),
{
    if fs.len() == 0 {
        1
    } else {
        factors_product(fs.drop_last()) * (pow(fs.last().0 as int, fs.last().1 as nat) as nat)
    }
}

/// Appending a prime power multiplies the product by it.
pub proof fn lemma_factors_product_push(fs: Seq<(u64, u32)>, f: (u64, u32))
    ensures
        factors_product(fs.push(f)) == factors_product(fs) * (pow(f.0 as int, f.1 as nat) as nat),
{
    assert(fs.push(f).drop_last() =~= fs);
}

/// `fs` lists distinct primes in increasing order, each with a positive
/// exponent, and the prime powers multiply to `n`.
pub open spec fn is_prime_factorization(fs: Seq<(u64, u32)>, n: nat) -> bool {
    &&& factors_product(fs) == n
    &&& forall|i: int| 0 <= i < fs.len() ==> is_prime_spec(#[trigger] fs[i].0 as nat)
    &&& forall|i: int| 0 <= i < fs.len() ==> #[trigger] fs[i].1 >= 1
    &&& forall|i: int, j: int| 0 <= i < j < fs.len() ==> #[trigger] fs[i].0 < #[trigger] fs[j].0
}

proof fn lemma_pow_ge_pow2(d: nat, e: nat)
    requires
        d >= 2,
    ensures
        pow(d as int, e) >= pow(2, e),
        pow(2, e) >= 1,
    decreases e,
{
    reveal(pow);
    if e > 0 {
        lemma_pow_ge_pow2(d, (e - 1) as nat);
        lemma_mul_le(2, d, pow(2, (e - 1) as nat) as nat, pow(d as int, (e - 1) as nat) as nat);
    }
}

proof fn lemma_pow_positive_nat(b: nat, e: nat)
    requires
        b >= 1,
    ensures
        pow(b as int, e) >= 1,
    decreases e,
{
    reveal(pow);
    if e > 0 {
        lemma_pow_positive_nat(b, (e - 1) as nat);
        lemma_mul_le(1, b, 1, pow(b as int, (e - 1) as nat) as nat);
    }
}

proof fn lemma_factors_product_positive(fs: Seq<(u64, u32)>)
    requires
        forall|i: int| 0 <= i < fs.len() ==> #[trigger] fs[i].0 >= 2,
    ensures
        factors_product(fs) >= 1,
    decreases fs.len(),
{
    if fs.len() > 0 {
        lemma_factors_product_positive(fs.drop_last());
        lemma_pow_positive_nat(fs.last().0 as nat, fs.last().1 as nat);
        lemma_mul_le(1, factors_product(fs.drop_last()), 1, pow(fs.last().0 as int, fs.last().1 as nat) as nat);
    }
}

/// Trial factorisation: the prime factorisation of `n` (empty for 0 and 1).
pub fn trial_factor(n: u64) -> (factors: Vec<(u64, u32)>)
    ensures
        n == 0 ==> factors@.len() == 0,
        n >= 1 ==> is_prime_factorization(factors@, n as nat),
{
    let ghost n0 = n as nat;
    let mut n = n;
    let mut factors: Vec<(u64, u32)> = Vec::new();
    let mut d: u64 = 2;
    if n == 0 {
        return factors;
    }
    proof {
        lemma_le_div_iff_square_le(d as nat, n as nat);
        assert(factors@.len() == 0);
        assert(factors_product(factors@) == 1);
    }
    while d <= n / d
        invariant
            2 <= d <= 0x1_0000_0000,
            (d <= n / d) <==> ((d as nat) * (d as nat) <= n as nat),
            n >= 1,
            factors_product(factors@) * (n as nat) == n0,
            no_divisor_below(n as nat, d as nat),
            forall|i: int| 0 <= i < factors@.len() ==> is_prime_spec(#[trigger] factors@[i].0 as nat),
            forall|i: int| 0 <= i < factors@.len() ==> #[trigger] factors@[i].1 >= 1,
            forall|i: int| 0 <= i < factors@.len() ==> #[trigger] factors@[i].0 < d,
            forall|i: int, j: int| 0 <= i < j < factors@.len() ==> #[trigger] factors@[i].0 < #[trigger] factors@[j].0,
            n0 <= u64::MAX,
        decreases 0x1_0000_0000 - d,
    {
        assert(d < 0x1_0000_0000) by (nonlinear_arith)
            requires
                (d as int) * (d as int) <= n as int,
                n <= u64::MAX,
        {
        }
        let ghost n_before = n as nat;
        let mut e: u32 = 0;
        proof {
            lemma_pow0(d as int);
            assert((pow(d as int, 0) as nat) == 1);
            lemma_factors_product_positive(factors@);
            lemma_mod_self_0(n as int);
            assert(factors_product(factors@) * (pow(d as int, 0) as nat) * (n as nat) == n0);
        }
        while n % d == 0
            invariant
                2 <= d < 0x1_0000_0000,
                n >= 1,
                factors_product(factors@) * (pow(d as int, e as nat) as nat) * (n as nat) == n0,
                factors_product(factors@) >= 1,
                n0 <= u64::MAX,
                e <= 64,
                n_before % (n as nat) == 0,
                e > 0 ==> (n_before % (d as nat) == 0),
                e == 0 ==> n as nat == n_before,
            decreases n,
        {
            let ghost np = n as nat;
            proof {
                lemma_fundamental_div_mod(np as int, d as int);
                lemma_pow_ge_pow2(d as nat, e as nat);
                lemma_pow_positive_nat(d as nat, e as nat);
            }
            n = n / d;
            proof {
                let q = n as nat;
                assert(np == d * q);
                assert(q >= 1 && q < np) by (nonlinear_arith)
                    requires
                        np == d * q,
                        np >= 1,
                        d >= 2,
                {
                }
                reveal(pow);
                assert(pow(d as int, (e + 1) as nat) == d * pow(d as int, e as nat));
                let fp = factors_product(factors@);
                let pe = pow(d as int, e as nat) as nat;
                assert(fp * pe * np == n0);
                assert(fp * (pow(d as int, (e + 1) as nat) as nat) * q == n0) by (nonlinear_arith)
                    requires
                        fp * pe * np == n0,
                        np == d * q,
                        pow(d as int, (e + 1) as nat) == d * pe,
                {
                }
                lemma_pow_ge_pow2(d as nat, (e + 1) as nat);
                assert(pow(2, (e + 1) as nat) <= n0) by (nonlinear_arith)
                    requires
                        fp * (pow(d as int, (e + 1) as nat) as nat) * q == n0,
                        fp >= 1,
                        q >= 1,
                        pow(d as int, (e + 1) as nat) >= pow(2, (e + 1) as nat),
                        pow(2, (e + 1) as nat) >= 1,
                {
                }
                if e + 1 > 64 {
                    vstd::arithmetic::power::lemma_pow_increases(2, 64, (e + 1) as nat);
                    vstd::arithmetic::power2::lemma2_to64();
                    vstd::arithmetic::power2::lemma_pow2(64);
                    assert(false);
                }
                // q divides np, and np divides n_before
                lemma_mod_multiples_basic(d as int, q as int);
                assert(np % q == 0);
                lemma_divides_trans(q, np, n_before);
                if e > 0 {
                } else {
                    assert(np == n_before);
                    assert(n_before % (d as nat) == 0);
                }
            }
            e = e + 1;
        }
        let ghost nn = n as nat;
        let ghost dn = d as nat;
        if e > 0 {
            proof {
                // d is prime: a divisor of d below d would divide n_before
                assert forall|k: nat| 2 <= k < dn implies #[trigger] (dn % k) != 0 by {
                    if dn % k == 0 {
                        lemma_divides_trans(k, dn, n_before);
                    }
                }
                reveal(pow);
                assert(factors_product(factors@.push((d, e))) == factors_product(factors@) * (pow(d as int, e as nat) as nat)) by {
                    assert(factors@.push((d, e)).drop_last() =~= factors@);
                }
            }
            factors.push((d, e));
        } else {
            proof {
                reveal(pow);
                assert(pow(d as int, 0) == 1);
            }
        }
        proof {
            // no divisor of the remaining cofactor below d + 1
            assert forall|k: nat| 2 <= k < dn + 1 implies #[trigger] (nn % k) != 0 by {
                if nn % k == 0 {
                    if k < dn {
                        lemma_divides_trans(k, nn, n_before);
                    }
                }
            }
        }
        d += 1;
        proof {
            lemma_le_div_iff_square_le(d as nat, n as nat);
        }
    }
    if n > 1 {
        proof {
            lemma_no_small_divisor_is_prime(n as nat, d as nat);
            // n is at least d, so it exceeds every recorded prime
            if (n as nat) < (d as nat) {
                assert((n as nat) % (n as nat) == 0) by {
                    lemma_mod_self_0(n as int);
                }
            }
            reveal(pow);
            lemma_pow1(n as int);
            assert(factors@.push((n, 1u32)).drop_last() =~= factors@);
        }
        factors.push((n, 1));
    } else {
        proof {
            assert(factors_product(factors@) == n0);
        }
    }
    factors
}


proof fn lemma_mod_pow_step(res: int, b: int, e: nat, m: int)
    requires
        m > 0,
    ensures
        e % 2 == 1 ==> (((res * b) % m) * pow((b * b) % m, e / 2)) % m == (res * pow(b, e)) % m,
        e % 2 == 0 ==> (res * pow((b * b) % m, e / 2)) % m == (res * pow(b, e)) % m,
{
    let h = e / 2;
    lemma_square_is_pow2(b);
    lemma_pow_multiplies(b, 2, h);
    lemma_pow_mod_noop(b * b, h, m);
    // pow(b*b, h) == pow(b, 2h)
    assert(pow(b * b, h) == pow(b, 2 * h));
    if e % 2 == 1 {
        assert(e == 2 * h + 1);
        lemma_pow_adds(b, 2 * h, 1);
        lemma_pow1(b);
        assert(pow(b, e) == pow(b, 2 * h) * b);
        let x = pow((b * b) % m, h);
        let y = pow(b * b, h);
        // ((res*b) % m) * x  ==  res * b * y   (mod m)
        lemma_mul_mod_noop_general(res * b, x, m);
        lemma_mul_mod_noop_general(res * b, y, m);
        assert(x % m == y % m);
        assert(((res * b) % m * (x % m)) % m == ((res * b) % m * (y % m)) % m);
        lemma_mul_mod_noop_left(res * b, y, m);
        assert((res * b) * y == res * (y * b)) by (nonlinear_arith);
    } else {
        assert(e == 2 * h);
        let x = pow((b * b) % m, h);
        let y = pow(b * b, h);
        lemma_mul_mod_noop_general(res, x, m);
        lemma_mul_mod_noop_general(res, y, m);
    }
}

/// Modular exponentiation `base^exp mod m` by square-and-multiply.
/// An exponent of zero gives 1 whatever the modulus.
pub fn mod_pow(base: u64, exp: u64, m: u64) -> (r: u64)
    requires
        m > 0,
    ensures
        r as int == (if exp == 0 { 1 } else { pow(base as int, exp as nat) % (m as int) }),
{
    let ghost exp0 = exp;
    let mut exp = exp;
    let mut result: u128 = 1;
    let m128 = m as u128;
    let mut b: u128 = (base % m) as u128;
    let ghost mut mult = false;
    proof {
        lemma_pow_mod_noop(base as int, exp as nat, m as int);
    }
    while exp > 0
        invariant
            m128 == m as u128,
            m > 0,
            b < m,
            mult ==> result < m,
            !mult ==> result == 1,
            !mult ==> (exp0 > 0 ==> exp > 0),
            mult ==> exp0 > 0,
            exp0 == 0 ==> exp == 0,
            ((result as int) * pow(b as int, exp as nat)) % (m as int) == pow(base as int, exp0 as nat) % (m as int),
        decreases exp,
    {
        proof {
            lemma_mod_pow_step(result as int, b as int, exp as nat, m as int);
        }
        let ghost e = exp;
        assert((exp & 1 == 1) == (exp % 2 == 1)) by (bit_vector);
        assert(exp >> 1 == exp / 2) by (bit_vector);
        assert((result as int) * (b as int) < 0x1_0000_0000_0000_0000_0000_0000_0000_0000) by (nonlinear_arith)
            requires
                result <= u64::MAX,
                b <= u64::MAX,
        {
        }
        if exp & 1 == 1 {
            result = result * b % m128;
            proof {
                mult = true;
            }
        }
        exp = exp >> 1;
        assert((b as int) * (b as int) < 0x1_0000_0000_0000_0000_0000_0000_0000_0000) by (nonlinear_arith)
            requires
                b <= u64::MAX,
        {
        }
        b = b * b % m128;
        proof {
            if !mult {
                assert(e % 2 == 0);
                if exp0 > 0 {
                    assert(e >= 2);
                }
            }
        }
    }
    proof {
        lemma_pow0(b as int);
        assert((result as int) * pow(b as int, 0) == result as int);
        if mult {
            lemma_small_mod(result as nat, m as nat);
            assert(exp0 > 0);
        } else {
            assert(exp0 == 0);
        }
    }
    result as u64
}


/// Greatest common divisor (Euclid's recursion).
pub open spec fn gcd(a: nat, b: nat) -> nat
    decreases b,
{
    if b == 0 {
        a
    } else {
        proof {
            lemma_mod_bound(a as int, b as int);
        }
        gcd(b, a % b)
    }
}

/// Modular inverse by the extended Euclidean algorithm: a value `r < m`
/// with `a * r ≡ gcd(a, m) (mod m)`; for `a` coprime to `m` this is the
/// inverse of `a` modulo `m`.
pub fn mod_inverse(a: u64, m: u64) -> (r: u64)
    requires
        m > 0,
    ensures
        r < m,
        ((a as int) * (r as int)) % (m as int) == (gcd(a as nat, m as nat) as int) % (m as int),
{
    let ghost ai = a as int;
    let ghost mi = m as int;
    let mut old_r: u128 = a as u128;
    let mut r: u128 = m as u128;
    let mut old_s: i128 = 1;
    let mut s: i128 = 0;
    let ghost mut old_t: int = 0;
    let ghost mut t: int = 1;
    while r != 0
        invariant
            old_r <= u64::MAX,
            r <= u64::MAX,
            mi == m as int,
            ai == a as int,
            mi > 0,
            old_r as int == (old_s as int) * ai + old_t * mi,
            r as int == (s as int) * ai + t * mi,
            gcd(old_r as nat, r as nat) == gcd(a as nat, m as nat),
            (old_s as int) * (r as int) - (s as int) * (old_r as int) == mi
                || (old_s as int) * (r as int) - (s as int) * (old_r as int) == -mi,
            (old_s as int) * (s as int) <= 0,
            -mi <= old_s <= mi,
            -mi <= s <= mi,
        decreases r,
    {
        let q: u128 = old_r / r;
        proof {
            lemma_fundamental_div_mod(old_r as int, r as int);
            lemma_mod_bound(old_r as int, r as int);
            lemma_div_pos_is_pos(old_r as int, r as int);
            lemma_mul_is_commutative(r as int, (old_r / r) as int);
        }
        assert((q as int) * (r as int) <= old_r as int);
        let rem: u128 = old_r - q * r;
        let ghost os = old_s as int;
        let ghost ss = s as int;
        let ghost qi = q as int;
        let ghost ori = old_r as int;
        let ghost ri = r as int;
        let ghost ns = os - qi * ss;
        let ghost remi = rem as int;
        proof {
            assert(remi == ori - qi * ri);
            assert(ss * ns <= 0) by (nonlinear_arith)
                requires
                    os * ss <= 0,
                    qi >= 0,
                    ns == os - qi * ss,
            {
            }
            assert(ss * remi - ns * ri == -(os * ri - ss * ori)) by (nonlinear_arith)
                requires
                    ns == os - qi * ss,
                    remi == ori - qi * ri,
            {
            }
            // |ss| * remi + |ns| * ri == mi, hence |ns| <= mi
            assert(-mi <= ns <= mi) by (nonlinear_arith)
                requires
                    ss * ns <= 0,
                    ss * remi - ns * ri == mi || ss * remi - ns * ri == -mi,
                    remi >= 0,
                    ri >= 1,
                    mi > 0,
            {
            }
            assert(-2 * mi <= qi * ss <= 2 * mi);
        }
        let new_s: i128 = old_s - (q as i128) * s;
        proof {
            assert(qi * ri == (qi * ss) * ai + (qi * t) * mi) by (nonlinear_arith)
                requires
                    ri == ss * ai + t * mi,
            {
            }
            assert(ns * ai == os * ai - (qi * ss) * ai) by (nonlinear_arith)
                requires
                    ns == os - qi * ss,
            {
            }
            assert((old_t - qi * t) * mi == old_t * mi - (qi * t) * mi) by (nonlinear_arith);
            assert(remi == ns * ai + (old_t - qi * t) * mi);
            assert(gcd(old_r as nat, r as nat) == gcd(r as nat, rem as nat)) by {
                assert((old_r as nat) % (r as nat) == rem as nat);
            }
            let nt = old_t - qi * t;
            old_t = t;
            t = nt;
        }
        old_r = r;
        r = rem;
        old_s = s;
        s = new_s;
    }
    let res: u64;
    if old_s >= 0 {
        res = ((old_s as u128) % (m as u128)) as u64;
        proof {
            assert(res as int == (old_s as int) % mi);
        }
    } else {
        let k: u128 = ((-old_s) as u128) % (m as u128);
        if k == 0 {
            res = 0;
        } else {
            res = ((m as u128) - k) as u64;
        }
        proof {
            let x = -(old_s as int);
            lemma_fundamental_div_mod(x, mi);
            let qq = x / mi;
            assert(k as int == x % mi);
            assert(old_s as int == (-qq) * mi - (k as int)) by (nonlinear_arith)
                requires
                    x == mi * qq + x % mi,
                    k as int == x % mi,
                    x == -(old_s as int),
            {
            }
            assert(old_s as int == (-qq - 1) * mi + (mi - k)) by (nonlinear_arith)
                requires
                    old_s as int == (-qq) * mi - (k as int),
            {
            }
            if k == 0 {
                lemma_fundamental_div_mod_converse_mod(old_s as int, mi, -qq, 0);
            } else {
                lemma_fundamental_div_mod_converse_mod(old_s as int, mi, -qq - 1, mi - k);
            }
        }
    }
    proof {
        lemma_mul_mod_noop_right(ai, old_s as int, mi);
        assert(ai * (old_s as int) == (old_r as int) + (-old_t) * mi) by (nonlinear_arith)
            requires
                old_r as int == (old_s as int) * ai + old_t * mi,
        {
        }
        lemma_mod_multiples_vanish(-old_t, old_r as int, mi);
        assert(gcd(old_r as nat, 0) == old_r as nat);
    }
    res
}


/// `gcd(a, b)` divides both arguments, and is positive unless both are 0.
pub proof fn lemma_gcd_divides(a: nat, b: nat)
    ensures
        (a > 0 || b > 0) ==> gcd(a, b) > 0,
        gcd(a, b) > 0 ==> a % gcd(a, b) == 0 && b % gcd(a, b) == 0,
    decreases b,
{
    if b == 0 {
        if a > 0 {
            lemma_mod_self_0(a as int);
        }
        assert(gcd(a, b) == a);
        if a > 0 {
            lemma_small_mod(0, a);
        }
    } else {
        lemma_mod_bound(a as int, b as int);
        lemma_gcd_divides(b, a % b);
        let g = gcd(a, b);
        assert(g == gcd(b, a % b));
        if g > 0 {
            lemma_fundamental_div_mod(a as int, b as int);
            let q = a / b;
            // a == b * q + a % b, with g dividing b and a % b
            lemma_fundamental_div_mod(b as int, g as int);
            lemma_fundamental_div_mod((a % b) as int, g as int);
            let bb = b / g;
            let rr = (a % b) / g;
            assert(a == g * (bb * q + rr)) by (nonlinear_arith)
                requires
                    a == b * q + a % b,
                    b == g * bb + 0,
                    a % b == g * rr + 0,
            {
            }
            lemma_mod_multiples_basic((bb * q + rr) as int, g as int);
            lemma_mul_is_commutative((bb * q + rr) as int, g as int);
        }
    }
}

/// Bezout coefficients: integers `x`, `y` with `x * a + y * b == gcd(a, b)`.
pub proof fn lemma_bezout(a: nat, b: nat) -> (xy: (int, int))
    ensures
        xy.0 * a + xy.1 * b == gcd(a, b),
    decreases b,
{
    if b == 0 {
        (1, 0)
    } else {
        lemma_mod_bound(a as int, b as int);
        let (x, y) = lemma_bezout(b, a % b);
        lemma_fundamental_div_mod(a as int, b as int);
        let q = (a / b) as int;
        assert(y * (a as int) + (x - y * q) * (b as int) == x * b + y * (a % b)) by (nonlinear_arith)
            requires
                a == b * q + a % b,
        {
        }
        (y, x - y * q)
    }
}

/// A positive divisor of a prime is 1 or the prime itself.
pub proof fn lemma_divisor_of_prime(p: nat, g: nat)
    requires
        is_prime_spec(p),
        g > 0,
        p % g == 0,
    ensures
        g == 1 || g == p,
{
    lemma_fundamental_div_mod(p as int, g as int);
    let c = p / g;
    if g > p {
        lemma_small_div_converse(p as int, g as int);
        assert(c == 0) by {
            lemma_basic_div(p as int, g as int);
        }
        assert(false);
    }
    if 2 <= g < p {
        assert(p % g != 0);
    }
}

/// Euclid's lemma generalised: if `d` divides `x * p` for a prime `p` not
/// dividing `d`, then `d` divides `x`.
pub proof fn lemma_coprime_cancel(d: nat, x: int, p: nat)
    requires
        is_prime_spec(p),
        d > 0,
        (d as int) % (p as int) != 0,
        (x * p) % (d as int) == 0,
    ensures
        x % (d as int) == 0,
{
    let g = gcd(p, d);
    lemma_gcd_divides(p, d);
    lemma_divisor_of_prime(p, g);
    if g == p {
        assert(false);
    }
    let (u, v) = lemma_bezout(p, d);
    // x == u * (x * p) + v * x * d
    assert(x == u * (x * p) + (v * x) * d) by (nonlinear_arith)
        requires
            u * p + v * d == 1,
    {
    }
    lemma_fundamental_div_mod(x * p, d as int);
    let k = (x * p) / (d as int);
    assert(x == (u * k + v * x) * d) by (nonlinear_arith)
        requires
            x == u * (x * p) + (v * x) * d,
            x * p == d * k + 0,
    {
    }
    lemma_mod_multiples_basic(u * k + v * x, d as int);
}

/// Euclid's lemma: a prime dividing a product divides one of the factors.
pub proof fn lemma_euclid(p: nat, a: int, b: int)
    requires
        is_prime_spec(p),
        (a * b) % (p as int) == 0,
        a % (p as int) != 0,
    ensures
        b % (p as int) == 0,
{
    lemma_mul_is_commutative(a, b);
    let g = gcd(p, (a % (p as int)) as nat);
    lemma_mod_bound(a, p as int);
    let ap = (a % (p as int)) as nat;
    lemma_gcd_divides(p, ap);
    lemma_divisor_of_prime(p, g);
    if g == p {
        lemma_small_mod(ap, p);
        assert(false);
    }
    let (u, v) = lemma_bezout(p, ap);
    lemma_fundamental_div_mod(a, p as int);
    let qa = a / (p as int);
    lemma_fundamental_div_mod(a * b, p as int);
    let k = (a * b) / (p as int);
    // b == u*p*b + v*ap*b == u*p*b + v*(a - p*qa)*b == p*(u*b + v*k - v*qa*b)
    assert(b == (u * b + v * k - v * qa * b) * p) by (nonlinear_arith)
        requires
            u * p + v * ap == 1,
            a == p * qa + ap,
            a * b == p * k + 0,
    {
    }
    lemma_mod_multiples_basic(u * b + v * k - v * qa * b, p as int);
}

/// The prime of a listed prime power divides the whole product.
pub proof fn lemma_factor_divides_product(fs: Seq<(u64, u32)>, i: int)
    requires
        0 <= i < fs.len(),
        forall|j: int| 0 <= j < fs.len() ==> #[trigger] fs[j].0 >= 2,
        forall|j: int| 0 <= j < fs.len() ==> #[trigger] fs[j].1 >= 1,
    ensures
        (factors_product(fs) as int) % (fs[i].0 as int) == 0,
    decreases fs.len(),
{
    let last = fs.len() - 1;
    let pe = pow(fs.last().0 as int, fs.last().1 as nat);
    let rest = factors_product(fs.drop_last()) as int;
    lemma_pow_positive(fs.last().0 as int, fs.last().1 as nat);
    if i == last {
        let p = fs[i].0 as int;
        let e = fs[i].1 as nat;
        lemma_pow_adds(p, 1, (e - 1) as nat);
        lemma_pow1(p);
        assert(factors_product(fs) as int == (rest * pow(p, (e - 1) as nat)) * p) by (nonlinear_arith)
            requires
                factors_product(fs) as int == rest * pe,
                pe == pow(p, 1) * pow(p, (e - 1) as nat),
                pow(p, 1) == p,
        {
        }
        lemma_mod_multiples_basic(rest * pow(p, (e - 1) as nat), p);
    } else {
        lemma_factor_divides_product(fs.drop_last(), i);
        let p = fs[i].0 as int;
        lemma_fundamental_div_mod(rest, p);
        let k = rest / p;
        assert(factors_product(fs) as int == (k * pe) * p) by (nonlinear_arith)
            requires
                factors_product(fs) as int == rest * pe,
                rest == p * k + 0,
        {
        }
        lemma_mod_multiples_basic(k * pe, p);
    }
}

/// A prime dividing a prime power divides its base.
pub proof fn lemma_prime_divides_pow(q: nat, p: int, e: nat)
    requires
        is_prime_spec(q),
        pow(p, e) % (q as int) == 0,
    ensures
        p % (q as int) == 0,
    decreases e,
{
    reveal(pow);
    if e == 0 {
        lemma_small_mod(1, q);
    } else {
        if p % (q as int) != 0 {
            lemma_euclid(q, p, pow(p, (e - 1) as nat));
            lemma_prime_divides_pow(q, p, (e - 1) as nat);
        }
    }
}

/// Any prime dividing a product of listed prime powers is one of the listed primes.
pub proof fn lemma_prime_divisor_is_listed(q: nat, fs: Seq<(u64, u32)>)
    requires
        is_prime_spec(q),
        (factors_product(fs) as int) % (q as int) == 0,
        forall|j: int| 0 <= j < fs.len() ==> is_prime_spec(#[trigger] fs[j].0 as nat),
    ensures
        exists|j: int| 0 <= j < fs.len() && #[trigger] fs[j].0 == q,
    decreases fs.len(),
{
    if fs.len() == 0 {
        lemma_small_mod(1, q);
    } else {
        let last = fs.len() - 1;
        let rest = factors_product(fs.drop_last()) as int;
        let pe = pow(fs.last().0 as int, fs.last().1 as nat);
        lemma_pow_positive(fs.last().0 as int, fs.last().1 as nat);
        assert(factors_product(fs) as int == rest * pe);
        if rest % (q as int) == 0 {
            lemma_prime_divisor_is_listed(q, fs.drop_last());
            let j = choose|j: int| 0 <= j < fs.drop_last().len() && #[trigger] fs.drop_last()[j].0 == q;
            assert(fs[j].0 == q);
        } else {
            lemma_euclid(q, rest, pe);
            lemma_prime_divides_pow(q, fs.last().0 as int, fs.last().1 as nat);
            lemma_divisor_of_prime(fs.last().0 as nat, q);
            assert(fs[last].0 == q);
        }
    }
}


/// `g` passes the primitive-root test modulo `p`: for every prime `q`
/// dividing `p - 1`, `g^((p-1)/q) mod p` differs from 1.
pub open spec fn passes_root_test(g: nat, p: nat) -> bool {
    forall|q: nat| #![trigger ((p - 1) as nat) % q]
        is_prime_spec(q) && ((p - 1) as nat) % q == 0 ==> pow(g as int, ((p - 1) as nat) / q) % (p as int) != 1
}

/// Whether `g` passes the primitive-root test modulo `p`, given the prime
/// factorisation of `p - 1`.
fn passes_root_test_exec(g: u64, p: u64, factors: &Vec<(u64, u32)>) -> (r: bool)
    requires
        p > 2,
        2 <= g < p,
        is_prime_factorization(factors@, (p - 1) as nat),
    ensures
        r == passes_root_test(g as nat, p as nat),
{
    let phi = p - 1;
    let mut i: usize = 0;
    while i < factors.len()
        invariant
            p > 2,
            phi == p - 1,
            2 <= g < p,
            0 <= i <= factors@.len(),
            is_prime_factorization(factors@, phi as nat),
            forall|j: int| 0 <= j < i ==>
                pow(g as int, ((phi as nat) / (#[trigger] factors@[j]).0 as nat)) % (p as int) != 1,
        decreases factors@.len() - i,
    {
        let q = factors[i].0;
        proof {
            lemma_factor_divides_product(factors@, i as int);
            lemma_fundamental_div_mod(phi as int, q as int);
            assert(phi / q >= 1) by (nonlinear_arith)
                requires
                    phi == q * (phi / q) + 0,
                    phi >= 1,
            {
            }
        }
        let v = mod_pow(g, phi / q, p);
        if v == 1 {
            proof {
                let qn = q as nat;
                assert(((p - 1) as nat) % qn == 0);
                assert(is_prime_spec(qn));
            }
            return false;
        }
        i += 1;
    }
    proof {
        assert forall|q: nat| is_prime_spec(q) && ((p - 1) as nat) % q == 0 implies
            pow(g as int, ((p - 1) as nat) / q) % (p as int) != 1 by {
            lemma_prime_divisor_is_listed(q, factors@);
            let j = choose|j: int| 0 <= j < factors@.len() && #[trigger] factors@[j].0 == q;
            assert(factors@[j].0 == q);
        }
    }
    true
}

/// The smallest `g` in `[2, p)` that passes the primitive-root test modulo
/// `p > 2`, or `None` when there is none.
pub fn find_primitive_root(p: u64) -> (r: Option<u64>)
    requires
        p > 2,
    ensures
        r is None <==> !exists|h: nat| 2 <= h < p && #[trigger] passes_root_test(h, p as nat),
        r matches Some(g) ==> 2 <= g < p && passes_root_test(g as nat, p as nat)
            && forall|h: nat| 2 <= h < g ==> !#[trigger] passes_root_test(h, p as nat),
{
    let factors = trial_factor(p - 1);
    let mut g: u64 = 2;
    while g < p
        invariant
            p > 2,
            2 <= g <= p,
            is_prime_factorization(factors@, (p - 1) as nat),
            forall|h: nat| 2 <= h < g ==> !#[trigger] passes_root_test(h, p as nat),
        decreases p - g,
    {
        if passes_root_test_exec(g, p, &factors) {
            return Some(g);
        }
        g += 1;
    }
    proof {
        assert forall|h: nat| 2 <= h < p implies !#[trigger] passes_root_test(h, p as nat) by {
            assert(h < g);
        }
    }
    None
}

/// The smallest `g >= 2` that passes the primitive-root test modulo `p`
/// (1 for `p == 2`). For a prime `p` this is its least primitive root.
pub fn primitive_root(p: u64) -> (g: u64)
    requires
        p >= 2,
        p == 2 || exists|h: nat| 2 <= h < p && #[trigger] passes_root_test(h, p as nat),
    ensures
        p == 2 ==> g == 1,
        p > 2 ==> 2 <= g < p && passes_root_test(g as nat, p as nat)
            && forall|h: nat| 2 <= h < g ==> !#[trigger] passes_root_test(h, p as nat),
{
    if p == 2 {
        return 1;
    }
    match find_primitive_root(p) {
        Some(g) => g,
        None => 0,
    }
}


/// `d` is a positive divisor of `n`.
pub open spec fn is_divisor(d: nat, n: nat) -> bool {
    d >= 1 && n % d == 0
}

proof fn lemma_divisor_le(d: nat, n: nat)
    requires
        is_divisor(d, n),
        n >= 1,
    ensures
        d <= n,
{
    lemma_fundamental_div_mod(n as int, d as int);
    let k = n / d;
    if k == 0 {
        assert(n == d * 0 + 0);
        assert(false);
    }
    lemma_mul_le(d, d, 1, k);
}

proof fn lemma_divides_mul(a: nat, x: nat, b: nat, y: nat)
    requires
        is_divisor(a, x),
        is_divisor(b, y),
    ensures
        is_divisor(a * b, x * y),
{
    lemma_fundamental_div_mod(x as int, a as int);
    lemma_fundamental_div_mod(y as int, b as int);
    let k = x / a;
    let l = y / b;
    assert(x * y == (k * l) * (a * b)) by (nonlinear_arith)
        requires
            x == a * k + 0,
            y == b * l + 0,
    {
    }
    assert(a * b >= 1) by (nonlinear_arith)
        requires
            a >= 1,
            b >= 1,
    {
    }
    lemma_mod_multiples_basic((k * l) as int, (a * b) as int);
}

proof fn lemma_pow_divides(p: nat, k: nat, e: nat)
    requires
        p >= 1,
        k <= e,
    ensures
        is_divisor(pow(p as int, k) as nat, pow(p as int, e) as nat),
        pow(p as int, k) >= 1,
{
    lemma_pow_positive(p as int, k);
    lemma_pow_positive(p as int, (e - k) as nat);
    lemma_pow_adds(p as int, k, (e - k) as nat);
    lemma_mod_multiples_basic(pow(p as int, (e - k) as nat), pow(p as int, k));
    lemma_mul_is_commutative(pow(p as int, (e - k) as nat), pow(p as int, k));
}

/// A divisor of `a * p^e`, with `p` a prime not dividing `a`, is some
/// divisor of `a` times a power `p^f` with `f <= e`.
pub proof fn lemma_divisor_decompose(d: nat, a: nat, p: nat, e: nat) -> (r: (nat, nat))
    requires
        is_prime_spec(p),
        a >= 1,
        (a as int) % (p as int) != 0,
        is_divisor(d, a * (pow(p as int, e) as nat)),
    ensures
        r.1 <= e,
        is_divisor(r.0, a),
        d == r.0 * (pow(p as int, r.1) as nat),
    decreases e,
{
    reveal(pow);
    lemma_pow_positive(p as int, e);
    if e == 0 {
        lemma_pow0(p as int);
        let one = pow(p as int, 0) as nat;
        assert(one == 1);
        lemma_mul_basics(a as int);
        assert(a * one == a);
        assert(d * (pow(p as int, 0) as nat) == d);
        (d, 0)
    } else {
        let pe1 = pow(p as int, (e - 1) as nat);
        lemma_pow_positive(p as int, (e - 1) as nat);
        let x = a * (pe1 as nat);
        assert(a * (pow(p as int, e) as nat) == x * p) by (nonlinear_arith)
            requires
                pow(p as int, e) == p * pe1,
                x == a * pe1,
        {
        }
        if (d as int) % (p as int) == 0 {
            lemma_fundamental_div_mod(d as int, p as int);
            let d1 = d / p;
            lemma_fundamental_div_mod((x * p) as int, d as int);
            let k = (x * p) / d;
            assert(x * p == (k * d1) * p) by (nonlinear_arith)
                requires
                    x * p == d * k + 0,
                    d == p * d1 + 0,
            {
            }
            assert(x == k * d1) by (nonlinear_arith)
                requires
                    x * p == (k * d1) * p,
                    p >= 2,
            {
            }
            assert(d1 >= 1) by (nonlinear_arith)
                requires
                    d == p * d1 + 0,
                    d >= 1,
            {
            }
            lemma_mod_multiples_basic(k as int, d1 as int);
            let (d2, f) = lemma_divisor_decompose(d1, a, p, (e - 1) as nat);
            lemma_pow_positive(p as int, f);
            assert(pow(p as int, f + 1) == p * pow(p as int, f));
            assert(d == d2 * (pow(p as int, f + 1) as nat)) by (nonlinear_arith)
                requires
                    d == p * d1,
                    d1 == d2 * (pow(p as int, f) as nat),
                    pow(p as int, f + 1) == p * pow(p as int, f),
                    pow(p as int, f) >= 0,
            {
            }
            (d2, f + 1)
        } else {
            lemma_coprime_cancel(d, x as int, p);
            lemma_divisor_decompose(d, a, p, (e - 1) as nat)
        }
    }
}

proof fn lemma_prefix_product_divides(fs: Seq<(u64, u32)>, i: int)
    requires
        0 <= i <= fs.len(),
        forall|j: int| 0 <= j < fs.len() ==> #[trigger] fs[j].0 >= 2,
    ensures
        is_divisor(factors_product(fs.take(i)), factors_product(fs)),
    decreases fs.len(),
{
    lemma_factors_product_positive(fs);
    lemma_factors_product_positive(fs.take(i));
    if i == fs.len() {
        assert(fs.take(i) =~= fs);
        lemma_mod_self_0(factors_product(fs) as int);
    } else {
        assert(fs.take(i) =~= fs.drop_last().take(i));
        lemma_prefix_product_divides(fs.drop_last(), i);
        lemma_pow_positive(fs.last().0 as int, fs.last().1 as nat);
        lemma_mod_self_0(1);
        lemma_divides_mul(factors_product(fs.take(i)), factors_product(fs.drop_last()), 1,
            pow(fs.last().0 as int, fs.last().1 as nat) as nat);
    }
}

/// The least divisor of `smooth_part` that is at least `min_size`, if any.
/// Divisors are enumerated from the prime factorisation of `smooth_part`;
/// for `smooth_part == 0` the only candidate is 1.
pub fn smallest_smooth_divisor_geq(smooth_part: u64, min_size: usize) -> (r: Option<u64>)
    ensures
        smooth_part == 0 ==> r == (if min_size <= 1 { Some(1u64) } else { None::<u64> }),
        smooth_part >= 1 ==> match r {
            Some(d) => is_divisor(d as nat, smooth_part as nat) && d >= min_size
                && forall|d2: nat| #![trigger is_divisor(d2, smooth_part as nat)]
                    is_divisor(d2, smooth_part as nat) && d2 >= min_size ==> d <= d2,
            None => forall|d2: nat| #![trigger is_divisor(d2, smooth_part as nat)]
                is_divisor(d2, smooth_part as nat) ==> d2 < min_size,
        },
{
    let factors = trial_factor(smooth_part);
    let ghost n = smooth_part as nat;
    let ghost fs = factors@;
    let mut divisors: Vec<u64> = Vec::new();
    divisors.push(1);
    let mut i: usize = 0;
    proof {
        assert(fs.take(0) =~= Seq::<(u64, u32)>::empty());
        assert(factors_product(fs.take(0)) == 1);
        assert forall|d: nat| is_divisor(d, 1) implies divisors@.contains(d as u64) by {
            lemma_divisor_le(d, 1);
            assert(divisors@[0] == 1);
        }
        assert forall|d: nat| #[trigger] is_divisor(d, 1) implies d <= u64::MAX by {
            lemma_divisor_le(d, 1);
        }
        lemma_mod_self_0(1);
    }
    while i < factors.len()
        invariant
            fs == factors@,
            n == smooth_part as nat,
            0 <= i <= fs.len(),
            smooth_part == 0 ==> fs.len() == 0,
            smooth_part >= 1 ==> is_prime_factorization(fs, n),
            divisors@.len() >= 1,
            forall|x: u64| #[trigger] divisors@.contains(x) ==> is_divisor(x as nat, factors_product(fs.take(i as int))),
            forall|d: nat| #[trigger] is_divisor(d, factors_product(fs.take(i as int))) ==> divisors@.contains(d as u64),
            forall|d: nat| #[trigger] is_divisor(d, factors_product(fs.take(i as int))) ==> d <= u64::MAX,
        decreases fs.len() - i,
    {
        let p = factors[i].0;
        let e = factors[i].1;
        let ghost ii = i as int;
        let ghost a = factors_product(fs.take(ii));
        let ghost fs1 = fs.take(ii + 1);
        let ghost pp = p as nat;
        proof {
            assert(fs1.drop_last() =~= fs.take(ii));
            assert(fs1.last() == fs[ii]);
            lemma_factors_product_positive(fs.take(ii));
            lemma_prefix_product_divides(fs, ii + 1);
            lemma_divisor_le(factors_product(fs1), n);
        }
        let ghost b = factors_product(fs1);
        let ghost old_divs = divisors@;
        proof {
            lemma_pow_positive(p as int, e as nat);
            assert(b >= 1) by (nonlinear_arith)
                requires
                    b == a * (pow(p as int, e as nat) as nat),
                    a >= 1,
                    pow(p as int, e as nat) >= 1,
            {
            }
            assert forall|x: u64| #[trigger] divisors@.contains(x) implies is_divisor(x as nat, b) by {
                lemma_mod_self_0(1);
                lemma_divides_mul(x as nat, a, 1, pow(p as int, e as nat) as nat);
                assert((x as nat) * 1 == x as nat);
            }
        }
        let len = divisors.len();
        let mut pe: u64 = 1;
        let mut k: u32 = 0;
        proof {
            lemma_pow0(p as int);
        }
        while k < e
            invariant
                fs == factors@,
                n == smooth_part as nat,
                smooth_part >= 1,
                is_prime_factorization(fs, n),
                0 <= ii < fs.len(),
                p == fs[ii].0,
                e == fs[ii].1,
                pp == p as nat,
                a == factors_product(fs.take(ii)),
                b == a * (pow(p as int, e as nat) as nat),
                b <= n,
                b >= 1,
                n <= u64::MAX,
                a >= 1,
                k <= e,
                pe as int == pow(p as int, k as nat),
                len == old_divs.len(),
                divisors@.len() >= len,
                divisors@.take(len as int) == old_divs,
                forall|x: u64| #[trigger] old_divs.contains(x) ==> is_divisor(x as nat, a),
                forall|x: u64| #[trigger] divisors@.contains(x) ==> is_divisor(x as nat, b),
                forall|j: int, f: nat| #![trigger old_divs[j], pow(p as int, f)]
                    0 <= j < len && f <= k ==> divisors@.contains((old_divs[j] as int * pow(p as int, f)) as u64),
            decreases e - k,
        {
            proof {
                lemma_pow_divides(pp, (k + 1) as nat, e as nat);
                lemma_pow_positive(p as int, e as nat);
                lemma_mod_self_0(a as int);
                lemma_divides_mul(1, a, pow(p as int, (k + 1) as nat) as nat, pow(p as int, e as nat) as nat);
                lemma_divisor_le(pow(p as int, (k + 1) as nat) as nat, b);
                reveal(pow);
                assert(pow(p as int, (k + 1) as nat) == p * pow(p as int, k as nat));
            }
            pe = pe * p;
            let ghost kk = (k + 1) as nat;
            let mut j: usize = 0;
            while j < len
                invariant
                    fs == factors@,
                    n == smooth_part as nat,
                    0 <= ii < fs.len(),
                    pp == p as nat,
                    pp >= 2,
                    a >= 1,
                    b == a * (pow(p as int, e as nat) as nat),
                    b <= n,
                    b >= 1,
                    n <= u64::MAX,
                    kk <= e,
                    pe as int == pow(p as int, kk),
                    pow(p as int, kk) >= 1,
                    is_divisor(pow(p as int, kk) as nat, pow(p as int, e as nat) as nat),
                    0 <= j <= len,
                    len == old_divs.len(),
                    divisors@.len() >= len,
                    divisors@.take(len as int) == old_divs,
                    forall|x: u64| #[trigger] old_divs.contains(x) ==> is_divisor(x as nat, a),
                    forall|x: u64| #[trigger] divisors@.contains(x) ==> is_divisor(x as nat, b),
                    forall|j2: int, f: nat| #![trigger old_divs[j2], pow(p as int, f)]
                        0 <= j2 < len && f < kk ==> divisors@.contains((old_divs[j2] as int * pow(p as int, f)) as u64),
                    forall|j2: int| #![trigger old_divs[j2]]
                        0 <= j2 < j ==> divisors@.contains((old_divs[j2] as int * pow(p as int, kk)) as u64),
                decreases len - j,
            {
                let x = divisors[j];
                proof {
                    assert(divisors@.take(len as int)[j as int] == divisors@[j as int]);
                    assert(old_divs[j as int] == x);
                    assert(old_divs.contains(x));
                    lemma_divides_mul(x as nat, a, pow(p as int, kk) as nat, pow(p as int, e as nat) as nat);
                    lemma_divisor_le((x as nat) * (pow(p as int, kk) as nat), b);
                }
                let y = x * pe;
                let ghost before = divisors@;
                divisors.push(y);
                proof {
                    assert(divisors@.take(len as int) =~= before.take(len as int));
                    assert forall|z: u64| #[trigger] divisors@.contains(z) implies is_divisor(z as nat, b) by {
                        if z != y {
                            let t = choose|t: int| 0 <= t < divisors@.len() && divisors@[t] == z;
                            assert(before[t] == z);
                            assert(before.contains(z));
                        }
                    }
                    assert forall|j2: int, f: nat| #![trigger old_divs[j2], pow(p as int, f)]
                        0 <= j2 < len && f < kk implies divisors@.contains((old_divs[j2] as int * pow(p as int, f)) as u64) by {
                        let z = (old_divs[j2] as int * pow(p as int, f)) as u64;
                        assert(before.contains(z));
                        let t = choose|t: int| 0 <= t < before.len() && before[t] == z;
                        assert(divisors@[t] == z);
                    }
                    assert forall|j2: int| #![trigger old_divs[j2]]
                        0 <= j2 < j + 1 implies divisors@.contains((old_divs[j2] as int * pow(p as int, kk)) as u64) by {
                        let z = (old_divs[j2] as int * pow(p as int, kk)) as u64;
                        if j2 == j {
                            assert(divisors@[divisors@.len() - 1] == y);
                        } else {
                            assert(before.contains(z));
                            let t = choose|t: int| 0 <= t < before.len() && before[t] == z;
                            assert(divisors@[t] == z);
                        }
                    }
                }
                j += 1;
            }
            k += 1;
        }
        proof {
            let fsn = fs.take(ii + 1);
            assert(factors_product(fsn) == b);
            assert forall|d: nat| #[trigger] is_divisor(d, factors_product(fs.take(ii + 1))) implies divisors@.contains(d as u64) by {
                // p does not divide a: the primes of a are all smaller than p
                if (a as int) % (p as int) == 0 {
                    assert forall|j: int| 0 <= j < fs.take(ii).len() implies is_prime_spec(#[trigger] fs.take(ii)[j].0 as nat) by {
                        assert(fs.take(ii)[j] == fs[j]);
                    }
                    lemma_prime_divisor_is_listed(pp, fs.take(ii));
                    let j = choose|j: int| 0 <= j < fs.take(ii).len() && #[trigger] fs.take(ii)[j].0 == pp;
                    assert(fs[j].0 < fs[ii].0);
                }
                let (d2, f) = lemma_divisor_decompose(d, a, pp, e as nat);
                let t = choose|t: int| 0 <= t < old_divs.len() && old_divs[t] == d2 as u64;
                assert(old_divs[t] == d2 as u64);
                lemma_pow_positive(p as int, f);
            }
            assert forall|d: nat| #[trigger] is_divisor(d, factors_product(fs.take(ii + 1))) implies d <= u64::MAX by {
                lemma_divisor_le(d, b);
            }
        }
        i += 1;
    }
    // pick the least listed divisor that is at least `min_size`
    let mut best: Option<u64> = None;
    let mut t: usize = 0;
    proof {
        assert(fs.take(fs.len() as int) =~= fs);
    }
    while t < divisors.len()
        invariant
            0 <= t <= divisors@.len(),
            fs.take(fs.len() as int) == fs,
            i == fs.len(),
            n == smooth_part as nat,
            smooth_part == 0 ==> fs.len() == 0,
            smooth_part >= 1 ==> is_prime_factorization(fs, n),
            forall|x: u64| #[trigger] divisors@.contains(x) ==> is_divisor(x as nat, factors_product(fs.take(i as int))),
            forall|d: nat| #[trigger] is_divisor(d, factors_product(fs.take(i as int))) ==> divisors@.contains(d as u64),
            forall|d: nat| #[trigger] is_divisor(d, factors_product(fs.take(i as int))) ==> d <= u64::MAX,
            match best {
                Some(b) => divisors@.contains(b) && b >= min_size
                    && forall|s: int| 0 <= s < t && divisors@[s] >= min_size ==> b <= #[trigger] divisors@[s],
                None => forall|s: int| 0 <= s < t ==> #[trigger] divisors@[s] < min_size,
            },
        decreases divisors@.len() - t,
    {
        let x = divisors[t];
        if x as u128 >= min_size as u128 {
            match best {
                Some(b) => {
                    if x < b {
                        best = Some(x);
                    }
                },
                None => {
                    best = Some(x);
                },
            }
        }
        t += 1;
    }
    proof {
        let fp = factors_product(fs);
        if smooth_part == 0 {
            assert(fp == 1);
        }
        assert forall|d2: nat| #[trigger] is_divisor(d2, fp) && d2 >= min_size implies
            best.is_some() && best.unwrap() <= d2 by {
            assert(divisors@.contains(d2 as u64));
            let s = choose|s: int| 0 <= s < divisors@.len() && divisors@[s] == d2 as u64;
            assert(divisors@[s] == d2 as u64);
        }
        if smooth_part == 0 {
            lemma_mod_self_0(1);
            match best {
                Some(b) => {
                    let s = choose|s: int| 0 <= s < divisors@.len() && divisors@[s] == b;
                    assert(is_divisor(b as nat, 1));
                    lemma_divisor_le(b as nat, 1);
                },
                None => {
                    assert(is_divisor(1, 1));
                },
            }
        }
    }
    best
}

// ----------------------------------------------------------------------------
// Fermat's little theorem and the order of a primitive root
// ----------------------------------------------------------------------------

/// A product of factors none divisible by the prime `p` is not divisible by `p`.
proof fn lemma_prod_not_divisible(f: spec_fn(int) -> int, n: nat, p: nat)
    requires
        is_prime_spec(p),
        forall|i: int| 0 <= i < n ==> #[trigger] f(i) % (p as int) != 0,
    ensures
        prod(f, n) % (p as int) != 0,
    decreases n,
{
    if n == 0 {
        lemma_small_mod(1, p);
    } else {
        lemma_prod_not_divisible(f, (n - 1) as nat, p);
        if prod(f, n) % (p as int) == 0 {
            lemma_euclid(p, prod(f, (n - 1) as nat), f(n - 1));
        }
    }
}

/// Fermat's little theorem: `a^(p-1) ≡ 1 (mod p)` for a prime `p` not dividing `a`.
pub proof fn lemma_fermat(a: int, p: nat)
    requires
        is_prime_spec(p),
        a % (p as int) != 0,
    ensures
        pow(a, (p - 1) as nat) % (p as int) == 1,
{
    let pi = p as int;
    let n = (p - 1) as nat;
    let f = |x: int| x + 1;
    let s = |x: int| (a * (x + 1)) % pi - 1;
    // x ↦ a·(x+1) mod p - 1 maps [0, p-1) injectively into itself
    assert forall|x: int| 0 <= x < n implies 0 <= #[trigger] s(x) < n by {
        lemma_mod_bound(a * (x + 1), pi);
        if (a * (x + 1)) % pi == 0 {
            lemma_euclid(p, a, x + 1);
            lemma_small_mod((x + 1) as nat, p);
        }
    }
    assert forall|x: int, y: int| 0 <= x < y < n implies #[trigger] s(x) != #[trigger] s(y) by {
        if s(x) == s(y) {
            lemma_sub_mod_noop(a * (y + 1), a * (x + 1), pi);
            lemma_mod_self_0(pi);
            lemma_small_mod(0, p);
            assert(a * (y + 1) - a * (x + 1) == a * (y - x)) by (nonlinear_arith);
            assert((a * (y - x)) % pi == 0);
            lemma_euclid(p, a, y - x);
            lemma_small_mod((y - x) as nat, p);
        }
    }
    lemma_prod_permute(f, s, n);
    // Π (a(x+1) mod p) ≡ Π a(x+1) = a^(p-1) · Π (x+1)
    let fs = |x: int| f(s(x));
    let ax = |x: int| a * f(x);
    assert forall|x: int| 0 <= x < n implies #[trigger] fs(x) % pi == ax(x) % pi by {
        lemma_mod_twice(a * (x + 1), pi);
    }
    lemma_prod_congruent(fs, ax, n, pi);
    lemma_prod_scale(f, a, n);
    let q = prod(f, n);
    // p does not divide (p-1)!
    assert forall|x: int| 0 <= x < n implies #[trigger] f(x) % pi != 0 by {
        lemma_small_mod((x + 1) as nat, p);
    }
    lemma_prod_not_divisible(f, n, p);
    // (a^(p-1) - 1) · q ≡ 0, so p divides a^(p-1) - 1
    let an = pow(a, n);
    assert(prod(fs, n) == q);
    assert((an * q) % pi == q % pi);
    lemma_sub_mod_noop(an * q, q, pi);
    lemma_mod_self_0(pi);
    assert(an * q - q == q * (an - 1)) by (nonlinear_arith);
    lemma_small_mod(0, p);
    assert((q * (an - 1)) % pi == 0);
    lemma_euclid(p, q, an - 1);
    lemma_fundamental_div_mod(an - 1, pi);
    lemma_mul_is_commutative(pi, (an - 1) / pi);
    lemma_fundamental_div_mod_converse(an, pi, (an - 1) / pi, 1);
}

/// If `g^a ≡ 1` and `g^b ≡ 1` then `g^gcd(a, b) ≡ 1`.
pub proof fn lemma_pow_gcd(g: int, a: nat, b: nat, p: int)
    requires
        p > 1,
        pow(g, a) % p == 1,
        pow(g, b) % p == 1,
    ensures
        pow(g, gcd(a, b)) % p == 1,
    decreases b,
{
    if b > 0 {
        lemma_fundamental_div_mod(a as int, b as int);
        lemma_mod_bound(a as int, b as int);
        let q = (a / b) as nat;
        let r = (a % b) as nat;
        assert(a == b * q + r);
        lemma_pow_adds(g, b * q, r);
        lemma_pow_multiplies(g, b, q);
        lemma_pow_mod_noop(pow(g, b), q, p);
        lemma_pow_one_any(q);
        lemma_small_mod(1, p as nat);
        lemma_mul_mod_noop(pow(g, b * q), pow(g, r), p);
        lemma_mod_twice(pow(g, r), p);
        assert(pow(g, r) % p == 1);
        lemma_pow_gcd(g, b, r, p);
    }
}

proof fn lemma_pow_one_any(q: nat)
    ensures
        pow(1, q) == 1,
    decreases q,
{
    reveal(pow);
    if q > 0 {
        lemma_pow_one_any((q - 1) as nat);
    }
}

/// Every integer `n >= 2` has a prime divisor.
pub proof fn lemma_prime_divisor_exists(n: nat)
    requires
        n >= 2,
    ensures
        exists|q: nat| is_prime_spec(q) && #[trigger] (n % q) == 0,
    decreases n,
{
    if is_prime_spec(n) {
        lemma_mod_self_0(n as int);
        assert(is_prime_spec(n) && n % n == 0);
    } else {
        let k = choose|k: nat| 2 <= k < n && #[trigger] (n % k) == 0;
        lemma_prime_divisor_exists(k);
        let q = choose|q: nat| is_prime_spec(q) && #[trigger] (k % q) == 0;
        lemma_divides_trans(q, k, n);
        assert(is_prime_spec(q) && n % q == 0);
    }
}

/// A base passing the primitive-root test modulo a prime `p` has order
/// exactly `p - 1`: no smaller positive power is 1.
pub proof fn lemma_primitive_root_order(g: int, p: nat, d: nat)
    requires
        is_prime_spec(p),
        2 <= g < p,
        passes_root_test(g as nat, p),
        0 < d < p - 1,
    ensures
        pow(g, d) % (p as int) != 1,
{
    let pi = p as int;
    let n = (p - 1) as nat;
    if pow(g, d) % pi == 1 {
        lemma_small_mod(g as nat, p);
        lemma_fermat(g, p);
        lemma_pow_gcd(g, n, d, pi);
        let e = gcd(n, d);
        lemma_gcd_divides(n, d);
        lemma_divisor_le_nat(e, d);
        lemma_fundamental_div_mod(n as int, e as int);
        let c = n / e;
        assert(n == e * c);
        assert(c >= 2) by (nonlinear_arith)
            requires n == e * c, e <= d, d < n, e > 0;
        lemma_prime_divisor_exists(c);
        let q = choose|q: nat| is_prime_spec(q) && #[trigger] (c % q) == 0;
        lemma_fundamental_div_mod(c as int, q as int);
        let r = c / q;
        assert(c == q * r);
        assert(n == q * (e * r)) by (nonlinear_arith) requires n == e * c, c == q * r;
        assert(q > 0);
        lemma_mod_multiples_basic((e * r) as int, q as int);
        lemma_mul_is_commutative(q as int, (e * r) as int);
        lemma_div_multiples_vanish((e * r) as int, q as int);
        assert(n % q == 0 && n / q == e * r);
        assert(e * r >= 0) by (nonlinear_arith) requires e > 0, r >= 0;
        // g^(n/q) = (g^e)^r ≡ 1
        lemma_pow_multiplies(g, e, r);
        lemma_pow_mod_noop(pow(g, e), r, pi);
        lemma_pow_one_any(r);
        lemma_small_mod(1, p);
        assert(pow(g, ((p - 1) as nat) / q) % pi == 1);
        assert(!passes_root_test(g as nat, p));
    }
}

pub proof fn lemma_divisor_le_nat(e: nat, d: nat)
    requires
        e > 0,
        d > 0,
        d % e == 0,
    ensures
        e <= d,
{
    lemma_fundamental_div_mod(d as int, e as int);
    let c = d / e;
    assert(d == e * c);
    assert(c >= 1) by (nonlinear_arith) requires d == e * c, d > 0, e > 0;
    assert(e <= d) by (nonlinear_arith) requires d == e * c, c >= 1, e > 0;
}

// ----------------------------------------------------------------------------
// Coprime moduli
// ----------------------------------------------------------------------------

/// For coprime `a` and `b`, `a | x·b` gives `a | x`.
pub proof fn lemma_coprime_divides(a: nat, b: nat, x: int)
    requires
        a > 0,
        gcd(a, b) == 1,
        (x * b) % (a as int) == 0,
    ensures
        x % (a as int) == 0,
{
    let (u, v) = lemma_bezout(a, b);
    // x = x·(u a + v b) = (x u) a + v (x b)
    let ai = a as int;
    lemma_fundamental_div_mod(x * b, ai);
    let q = (x * b) / ai;
    assert(x * b == ai * q);
    assert(x == (x * u + v * q) * ai) by (nonlinear_arith)
        requires u * a + v * b == 1, x * b == ai * q, ai == a;
    lemma_mod_multiples_basic(x * u + v * q, ai);
}

/// For coprime `a` and `b` that both divide `d`, `a·b` divides `d`.
pub proof fn lemma_coprime_product_divides(a: nat, b: nat, d: int)
    requires
        a > 0,
        b > 0,
        gcd(a, b) == 1,
        d % (a as int) == 0,
        d % (b as int) == 0,
    ensures
        d % ((a * b) as int) == 0,
{
    let ai = a as int;
    let bi = b as int;
    lemma_fundamental_div_mod(d, bi);
    let q = d / bi;
    assert(d == bi * q);
    // a | q·b, so a | q
    assert((q * bi) % ai == 0) by {
        lemma_mul_is_commutative(q, bi);
    }
    lemma_coprime_divides(a, b, q);
    lemma_fundamental_div_mod(q, ai);
    let r = q / ai;
    assert(q == ai * r);
    assert(d == r * ((a * b) as int)) by (nonlinear_arith)
        requires d == bi * q, q == ai * r, ai == a, bi == b;
    assert(a * b > 0) by (nonlinear_arith) requires a > 0, b > 0;
    lemma_mod_multiples_basic(r, (a * b) as int);
}

/// `gcd` is symmetric on the question of being 1.
pub proof fn lemma_gcd_one_symmetric(a: nat, b: nat)
    requires
        gcd(a, b) == 1,
    ensures
        gcd(b, a) == 1,
{
    lemma_gcd_divides(b, a);
    let (u, v) = lemma_bezout(a, b);
    let g = gcd(b, a);
    if a > 0 || b > 0 {
        assert(g > 0);
        lemma_fundamental_div_mod(a as int, g as int);
        lemma_fundamental_div_mod(b as int, g as int);
        let qa = (a as int) / (g as int);
        let qb = (b as int) / (g as int);
        assert(1 == (u * qa + v * qb) * g) by (nonlinear_arith)
            requires u * a + v * b == 1, a == g * qa, b == g * qb;
        assert(g == 1) by (nonlinear_arith)
            requires 1 == (u * qa + v * qb) * g, g > 0;
    } else {
        assert(gcd(0, 0) == 0);
    }
}

} // verus!
