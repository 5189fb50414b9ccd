//! Little-endian 64-bit limb representation of big unsigned integers.
use vstd::prelude::*;
use vstd::arithmetic::div_mod::*;
use vstd::arithmetic::mul::*;
use vstd::arithmetic::power::*;
use vstd::arithmetic::power2::*;

verus! {

/// The base of one limb, `2^64`.
pub open spec fn limb_base() -> nat {
    0x1_0000_0000_0000_0000
}

/// The unsigned integer held by the little-endian limbs `s`.
pub open spec fn limbs_value(s: Seq<u64>) -> nat
    decreases s.len(),
{
    if s.len() == 0 {
        0
    } else {
        s[0] as nat + limb_base() * limbs_value(s.drop_first())
    }
}

/// A value of `n` limbs is below `2^(64 n)`.
pub proof fn lemma_limbs_bound(s: Seq<u64>)
    ensures
        limbs_value(s) < pow(limb_base() as int, s.len()),
    decreases s.len(),
{
    reveal(pow);
    if s.len() > 0 {
        lemma_limbs_bound(s.drop_first());
        let h = limbs_value(s.drop_first());
        let p = pow(limb_base() as int, s.drop_first().len());
        assert(s[0] as nat + limb_base() * h < limb_base() * p) by (nonlinear_arith)
            requires
                h < p,
                s[0] < limb_base(),
        {
        }
    }
}

/// Splitting a limb sequence at `k`: `value(s) == value(s[..k]) + 2^(64 k) * value(s[k..])`.
pub proof fn lemma_limbs_split(s: Seq<u64>, k: int)
    requires
        0 <= k <= s.len(),
    ensures
        limbs_value(s) == limbs_value(s.take(k)) + pow(limb_base() as int, k as nat) * limbs_value(s.skip(k)),
    decreases k,
{
    reveal(pow);
    if k == 0 {
        assert(s.take(0) =~= Seq::<u64>::empty());
        assert(s.skip(0) =~= s);
    } else {
        lemma_limbs_split(s.drop_first(), k - 1);
        assert(s.take(k).drop_first() =~= s.drop_first().take(k - 1));
        assert(s.skip(k) =~= s.drop_first().skip(k - 1));
        let a = limbs_value(s.drop_first().take(k - 1));
        let b = limbs_value(s.skip(k));
        let p = pow(limb_base() as int, (k - 1) as nat);
        assert(s[0] as nat + limb_base() * (a + p * b) == (s[0] as nat + limb_base() * a) + (limb_base() * p) * b)
            by (nonlinear_arith);
    }
}

proof fn lemma_limbs_suffix_step(s: Seq<u64>, i: int)
    requires
        0 <= i < s.len(),
    ensures
        limbs_value(s.skip(i)) == s[i] as nat + limb_base() * limbs_value(s.skip(i + 1)),
{
    assert(s.skip(i).drop_first() =~= s.skip(i + 1));
}

/// `2^(64 k) == (2^64)^k`.
pub proof fn lemma_pow2_limbs(k: nat)
    ensures
        pow2(64 * k) == pow(limb_base() as int, k),
    decreases k,
{
    reveal(pow);
    if k == 0 {
        lemma2_to64();
    } else {
        lemma_pow2_limbs((k - 1) as nat);
        lemma_pow2_adds(64 * ((k - 1) as nat), 64);
        lemma2_to64();
        assert(64 * k == 64 * ((k - 1) as nat) + 64);
        lemma_mul_is_commutative(limb_base() as int, pow(limb_base() as int, (k - 1) as nat));
    }
}

/// A top limb of at least `2^j` puts the value at or above `2^(64 (n-1) + j)`.
pub proof fn lemma_top_limb_power(s: Seq<u64>, j: nat)
    requires
        s.len() >= 1,
        j < 64,
        s.last() >= pow2(j),
    ensures
        pow2((64 * (s.len() - 1) + j) as nat) <= limbs_value(s),
{
    let k = (s.len() - 1) as int;
    lemma_limbs_split(s, k);
    assert(s.skip(k).drop_first() =~= Seq::<u64>::empty());
    assert(limbs_value(s.skip(k).drop_first()) == 0);
    assert(s.skip(k)[0] == s.last());
    assert(limbs_value(s.skip(k)) == s.last() as nat);
    lemma_pow2_limbs(k as nat);
    lemma_pow2_adds(64 * (k as nat), j);
    lemma_pow_positive(limb_base() as int, k as nat);
    assert(pow(limb_base() as int, k as nat) * pow2(j) <= pow(limb_base() as int, k as nat) * (s.last() as nat))
        by (nonlinear_arith)
        requires
            pow2(j) <= s.last() as nat,
            pow(limb_base() as int, k as nat) > 0,
    {
    }
    lemma_mul_is_commutative(pow2(64 * (k as nat)) as int, pow2(j) as int);
}

/// A top limb below `2^j` keeps the value below `2^(64 (n-1) + j)`.
pub proof fn lemma_top_limb_bound(s: Seq<u64>, j: nat)
    requires
        s.len() >= 1,
        j <= 64,
        (s.last() as nat) < pow2(j),
    ensures
        limbs_value(s) < pow2((64 * (s.len() - 1) + j) as nat),
{
    let k = (s.len() - 1) as int;
    lemma_limbs_split(s, k);
    assert(s.skip(k).drop_first() =~= Seq::<u64>::empty());
    assert(limbs_value(s.skip(k).drop_first()) == 0);
    assert(s.skip(k)[0] == s.last());
    assert(limbs_value(s.skip(k)) == s.last() as nat);
    lemma_limbs_bound(s.take(k));
    assert(s.take(k).len() == k);
    lemma_pow2_limbs(k as nat);
    lemma_pow2_adds(64 * (k as nat), j);
    let p = pow(limb_base() as int, k as nat);
    let lo = limbs_value(s.take(k)) as int;
    let hi = s.last() as int;
    assert(lo + p * hi < p * (pow2(j) as int)) by (nonlinear_arith)
        requires
            lo < p,
            hi + 1 <= pow2(j) as int,
            p > 0,
    {
    }
    lemma_mul_is_commutative(pow2(64 * (k as nat)) as int, pow2(j) as int);
}

/// Limb representations are unique: sequences of equal length that differ
/// somewhere hold different values.
pub proof fn lemma_limbs_unique(s: Seq<u64>, t: Seq<u64>, i: int)
    requires
        s.len() == t.len(),
        0 <= i < s.len(),
        s[i] != t[i],
    ensures
        limbs_value(s) != limbs_value(t),
    decreases s.len(),
{
    let hs = limbs_value(s.drop_first());
    let ht = limbs_value(t.drop_first());
    if s[0] != t[0] {
        lemma_mod_multiples_vanish(hs as int, s[0] as int, limb_base() as int);
        lemma_mod_multiples_vanish(ht as int, t[0] as int, limb_base() as int);
        lemma_small_mod(s[0] as nat, limb_base());
        lemma_small_mod(t[0] as nat, limb_base());
        lemma_mul_is_commutative(limb_base() as int, hs as int);
        lemma_mul_is_commutative(limb_base() as int, ht as int);
    } else {
        lemma_limbs_unique(s.drop_first(), t.drop_first(), i - 1);
        assert(limb_base() * hs != limb_base() * ht) by (nonlinear_arith)
            requires
                hs != ht,
                limb_base() > 0,
        {
        }
    }
}

/// Tests two equally long limb sequences for equal value.
pub fn limbs_equal(a: &[u64], b: &[u64]) -> (r: bool)
    requires
        a@.len() == b@.len(),
    ensures
        r == (limbs_value(a@) == limbs_value(b@)),
{
    let n = a.len();
    let mut i: usize = 0;
    while i < n
        invariant
            n == a@.len(),
            n == b@.len(),
            0 <= i <= n,
            forall|j: int| 0 <= j < i ==> a@[j] == b@[j],
        decreases n - i,
    {
        if a[i] != b[i] {
            proof {
                lemma_limbs_unique(a@, b@, i as int);
            }
            return false;
        }
        i += 1;
    }
    proof {
        assert(a@ =~= b@);
    }
    true
}

/// Compares two equally long limb sequences by value.
pub fn limbs_less_than(a: &[u64], b: &[u64]) -> (r: bool)
    requires
        a@.len() == b@.len(),
    ensures
        r == (limbs_value(a@) < limbs_value(b@)),
{
    let n = a.len();
    let mut i = n;
    proof {
        assert(a@.skip(n as int) =~= b@.skip(n as int));
    }
    while i > 0
        invariant
            n == a@.len(),
            n == b@.len(),
            0 <= i <= n,
            a@.skip(i as int) == b@.skip(i as int),
        decreases i,
    {
        let k = i - 1;
        let x = a[k];
        let y = b[k];
        if x != y {
            proof {
                let kk = k as int;
                lemma_limbs_split(a@, kk);
                lemma_limbs_split(b@, kk);
                lemma_limbs_suffix_step(a@, kk);
                lemma_limbs_suffix_step(b@, kk);
                lemma_limbs_bound(a@.take(kk));
                lemma_limbs_bound(b@.take(kk));
                let h = limbs_value(a@.skip(kk + 1));
                assert(limbs_value(b@.skip(kk + 1)) == h);
                let p = pow(limb_base() as int, kk as nat);
                let la = limbs_value(a@.take(kk));
                let lb = limbs_value(b@.take(kk));
                if x < y {
                    assert(la + p * (x + limb_base() * h) < lb + p * (y + limb_base() * h)) by (nonlinear_arith)
                        requires
                            la < p,
                            x < y,
                            lb >= 0,
                    {
                    }
                } else {
                    assert(lb + p * (y + limb_base() * h) < la + p * (x + limb_base() * h)) by (nonlinear_arith)
                        requires
                            lb < p,
                            y < x,
                            la >= 0,
                    {
                    }
                }
            }
            return x < y;
        }
        proof {
            let kk = k as int;
            assert(a@.skip(kk) =~= seq![x].add(a@.skip(kk + 1)));
            assert(b@.skip(kk) =~= seq![y].add(b@.skip(kk + 1)));
        }
        i = k;
    }
    proof {
        assert(a@.skip(0) =~= a@);
        assert(b@.skip(0) =~= b@);
    }
    false
}

/// Long division of a limb sequence by a nonzero 64-bit divisor:
/// quotient limbs (as many as the numerator has) and remainder.
pub fn div_with_remainder(numerator: &[u64], denom: u64) -> (qr: (Vec<u64>, u64))
    requires
        denom > 0,
    ensures
        qr.0@.len() == numerator@.len(),
        qr.1 < denom,
        limbs_value(numerator@) == limbs_value(qr.0@) * (denom as nat) + qr.1 as nat,
{
    let num_len = numerator.len();
    let mut quotient: Vec<u64> = Vec::new();
    let mut z: usize = 0;
    while z < num_len
        invariant
            z <= num_len,
            quotient@.len() == z,
            forall|t: int| 0 <= t < z ==> quotient@[t] == 0,
        decreases num_len - z,
    {
        quotient.push(0);
        z += 1;
    }
    let mut remainder: u128 = 0;
    let mut i = num_len;
    let ghost d = denom as nat;
    proof {
        assert(numerator@.skip(num_len as int) =~= Seq::<u64>::empty());
        assert(quotient@.skip(num_len as int) =~= Seq::<u64>::empty());
        assert(limbs_value(numerator@.skip(num_len as int)) == 0);
        assert(limbs_value(quotient@.skip(num_len as int)) == 0);
        assert(0 * d == 0);
    }
    while i > 0
        invariant
            num_len == numerator@.len(),
            quotient@.len() == num_len,
            0 <= i <= num_len,
            d == denom as nat,
            d > 0,
            remainder < denom,
            limbs_value(numerator@.skip(i as int)) == limbs_value(quotient@.skip(i as int)) * d + remainder as nat,
        decreases i,
    {
        let k = i - 1;
        let limb = numerator[k];
        assert((remainder as int) * 0x1_0000_0000_0000_0000 + (limb as int) < 0x1_0000_0000_0000_0000_0000_0000_0000_0000)
            by (nonlinear_arith)
            requires
                remainder < 0x1_0000_0000_0000_0000,
                limb < 0x1_0000_0000_0000_0000,
        {
        }
        let cur: u128 = remainder * 0x1_0000_0000_0000_0000 + limb as u128;
        let qd: u128 = cur / (denom as u128);
        let rd: u128 = cur % (denom as u128);
        proof {
            lemma_fundamental_div_mod(cur as int, d as int);
            lemma_mod_bound(cur as int, d as int);
            assert(qd < 0x1_0000_0000_0000_0000) by (nonlinear_arith)
                requires
                    cur as int == d * qd + rd,
                    rd >= 0,
                    cur < (remainder + 1) * 0x1_0000_0000_0000_0000,
                    remainder + 1 <= d,
                    d > 0,
            {
            }
        }
        let ghost old_q = quotient@;
        quotient.set(k, qd as u64);
        proof {
            let kk = k as int;
            lemma_limbs_suffix_step(numerator@, kk);
            lemma_limbs_suffix_step(quotient@, kk);
            assert(quotient@.skip(kk + 1) =~= old_q.skip(kk + 1));
            let hq = limbs_value(quotient@.skip(kk + 1));
            let hn = limbs_value(numerator@.skip(kk + 1));
            assert(hn == hq * d + remainder as nat);
            assert(limb as nat + limb_base() * hn == (qd as nat + limb_base() * hq) * d + rd as nat)
                by (nonlinear_arith)
                requires
                    hn == hq * d + remainder as nat,
                    cur as int == d * qd + rd,
                    cur as int == (remainder as int) * 0x1_0000_0000_0000_0000 + (limb as int),
                    limb_base() == 0x1_0000_0000_0000_0000,
            {
            }
        }
        remainder = rd;
        i = k;
    }
    proof {
        assert(numerator@.skip(0) =~= numerator@);
        assert(quotient@.skip(0) =~= quotient@);
    }
    (quotient, remainder as u64)
}

} // verus!
