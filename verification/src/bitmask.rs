//! The bitmask of signers: bit `i` is set when the `i`-th key signed.
use vstd::prelude::*;
use vstd::arithmetic::power2::*;
use crate::field::{PrimeFieldElement, fmod, lemma_fmod_ops, lemma_fmod_value};

verus! {

/// Number of set bits of `s`.
pub open spec fn count_true(s: Seq<bool>) -> nat
    decreases s.len(),
{
    if s.len() == 0 {
        0
    } else {
        count_true(s.drop_last()) + if s.last() { 1nat } else { 0nat }
    }
}

/// `Σ_{k < len} bits[start + k] · 2^k`, bits past the end counting as 0.
pub open spec fn chunk_value(bits: Seq<bool>, start: int, len: nat) -> int
    decreases len,
{
    if len == 0 {
        0
    } else {
        chunk_value(bits, start, (len - 1) as nat)
            + if 0 <= start + len - 1 < bits.len() && bits[start + len - 1] { pow2((len - 1) as nat) as int } else { 0 }
    }
}

/// A sequence of bits.
#[derive(Clone, Debug)]
pub struct Bitmask {
    bits: Vec<bool>,
}

impl View for Bitmask {
    type V = Seq<bool>;

    closed spec fn view(&self) -> Seq<bool> {
        self.bits@
    }
}

impl Bitmask {
    pub fn from_bits(bits: &[bool]) -> (r: Bitmask)
        ensures
            r@ == bits@,
    {
        let mut v: Vec<bool> = Vec::new();
        let mut i: usize = 0;
        while i < bits.len()
            invariant
                0 <= i <= bits@.len(),
                v@ == bits@.take(i as int),
            decreases bits@.len() - i,
        {
            v.push(bits[i]);
            i += 1;
            proof {
                assert(v@ =~= bits@.take(i as int));
            }
        }
        proof {
            assert(bits@.take(bits@.len() as int) =~= bits@);
        }
        Bitmask { bits: v }
    }

    pub fn to_bits(&self) -> (r: Vec<bool>)
        ensures
            r@ == self@,
    {
        let mut v: Vec<bool> = Vec::new();
        let mut i: usize = 0;
        while i < self.bits.len()
            invariant
                0 <= i <= self.bits@.len(),
                v@ == self.bits@.take(i as int),
            decreases self.bits@.len() - i,
        {
            v.push(self.bits[i]);
            i += 1;
            proof {
                assert(v@ =~= self.bits@.take(i as int));
            }
        }
        proof {
            assert(self.bits@.take(self.bits@.len() as int) =~= self.bits@);
        }
        v
    }

    /// The number of bits.
    pub fn size(&self) -> (r: usize)
        ensures
            r == self@.len(),
    {
        self.bits.len()
    }

    /// The number of set bits.
    pub fn count_ones(&self) -> (r: usize)
        ensures
            r == count_true(self@),
    {
        let mut count: usize = 0;
        let mut i: usize = 0;
        while i < self.bits.len()
            invariant
                0 <= i <= self.bits@.len(),
                count == count_true(self.bits@.take(i as int)),
                count <= i,
            decreases self.bits@.len() - i,
        {
            proof {
                assert(self.bits@.take(i + 1).drop_last() =~= self.bits@.take(i as int));
            }
            if self.bits[i] {
                count += 1;
            }
            i += 1;
        }
        proof {
            assert(self.bits@.take(self.bits@.len() as int) =~= self.bits@);
        }
        count
    }

    /// Each bit as the field element 0 or 1.
    pub fn to_bits_as_field_elements<F: PrimeFieldElement>(&self) -> (r: Vec<F>)
        ensures
            r@.len() == self@.len(),
            forall|i: int| 0 <= i < self@.len() ==> #[trigger] r@[i].value() == (if self@[i] { 1nat } else { 0nat }),
    {
        let mut r: Vec<F> = Vec::new();
        let mut i: usize = 0;
        while i < self.bits.len()
            invariant
                0 <= i <= self.bits@.len(),
                r@.len() == i,
                forall|t: int| 0 <= t < i ==> #[trigger] r@[t].value() == (if self.bits@[t] { 1nat } else { 0nat }),
            decreases self.bits@.len() - i,
        {
            if self.bits[i] {
                r.push(F::one());
            } else {
                r.push(F::zero());
            }
            i += 1;
        }
        r
    }

    /// The bits split into chunks of `chunk_size` (the last one possibly
    /// shorter), each packed little-endian into a field element.
    pub fn to_chunks_by_bits<F: PrimeFieldElement>(&self, chunk_size: usize) -> (r: Vec<F>)
        requires
            chunk_size >= 1,
        ensures
            r@.len() == (self@.len() + chunk_size - 1) / (chunk_size as int),
            forall|j: int| 0 <= j < r@.len() ==> #[trigger] r@[j].value()
                == fmod::<F>(chunk_value(self@, j * chunk_size, chunk_size as nat)),
    {
        let n = self.bits.len();
        proof {
            vstd::arithmetic::div_mod::lemma_fundamental_div_mod(n as int, chunk_size as int);
            vstd::arithmetic::div_mod::lemma_mod_bound(n as int, chunk_size as int);
            if n % chunk_size != 0 {
                let q = n / chunk_size;
                assert(2 * q <= n) by (nonlinear_arith)
                    requires chunk_size * q + n % chunk_size == n, chunk_size >= 2, q >= 0;
            }
        }
        let num_chunks = n / chunk_size + if n % chunk_size == 0 { 0 } else { 1 };
        proof {
            vstd::arithmetic::div_mod::lemma_fundamental_div_mod(n as int, chunk_size as int);
            vstd::arithmetic::div_mod::lemma_fundamental_div_mod((n + chunk_size - 1) as int, chunk_size as int);
            vstd::arithmetic::div_mod::lemma_mod_bound(n as int, chunk_size as int);
            vstd::arithmetic::div_mod::lemma_mod_bound((n + chunk_size - 1) as int, chunk_size as int);
            lemma_ceil_div(n as int, chunk_size as int);
        }
        let mut r: Vec<F> = Vec::new();
        let mut j: usize = 0;
        let two = F::from_u64(2);
        while j < num_chunks
            invariant
                n == self.bits@.len(),
                chunk_size >= 1,
                num_chunks == (n + chunk_size - 1) / (chunk_size as int),
                two.value() == 2,
                0 <= j <= num_chunks,
                r@.len() == j,
                forall|t: int| 0 <= t < j ==> #[trigger] r@[t].value()
                    == fmod::<F>(chunk_value(self.bits@, t * chunk_size, chunk_size as nat)),
            decreases num_chunks - j,
        {
            let ghost start = j * chunk_size;
            let mut acc = F::zero();
            let mut pw = F::one();
            let mut k: usize = 0;
            proof {
                lemma_fmod_value(acc);
                lemma_fmod_value(pw);
                lemma2_to64();
            }
            while k < chunk_size
                invariant
                    n == self.bits@.len(),
                    two.value() == 2,
                    start == j * chunk_size,
                    0 <= k <= chunk_size,
                    F::modulus() > 2,
                    acc.value() == fmod::<F>(chunk_value(self.bits@, start, k as nat)),
                    pw.value() == fmod::<F>(pow2(k as nat) as int),
                decreases chunk_size - k,
            {
                let ghost idx = start + k;
                proof {
                    lemma_fmod_ops::<F>(chunk_value(self.bits@, start, k as nat), pow2(k as nat) as int);
                    lemma_fmod_ops::<F>(pow2(k as nat) as int, 2);
                    lemma_small_two::<F>();
                    lemma_pow2_unfold((k + 1) as nat);
                }
                if j < n / chunk_size || self.in_range(j, chunk_size, k) {
                    proof {
                        in_range_lemma(n as int, chunk_size as int, j as int, k as int);
                    }
                    if self.bits[j * chunk_size + k] {
                        acc = acc.add(&pw);
                    }
                }
                pw = pw.mul(&two);
                k += 1;
            }
            r.push(acc);
            j += 1;
        }
        r
    }

    /// Whether bit `j·chunk_size + k` exists.
    fn in_range(&self, j: usize, chunk_size: usize, k: usize) -> (r: bool)
        ensures
            r == (j * chunk_size + k < self@.len()),
    {
        let n = self.bits.len();
        if chunk_size == 0 {
            return k < n;
        }
        if j > n / chunk_size {
            proof {
                vstd::arithmetic::div_mod::lemma_fundamental_div_mod(n as int, chunk_size as int);
                vstd::arithmetic::div_mod::lemma_mod_bound(n as int, chunk_size as int);
                assert(j * chunk_size >= (n / chunk_size + 1) * chunk_size) by (nonlinear_arith)
                    requires j >= n / chunk_size + 1, chunk_size >= 1;
                assert((n / chunk_size + 1) * chunk_size == (n / chunk_size) * chunk_size + chunk_size) by (nonlinear_arith);
                assert(chunk_size * (n / chunk_size) == (n / chunk_size) * chunk_size) by (nonlinear_arith);
            }
            return false;
        }
        proof {
            assert(j * chunk_size <= (n / chunk_size) * chunk_size) by (nonlinear_arith)
                requires j <= n / chunk_size, chunk_size >= 1;
            vstd::arithmetic::div_mod::lemma_fundamental_div_mod(n as int, chunk_size as int);
            assert(chunk_size * (n / chunk_size) == (n / chunk_size) * chunk_size) by (nonlinear_arith);
        }
        let base = j * chunk_size;
        base < n && k < n - base
    }
}

proof fn lemma_ceil_div(n: int, c: int)
    requires
        n >= 0,
        c >= 1,
    ensures
        n / c + (if n % c == 0 { 0int } else { 1int }) == (n + c - 1) / c,
{
    vstd::arithmetic::div_mod::lemma_fundamental_div_mod(n, c);
    vstd::arithmetic::div_mod::lemma_mod_bound(n, c);
    let q = n / c;
    let r = n % c;
    if r == 0 {
        vstd::arithmetic::div_mod::lemma_div_multiples_vanish_fancy(q, c - 1, c);
        assert(n + c - 1 == c * q + (c - 1));
    } else {
        vstd::arithmetic::div_mod::lemma_div_multiples_vanish_fancy(q + 1, r - 1, c);
        assert(n + c - 1 == c * (q + 1) + (r - 1)) by (nonlinear_arith)
            requires n == c * q + r;
    }
}

proof fn in_range_lemma(n: int, c: int, j: int, k: int)
    requires
        c >= 1,
        0 <= k < c,
        0 <= j,
        j < n / c || j * c + k < n,
    ensures
        j * c + k < n,
{
    if j < n / c {
        vstd::arithmetic::div_mod::lemma_fundamental_div_mod(n, c);
        vstd::arithmetic::div_mod::lemma_mod_bound(n, c);
        assert(j * c + k < (n / c) * c) by (nonlinear_arith)
            requires j + 1 <= n / c, k < c, c >= 1;
        assert(c * (n / c) == (n / c) * c) by (nonlinear_arith);
    }
}

proof fn lemma_small_two<F: PrimeFieldElement>()
    ensures
        fmod::<F>(2) == 2,
        F::modulus() > 2,
{
    F::lemma_field_basics(arbitrary());
    vstd::arithmetic::div_mod::lemma_small_mod(2, F::modulus());
}

} // verus!
