//! Parameters of the polynomial commitment scheme needed for a domain.
use vstd::prelude::*;
use vstd::arithmetic::power2::*;
use crate::smooth_domain::{SmoothDomainConfig, SmoothSubgroupDomain, is_domain_size_for};
use crate::number_theory::is_divisor;

verus! {

/// The highest degree of a polynomial the prover commits to: the quotient
/// of the aggregated constraint (degree `4n - 3`) by the vanishing
/// polynomial (degree `n`), of degree `3n - 3`.
pub fn highest_degree_to_commit(domain_size: usize) -> (r: usize)
    requires
        domain_size >= 1,
        3 * domain_size <= usize::MAX,
    ensures
        r == 3 * domain_size - 3,
{
    3 * domain_size - 3
}

/// Whether parameters supporting polynomials up to `max_degree` suffice for
/// the domain.
pub fn params_fit(max_degree: usize, domain_size: usize) -> (r: bool)
    requires
        domain_size >= 1,
        3 * domain_size <= usize::MAX,
    ensures
        r == (3 * domain_size - 3 <= max_degree),
{
    highest_degree_to_commit(domain_size) <= max_degree
}

/// The log size of the smallest power-of-two domain with room for
/// `keyset_size` keys and the accumulator's initial value: the least `k`
/// with `keyset_size + 1 <= 2^k`.
pub fn log_domain_size_for_keyset(keyset_size: usize) -> (r: u32)
    requires
        keyset_size + 1 <= 0x8000_0000_0000_0000,
    ensures
        keyset_size + 1 <= pow2(r as nat),
        r == 0 || pow2((r - 1) as nat) < keyset_size + 1,
{
    let required: u64 = keyset_size as u64 + 1;
    let mut k: u32 = 0;
    let mut p: u64 = 1;
    proof {
        lemma2_to64();
    }
    while p < required
        invariant
            required == keyset_size + 1,
            required <= 0x8000_0000_0000_0000,
            p as nat == pow2(k as nat),
            k <= 63,
            k == 0 || pow2((k - 1) as nat) < required,
        decreases 64 - k,
    {
        proof {
            lemma_pow2_unfold((k + 1) as nat);
            if k == 63 {
                lemma2_to64_rest();
            }
        }
        p = p * 2;
        k += 1;
    }
    k
}

/// The degree bound for the commitment parameters of a domain of size
/// `2^log_domain_size`. The field's two-adicity must be at least
/// `log_domain_size + 2`, so that a domain of size `4n` exists.
pub fn max_degree_for_domain(log_domain_size: u32, two_adicity: u32) -> (r: usize)
    requires
        log_domain_size < 64,
        log_domain_size + 2 <= two_adicity,
        3 * pow2(log_domain_size as nat) <= usize::MAX,
    ensures
        r == 3 * pow2(log_domain_size as nat) - 3,
{
    let mut domain_size: usize = 1;
    let mut k: u32 = 0;
    proof {
        lemma2_to64();
    }
    while k < log_domain_size
        invariant
            3 * pow2(log_domain_size as nat) <= usize::MAX,
            k <= log_domain_size,
            domain_size as nat == pow2(k as nat),
        decreases log_domain_size - k,
    {
        proof {
            lemma_pow2_unfold((k + 1) as nat);
            if k + 1 < log_domain_size {
                lemma_pow2_strictly_increases((k + 1) as nat, log_domain_size as nat);
            }
        }
        domain_size = domain_size * 2;
        k += 1;
    }
    proof {
        lemma_pow2_pos(k as nat);
    }
    highest_degree_to_commit(domain_size)
}

/// The degree bound for the commitment parameters of a keyset of
/// `keyset_size` keys over a smooth-order domain: the domain holds the keys
/// and the accumulator's initial value, so its size `s` is the domain size
/// chosen for `keyset_size + 1` points, and the bound is `3s - 3`. `None`
/// when there is no such size, or `3s - 3` does not fit in a `usize`.
pub fn max_degree_for_keyset_smooth<F: SmoothDomainConfig>(keyset_size: usize) -> (r: Option<usize>)
    requires
        keyset_size < usize::MAX,
    ensures
        r is Some <==> exists|s: nat| #[trigger] is_domain_size_for::<F>(s, (keyset_size + 1) as nat)
            && 3 * s <= usize::MAX,
        r matches Some(d) ==> exists|s: nat| #[trigger] is_domain_size_for::<F>(s, (keyset_size + 1) as nat)
            && d == 3 * s - 3,
{
    match SmoothSubgroupDomain::<F>::compute_size_of_domain(keyset_size + 1) {
        Some(s) => {
            proof {
                assert forall|s2: nat| #[trigger] is_domain_size_for::<F>(s2, (keyset_size + 1) as nat)
                    implies s2 == s by {
                    assert(is_divisor(s2, F::smooth_part_spec()));
                    assert(is_divisor(s as nat, F::smooth_part_spec()));
                }
            }
            if s > usize::MAX / 3 {
                return None;
            }
            Some(highest_degree_to_commit(s))
        },
        None => None,
    }
}

} // verus!
