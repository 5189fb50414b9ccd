//! Prime-field elements held as canonical little-endian limbs. The
//! arithmetic itself is carried out by `ark-ff`; each operation states
//! its result as arithmetic modulo the field's prime.
use vstd::prelude::*;
use vstd::arithmetic::div_mod::*;
use vstd::arithmetic::power::*;
use vstd::arithmetic::power2::*;
use ark_ff::{BigInt, Field, PrimeField};
use crate::limbs::{limbs_value, limbs_less_than, limbs_equal, lemma_limbs_unique, lemma_top_limb_power, lemma_top_limb_bound};
use crate::number_theory::{is_prime_spec, gcd, lemma_gcd_divides, lemma_divisor_of_prime, lemma_bezout, lemma_euclid};

verus! {

/// Elements of a prime field `Z/pZ`, each viewed as its canonical value `< p`.
pub trait PrimeFieldElement: Sized + Copy {
    /// The field's prime modulus.
    spec fn modulus() -> nat;

    /// The canonical value of the element, in `[0, modulus())`.
    spec fn value(&self) -> nat;

    proof fn lemma_field_basics(x: Self)
        ensures
            Self::modulus() > 0x1_0000_0000_0000_0000,
            Self::capacity() >= 64,
            x.value() < Self::modulus();

    fn zero() -> (r: Self)
        ensures
            r.value() == 0;

    fn one() -> (r: Self)
        ensures
            r.value() == 1;

    fn from_u64(x: u64) -> (r: Self)
        ensures
            r.value() == x as nat;

    fn add(&self, other: &Self) -> (r: Self)
        ensures
            r.value() == (self.value() + other.value()) % Self::modulus();

    fn sub(&self, other: &Self) -> (r: Self)
        ensures
            r.value() == (self.value() - other.value()) % (Self::modulus() as int);

    fn mul(&self, other: &Self) -> (r: Self)
        ensures
            r.value() == (self.value() * other.value()) % Self::modulus();

    fn neg(&self) -> (r: Self)
        ensures
            r.value() == (0 - self.value()) % (Self::modulus() as int);

    /// The multiplicative inverse; `None` exactly for zero.
    fn inverse(&self) -> (r: Option<Self>)
        ensures
            r.is_some() == (self.value() != 0),
            r matches Some(v) ==> (v.value() * self.value()) % Self::modulus() == 1;

    /// `self` raised to the power held by the little-endian limbs `exp`.
    fn pow_limbs(&self, exp: &[u64]) -> (r: Self)
        ensures
            r.value() == pow(self.value() as int, limbs_value(exp@)) % (Self::modulus() as int);

    fn equals(&self, other: &Self) -> (r: bool)
        ensures
            r == (self.value() == other.value());

    /// The limbs of `modulus() - 1`.
    fn modulus_minus_one() -> (r: Vec<u64>)
        ensures
            limbs_value(r@) == Self::modulus() - 1;

    /// The number of bits of an integer that always fits below the modulus
    /// (one less than the modulus' bit length).
    fn capacity_bits() -> (r: usize)
        ensures
            r == Self::capacity(),
            pow2(r as nat) <= Self::modulus(),
            Self::modulus() < pow2(r as nat + 1);

    /// The value of `capacity_bits()`.
    spec fn capacity() -> nat;
}

/// `x` reduced modulo the prime of `F`.
pub open spec fn fmod<F: PrimeFieldElement>(x: int) -> int {
    x % (F::modulus() as int)
}

/// Reduction commutes with addition, subtraction and multiplication.
pub proof fn lemma_fmod_ops<F: PrimeFieldElement>(a: int, b: int)
    requires
        F::modulus() > 0,
    ensures
        fmod::<F>(fmod::<F>(a) + fmod::<F>(b)) == fmod::<F>(a + b),
        fmod::<F>(fmod::<F>(a) - fmod::<F>(b)) == fmod::<F>(a - b),
        fmod::<F>(fmod::<F>(a) * fmod::<F>(b)) == fmod::<F>(a * b),
{
    let m = F::modulus() as int;
    lemma_add_mod_noop(a, b, m);
    lemma_sub_mod_noop(a, b, m);
    lemma_mul_mod_noop(a, b, m);
}

/// The value of an element is its own reduction.
pub proof fn lemma_fmod_value<F: PrimeFieldElement>(x: F)
    ensures
        fmod::<F>(x.value() as int) == x.value() as int,
        F::modulus() > 0x1_0000_0000_0000_0000,
{
    F::lemma_field_basics(x);
    lemma_small_mod(x.value(), F::modulus());
}

/// The inverse of `x` modulo the prime of `F`: a value below the modulus
/// whose product with `x` is 1 (it is unique when it exists).
pub open spec fn finv<F: PrimeFieldElement>(x: int) -> int {
    choose|y: int| 0 <= y < F::modulus() && #[trigger] fmod::<F>(x * y) == 1
}

/// An inverse is the inverse: two inverses of the same element agree.
pub proof fn lemma_inverse_is_finv<F: PrimeFieldElement>(x: int, v: int)
    requires
        0 <= v < F::modulus(),
        fmod::<F>(x * v) == 1,
    ensures
        finv::<F>(x) == v,
{
    let m = F::modulus() as int;
    F::lemma_field_basics(arbitrary());
    let y = finv::<F>(x);
    assert(0 <= y < m && fmod::<F>(x * y) == 1);
    // v ≡ v·(x·y) = (v·x)·y ≡ y
    lemma_mul_mod_noop_right(v, x * y, m);
    vstd::arithmetic::mul::lemma_mul_is_associative(v, x, y);
    vstd::arithmetic::mul::lemma_mul_is_commutative(v, x);
    lemma_mul_mod_noop_left(x * v, y, m);
    lemma_small_mod(v as nat, m as nat);
    lemma_small_mod(y as nat, m as nat);
    vstd::arithmetic::mul::lemma_mul_basics(v);
    vstd::arithmetic::mul::lemma_mul_basics(y);
}

/// Congruent arguments give congruent sums, differences and products.
pub proof fn lemma_fmod_congruent<F: PrimeFieldElement>(a: int, a2: int, b: int, b2: int)
    requires
        fmod::<F>(a) == fmod::<F>(a2),
        fmod::<F>(b) == fmod::<F>(b2),
    ensures
        fmod::<F>(a + b) == fmod::<F>(a2 + b2),
        fmod::<F>(a - b) == fmod::<F>(a2 - b2),
        fmod::<F>(a * b) == fmod::<F>(a2 * b2),
{
    F::lemma_field_basics(arbitrary());
    lemma_fmod_ops::<F>(a, b);
    lemma_fmod_ops::<F>(a2, b2);
}

/// Reduction is idempotent.
pub proof fn lemma_fmod_twice<F: PrimeFieldElement>(a: int)
    ensures
        fmod::<F>(fmod::<F>(a)) == fmod::<F>(a),
        0 <= fmod::<F>(a) < F::modulus(),
{
    F::lemma_field_basics(arbitrary());
    lemma_mod_twice(a, F::modulus() as int);
    lemma_mod_bound(a, F::modulus() as int);
}

/// Two canonical values that are congruent are equal.
pub proof fn lemma_fmod_canonical_eq<F: PrimeFieldElement>(a: int, b: int)
    requires
        0 <= a < F::modulus(),
        0 <= b < F::modulus(),
        fmod::<F>(a) == fmod::<F>(b),
    ensures
        a == b,
{
    F::lemma_field_basics(arbitrary());
    lemma_small_mod(a as nat, F::modulus());
    lemma_small_mod(b as nat, F::modulus());
}

/// Congruence is a zero difference.
pub proof fn lemma_fmod_sub_zero<F: PrimeFieldElement>(a: int, b: int)
    ensures
        (fmod::<F>(a) == fmod::<F>(b)) <==> (fmod::<F>(a - b) == 0),
{
    let m = F::modulus() as int;
    F::lemma_field_basics(arbitrary());
    lemma_sub_mod_noop(a, b, m);
    lemma_mod_bound(a, m);
    lemma_mod_bound(b, m);
    let d = a % m - b % m;
    if (a - b) % m == 0 {
        lemma_fundamental_div_mod(d, m);
        assert(d == 0) by (nonlinear_arith)
            requires d == m * (d / m) + d % m, d % m == 0, -m < d < m, m > 0;
    } else {
        lemma_small_mod(0, m as nat);
    }
}

/// In a prime field a factor of a zero product with a nonzero other factor
/// is zero.
pub proof fn lemma_fmod_cancel<F: PrimeFieldElement>(d: int, t: int)
    requires
        is_prime_spec(F::modulus()),
        fmod::<F>(d) != 0,
        fmod::<F>(d * t) == 0,
    ensures
        fmod::<F>(t) == 0,
{
    lemma_euclid(F::modulus(), d, t);
}

/// In a prime field every nonzero element has an inverse, and `finv` is it.
pub proof fn lemma_finv_is_inverse<F: PrimeFieldElement>(x: int)
    requires
        is_prime_spec(F::modulus()),
        fmod::<F>(x) != 0,
    ensures
        0 <= finv::<F>(x) < F::modulus(),
        fmod::<F>(x * finv::<F>(x)) == 1,
{
    let m = F::modulus() as int;
    F::lemma_field_basics(arbitrary());
    let r = x % m;
    lemma_mod_bound(x, m);
    lemma_gcd_divides(r as nat, m as nat);
    let d = gcd(r as nat, m as nat);
    lemma_divisor_of_prime(m as nat, d);
    if d == m as nat {
        lemma_small_mod(r as nat, m as nat);
    }
    let (u, v) = lemma_bezout(r as nat, m as nat);
    // u·r + v·m = 1, so x·u ≡ 1
    let y = u % m;
    lemma_mod_bound(u, m);
    lemma_mod_twice(x, m);
    assert(fmod::<F>(r * u) == 1) by {
        assert(r * u == m * (-v) + 1) by (nonlinear_arith) requires u * r + v * m == 1;
        lemma_mod_multiples_vanish(-v, 1, m);
        lemma_small_mod(1, m as nat);
    }
    lemma_mod_twice(u, m);
    lemma_fmod_congruent::<F>(x, r, y, u);
    assert(fmod::<F>(x * y) == 1);
    assert(0 <= y < m && fmod::<F>(x * y) == 1);
}

/// `self^e` for a 64-bit exponent.
pub fn pow_u64<F: PrimeFieldElement>(x: &F, e: u64) -> (r: F)
    ensures
        r.value() == pow(x.value() as int, e as nat) % (F::modulus() as int),
{
    let exp = [e];
    proof {
        assert(exp@.drop_first() =~= Seq::<u64>::empty());
        assert(limbs_value(exp@.drop_first()) == 0);
        assert(exp@[0] == e);
        assert(limbs_value(exp@) == e as nat);
    }
    x.pow_limbs(&exp)
}

pub fn is_zero<F: PrimeFieldElement>(x: &F) -> (r: bool)
    ensures
        r == (x.value() == 0),
{
    x.equals(&F::zero())
}

pub fn is_one<F: PrimeFieldElement>(x: &F) -> (r: bool)
    ensures
        r == (x.value() == 1),
{
    x.equals(&F::one())
}

/// The prime modulus of the BW6-767 scalar field (the BLS12-381 base field).
pub open spec fn bw6_767_fr_modulus() -> nat {
    4002409555221667393417789825735904156556882819939007885332058136124031650490837864442687629129015664037894272559787nat
}

/// An element of the BW6-767 scalar field (the BLS12-381 base field).
#[derive(Clone, Copy, PartialEq, Eq, Debug)]
pub struct Fr767 {
    limbs: [u64; 6],
}

impl Fr767 {
    #[verifier::type_invariant]
    spec fn canonical(self) -> bool {
        limbs_value(self.limbs@) < bw6_767_fr_modulus()
    }

    /// The element with the given canonical limbs; `None` unless they hold a value below the modulus.
    pub fn from_canonical_limbs(limbs: [u64; 6]) -> (r: Option<Fr767>)
        ensures
            r.is_some() == (limbs_value(limbs@) < bw6_767_fr_modulus()),
            r matches Some(v) ==> v.value() == limbs_value(limbs@),
    {
        let m: [u64; 6] = [0xb9feffffffffaaab, 0x1eabfffeb153ffff, 0x6730d2a0f6b0f624, 0x64774b84f38512bf, 0x4b1ba7b6434bacd7, 0x1a0111ea397fe69a];
        proof {
            assert(limbs_value(m@) == bw6_767_fr_modulus()) by {
                reveal_with_fuel(limbs_value, 13);
            }
        }
        if limbs_less_than(&limbs, &m) {
            proof {
                lemma_small_mod(limbs_value(limbs@), bw6_767_fr_modulus());
            }
            Some(Fr767 { limbs })
        } else {
            None
        }
    }

    /// The canonical limbs of the element.
    pub fn to_limbs(&self) -> (r: [u64; 6])
        ensures
            limbs_value(r@) == self.value(),
    {
        proof {
            use_type_invariant(self);
            lemma_small_mod(limbs_value(self.limbs@), bw6_767_fr_modulus());
        }
        self.limbs
    }
}

/// Sum in the BW6-767 scalar field (the BLS12-381 base field), computed by `ark-ff` field addition.
#[verifier::external_body]
fn fr767_add(a: &[u64; 6], b: &[u64; 6]) -> (r: [u64; 6])
    requires
        limbs_value(a@) < bw6_767_fr_modulus(),
        limbs_value(b@) < bw6_767_fr_modulus(),
    ensures
        limbs_value(r@) == (limbs_value(a@) + limbs_value(b@)) % bw6_767_fr_modulus(),
{
    let x = ark_bw6_767::Fr::from_bigint(BigInt::new(*a)).unwrap();
    let y = ark_bw6_767::Fr::from_bigint(BigInt::new(*b)).unwrap();
    (x + y).into_bigint().0
}

/// Difference in the BW6-767 scalar field (the BLS12-381 base field), computed by `ark-ff` field subtraction.
#[verifier::external_body]
fn fr767_sub(a: &[u64; 6], b: &[u64; 6]) -> (r: [u64; 6])
    requires
        limbs_value(a@) < bw6_767_fr_modulus(),
        limbs_value(b@) < bw6_767_fr_modulus(),
    ensures
        limbs_value(r@) == (limbs_value(a@) - limbs_value(b@)) % (bw6_767_fr_modulus() as int),
{
    let x = ark_bw6_767::Fr::from_bigint(BigInt::new(*a)).unwrap();
    let y = ark_bw6_767::Fr::from_bigint(BigInt::new(*b)).unwrap();
    (x - y).into_bigint().0
}

/// Product in the BW6-767 scalar field (the BLS12-381 base field), computed by `ark-ff` field multiplication.
#[verifier::external_body]
fn fr767_mul(a: &[u64; 6], b: &[u64; 6]) -> (r: [u64; 6])
    requires
        limbs_value(a@) < bw6_767_fr_modulus(),
        limbs_value(b@) < bw6_767_fr_modulus(),
    ensures
        limbs_value(r@) == (limbs_value(a@) * limbs_value(b@)) % bw6_767_fr_modulus(),
{
    let x = ark_bw6_767::Fr::from_bigint(BigInt::new(*a)).unwrap();
    let y = ark_bw6_767::Fr::from_bigint(BigInt::new(*b)).unwrap();
    (x * y).into_bigint().0
}

/// Inverse in the BW6-767 scalar field (the BLS12-381 base field) by `ark-ff`'s `Field::inverse`, which is `None` for zero only.
#[verifier::external_body]
fn fr767_inverse(a: &[u64; 6]) -> (r: Option<[u64; 6]>)
    requires
        limbs_value(a@) < bw6_767_fr_modulus(),
    ensures
        r.is_some() == (limbs_value(a@) != 0),
        r matches Some(v) ==> limbs_value(v@) < bw6_767_fr_modulus()
            && (limbs_value(v@) * limbs_value(a@)) % bw6_767_fr_modulus() == 1,
{
    let x = ark_bw6_767::Fr::from_bigint(BigInt::new(*a)).unwrap();
    match x.inverse() {
        Some(v) => Some(v.into_bigint().0),
        None => None,
    }
}

/// Power in the BW6-767 scalar field (the BLS12-381 base field) by `ark-ff`'s `Field::pow` with little-endian exponent limbs.
#[verifier::external_body]
fn fr767_pow(a: &[u64; 6], exp: &[u64]) -> (r: [u64; 6])
    requires
        limbs_value(a@) < bw6_767_fr_modulus(),
    ensures
        limbs_value(r@) == pow(limbs_value(a@) as int, limbs_value(exp@)) % (bw6_767_fr_modulus() as int),
{
    let x = ark_bw6_767::Fr::from_bigint(BigInt::new(*a)).unwrap();
    x.pow(exp).into_bigint().0
}

impl PrimeFieldElement for Fr767 {
    open spec fn modulus() -> nat {
        bw6_767_fr_modulus()
    }

    closed spec fn value(&self) -> nat {
        limbs_value(self.limbs@) % bw6_767_fr_modulus()
    }

    proof fn lemma_field_basics(x: Self) {
        lemma_mod_bound(limbs_value(x.limbs@) as int, bw6_767_fr_modulus() as int);
    }

    fn zero() -> (r: Self) {
        let limbs: [u64; 6] = [0u64, 0u64, 0u64, 0u64, 0u64, 0u64];
        proof {
            assert(limbs_value(limbs@) == 0) by {
                reveal_with_fuel(limbs_value, 13);
            }
            lemma_small_mod(0, bw6_767_fr_modulus());
        }
        Fr767 { limbs }
    }

    fn one() -> (r: Self) {
        let limbs: [u64; 6] = [1u64, 0, 0, 0, 0, 0];
        proof {
            assert(limbs_value(limbs@) == 1) by {
                reveal_with_fuel(limbs_value, 13);
            }
            lemma_small_mod(1, bw6_767_fr_modulus());
        }
        Fr767 { limbs }
    }

    fn from_u64(x: u64) -> (r: Self) {
        let limbs: [u64; 6] = [x, 0, 0, 0, 0, 0];
        proof {
            assert(limbs@.drop_first() =~= seq![0u64, 0u64, 0u64, 0u64, 0u64]);
            assert(limbs_value(seq![0u64, 0u64, 0u64, 0u64, 0u64]) == 0) by {
                reveal_with_fuel(limbs_value, 13);
            }
            assert(limbs_value(limbs@) == x as nat);
            lemma_small_mod(x as nat, bw6_767_fr_modulus());
        }
        Fr767 { limbs }
    }

    fn add(&self, other: &Self) -> (r: Self) {
        proof {
            use_type_invariant(self);
            use_type_invariant(other);
            lemma_small_mod(limbs_value(self.limbs@), bw6_767_fr_modulus());
            lemma_small_mod(limbs_value(other.limbs@), bw6_767_fr_modulus());
        }
        let limbs = fr767_add(&self.limbs, &other.limbs);
        proof {
            lemma_mod_bound((limbs_value(self.limbs@) + limbs_value(other.limbs@)) as int, bw6_767_fr_modulus() as int);
            lemma_small_mod(limbs_value(limbs@), bw6_767_fr_modulus());
        }
        Fr767 { limbs }
    }

    fn sub(&self, other: &Self) -> (r: Self) {
        proof {
            use_type_invariant(self);
            use_type_invariant(other);
            lemma_small_mod(limbs_value(self.limbs@), bw6_767_fr_modulus());
            lemma_small_mod(limbs_value(other.limbs@), bw6_767_fr_modulus());
        }
        let limbs = fr767_sub(&self.limbs, &other.limbs);
        proof {
            lemma_mod_bound(limbs_value(self.limbs@) - limbs_value(other.limbs@), bw6_767_fr_modulus() as int);
            lemma_small_mod(limbs_value(limbs@), bw6_767_fr_modulus());
        }
        Fr767 { limbs }
    }

    fn mul(&self, other: &Self) -> (r: Self) {
        proof {
            use_type_invariant(self);
            use_type_invariant(other);
            lemma_small_mod(limbs_value(self.limbs@), bw6_767_fr_modulus());
            lemma_small_mod(limbs_value(other.limbs@), bw6_767_fr_modulus());
        }
        let limbs = fr767_mul(&self.limbs, &other.limbs);
        proof {
            lemma_mod_bound((limbs_value(self.limbs@) * limbs_value(other.limbs@)) as int, bw6_767_fr_modulus() as int);
            lemma_small_mod(limbs_value(limbs@), bw6_767_fr_modulus());
        }
        Fr767 { limbs }
    }

    fn neg(&self) -> (r: Self) {
        let z = Self::zero();
        let r = z.sub(self);
        proof {
            lemma_small_mod(0, bw6_767_fr_modulus());
        }
        r
    }

    fn inverse(&self) -> (r: Option<Self>) {
        proof {
            use_type_invariant(self);
            lemma_small_mod(limbs_value(self.limbs@), bw6_767_fr_modulus());
        }
        match fr767_inverse(&self.limbs) {
            Some(limbs) => {
                proof {
                    lemma_small_mod(limbs_value(limbs@), bw6_767_fr_modulus());
                }
                Some(Fr767 { limbs })
            },
            None => None,
        }
    }

    fn pow_limbs(&self, exp: &[u64]) -> (r: Self) {
        proof {
            use_type_invariant(self);
            lemma_small_mod(limbs_value(self.limbs@), bw6_767_fr_modulus());
        }
        let limbs = fr767_pow(&self.limbs, exp);
        proof {
            lemma_mod_bound(pow(limbs_value(self.limbs@) as int, limbs_value(exp@)), bw6_767_fr_modulus() as int);
            lemma_small_mod(limbs_value(limbs@), bw6_767_fr_modulus());
        }
        Fr767 { limbs }
    }

    fn equals(&self, other: &Self) -> (r: bool) {
        proof {
            use_type_invariant(self);
            use_type_invariant(other);
            lemma_small_mod(limbs_value(self.limbs@), bw6_767_fr_modulus());
            lemma_small_mod(limbs_value(other.limbs@), bw6_767_fr_modulus());
        }
        limbs_equal(&self.limbs, &other.limbs)
    }

    fn modulus_minus_one() -> (r: Vec<u64>) {
        let r: Vec<u64> = vec![0xb9feffffffffaaaa, 0x1eabfffeb153ffff, 0x6730d2a0f6b0f624, 0x64774b84f38512bf, 0x4b1ba7b6434bacd7, 0x1a0111ea397fe69a];
        proof {
            assert(limbs_value(seq![0xb9feffffffffaaaa, 0x1eabfffeb153ffff, 0x6730d2a0f6b0f624, 0x64774b84f38512bf, 0x4b1ba7b6434bacd7, 0x1a0111ea397fe69a]) == bw6_767_fr_modulus() - 1) by {
                reveal_with_fuel(limbs_value, 13);
            }
            assert(r@ =~= seq![0xb9feffffffffaaaa, 0x1eabfffeb153ffff, 0x6730d2a0f6b0f624, 0x64774b84f38512bf, 0x4b1ba7b6434bacd7, 0x1a0111ea397fe69a]);
        }
        r
    }

    fn capacity_bits() -> (r: usize) {
        proof {
            let m: Seq<u64> = seq![0xb9feffffffffaaab, 0x1eabfffeb153ffff, 0x6730d2a0f6b0f624, 0x64774b84f38512bf, 0x4b1ba7b6434bacd7, 0x1a0111ea397fe69a];
            assert(limbs_value(m) == bw6_767_fr_modulus()) by {
                reveal_with_fuel(limbs_value, 13);
            }
            lemma2_to64();
            lemma2_to64_rest();
            assert(m.last() == m[m.len() - 1]);
            lemma_top_limb_power(m, 60);
            lemma_top_limb_bound(m, 61);
        }
        380
    }

    open spec fn capacity() -> nat {
        380
    }
}

/// The prime modulus of the BW6-761 scalar field (the BLS12-377 base field).
pub open spec fn bw6_761_fr_modulus() -> nat {
    258664426012969094010652733694893533536393512754914660539884262666720468348340822774968888139573360124440321458177nat
}

/// An element of the BW6-761 scalar field (the BLS12-377 base field).
#[derive(Clone, Copy, PartialEq, Eq, Debug)]
pub struct Fr761 {
    limbs: [u64; 6],
}

impl Fr761 {
    #[verifier::type_invariant]
    spec fn canonical(self) -> bool {
        limbs_value(self.limbs@) < bw6_761_fr_modulus()
    }

    /// The element with the given canonical limbs; `None` unless they hold a value below the modulus.
    pub fn from_canonical_limbs(limbs: [u64; 6]) -> (r: Option<Fr761>)
        ensures
            r.is_some() == (limbs_value(limbs@) < bw6_761_fr_modulus()),
            r matches Some(v) ==> v.value() == limbs_value(limbs@),
    {
        let m: [u64; 6] = [0x8508c00000000001, 0x170b5d4430000000, 0x1ef3622fba094800, 0x1a22d9f300f5138f, 0xc63b05c06ca1493b, 0x1ae3a4617c510ea];
        proof {
            assert(limbs_value(m@) == bw6_761_fr_modulus()) by {
                reveal_with_fuel(limbs_value, 13);
            }
        }
        if limbs_less_than(&limbs, &m) {
            proof {
                lemma_small_mod(limbs_value(limbs@), bw6_761_fr_modulus());
            }
            Some(Fr761 { limbs })
        } else {
            None
        }
    }

    /// The canonical limbs of the element.
    pub fn to_limbs(&self) -> (r: [u64; 6])
        ensures
            limbs_value(r@) == self.value(),
    {
        proof {
            use_type_invariant(self);
            lemma_small_mod(limbs_value(self.limbs@), bw6_761_fr_modulus());
        }
        self.limbs
    }
}

/// Sum in the BW6-761 scalar field (the BLS12-377 base field), computed by `ark-ff` field addition.
#[verifier::external_body]
fn fr761_add(a: &[u64; 6], b: &[u64; 6]) -> (r: [u64; 6])
    requires
        limbs_value(a@) < bw6_761_fr_modulus(),
        limbs_value(b@) < bw6_761_fr_modulus(),
    ensures
        limbs_value(r@) == (limbs_value(a@) + limbs_value(b@)) % bw6_761_fr_modulus(),
{
    let x = ark_bw6_761::Fr::from_bigint(BigInt::new(*a)).unwrap();
    let y = ark_bw6_761::Fr::from_bigint(BigInt::new(*b)).unwrap();
    (x + y).into_bigint().0
}

/// Difference in the BW6-761 scalar field (the BLS12-377 base field), computed by `ark-ff` field subtraction.
#[verifier::external_body]
fn fr761_sub(a: &[u64; 6], b: &[u64; 6]) -> (r: [u64; 6])
    requires
        limbs_value(a@) < bw6_761_fr_modulus(),
        limbs_value(b@) < bw6_761_fr_modulus(),
    ensures
        limbs_value(r@) == (limbs_value(a@) - limbs_value(b@)) % (bw6_761_fr_modulus() as int),
{
    let x = ark_bw6_761::Fr::from_bigint(BigInt::new(*a)).unwrap();
    let y = ark_bw6_761::Fr::from_bigint(BigInt::new(*b)).unwrap();
    (x - y).into_bigint().0
}

/// Product in the BW6-761 scalar field (the BLS12-377 base field), computed by `ark-ff` field multiplication.
#[verifier::external_body]
fn fr761_mul(a: &[u64; 6], b: &[u64; 6]) -> (r: [u64; 6])
    requires
        limbs_value(a@) < bw6_761_fr_modulus(),
        limbs_value(b@) < bw6_761_fr_modulus(),
    ensures
        limbs_value(r@) == (limbs_value(a@) * limbs_value(b@)) % bw6_761_fr_modulus(),
{
    let x = ark_bw6_761::Fr::from_bigint(BigInt::new(*a)).unwrap();
    let y = ark_bw6_761::Fr::from_bigint(BigInt::new(*b)).unwrap();
    (x * y).into_bigint().0
}

/// Inverse in the BW6-761 scalar field (the BLS12-377 base field) by `ark-ff`'s `Field::inverse`, which is `None` for zero only.
#[verifier::external_body]
fn fr761_inverse(a: &[u64; 6]) -> (r: Option<[u64; 6]>)
    requires
        limbs_value(a@) < bw6_761_fr_modulus(),
    ensures
        r.is_some() == (limbs_value(a@) != 0),
        r matches Some(v) ==> limbs_value(v@) < bw6_761_fr_modulus()
            && (limbs_value(v@) * limbs_value(a@)) % bw6_761_fr_modulus() == 1,
{
    let x = ark_bw6_761::Fr::from_bigint(BigInt::new(*a)).unwrap();
    match x.inverse() {
        Some(v) => Some(v.into_bigint().0),
        None => None,
    }
}

/// Power in the BW6-761 scalar field (the BLS12-377 base field) by `ark-ff`'s `Field::pow` with little-endian exponent limbs.
#[verifier::external_body]
fn fr761_pow(a: &[u64; 6], exp: &[u64]) -> (r: [u64; 6])
    requires
        limbs_value(a@) < bw6_761_fr_modulus(),
    ensures
        limbs_value(r@) == pow(limbs_value(a@) as int, limbs_value(exp@)) % (bw6_761_fr_modulus() as int),
{
    let x = ark_bw6_761::Fr::from_bigint(BigInt::new(*a)).unwrap();
    x.pow(exp).into_bigint().0
}

impl PrimeFieldElement for Fr761 {
    open spec fn modulus() -> nat {
        bw6_761_fr_modulus()
    }

    closed spec fn value(&self) -> nat {
        limbs_value(self.limbs@) % bw6_761_fr_modulus()
    }

    proof fn lemma_field_basics(x: Self) {
        lemma_mod_bound(limbs_value(x.limbs@) as int, bw6_761_fr_modulus() as int);
    }

    fn zero() -> (r: Self) {
        let limbs: [u64; 6] = [0u64, 0u64, 0u64, 0u64, 0u64, 0u64];
        proof {
            assert(limbs_value(limbs@) == 0) by {
                reveal_with_fuel(limbs_value, 13);
            }
            lemma_small_mod(0, bw6_761_fr_modulus());
        }
        Fr761 { limbs }
    }

    fn one() -> (r: Self) {
        let limbs: [u64; 6] = [1u64, 0, 0, 0, 0, 0];
        proof {
            assert(limbs_value(limbs@) == 1) by {
                reveal_with_fuel(limbs_value, 13);
            }
            lemma_small_mod(1, bw6_761_fr_modulus());
        }
        Fr761 { limbs }
    }

    fn from_u64(x: u64) -> (r: Self) {
        let limbs: [u64; 6] = [x, 0, 0, 0, 0, 0];
        proof {
            assert(limbs@.drop_first() =~= seq![0u64, 0u64, 0u64, 0u64, 0u64]);
            assert(limbs_value(seq![0u64, 0u64, 0u64, 0u64, 0u64]) == 0) by {
                reveal_with_fuel(limbs_value, 13);
            }
            assert(limbs_value(limbs@) == x as nat);
            lemma_small_mod(x as nat, bw6_761_fr_modulus());
        }
        Fr761 { limbs }
    }

    fn add(&self, other: &Self) -> (r: Self) {
        proof {
            use_type_invariant(self);
            use_type_invariant(other);
            lemma_small_mod(limbs_value(self.limbs@), bw6_761_fr_modulus());
            lemma_small_mod(limbs_value(other.limbs@), bw6_761_fr_modulus());
        }
        let limbs = fr761_add(&self.limbs, &other.limbs);
        proof {
            lemma_mod_bound((limbs_value(self.limbs@) + limbs_value(other.limbs@)) as int, bw6_761_fr_modulus() as int);
            lemma_small_mod(limbs_value(limbs@), bw6_761_fr_modulus());
        }
        Fr761 { limbs }
    }

    fn sub(&self, other: &Self) -> (r: Self) {
        proof {
            use_type_invariant(self);
            use_type_invariant(other);
            lemma_small_mod(limbs_value(self.limbs@), bw6_761_fr_modulus());
            lemma_small_mod(limbs_value(other.limbs@), bw6_761_fr_modulus());
        }
        let limbs = fr761_sub(&self.limbs, &other.limbs);
        proof {
            lemma_mod_bound(limbs_value(self.limbs@) - limbs_value(other.limbs@), bw6_761_fr_modulus() as int);
            lemma_small_mod(limbs_value(limbs@), bw6_761_fr_modulus());
        }
        Fr761 { limbs }
    }

    fn mul(&self, other: &Self) -> (r: Self) {
        proof {
            use_type_invariant(self);
            use_type_invariant(other);
            lemma_small_mod(limbs_value(self.limbs@), bw6_761_fr_modulus());
            lemma_small_mod(limbs_value(other.limbs@), bw6_761_fr_modulus());
        }
        let limbs = fr761_mul(&self.limbs, &other.limbs);
        proof {
            lemma_mod_bound((limbs_value(self.limbs@) * limbs_value(other.limbs@)) as int, bw6_761_fr_modulus() as int);
            lemma_small_mod(limbs_value(limbs@), bw6_761_fr_modulus());
        }
        Fr761 { limbs }
    }

    fn neg(&self) -> (r: Self) {
        let z = Self::zero();
        let r = z.sub(self);
        proof {
            lemma_small_mod(0, bw6_761_fr_modulus());
        }
        r
    }

    fn inverse(&self) -> (r: Option<Self>) {
        proof {
            use_type_invariant(self);
            lemma_small_mod(limbs_value(self.limbs@), bw6_761_fr_modulus());
        }
        match fr761_inverse(&self.limbs) {
            Some(limbs) => {
                proof {
                    lemma_small_mod(limbs_value(limbs@), bw6_761_fr_modulus());
                }
                Some(Fr761 { limbs })
            },
            None => None,
        }
    }

    fn pow_limbs(&self, exp: &[u64]) -> (r: Self) {
        proof {
            use_type_invariant(self);
            lemma_small_mod(limbs_value(self.limbs@), bw6_761_fr_modulus());
        }
        let limbs = fr761_pow(&self.limbs, exp);
        proof {
            lemma_mod_bound(pow(limbs_value(self.limbs@) as int, limbs_value(exp@)), bw6_761_fr_modulus() as int);
            lemma_small_mod(limbs_value(limbs@), bw6_761_fr_modulus());
        }
        Fr761 { limbs }
    }

    fn equals(&self, other: &Self) -> (r: bool) {
        proof {
            use_type_invariant(self);
            use_type_invariant(other);
            lemma_small_mod(limbs_value(self.limbs@), bw6_761_fr_modulus());
            lemma_small_mod(limbs_value(other.limbs@), bw6_761_fr_modulus());
        }
        limbs_equal(&self.limbs, &other.limbs)
    }

    fn modulus_minus_one() -> (r: Vec<u64>) {
        let r: Vec<u64> = vec![0x8508c00000000000, 0x170b5d4430000000, 0x1ef3622fba094800, 0x1a22d9f300f5138f, 0xc63b05c06ca1493b, 0x1ae3a4617c510ea];
        proof {
            assert(limbs_value(seq![0x8508c00000000000, 0x170b5d4430000000, 0x1ef3622fba094800, 0x1a22d9f300f5138f, 0xc63b05c06ca1493b, 0x1ae3a4617c510ea]) == bw6_761_fr_modulus() - 1) by {
                reveal_with_fuel(limbs_value, 13);
            }
            assert(r@ =~= seq![0x8508c00000000000, 0x170b5d4430000000, 0x1ef3622fba094800, 0x1a22d9f300f5138f, 0xc63b05c06ca1493b, 0x1ae3a4617c510ea]);
        }
        r
    }

    fn capacity_bits() -> (r: usize) {
        proof {
            let m: Seq<u64> = seq![0x8508c00000000001, 0x170b5d4430000000, 0x1ef3622fba094800, 0x1a22d9f300f5138f, 0xc63b05c06ca1493b, 0x1ae3a4617c510ea];
            assert(limbs_value(m) == bw6_761_fr_modulus()) by {
                reveal_with_fuel(limbs_value, 13);
            }
            lemma2_to64();
            lemma2_to64_rest();
            assert(m.last() == m[m.len() - 1]);
            lemma_top_limb_power(m, 56);
            lemma_top_limb_bound(m, 57);
        }
        376
    }

    open spec fn capacity() -> nat {
        376
    }
}

/// The prime modulus of the BW6-767 base field.
pub open spec fn bw6_767_fq_modulus() -> nat {
    496597749679620867773432037469214230242402307330180853437434581099336634619713640485778675608223760166307530047354464605410050411581079376994803852937842168733702867087556948851016246640584660942486895230518034810309227309966899431nat
}

/// An element of the BW6-767 base field.
#[derive(Clone, Copy, PartialEq, Eq, Debug)]
pub struct Fq767 {
    limbs: [u64; 12],
}

impl Fq767 {
    #[verifier::type_invariant]
    spec fn canonical(self) -> bool {
        limbs_value(self.limbs@) < bw6_767_fq_modulus()
    }

    /// The element with the given canonical limbs; `None` unless they hold a value below the modulus.
    pub fn from_canonical_limbs(limbs: [u64; 12]) -> (r: Option<Fq767>)
        ensures
            r.is_some() == (limbs_value(limbs@) < bw6_767_fq_modulus()),
            r matches Some(v) ==> v.value() == limbs_value(limbs@),
    {
        let m: [u64; 12] = [0x6896aaaec71538e7, 0x3a38b08e7179beb9, 0x31732000974254c8, 0x7cbc118805598e5c, 0xfe0ef8c1c63df7d9, 0xdc2ce0c034926d18, 0x3dd5a1b865cbe8da, 0x665e4360b872007d, 0x30f8d18f41e3fc19, 0xc36dc4098befce42, 0x38259ea59a063294, 0x51e2bcf25fa89922];
        proof {
            assert(limbs_value(m@) == bw6_767_fq_modulus()) by {
                reveal_with_fuel(limbs_value, 13);
            }
        }
        if limbs_less_than(&limbs, &m) {
            proof {
                lemma_small_mod(limbs_value(limbs@), bw6_767_fq_modulus());
            }
            Some(Fq767 { limbs })
        } else {
            None
        }
    }

    /// The canonical limbs of the element.
    pub fn to_limbs(&self) -> (r: [u64; 12])
        ensures
            limbs_value(r@) == self.value(),
    {
        proof {
            use_type_invariant(self);
            lemma_small_mod(limbs_value(self.limbs@), bw6_767_fq_modulus());
        }
        self.limbs
    }
}

/// Sum in the BW6-767 base field, computed by `ark-ff` field addition.
#[verifier::external_body]
fn fq767_add(a: &[u64; 12], b: &[u64; 12]) -> (r: [u64; 12])
    requires
        limbs_value(a@) < bw6_767_fq_modulus(),
        limbs_value(b@) < bw6_767_fq_modulus(),
    ensures
        limbs_value(r@) == (limbs_value(a@) + limbs_value(b@)) % bw6_767_fq_modulus(),
{
    let x = ark_bw6_767::Fq::from_bigint(BigInt::new(*a)).unwrap();
    let y = ark_bw6_767::Fq::from_bigint(BigInt::new(*b)).unwrap();
    (x + y).into_bigint().0
}

/// Difference in the BW6-767 base field, computed by `ark-ff` field subtraction.
#[verifier::external_body]
fn fq767_sub(a: &[u64; 12], b: &[u64; 12]) -> (r: [u64; 12])
    requires
        limbs_value(a@) < bw6_767_fq_modulus(),
        limbs_value(b@) < bw6_767_fq_modulus(),
    ensures
        limbs_value(r@) == (limbs_value(a@) - limbs_value(b@)) % (bw6_767_fq_modulus() as int),
{
    let x = ark_bw6_767::Fq::from_bigint(BigInt::new(*a)).unwrap();
    let y = ark_bw6_767::Fq::from_bigint(BigInt::new(*b)).unwrap();
    (x - y).into_bigint().0
}

/// Product in the BW6-767 base field, computed by `ark-ff` field multiplication.
#[verifier::external_body]
fn fq767_mul(a: &[u64; 12], b: &[u64; 12]) -> (r: [u64; 12])
    requires
        limbs_value(a@) < bw6_767_fq_modulus(),
        limbs_value(b@) < bw6_767_fq_modulus(),
    ensures
        limbs_value(r@) == (limbs_value(a@) * limbs_value(b@)) % bw6_767_fq_modulus(),
{
    let x = ark_bw6_767::Fq::from_bigint(BigInt::new(*a)).unwrap();
    let y = ark_bw6_767::Fq::from_bigint(BigInt::new(*b)).unwrap();
    (x * y).into_bigint().0
}

/// Inverse in the BW6-767 base field by `ark-ff`'s `Field::inverse`, which is `None` for zero only.
#[verifier::external_body]
fn fq767_inverse(a: &[u64; 12]) -> (r: Option<[u64; 12]>)
    requires
        limbs_value(a@) < bw6_767_fq_modulus(),
    ensures
        r.is_some() == (limbs_value(a@) != 0),
        r matches Some(v) ==> limbs_value(v@) < bw6_767_fq_modulus()
            && (limbs_value(v@) * limbs_value(a@)) % bw6_767_fq_modulus() == 1,
{
    let x = ark_bw6_767::Fq::from_bigint(BigInt::new(*a)).unwrap();
    match x.inverse() {
        Some(v) => Some(v.into_bigint().0),
        None => None,
    }
}

/// Power in the BW6-767 base field by `ark-ff`'s `Field::pow` with little-endian exponent limbs.
#[verifier::external_body]
fn fq767_pow(a: &[u64; 12], exp: &[u64]) -> (r: [u64; 12])
    requires
        limbs_value(a@) < bw6_767_fq_modulus(),
    ensures
        limbs_value(r@) == pow(limbs_value(a@) as int, limbs_value(exp@)) % (bw6_767_fq_modulus() as int),
{
    let x = ark_bw6_767::Fq::from_bigint(BigInt::new(*a)).unwrap();
    x.pow(exp).into_bigint().0
}

impl PrimeFieldElement for Fq767 {
    open spec fn modulus() -> nat {
        bw6_767_fq_modulus()
    }

    closed spec fn value(&self) -> nat {
        limbs_value(self.limbs@) % bw6_767_fq_modulus()
    }

    proof fn lemma_field_basics(x: Self) {
        lemma_mod_bound(limbs_value(x.limbs@) as int, bw6_767_fq_modulus() as int);
    }

    fn zero() -> (r: Self) {
        let limbs: [u64; 12] = [0u64, 0u64, 0u64, 0u64, 0u64, 0u64, 0u64, 0u64, 0u64, 0u64, 0u64, 0u64];
        proof {
            assert(limbs_value(limbs@) == 0) by {
                reveal_with_fuel(limbs_value, 13);
            }
            lemma_small_mod(0, bw6_767_fq_modulus());
        }
        Fq767 { limbs }
    }

    fn one() -> (r: Self) {
        let limbs: [u64; 12] = [1u64, 0, 0, 0, 0, 0, 0, 0, 0, 0, 0, 0];
        proof {
            assert(limbs_value(limbs@) == 1) by {
                reveal_with_fuel(limbs_value, 13);
            }
            lemma_small_mod(1, bw6_767_fq_modulus());
        }
        Fq767 { limbs }
    }

    fn from_u64(x: u64) -> (r: Self) {
        let limbs: [u64; 12] = [x, 0, 0, 0, 0, 0, 0, 0, 0, 0, 0, 0];
        proof {
            assert(limbs@.drop_first() =~= seq![0u64, 0u64, 0u64, 0u64, 0u64, 0u64, 0u64, 0u64, 0u64, 0u64, 0u64]);
            assert(limbs_value(seq![0u64, 0u64, 0u64, 0u64, 0u64, 0u64, 0u64, 0u64, 0u64, 0u64, 0u64]) == 0) by {
                reveal_with_fuel(limbs_value, 13);
            }
            assert(limbs_value(limbs@) == x as nat);
            lemma_small_mod(x as nat, bw6_767_fq_modulus());
        }
        Fq767 { limbs }
    }

    fn add(&self, other: &Self) -> (r: Self) {
        proof {
            use_type_invariant(self);
            use_type_invariant(other);
            lemma_small_mod(limbs_value(self.limbs@), bw6_767_fq_modulus());
            lemma_small_mod(limbs_value(other.limbs@), bw6_767_fq_modulus());
        }
        let limbs = fq767_add(&self.limbs, &other.limbs);
        proof {
            lemma_mod_bound((limbs_value(self.limbs@) + limbs_value(other.limbs@)) as int, bw6_767_fq_modulus() as int);
            lemma_small_mod(limbs_value(limbs@), bw6_767_fq_modulus());
        }
        Fq767 { limbs }
    }

    fn sub(&self, other: &Self) -> (r: Self) {
        proof {
            use_type_invariant(self);
            use_type_invariant(other);
            lemma_small_mod(limbs_value(self.limbs@), bw6_767_fq_modulus());
            lemma_small_mod(limbs_value(other.limbs@), bw6_767_fq_modulus());
        }
        let limbs = fq767_sub(&self.limbs, &other.limbs);
        proof {
            lemma_mod_bound(limbs_value(self.limbs@) - limbs_value(other.limbs@), bw6_767_fq_modulus() as int);
            lemma_small_mod(limbs_value(limbs@), bw6_767_fq_modulus());
        }
        Fq767 { limbs }
    }

    fn mul(&self, other: &Self) -> (r: Self) {
        proof {
            use_type_invariant(self);
            use_type_invariant(other);
            lemma_small_mod(limbs_value(self.limbs@), bw6_767_fq_modulus());
            lemma_small_mod(limbs_value(other.limbs@), bw6_767_fq_modulus());
        }
        let limbs = fq767_mul(&self.limbs, &other.limbs);
        proof {
            lemma_mod_bound((limbs_value(self.limbs@) * limbs_value(other.limbs@)) as int, bw6_767_fq_modulus() as int);
            lemma_small_mod(limbs_value(limbs@), bw6_767_fq_modulus());
        }
        Fq767 { limbs }
    }

    fn neg(&self) -> (r: Self) {
        let z = Self::zero();
        let r = z.sub(self);
        proof {
            lemma_small_mod(0, bw6_767_fq_modulus());
        }
        r
    }

    fn inverse(&self) -> (r: Option<Self>) {
        proof {
            use_type_invariant(self);
            lemma_small_mod(limbs_value(self.limbs@), bw6_767_fq_modulus());
        }
        match fq767_inverse(&self.limbs) {
            Some(limbs) => {
                proof {
                    lemma_small_mod(limbs_value(limbs@), bw6_767_fq_modulus());
                }
                Some(Fq767 { limbs })
            },
            None => None,
        }
    }

    fn pow_limbs(&self, exp: &[u64]) -> (r: Self) {
        proof {
            use_type_invariant(self);
            lemma_small_mod(limbs_value(self.limbs@), bw6_767_fq_modulus());
        }
        let limbs = fq767_pow(&self.limbs, exp);
        proof {
            lemma_mod_bound(pow(limbs_value(self.limbs@) as int, limbs_value(exp@)), bw6_767_fq_modulus() as int);
            lemma_small_mod(limbs_value(limbs@), bw6_767_fq_modulus());
        }
        Fq767 { limbs }
    }

    fn equals(&self, other: &Self) -> (r: bool) {
        proof {
            use_type_invariant(self);
            use_type_invariant(other);
            lemma_small_mod(limbs_value(self.limbs@), bw6_767_fq_modulus());
            lemma_small_mod(limbs_value(other.limbs@), bw6_767_fq_modulus());
        }
        limbs_equal(&self.limbs, &other.limbs)
    }

    fn modulus_minus_one() -> (r: Vec<u64>) {
        let r: Vec<u64> = vec![0x6896aaaec71538e6, 0x3a38b08e7179beb9, 0x31732000974254c8, 0x7cbc118805598e5c, 0xfe0ef8c1c63df7d9, 0xdc2ce0c034926d18, 0x3dd5a1b865cbe8da, 0x665e4360b872007d, 0x30f8d18f41e3fc19, 0xc36dc4098befce42, 0x38259ea59a063294, 0x51e2bcf25fa89922];
        proof {
            assert(limbs_value(seq![0x6896aaaec71538e6, 0x3a38b08e7179beb9, 0x31732000974254c8, 0x7cbc118805598e5c, 0xfe0ef8c1c63df7d9, 0xdc2ce0c034926d18, 0x3dd5a1b865cbe8da, 0x665e4360b872007d, 0x30f8d18f41e3fc19, 0xc36dc4098befce42, 0x38259ea59a063294, 0x51e2bcf25fa89922]) == bw6_767_fq_modulus() - 1) by {
                reveal_with_fuel(limbs_value, 13);
            }
            assert(r@ =~= seq![0x6896aaaec71538e6, 0x3a38b08e7179beb9, 0x31732000974254c8, 0x7cbc118805598e5c, 0xfe0ef8c1c63df7d9, 0xdc2ce0c034926d18, 0x3dd5a1b865cbe8da, 0x665e4360b872007d, 0x30f8d18f41e3fc19, 0xc36dc4098befce42, 0x38259ea59a063294, 0x51e2bcf25fa89922]);
        }
        r
    }

    fn capacity_bits() -> (r: usize) {
        proof {
            let m: Seq<u64> = seq![0x6896aaaec71538e7, 0x3a38b08e7179beb9, 0x31732000974254c8, 0x7cbc118805598e5c, 0xfe0ef8c1c63df7d9, 0xdc2ce0c034926d18, 0x3dd5a1b865cbe8da, 0x665e4360b872007d, 0x30f8d18f41e3fc19, 0xc36dc4098befce42, 0x38259ea59a063294, 0x51e2bcf25fa89922];
            assert(limbs_value(m) == bw6_767_fq_modulus()) by {
                reveal_with_fuel(limbs_value, 13);
            }
            lemma2_to64();
            lemma2_to64_rest();
            assert(m.last() == m[m.len() - 1]);
            lemma_top_limb_power(m, 62);
            lemma_top_limb_bound(m, 63);
        }
        766
    }

    open spec fn capacity() -> nat {
        766
    }
}

/// The prime modulus of the BW6-761 base field.
pub open spec fn bw6_761_fq_modulus() -> nat {
    6891450384315732539396789682275657542479668912536150109513790160209623422243491736087683183289411687640864567753786613451161759120554247759349511699125301598951605099378508850372543631423596795951899700429969112842764913119068299nat
}

/// An element of the BW6-761 base field.
#[derive(Clone, Copy, PartialEq, Eq, Debug)]
pub struct Fq761 {
    limbs: [u64; 12],
}

impl Fq761 {
    #[verifier::type_invariant]
    spec fn canonical(self) -> bool {
        limbs_value(self.limbs@) < bw6_761_fq_modulus()
    }

    /// The element with the given canonical limbs; `None` unless they hold a value below the modulus.
    pub fn from_canonical_limbs(limbs: [u64; 12]) -> (r: Option<Fq761>)
        ensures
            r.is_some() == (limbs_value(limbs@) < bw6_761_fq_modulus()),
            r matches Some(v) ==> v.value() == limbs_value(limbs@),
    {
        let m: [u64; 12] = [0xf49d00000000008b, 0xe6913e6870000082, 0x160cf8aeeaf0a437, 0x98a116c25667a8f8, 0x71dcd3dc73ebff2e, 0x8689c8ed12f9fd90, 0x3cebaff25b42304, 0x707ba638e584e919, 0x528275ef8087be41, 0xb926186a81d14688, 0xd187c94004faff3e, 0x122e824fb83ce0a];
        proof {
            assert(limbs_value(m@) == bw6_761_fq_modulus()) by {
                reveal_with_fuel(limbs_value, 13);
            }
        }
        if limbs_less_than(&limbs, &m) {
            proof {
                lemma_small_mod(limbs_value(limbs@), bw6_761_fq_modulus());
            }
            Some(Fq761 { limbs })
        } else {
            None
        }
    }

    /// The canonical limbs of the element.
    pub fn to_limbs(&self) -> (r: [u64; 12])
        ensures
            limbs_value(r@) == self.value(),
    {
        proof {
            use_type_invariant(self);
            lemma_small_mod(limbs_value(self.limbs@), bw6_761_fq_modulus());
        }
        self.limbs
    }
}

/// Sum in the BW6-761 base field, computed by `ark-ff` field addition.
#[verifier::external_body]
fn fq761_add(a: &[u64; 12], b: &[u64; 12]) -> (r: [u64; 12])
    requires
        limbs_value(a@) < bw6_761_fq_modulus(),
        limbs_value(b@) < bw6_761_fq_modulus(),
    ensures
        limbs_value(r@) == (limbs_value(a@) + limbs_value(b@)) % bw6_761_fq_modulus(),
{
    let x = ark_bw6_761::Fq::from_bigint(BigInt::new(*a)).unwrap();
    let y = ark_bw6_761::Fq::from_bigint(BigInt::new(*b)).unwrap();
    (x + y).into_bigint().0
}

/// Difference in the BW6-761 base field, computed by `ark-ff` field subtraction.
#[verifier::external_body]
fn fq761_sub(a: &[u64; 12], b: &[u64; 12]) -> (r: [u64; 12])
    requires
        limbs_value(a@) < bw6_761_fq_modulus(),
        limbs_value(b@) < bw6_761_fq_modulus(),
    ensures
        limbs_value(r@) == (limbs_value(a@) - limbs_value(b@)) % (bw6_761_fq_modulus() as int),
{
    let x = ark_bw6_761::Fq::from_bigint(BigInt::new(*a)).unwrap();
    let y = ark_bw6_761::Fq::from_bigint(BigInt::new(*b)).unwrap();
    (x - y).into_bigint().0
}

/// Product in the BW6-761 base field, computed by `ark-ff` field multiplication.
#[verifier::external_body]
fn fq761_mul(a: &[u64; 12], b: &[u64; 12]) -> (r: [u64; 12])
    requires
        limbs_value(a@) < bw6_761_fq_modulus(),
        limbs_value(b@) < bw6_761_fq_modulus(),
    ensures
        limbs_value(r@) == (limbs_value(a@) * limbs_value(b@)) % bw6_761_fq_modulus(),
{
    let x = ark_bw6_761::Fq::from_bigint(BigInt::new(*a)).unwrap();
    let y = ark_bw6_761::Fq::from_bigint(BigInt::new(*b)).unwrap();
    (x * y).into_bigint().0
}

/// Inverse in the BW6-761 base field by `ark-ff`'s `Field::inverse`, which is `None` for zero only.
#[verifier::external_body]
fn fq761_inverse(a: &[u64; 12]) -> (r: Option<[u64; 12]>)
    requires
        limbs_value(a@) < bw6_761_fq_modulus(),
    ensures
        r.is_some() == (limbs_value(a@) != 0),
        r matches Some(v) ==> limbs_value(v@) < bw6_761_fq_modulus()
            && (limbs_value(v@) * limbs_value(a@)) % bw6_761_fq_modulus() == 1,
{
    let x = ark_bw6_761::Fq::from_bigint(BigInt::new(*a)).unwrap();
    match x.inverse() {
        Some(v) => Some(v.into_bigint().0),
        None => None,
    }
}

/// Power in the BW6-761 base field by `ark-ff`'s `Field::pow` with little-endian exponent limbs.
#[verifier::external_body]
fn fq761_pow(a: &[u64; 12], exp: &[u64]) -> (r: [u64; 12])
    requires
        limbs_value(a@) < bw6_761_fq_modulus(),
    ensures
        limbs_value(r@) == pow(limbs_value(a@) as int, limbs_value(exp@)) % (bw6_761_fq_modulus() as int),
{
    let x = ark_bw6_761::Fq::from_bigint(BigInt::new(*a)).unwrap();
    x.pow(exp).into_bigint().0
}

impl PrimeFieldElement for Fq761 {
    open spec fn modulus() -> nat {
        bw6_761_fq_modulus()
    }

    closed spec fn value(&self) -> nat {
        limbs_value(self.limbs@) % bw6_761_fq_modulus()
    }

    proof fn lemma_field_basics(x: Self) {
        lemma_mod_bound(limbs_value(x.limbs@) as int, bw6_761_fq_modulus() as int);
    }

    fn zero() -> (r: Self) {
        let limbs: [u64; 12] = [0u64, 0u64, 0u64, 0u64, 0u64, 0u64, 0u64, 0u64, 0u64, 0u64, 0u64, 0u64];
        proof {
            assert(limbs_value(limbs@) == 0) by {
                reveal_with_fuel(limbs_value, 13);
            }
            lemma_small_mod(0, bw6_761_fq_modulus());
        }
        Fq761 { limbs }
    }

    fn one() -> (r: Self) {
        let limbs: [u64; 12] = [1u64, 0, 0, 0, 0, 0, 0, 0, 0, 0, 0, 0];
        proof {
            assert(limbs_value(limbs@) == 1) by {
                reveal_with_fuel(limbs_value, 13);
            }
            lemma_small_mod(1, bw6_761_fq_modulus());
        }
        Fq761 { limbs }
    }

    fn from_u64(x: u64) -> (r: Self) {
        let limbs: [u64; 12] = [x, 0, 0, 0, 0, 0, 0, 0, 0, 0, 0, 0];
        proof {
            assert(limbs@.drop_first() =~= seq![0u64, 0u64, 0u64, 0u64, 0u64, 0u64, 0u64, 0u64, 0u64, 0u64, 0u64]);
            assert(limbs_value(seq![0u64, 0u64, 0u64, 0u64, 0u64, 0u64, 0u64, 0u64, 0u64, 0u64, 0u64]) == 0) by {
                reveal_with_fuel(limbs_value, 13);
            }
            assert(limbs_value(limbs@) == x as nat);
            lemma_small_mod(x as nat, bw6_761_fq_modulus());
        }
        Fq761 { limbs }
    }

    fn add(&self, other: &Self) -> (r: Self) {
        proof {
            use_type_invariant(self);
            use_type_invariant(other);
            lemma_small_mod(limbs_value(self.limbs@), bw6_761_fq_modulus());
            lemma_small_mod(limbs_value(other.limbs@), bw6_761_fq_modulus());
        }
        let limbs = fq761_add(&self.limbs, &other.limbs);
        proof {
            lemma_mod_bound((limbs_value(self.limbs@) + limbs_value(other.limbs@)) as int, bw6_761_fq_modulus() as int);
            lemma_small_mod(limbs_value(limbs@), bw6_761_fq_modulus());
        }
        Fq761 { limbs }
    }

    fn sub(&self, other: &Self) -> (r: Self) {
        proof {
            use_type_invariant(self);
            use_type_invariant(other);
            lemma_small_mod(limbs_value(self.limbs@), bw6_761_fq_modulus());
            lemma_small_mod(limbs_value(other.limbs@), bw6_761_fq_modulus());
        }
        let limbs = fq761_sub(&self.limbs, &other.limbs);
        proof {
            lemma_mod_bound(limbs_value(self.limbs@) - limbs_value(other.limbs@), bw6_761_fq_modulus() as int);
            lemma_small_mod(limbs_value(limbs@), bw6_761_fq_modulus());
        }
        Fq761 { limbs }
    }

    fn mul(&self, other: &Self) -> (r: Self) {
        proof {
            use_type_invariant(self);
            use_type_invariant(other);
            lemma_small_mod(limbs_value(self.limbs@), bw6_761_fq_modulus());
            lemma_small_mod(limbs_value(other.limbs@), bw6_761_fq_modulus());
        }
        let limbs = fq761_mul(&self.limbs, &other.limbs);
        proof {
            lemma_mod_bound((limbs_value(self.limbs@) * limbs_value(other.limbs@)) as int, bw6_761_fq_modulus() as int);
            lemma_small_mod(limbs_value(limbs@), bw6_761_fq_modulus());
        }
        Fq761 { limbs }
    }

    fn neg(&self) -> (r: Self) {
        let z = Self::zero();
        let r = z.sub(self);
        proof {
            lemma_small_mod(0, bw6_761_fq_modulus());
        }
        r
    }

    fn inverse(&self) -> (r: Option<Self>) {
        proof {
            use_type_invariant(self);
            lemma_small_mod(limbs_value(self.limbs@), bw6_761_fq_modulus());
        }
        match fq761_inverse(&self.limbs) {
            Some(limbs) => {
                proof {
                    lemma_small_mod(limbs_value(limbs@), bw6_761_fq_modulus());
                }
                Some(Fq761 { limbs })
            },
            None => None,
        }
    }

    fn pow_limbs(&self, exp: &[u64]) -> (r: Self) {
        proof {
            use_type_invariant(self);
            lemma_small_mod(limbs_value(self.limbs@), bw6_761_fq_modulus());
        }
        let limbs = fq761_pow(&self.limbs, exp);
        proof {
            lemma_mod_bound(pow(limbs_value(self.limbs@) as int, limbs_value(exp@)), bw6_761_fq_modulus() as int);
            lemma_small_mod(limbs_value(limbs@), bw6_761_fq_modulus());
        }
        Fq761 { limbs }
    }

    fn equals(&self, other: &Self) -> (r: bool) {
        proof {
            use_type_invariant(self);
            use_type_invariant(other);
            lemma_small_mod(limbs_value(self.limbs@), bw6_761_fq_modulus());
            lemma_small_mod(limbs_value(other.limbs@), bw6_761_fq_modulus());
        }
        limbs_equal(&self.limbs, &other.limbs)
    }

    fn modulus_minus_one() -> (r: Vec<u64>) {
        let r: Vec<u64> = vec![0xf49d00000000008a, 0xe6913e6870000082, 0x160cf8aeeaf0a437, 0x98a116c25667a8f8, 0x71dcd3dc73ebff2e, 0x8689c8ed12f9fd90, 0x3cebaff25b42304, 0x707ba638e584e919, 0x528275ef8087be41, 0xb926186a81d14688, 0xd187c94004faff3e, 0x122e824fb83ce0a];
        proof {
            assert(limbs_value(seq![0xf49d00000000008a, 0xe6913e6870000082, 0x160cf8aeeaf0a437, 0x98a116c25667a8f8, 0x71dcd3dc73ebff2e, 0x8689c8ed12f9fd90, 0x3cebaff25b42304, 0x707ba638e584e919, 0x528275ef8087be41, 0xb926186a81d14688, 0xd187c94004faff3e, 0x122e824fb83ce0a]) == bw6_761_fq_modulus() - 1) by {
                reveal_with_fuel(limbs_value, 13);
            }
            assert(r@ =~= seq![0xf49d00000000008a, 0xe6913e6870000082, 0x160cf8aeeaf0a437, 0x98a116c25667a8f8, 0x71dcd3dc73ebff2e, 0x8689c8ed12f9fd90, 0x3cebaff25b42304, 0x707ba638e584e919, 0x528275ef8087be41, 0xb926186a81d14688, 0xd187c94004faff3e, 0x122e824fb83ce0a]);
        }
        r
    }

    fn capacity_bits() -> (r: usize) {
        proof {
            let m: Seq<u64> = seq![0xf49d00000000008b, 0xe6913e6870000082, 0x160cf8aeeaf0a437, 0x98a116c25667a8f8, 0x71dcd3dc73ebff2e, 0x8689c8ed12f9fd90, 0x3cebaff25b42304, 0x707ba638e584e919, 0x528275ef8087be41, 0xb926186a81d14688, 0xd187c94004faff3e, 0x122e824fb83ce0a];
            assert(limbs_value(m) == bw6_761_fq_modulus()) by {
                reveal_with_fuel(limbs_value, 13);
            }
            lemma2_to64();
            lemma2_to64_rest();
            assert(m.last() == m[m.len() - 1]);
            lemma_top_limb_power(m, 56);
            lemma_top_limb_bound(m, 57);
        }
        760
    }

    open spec fn capacity() -> nat {
        760
    }
}

} // verus!
