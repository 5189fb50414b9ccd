//! Conditional affine addition: the partial sums of the selected public
//! keys, accumulated register by register, and the constraints that tie
//! consecutive rows together.
use vstd::prelude::*;
use crate::field::{
    PrimeFieldElement, fmod, finv, lemma_fmod_ops, lemma_fmod_value, lemma_fmod_congruent, lemma_fmod_twice,
    lemma_fmod_canonical_eq, lemma_fmod_sub_zero, lemma_fmod_cancel, lemma_finv_is_inverse,
};
use crate::number_theory::is_prime_spec;
use crate::smooth_domain::{SmoothSubgroupDomain, lemma_ifft_interpolates, padded};
use crate::utils::{poly_eval, field_values, times_x_minus, lemma_times_x_minus, lemma_poly_eval_congruent, mul_by_x_minus};
use vstd::arithmetic::div_mod::{lemma_mod_twice, lemma_mod_multiples_vanish, lemma_mul_mod_noop_right};
use vstd::arithmetic::div_mod::lemma_small_mod;
use crate::piop::{RegisterCommitments, RegisterEvaluations, VerifierProtocol, LagrangeEvaluations};

verus! {

/// Commitments to the two partial-sum registers (the accumulator's `x` and `y`).
#[derive(Debug, PartialEq, Eq)]
pub struct PartialSumsCommitments<G>(pub G, pub G);

impl<G: Copy> RegisterCommitments<G> for PartialSumsCommitments<G> {
    open spec fn commitments(&self) -> Seq<G> {
        seq![self.0, self.1]
    }

    fn as_vec(&self) -> (r: Vec<G>) {
        vec![self.0, self.1]
    }
}

/// Commitments to the partial-sum registers and to the bitmask register.
#[derive(Debug, PartialEq, Eq)]
pub struct PartialSumsAndBitmaskCommitments<G> {
    pub partial_sums: PartialSumsCommitments<G>,
    pub bitmask: G,
}

impl<G: Copy> RegisterCommitments<G> for PartialSumsAndBitmaskCommitments<G> {
    open spec fn commitments(&self) -> Seq<G> {
        seq![self.bitmask].add(self.partial_sums.commitments())
    }

    fn as_vec(&self) -> (r: Vec<G>) {
        let mut res = vec![self.bitmask];
        let mut ps = self.partial_sums.as_vec();
        res.append(&mut ps);
        proof {
            assert(res@ =~= seq![self.bitmask].add(self.partial_sums.commitments()));
        }
        res
    }
}

/// Evaluations at ζ of the keyset, bitmask and partial-sum registers.
#[derive(Debug, PartialEq, Eq)]
pub struct AffineAdditionEvaluations<F> {
    pub keyset: (F, F),
    pub bitmask: F,
    pub partial_sums: (F, F),
}

impl<F: PrimeFieldElement> RegisterEvaluations<F> for AffineAdditionEvaluations<F> {
    open spec fn evaluations(&self) -> Seq<F> {
        seq![self.keyset.0, self.keyset.1, self.bitmask, self.partial_sums.0, self.partial_sums.1]
    }

    fn as_vec(&self) -> (r: Vec<F>) {
        vec![self.keyset.0, self.keyset.1, self.bitmask, self.partial_sums.0, self.partial_sums.1]
    }
}

/// The first conditional affine addition constraint, before the selector:
/// `b·((x1 - x2)²·(x1 + x2 + x3) - (y2 - y1)²) + (1 - b)·(y3 - y1)`.
pub open spec fn affine_addition_c1(b: int, x1: int, y1: int, x2: int, y2: int, x3: int, y3: int) -> int {
    b * ((x1 - x2) * (x1 - x2) * (x1 + x2 + x3) - (y2 - y1) * (y2 - y1)) + (1 - b) * (y3 - y1)
}

/// The second conditional affine addition constraint, before the selector:
/// `b·((x1 - x2)·(y3 + y1) - (y2 - y1)·(x3 - x1)) + (1 - b)·(x3 - x1)`.
pub open spec fn affine_addition_c2(b: int, x1: int, y1: int, x2: int, y2: int, x3: int, y3: int) -> int {
    b * ((x1 - x2) * (y3 + y1) - (y2 - y1) * (x3 - x1)) + (1 - b) * (x3 - x1)
}

/// The slope `(y2 - y1)/(x2 - x1)` of the chord through two points with
/// distinct x-coordinates.
pub open spec fn chord_slope<F: PrimeFieldElement>(x1: int, y1: int, x2: int, y2: int) -> int {
    fmod::<F>((y2 - y1) * finv::<F>(x2 - x1))
}

/// The x-coordinate of the chord-rule sum of two points: `λ² - x1 - x2`.
pub open spec fn chord_sum_x<F: PrimeFieldElement>(x1: int, y1: int, x2: int, y2: int) -> int {
    let l = chord_slope::<F>(x1, y1, x2, y2);
    fmod::<F>(l * l - x1 - x2)
}

/// The y-coordinate of the chord-rule sum of two points: `λ·(x1 - x3) - y1`.
pub open spec fn chord_sum_y<F: PrimeFieldElement>(x1: int, y1: int, x2: int, y2: int) -> int {
    fmod::<F>(chord_slope::<F>(x1, y1, x2, y2) * (x1 - chord_sum_x::<F>(x1, y1, x2, y2)) - y1)
}

/// `(x1 - x2)·λ ≡ -(y2 - y1)`.
proof fn lemma_slope_times_dx<F: PrimeFieldElement>(x1: int, y1: int, x2: int, y2: int)
    requires
        is_prime_spec(F::modulus()),
        0 <= x1 < F::modulus(),
        0 <= x2 < F::modulus(),
        x1 != x2,
    ensures
        fmod::<F>(x1 - x2) != 0,
        fmod::<F>((x1 - x2) * chord_slope::<F>(x1, y1, x2, y2)) == fmod::<F>(0 - (y2 - y1)),
{
    let m = F::modulus() as int;
    F::lemma_field_basics(arbitrary());
    let d = x1 - x2;
    let e = y2 - y1;
    lemma_small_mod(x1 as nat, m as nat);
    lemma_small_mod(x2 as nat, m as nat);
    lemma_small_mod(1, m as nat);
    lemma_fmod_sub_zero::<F>(x2, x1);
    lemma_fmod_sub_zero::<F>(x1, x2);
    let inv = finv::<F>(x2 - x1);
    lemma_finv_is_inverse::<F>(x2 - x1);
    assert(d * inv == 0 - (x2 - x1) * inv) by (nonlinear_arith) requires d == x1 - x2;
    lemma_fmod_congruent::<F>(0, 0, (x2 - x1) * inv, 1);
    let l = chord_slope::<F>(x1, y1, x2, y2);
    lemma_fmod_twice::<F>(e * inv);
    lemma_fmod_congruent::<F>(d, d, l, e * inv);
    assert(d * (e * inv) == e * (d * inv)) by (nonlinear_arith);
    lemma_fmod_congruent::<F>(e, e, d * inv, 0 - 1);
    assert(e * (0 - 1) == 0 - e) by (nonlinear_arith);
}

/// The conditional affine addition constraints hold exactly on conditional
/// additions: for a bit `b` and canonical coordinates (with `x1 ≠ x2` when
/// `b = 1`), both constraints vanish if and only if `(x3, y3)` is the
/// chord-rule sum `(x1, y1) + (x2, y2)` when `b = 1`, and `(x1, y1)` when
/// `b = 0`.
pub proof fn lemma_affine_addition_constraints_characterize<F: PrimeFieldElement>(
    b: int,
    x1: int,
    y1: int,
    x2: int,
    y2: int,
    x3: int,
    y3: int,
)
    requires
        is_prime_spec(F::modulus()),
        b == 0 || b == 1,
        0 <= x1 < F::modulus(),
        0 <= y1 < F::modulus(),
        0 <= x2 < F::modulus(),
        0 <= y2 < F::modulus(),
        0 <= x3 < F::modulus(),
        0 <= y3 < F::modulus(),
        b == 1 ==> x1 != x2,
    ensures
        (fmod::<F>(affine_addition_c1(b, x1, y1, x2, y2, x3, y3)) == 0
            && fmod::<F>(affine_addition_c2(b, x1, y1, x2, y2, x3, y3)) == 0)
        <==> (if b == 1 {
            x3 == chord_sum_x::<F>(x1, y1, x2, y2) && y3 == chord_sum_y::<F>(x1, y1, x2, y2)
        } else {
            x3 == x1 && y3 == y1
        }),
{
    let m = F::modulus() as int;
    F::lemma_field_basics(arbitrary());
    lemma_small_mod(x1 as nat, m as nat);
    lemma_small_mod(y1 as nat, m as nat);
    lemma_small_mod(x3 as nat, m as nat);
    lemma_small_mod(y3 as nat, m as nat);
    lemma_small_mod(0, m as nat);
    let c1 = affine_addition_c1(b, x1, y1, x2, y2, x3, y3);
    let c2 = affine_addition_c2(b, x1, y1, x2, y2, x3, y3);
    if b == 0 {
        assert(c1 == y3 - y1);
        assert(c2 == x3 - x1);
        lemma_fmod_sub_zero::<F>(y3, y1);
        lemma_fmod_sub_zero::<F>(x3, x1);
    } else {
        let d = x1 - x2;
        let e = y2 - y1;
        let l = chord_slope::<F>(x1, y1, x2, y2);
        let xs = chord_sum_x::<F>(x1, y1, x2, y2);
        let ys = chord_sum_y::<F>(x1, y1, x2, y2);
        lemma_slope_times_dx::<F>(x1, y1, x2, y2);
        assert(c1 == d * d * (x1 + x2 + x3) - e * e) by (nonlinear_arith)
            requires
                b == 1,
                d == x1 - x2,
                e == y2 - y1,
                c1 == b * ((x1 - x2) * (x1 - x2) * (x1 + x2 + x3) - (y2 - y1) * (y2 - y1)) + (1 - b) * (y3 - y1);
        assert(c2 == d * (y3 + y1) - e * (x3 - x1)) by (nonlinear_arith)
            requires
                b == 1,
                d == x1 - x2,
                e == y2 - y1,
                c2 == b * ((x1 - x2) * (y3 + y1) - (y2 - y1) * (x3 - x1)) + (1 - b) * (x3 - x1);
        // d·d is nonzero
        if fmod::<F>(d * d) == 0 {
            lemma_fmod_cancel::<F>(d, d);
        }
        // (d λ)² ≡ e², so c1 ≡ d²·(x1 + x2 + x3 - λ²)
        let dl = d * l;
        lemma_fmod_congruent::<F>(dl, 0 - e, dl, 0 - e);
        assert((0 - e) * (0 - e) == e * e) by (nonlinear_arith);
        lemma_fmod_sub_zero::<F>(dl * dl, e * e);
        let s1 = x1 + x2 + x3 - l * l;
        assert(c1 == d * d * s1 + (dl * dl - e * e)) by (nonlinear_arith)
            requires c1 == d * d * (x1 + x2 + x3) - e * e, s1 == x1 + x2 + x3 - l * l, dl == d * l;
        lemma_fmod_congruent::<F>(d * d * s1, d * d * s1, dl * dl - e * e, 0);
        // c2 ≡ d·(y3 + y1 - λ(x1 - x3)) + (x1 - x3)(d λ + e) and d λ + e ≡ 0
        lemma_fmod_congruent::<F>(dl, 0 - e, e, e);
        lemma_fmod_congruent::<F>(x1 - x3, x1 - x3, dl + e, 0);
        let s2 = y3 + y1 - l * (x1 - x3);
        assert(c2 == d * s2 + (x1 - x3) * (dl + e)) by (nonlinear_arith)
            requires c2 == d * (y3 + y1) - e * (x3 - x1), s2 == y3 + y1 - l * (x1 - x3), dl == d * l;
        lemma_fmod_congruent::<F>(d * s2, d * s2, (x1 - x3) * (dl + e), 0);
        // the constraints vanish exactly when s1 ≡ 0 and s2 ≡ 0
        if fmod::<F>(c1) == 0 {
            lemma_fmod_cancel::<F>(d * d, s1);
        }
        if fmod::<F>(s1) == 0 {
            lemma_fmod_congruent::<F>(d * d, d * d, s1, 0);
        }
        if fmod::<F>(c2) == 0 {
            lemma_fmod_cancel::<F>(d, s2);
        }
        if fmod::<F>(s2) == 0 {
            lemma_fmod_congruent::<F>(d, d, s2, 0);
        }
        // s1 ≡ 0 exactly when x3 = λ² - x1 - x2, s2 ≡ 0 exactly when y3 = λ(x1 - x3) - y1
        assert(s1 == x3 - (l * l - x1 - x2));
        lemma_fmod_sub_zero::<F>(x3, l * l - x1 - x2);
        lemma_fmod_twice::<F>(l * l - x1 - x2);
        assert(s2 == y3 - (l * (x1 - x3) - y1));
        lemma_fmod_sub_zero::<F>(y3, l * (x1 - x3) - y1);
        lemma_fmod_twice::<F>(l * (x1 - x3) - y1);
        if fmod::<F>(x3) == fmod::<F>(l * l - x1 - x2) {
            lemma_fmod_canonical_eq::<F>(x3, xs);
        }
        if fmod::<F>(y3) == fmod::<F>(l * (x1 - x3) - y1) {
            lemma_fmod_canonical_eq::<F>(y3, fmod::<F>(l * (x1 - x3) - y1));
        }
    }
}

/// Bitmask booleanity: in a prime field `b·(1 - b)` vanishes exactly on the
/// bits 0 and 1.
pub proof fn lemma_booleanity_constraint_characterizes_bits<F: PrimeFieldElement>(b: int)
    requires
        is_prime_spec(F::modulus()),
        0 <= b < F::modulus(),
    ensures
        (fmod::<F>(b * (1 - b)) == 0) <==> (b == 0 || b == 1),
{
    let m = F::modulus() as int;
    F::lemma_field_basics(arbitrary());
    lemma_small_mod(b as nat, m as nat);
    lemma_small_mod(1, m as nat);
    lemma_small_mod(0, m as nat);
    if fmod::<F>(b * (1 - b)) == 0 && b != 0 {
        lemma_fmod_cancel::<F>(b, 1 - b);
        lemma_fmod_sub_zero::<F>(1, b);
        lemma_fmod_canonical_eq::<F>(1, b);
    }
}

/// The prover's bitmask booleanity constraint polynomial: `b·(1 - b)`
/// evaluated pointwise on the domain and interpolated. In a prime field it
/// takes, at the domain element `e_i`, the value `b_i·(1 - b_i)`.
pub fn compute_bitmask_booleanity_constraint_polynomial<F: PrimeFieldElement>(
    domain: &SmoothSubgroupDomain<F>,
    b: &Vec<F>,
) -> (r: Vec<F>)
    requires
        domain.wf(),
        domain.rader_ready(),
        domain.size <= usize::MAX,
        b@.len() == domain.size,
    ensures
        r@.len() == domain.size,
        is_prime_spec(F::modulus()) ==> forall|i: int| 0 <= i < domain.size ==>
            poly_eval(field_values(r@), #[trigger] domain.element_value(i as nat)) % (F::modulus() as int)
                == fmod::<F>(b@[i].value() * (1 - b@[i].value())),
{
    let n = domain.size as usize;
    let mut v: Vec<F> = Vec::new();
    let mut i: usize = 0;
    while i < n
        invariant
            n == domain.size,
            b@.len() == n,
            0 <= i <= n,
            v@.len() == i,
            forall|t: int| 0 <= t < i ==> #[trigger] v@[t].value() == fmod::<F>(b@[t].value() * (1 - b@[t].value())),
        decreases n - i,
    {
        v.push(evaluate_bitmask_booleanity_constraint(&b[i]));
        i += 1;
    }
    let ghost vals = v@;
    domain.ifft_in_place(&mut v);
    proof {
        if is_prime_spec(F::modulus()) {
            assert forall|i: int| 0 <= i < domain.size implies
                poly_eval(field_values(v@), #[trigger] domain.element_value(i as nat)) % (F::modulus() as int)
                    == fmod::<F>(b@[i].value() * (1 - b@[i].value())) by {
                lemma_ifft_interpolates(*domain, vals, field_values(v@), i as nat);
            }
        }
    }
    v
}

/// The first conditional affine addition constraint on row `i` of register
/// columns of length `N` held on a 4-times amplified domain: the next row of
/// the accumulator is 4 points ahead (cyclically).
pub open spec fn constraint_row_c1<F: PrimeFieldElement>(b: Seq<F>, x1: Seq<F>, y1: Seq<F>, x2: Seq<F>, y2: Seq<F>, i: int) -> int {
    let k = (i + 4) % (b.len() as int);
    affine_addition_c1(b[i].value() as int, x1[i].value() as int, y1[i].value() as int, x2[i].value() as int,
        y2[i].value() as int, x1[k].value() as int, y1[k].value() as int)
}

/// The second conditional affine addition constraint on row `i`, as
/// `constraint_row_c1`.
pub open spec fn constraint_row_c2<F: PrimeFieldElement>(b: Seq<F>, x1: Seq<F>, y1: Seq<F>, x2: Seq<F>, y2: Seq<F>, i: int) -> int {
    let k = (i + 4) % (b.len() as int);
    affine_addition_c2(b[i].value() as int, x1[i].value() as int, y1[i].value() as int, x2[i].value() as int,
        y2[i].value() as int, x1[k].value() as int, y1[k].value() as int)
}

/// Coefficient `j` of a polynomial given by its coefficients, 0 past the end.
pub open spec fn coeff<F: PrimeFieldElement>(p: Seq<F>, j: int) -> int {
    if 0 <= j < p.len() { p[j].value() as int } else { 0 }
}

/// `s·(ca·a + cb·b)` for polynomials `a`, `b` given by their coefficients,
/// with as many coefficients as the longer of the two.
fn scaled_combination<F: PrimeFieldElement>(s: &F, ca: &F, a: &Vec<F>, cb: &F, b: &Vec<F>) -> (r: Vec<F>)
    ensures
        r@.len() == if a@.len() >= b@.len() { a@.len() } else { b@.len() },
        forall|j: int| 0 <= j < r@.len() ==> #[trigger] r@[j].value()
            == fmod::<F>(s.value() * (ca.value() * coeff(a@, j) + cb.value() * coeff(b@, j))),
{
    let len = if a.len() >= b.len() { a.len() } else { b.len() };
    let mut r: Vec<F> = Vec::new();
    let mut j: usize = 0;
    while j < len
        invariant
            len == if a@.len() >= b@.len() { a@.len() } else { b@.len() },
            0 <= j <= len,
            r@.len() == j,
            forall|t: int| 0 <= t < j ==> #[trigger] r@[t].value()
                == fmod::<F>(s.value() * (ca.value() * coeff(a@, t) + cb.value() * coeff(b@, t))),
        decreases len - j,
    {
        let av = if j < a.len() { a[j] } else { F::zero() };
        let bv = if j < b.len() { b[j] } else { F::zero() };
        let t1 = ca.mul(&av);
        let t2 = cb.mul(&bv);
        let t3 = t1.add(&t2);
        let v = s.mul(&t3);
        proof {
            let (sv, cav, cbv) = (s.value() as int, ca.value() as int, cb.value() as int);
            let (x, y) = (coeff(a@, j as int), coeff(b@, j as int));
            assert(av.value() == x && bv.value() == y);
            lemma_fmod_value(*s);
            lemma_fmod_value(*ca);
            lemma_fmod_value(*cb);
            lemma_fmod_value(av);
            lemma_fmod_value(bv);
            lemma_fmod_ops::<F>(cav, x);
            lemma_fmod_ops::<F>(cbv, y);
            lemma_fmod_ops::<F>(cav * x, cbv * y);
            lemma_fmod_ops::<F>(sv, cav * x + cbv * y);
        }
        r.push(v);
        j += 1;
    }
    r
}

/// The prover's linearized affine-addition constraints: with the register
/// evaluations at ζ fixed, the two conditional-addition constraints are
/// linear in the partial-sum polynomials `acc_x`, `acc_y`:
/// `(ζ - ω^(n-1))·(b(x1 - x2)²·acc_x + (1 - b)·acc_y)` and
/// `(ζ - ω^(n-1))·(b(x1 - x2)·acc_y + (b(y1 - y2) + 1 - b)·acc_x)`; the
/// other three constraints contribute the zero polynomial. Polynomials are
/// given by their coefficients.
pub fn compute_constraints_linearized<F: PrimeFieldElement>(
    evaluations: &AffineAdditionEvaluations<F>,
    zeta: &F,
    omega_inv: &F,
    acc_x_poly: &Vec<F>,
    acc_y_poly: &Vec<F>,
) -> (r: Vec<Vec<F>>)
    ensures
        r@.len() == 5,
        r@[2]@.len() == 0,
        r@[3]@.len() == 0,
        r@[4]@.len() == 0,
        ({
            let z = fmod::<F>(zeta.value() - omega_inv.value());
            let b = evaluations.bitmask.value() as int;
            let (x1, y1) = (evaluations.partial_sums.0.value() as int, evaluations.partial_sums.1.value() as int);
            let (x2, y2) = (evaluations.keyset.0.value() as int, evaluations.keyset.1.value() as int);
            let len = if acc_x_poly@.len() >= acc_y_poly@.len() { acc_x_poly@.len() } else { acc_y_poly@.len() };
            &&& r@[0]@.len() == len
            &&& r@[1]@.len() == len
            &&& forall|j: int| 0 <= j < len ==> #[trigger] r@[0]@[j].value() == fmod::<F>(z
                * (fmod::<F>(b * (x1 - x2) * (x1 - x2)) * coeff(acc_x_poly@, j) + fmod::<F>(1 - b) * coeff(acc_y_poly@, j)))
            &&& forall|j: int| 0 <= j < len ==> #[trigger] r@[1]@[j].value() == fmod::<F>(z
                * (fmod::<F>(b * (x1 - x2)) * coeff(acc_y_poly@, j) + fmod::<F>(b * (y1 - y2) + (1 - b)) * coeff(acc_x_poly@, j)))
        }),
{
    let b = evaluations.bitmask;
    let (x1, y1) = evaluations.partial_sums;
    let (x2, y2) = evaluations.keyset;
    let one = F::one();
    let z = zeta.sub(omega_inv);
    let dx = x1.sub(&x2);
    let dy = y1.sub(&y2);
    let omb = one.sub(&b);
    let c_y2 = b.mul(&dx);
    let c_x1 = c_y2.mul(&dx);
    let bdy = b.mul(&dy);
    let c_x2 = bdy.add(&omb);
    proof {
        let (bv, x1v, y1v, x2v, y2v) = (b.value() as int, x1.value() as int, y1.value() as int, x2.value() as int,
            y2.value() as int);
        lemma_fmod_value(b);
        lemma_fmod_value(x1);
        lemma_fmod_value(y1);
        lemma_fmod_value(x2);
        lemma_fmod_value(y2);
        lemma_fmod_value(one);
        lemma_fmod_ops::<F>(x1v, x2v);
        lemma_fmod_ops::<F>(y1v, y2v);
        lemma_fmod_ops::<F>(1, bv);
        lemma_fmod_ops::<F>(bv, x1v - x2v);
        lemma_fmod_value(c_y2);
        lemma_fmod_value(bdy);
        lemma_fmod_value(dx);
        lemma_fmod_value(omb);
        lemma_fmod_ops::<F>(zeta.value() as int, omega_inv.value() as int);
        lemma_fmod_value(*zeta);
        lemma_fmod_value(*omega_inv);
        lemma_fmod_ops::<F>(bv * (x1v - x2v), x1v - x2v);
        lemma_fmod_ops::<F>(bv, y1v - y2v);
        lemma_fmod_ops::<F>(bv * (y1v - y2v), 1 - bv);
    }
    let a1 = scaled_combination(&z, &c_x1, acc_x_poly, &omb, acc_y_poly);
    let a2 = scaled_combination(&z, &c_y2, acc_y_poly, &c_x2, acc_x_poly);
    vec![a1, a2, Vec::new(), Vec::new(), Vec::new()]
}

/// The prover's public-input constraint polynomials. The accumulator's
/// coordinates `x1`, `y1` and the evaluations `l_first`, `l_last` of the first
/// and last Lagrange polynomials are given on the `4n`-point domain; the
/// accumulator must start at `h = (x1_0, y1_0)` and end at
/// `apk + h = (x1_(4(n-1)), y1_(4(n-1)))`. The pointwise constraints
/// `(x1 - h_x)·l_first + (x1 - (apk + h)_x)·l_last` (and the same for `y`)
/// are interpolated over the domain; in a prime field each result takes
/// that value at every domain element.
pub fn compute_public_inputs_constraint_polynomials<F: PrimeFieldElement>(
    domain: &SmoothSubgroupDomain<F>,
    x1: &Vec<F>,
    y1: &Vec<F>,
    l_first: &Vec<F>,
    l_last: &Vec<F>,
) -> (r: (Vec<F>, Vec<F>))
    requires
        domain.wf(),
        domain.rader_ready(),
        domain.size <= usize::MAX,
        domain.size >= 4,
        domain.size % 4 == 0,
        x1@.len() == domain.size,
        y1@.len() == domain.size,
        l_first@.len() == domain.size,
        l_last@.len() == domain.size,
    ensures
        r.0@.len() == domain.size,
        r.1@.len() == domain.size,
        is_prime_spec(F::modulus()) ==> forall|i: int| 0 <= i < domain.size ==> {
            &&& poly_eval(field_values(r.0@), #[trigger] domain.element_value(i as nat)) % (F::modulus() as int)
                == fmod::<F>((x1@[i].value() - x1@[0].value()) * l_first@[i].value()
                    + (x1@[i].value() - x1@[domain.size - 4].value()) * l_last@[i].value())
            &&& poly_eval(field_values(r.1@), domain.element_value(i as nat)) % (F::modulus() as int)
                == fmod::<F>((y1@[i].value() - y1@[0].value()) * l_first@[i].value()
                    + (y1@[i].value() - y1@[domain.size - 4].value()) * l_last@[i].value())
        },
{
    let n = domain.size as usize;
    let h = (x1[0], y1[0]);
    let apk_plus_h = (x1[n - 4], y1[n - 4]);
    let zero = F::zero();
    let mut a4: Vec<F> = Vec::new();
    let mut a5: Vec<F> = Vec::new();
    let mut i: usize = 0;
    while i < n
        invariant
            n == domain.size,
            n >= 4,
            x1@.len() == n,
            y1@.len() == n,
            l_first@.len() == n,
            l_last@.len() == n,
            h == (x1@[0], y1@[0]),
            apk_plus_h == (x1@[n - 4], y1@[n - 4]),
            0 <= i <= n,
            a4@.len() == i,
            a5@.len() == i,
            forall|t: int| 0 <= t < i ==> #[trigger] a4@[t].value() == fmod::<F>((x1@[t].value() - x1@[0].value())
                * l_first@[t].value() + (x1@[t].value() - x1@[n - 4].value()) * l_last@[t].value()),
            forall|t: int| 0 <= t < i ==> #[trigger] a5@[t].value() == fmod::<F>((y1@[t].value() - y1@[0].value())
                * l_first@[t].value() + (y1@[t].value() - y1@[n - 4].value()) * l_last@[t].value()),
        decreases n - i,
    {
        let lagrange = LagrangeEvaluations {
            vanishing_polynomial: zero,
            l_first: l_first[i],
            l_last: l_last[i],
            zeta_minus_omega_inv: zero,
            zeta_omega: zero,
        };
        let (v4, v5) = evaluate_public_inputs_constraints(h, apk_plus_h, &lagrange, &x1[i], &y1[i]);
        a4.push(v4);
        a5.push(v5);
        i += 1;
    }
    let ghost a4_vals = a4@;
    let ghost a5_vals = a5@;
    domain.ifft_in_place(&mut a4);
    domain.ifft_in_place(&mut a5);
    proof {
        if is_prime_spec(F::modulus()) {
            assert forall|i: int| 0 <= i < domain.size implies {
                &&& poly_eval(field_values(a4@), #[trigger] domain.element_value(i as nat)) % (F::modulus() as int)
                    == fmod::<F>((x1@[i].value() - x1@[0].value()) * l_first@[i].value()
                        + (x1@[i].value() - x1@[domain.size - 4].value()) * l_last@[i].value())
                &&& poly_eval(field_values(a5@), domain.element_value(i as nat)) % (F::modulus() as int)
                    == fmod::<F>((y1@[i].value() - y1@[0].value()) * l_first@[i].value()
                        + (y1@[i].value() - y1@[domain.size - 4].value()) * l_last@[i].value())
            } by {
                lemma_ifft_interpolates(*domain, a4_vals, field_values(a4@), i as nat);
                lemma_ifft_interpolates(*domain, a5_vals, field_values(a5@), i as nat);
            }
        }
    }
    (a4, a5)
}

/// The first constraint on every row, reduced.
pub open spec fn constraint_rows_c1<F: PrimeFieldElement>(b: Seq<F>, x1: Seq<F>, y1: Seq<F>, x2: Seq<F>, y2: Seq<F>) -> Seq<int> {
    Seq::new(b.len(), |i: int| fmod::<F>(constraint_row_c1(b, x1, y1, x2, y2, i)))
}

/// The second constraint on every row, reduced.
pub open spec fn constraint_rows_c2<F: PrimeFieldElement>(b: Seq<F>, x1: Seq<F>, y1: Seq<F>, x2: Seq<F>, y2: Seq<F>) -> Seq<int> {
    Seq::new(b.len(), |i: int| fmod::<F>(constraint_row_c2(b, x1, y1, x2, y2, i)))
}

/// The prover's conditional affine addition constraint polynomials. The
/// registers are given by their values on the `4n`-point domain `domain`;
/// the two constraints are evaluated pointwise (the accumulator's next row
/// being 4 points ahead), interpolated over the domain, and multiplied by
/// the selector `X - ω^(n-1)` (`omega_inv`), which switches them off at the
/// last row. In a prime field each result is `(X - ω^(n-1))` times the
/// interpolant of its row values (so of degree at most `4n`), taking at the
/// domain element `e_i` the value `(e_i - ω^(n-1))·c(row i)`; both vanish
/// at `ω^(n-1)`.
pub fn compute_conditional_affine_addition_constraint_polynomials<F: PrimeFieldElement>(
    domain: &SmoothSubgroupDomain<F>,
    b: &Vec<F>,
    x1: &Vec<F>,
    y1: &Vec<F>,
    x2: &Vec<F>,
    y2: &Vec<F>,
    omega_inv: &F,
) -> (r: (Vec<F>, Vec<F>))
    requires
        domain.wf(),
        domain.rader_ready(),
        domain.size < usize::MAX,
        domain.size >= 4,
        domain.size % 4 == 0,
        b@.len() == domain.size,
        x1@.len() == domain.size,
        y1@.len() == domain.size,
        x2@.len() == domain.size,
        y2@.len() == domain.size,
    ensures
        r.0@.len() == domain.size + 1,
        r.1@.len() == domain.size + 1,
        poly_eval(field_values(r.0@), omega_inv.value() as int) % (F::modulus() as int) == 0,
        poly_eval(field_values(r.1@), omega_inv.value() as int) % (F::modulus() as int) == 0,
        is_prime_spec(F::modulus()) ==> field_values(r.0@) == Seq::new((domain.size + 1) as nat, |j: int|
            fmod::<F>(times_x_minus(domain.interpolant(constraint_rows_c1(b@, x1@, y1@, x2@, y2@)), omega_inv.value() as int)[j])),
        is_prime_spec(F::modulus()) ==> field_values(r.1@) == Seq::new((domain.size + 1) as nat, |j: int|
            fmod::<F>(times_x_minus(domain.interpolant(constraint_rows_c2(b@, x1@, y1@, x2@, y2@)), omega_inv.value() as int)[j])),
        is_prime_spec(F::modulus()) ==> forall|i: int| 0 <= i < domain.size ==> {
            &&& poly_eval(field_values(r.0@), #[trigger] domain.element_value(i as nat)) % (F::modulus() as int)
                == ((domain.element_value(i as nat) - omega_inv.value()) * constraint_row_c1(b@, x1@, y1@, x2@, y2@, i))
                    % (F::modulus() as int)
            &&& poly_eval(field_values(r.1@), domain.element_value(i as nat)) % (F::modulus() as int)
                == ((domain.element_value(i as nat) - omega_inv.value()) * constraint_row_c2(b@, x1@, y1@, x2@, y2@, i))
                    % (F::modulus() as int)
        },
{
    let n = domain.size as usize;
    let ghost m = F::modulus() as int;
    let one = F::one();
    let mut c1v: Vec<F> = Vec::new();
    let mut c2v: Vec<F> = Vec::new();
    let mut i: usize = 0;
    while i < n
        invariant
            n == domain.size,
            n >= 4,
            b@.len() == n,
            x1@.len() == n,
            y1@.len() == n,
            x2@.len() == n,
            y2@.len() == n,
            one.value() == 1,
            0 <= i <= n,
            c1v@.len() == i,
            c2v@.len() == i,
            forall|t: int| 0 <= t < i ==> #[trigger] c1v@[t].value()
                == fmod::<F>(constraint_row_c1(b@, x1@, y1@, x2@, y2@, t) * 1),
            forall|t: int| 0 <= t < i ==> #[trigger] c2v@[t].value()
                == fmod::<F>(constraint_row_c2(b@, x1@, y1@, x2@, y2@, t) * 1),
        decreases n - i,
    {
        let k = if i < n - 4 { i + 4 } else { i - (n - 4) };
        proof {
            if i < n - 4 {
                lemma_small_mod((i + 4) as nat, n as nat);
            } else {
                lemma_mod_multiples_vanish(1, (i - (n - 4)) as int, n as int);
                lemma_small_mod((i - (n - 4)) as nat, n as nat);
                assert((i + 4) as int == (n as int) * 1 + (i - (n - 4)) as int);
            }
        }
        let (v1, v2) = evaluate_conditional_affine_addition_constraints(&one, &b[i], &x1[i], &y1[i], &x2[i], &y2[i],
            &x1[k], &y1[k]);
        c1v.push(v1);
        c2v.push(v2);
        i += 1;
    }
    let ghost c1_vals = c1v@;
    let ghost c2_vals = c2v@;
    domain.ifft_in_place(&mut c1v);
    domain.ifft_in_place(&mut c2v);
    let r0 = mul_by_x_minus(&c1v, omega_inv);
    let r1 = mul_by_x_minus(&c2v, omega_inv);
    proof {
        let w = omega_inv.value() as int;
        F::lemma_field_basics(arbitrary());
        let p0 = field_values(c1v@);
        let p1 = field_values(c2v@);
        let t0 = times_x_minus(p0, w);
        let t1 = times_x_minus(p1, w);
        assert forall|j: int| 0 <= j < field_values(r0@).len() implies #[trigger] field_values(r0@)[j] % m == t0[j] % m by {
            lemma_mod_twice(t0[j], m);
        }
        assert forall|j: int| 0 <= j < field_values(r1@).len() implies #[trigger] field_values(r1@)[j] % m == t1[j] % m by {
            lemma_mod_twice(t1[j], m);
        }
        // the selector's root
        lemma_times_x_minus(p0, w, w);
        lemma_times_x_minus(p1, w, w);
        lemma_poly_eval_congruent(field_values(r0@), t0, w, m);
        lemma_poly_eval_congruent(field_values(r1@), t1, w, m);
        lemma_small_mod(0, m as nat);
        // the coefficients
        if is_prime_spec(F::modulus()) {
            let n_nat = domain.size as nat;
            let rows1 = constraint_rows_c1(b@, x1@, y1@, x2@, y2@);
            let rows2 = constraint_rows_c2(b@, x1@, y1@, x2@, y2@);
            assert forall|i: int| 0 <= i < n_nat implies #[trigger] padded(c1_vals, n_nat)[i] == rows1[i] by {
                assert(c1_vals[i].value() == fmod::<F>(constraint_row_c1(b@, x1@, y1@, x2@, y2@, i) * 1));
            }
            assert forall|i: int| 0 <= i < n_nat implies #[trigger] padded(c2_vals, n_nat)[i] == rows2[i] by {
                assert(c2_vals[i].value() == fmod::<F>(constraint_row_c2(b@, x1@, y1@, x2@, y2@, i) * 1));
            }
            assert(padded(c1_vals, n_nat) =~= rows1);
            assert(padded(c2_vals, n_nat) =~= rows2);
            assert(p0 =~= domain.interpolant(rows1));
            assert(p1 =~= domain.interpolant(rows2));
            assert(field_values(r0@) =~= Seq::new((domain.size + 1) as nat, |j: int| fmod::<F>(t0[j])));
            assert(field_values(r1@) =~= Seq::new((domain.size + 1) as nat, |j: int| fmod::<F>(t1[j])));
        }
        // the values on the domain
        if is_prime_spec(F::modulus()) {
            assert forall|i: int| 0 <= i < domain.size implies {
                &&& poly_eval(field_values(r0@), #[trigger] domain.element_value(i as nat)) % m
                    == ((domain.element_value(i as nat) - w) * constraint_row_c1(b@, x1@, y1@, x2@, y2@, i)) % m
                &&& poly_eval(field_values(r1@), domain.element_value(i as nat)) % m
                    == ((domain.element_value(i as nat) - w) * constraint_row_c2(b@, x1@, y1@, x2@, y2@, i)) % m
            } by {
                let e = domain.element_value(i as nat);
                lemma_ifft_interpolates(*domain, c1_vals, p0, i as nat);
                lemma_ifft_interpolates(*domain, c2_vals, p1, i as nat);
                lemma_times_x_minus(p0, w, e);
                lemma_times_x_minus(p1, w, e);
                lemma_poly_eval_congruent(field_values(r0@), t0, e, m);
                lemma_poly_eval_congruent(field_values(r1@), t1, e, m);
                let c1 = constraint_row_c1(b@, x1@, y1@, x2@, y2@, i);
                let c2 = constraint_row_c2(b@, x1@, y1@, x2@, y2@, i);
                assert(c1_vals[i].value() == fmod::<F>(c1 * 1));
                assert(c2_vals[i].value() == fmod::<F>(c2 * 1));
                lemma_mul_mod_noop_right(e - w, poly_eval(p0, e), m);
                lemma_mul_mod_noop_right(e - w, c1, m);
                lemma_mul_mod_noop_right(e - w, poly_eval(p1, e), m);
                lemma_mul_mod_noop_right(e - w, c2, m);
            }
        }
    }
    (r0, r1)
}

/// `b·(1 - b)`, zero exactly on bits.
pub fn evaluate_bitmask_booleanity_constraint<F: PrimeFieldElement>(bitmask_at_zeta: &F) -> (r: F)
    ensures
        r.value() == fmod::<F>(bitmask_at_zeta.value() * (1 - bitmask_at_zeta.value())),
{
    let one = F::one();
    let t = one.sub(bitmask_at_zeta);
    let r = bitmask_at_zeta.mul(&t);
    proof {
        let b = bitmask_at_zeta.value() as int;
        lemma_fmod_value(*bitmask_at_zeta);
        lemma_fmod_value(one);
        lemma_fmod_ops::<F>(1, b);
        lemma_fmod_ops::<F>(b, 1 - b);
    }
    r
}

/// The two conditional affine addition constraints at ζ, each multiplied
/// by the selector `ζ - ω^(n-1)` (given as `zeta_minus_omega_inv`): when
/// `b = 1`, `(x3, y3)` is the sum of `(x1, y1)` and `(x2, y2)`; when
/// `b = 0`, it equals `(x1, y1)`.
pub fn evaluate_conditional_affine_addition_constraints<F: PrimeFieldElement>(
    zeta_minus_omega_inv: &F,
    b: &F,
    x1: &F,
    y1: &F,
    x2: &F,
    y2: &F,
    x3: &F,
    y3: &F,
) -> (r: (F, F))
    ensures
        r.0.value() == fmod::<F>(affine_addition_c1(b.value() as int, x1.value() as int, y1.value() as int,
            x2.value() as int, y2.value() as int, x3.value() as int, y3.value() as int) * zeta_minus_omega_inv.value()),
        r.1.value() == fmod::<F>(affine_addition_c2(b.value() as int, x1.value() as int, y1.value() as int,
            x2.value() as int, y2.value() as int, x3.value() as int, y3.value() as int) * zeta_minus_omega_inv.value()),
{
    let ghost (bv, x1v, y1v, x2v, y2v, x3v, y3v, zv) = (b.value() as int, x1.value() as int, y1.value() as int,
        x2.value() as int, y2.value() as int, x3.value() as int, y3.value() as int, zeta_minus_omega_inv.value() as int);
    let one = F::one();
    proof {
        lemma_fmod_value(*b);
        lemma_fmod_value(*x1);
        lemma_fmod_value(*y1);
        lemma_fmod_value(*x2);
        lemma_fmod_value(*y2);
        lemma_fmod_value(*x3);
        lemma_fmod_value(*y3);
        lemma_fmod_value(*zeta_minus_omega_inv);
        lemma_fmod_value(one);
    }
    // c1
    let dx = x1.sub(x2);
    let dx2 = dx.mul(&dx);
    let sx = x1.add(x2);
    let sx3 = sx.add(x3);
    let t1 = dx2.mul(&sx3);
    let dy = y2.sub(y1);
    let dy2 = dy.mul(&dy);
    let u1 = t1.sub(&dy2);
    let v1 = b.mul(&u1);
    let omb = one.sub(b);
    let w1 = y3.sub(y1);
    let z1 = omb.mul(&w1);
    let c1 = v1.add(&z1);
    proof {
        lemma_fmod_ops::<F>(x1v, x2v);
        lemma_fmod_ops::<F>(x1v - x2v, x1v - x2v);
        lemma_fmod_ops::<F>(x1v, x2v);
        lemma_fmod_ops::<F>(x1v + x2v, x3v);
        lemma_fmod_ops::<F>((x1v - x2v) * (x1v - x2v), x1v + x2v + x3v);
        lemma_fmod_ops::<F>(y2v, y1v);
        lemma_fmod_ops::<F>(y2v - y1v, y2v - y1v);
        lemma_fmod_ops::<F>((x1v - x2v) * (x1v - x2v) * (x1v + x2v + x3v), (y2v - y1v) * (y2v - y1v));
        lemma_fmod_ops::<F>(bv, (x1v - x2v) * (x1v - x2v) * (x1v + x2v + x3v) - (y2v - y1v) * (y2v - y1v));
        lemma_fmod_ops::<F>(1, bv);
        lemma_fmod_ops::<F>(y3v, y1v);
        lemma_fmod_ops::<F>(1 - bv, y3v - y1v);
        lemma_fmod_ops::<F>(bv * ((x1v - x2v) * (x1v - x2v) * (x1v + x2v + x3v) - (y2v - y1v) * (y2v - y1v)),
            (1 - bv) * (y3v - y1v));
    }
    // c2
    let sy = y3.add(y1);
    let p1 = dx.mul(&sy);
    let ex = x3.sub(x1);
    let p2 = dy.mul(&ex);
    let u2 = p1.sub(&p2);
    let v2 = b.mul(&u2);
    let z2 = omb.mul(&ex);
    let c2 = v2.add(&z2);
    proof {
        lemma_fmod_ops::<F>(y3v, y1v);
        lemma_fmod_ops::<F>(x1v - x2v, y3v + y1v);
        lemma_fmod_ops::<F>(x3v, x1v);
        lemma_fmod_ops::<F>(y2v - y1v, x3v - x1v);
        lemma_fmod_ops::<F>((x1v - x2v) * (y3v + y1v), (y2v - y1v) * (x3v - x1v));
        lemma_fmod_ops::<F>(bv, (x1v - x2v) * (y3v + y1v) - (y2v - y1v) * (x3v - x1v));
        lemma_fmod_ops::<F>(1 - bv, x3v - x1v);
        lemma_fmod_ops::<F>(bv * ((x1v - x2v) * (y3v + y1v) - (y2v - y1v) * (x3v - x1v)), (1 - bv) * (x3v - x1v));
    }
    let r0 = c1.mul(zeta_minus_omega_inv);
    let r1 = c2.mul(zeta_minus_omega_inv);
    proof {
        lemma_fmod_ops::<F>(affine_addition_c1(bv, x1v, y1v, x2v, y2v, x3v, y3v), zv);
        lemma_fmod_ops::<F>(affine_addition_c2(bv, x1v, y1v, x2v, y2v, x3v, y3v), zv);
    }
    (r0, r1)
}

/// The constraints with the shifted registers `x3, y3` taken as zero: the
/// part of the constraints that does not depend on the next row.
pub fn evaluate_conditional_affine_addition_constraints_linearized<F: PrimeFieldElement>(
    zeta_minus_omega_inv: &F,
    b: &F,
    x1: &F,
    y1: &F,
    x2: &F,
    y2: &F,
) -> (r: (F, F))
    ensures
        r.0.value() == fmod::<F>(affine_addition_c1(b.value() as int, x1.value() as int, y1.value() as int,
            x2.value() as int, y2.value() as int, 0, 0) * zeta_minus_omega_inv.value()),
        r.1.value() == fmod::<F>(affine_addition_c2(b.value() as int, x1.value() as int, y1.value() as int,
            x2.value() as int, y2.value() as int, 0, 0) * zeta_minus_omega_inv.value()),
{
    let zero = F::zero();
    evaluate_conditional_affine_addition_constraints(zeta_minus_omega_inv, b, x1, y1, x2, y2, &zero, &zero)
}

/// The public-input constraints at ζ: the accumulator starts at the point
/// `h` (`l_first`) and ends at `apk + h` (`l_last`); the coordinates of `h`
/// and of `apk + h` are given.
pub fn evaluate_public_inputs_constraints<F: PrimeFieldElement>(
    h: (F, F),
    apk_plus_h: (F, F),
    evals_at_zeta: &LagrangeEvaluations<F>,
    x1: &F,
    y1: &F,
) -> (r: (F, F))
    ensures
        r.0.value() == fmod::<F>((x1.value() - h.0.value()) * evals_at_zeta.l_first.value()
            + (x1.value() - apk_plus_h.0.value()) * evals_at_zeta.l_last.value()),
        r.1.value() == fmod::<F>((y1.value() - h.1.value()) * evals_at_zeta.l_first.value()
            + (y1.value() - apk_plus_h.1.value()) * evals_at_zeta.l_last.value()),
{
    let lf = evals_at_zeta.l_first;
    let ll = evals_at_zeta.l_last;
    let a = x1.sub(&h.0).mul(&lf);
    let b = x1.sub(&apk_plus_h.0).mul(&ll);
    let c1 = a.add(&b);
    let d = y1.sub(&h.1).mul(&lf);
    let e = y1.sub(&apk_plus_h.1).mul(&ll);
    let c2 = d.add(&e);
    proof {
        let (x1v, y1v, hx, hy, ax, ay, lfv, llv) = (x1.value() as int, y1.value() as int, h.0.value() as int,
            h.1.value() as int, apk_plus_h.0.value() as int, apk_plus_h.1.value() as int, lf.value() as int,
            ll.value() as int);
        lemma_fmod_value(*x1);
        lemma_fmod_value(*y1);
        lemma_fmod_value(h.0);
        lemma_fmod_value(h.1);
        lemma_fmod_value(apk_plus_h.0);
        lemma_fmod_value(apk_plus_h.1);
        lemma_fmod_value(lf);
        lemma_fmod_value(ll);
        lemma_fmod_ops::<F>(x1v, hx);
        lemma_fmod_ops::<F>(x1v - hx, lfv);
        lemma_fmod_ops::<F>(x1v, ax);
        lemma_fmod_ops::<F>(x1v - ax, llv);
        lemma_fmod_ops::<F>((x1v - hx) * lfv, (x1v - ax) * llv);
        lemma_fmod_ops::<F>(y1v, hy);
        lemma_fmod_ops::<F>(y1v - hy, lfv);
        lemma_fmod_ops::<F>(y1v, ay);
        lemma_fmod_ops::<F>(y1v - ay, llv);
        lemma_fmod_ops::<F>((y1v - hy) * lfv, (y1v - ay) * llv);
    }
    (c1, c2)
}

impl<F: PrimeFieldElement> AffineAdditionEvaluations<F> {
    /// `r` holds the five affine-addition constraints at ζ (see
    /// `evaluate_constraint_polynomials`).
    pub open spec fn are_constraint_values(
        &self,
        h: (F, F),
        apk_plus_h: (F, F),
        evals_at_zeta: LagrangeEvaluations<F>,
        r: Seq<F>,
    ) -> bool {
        &&& r.len() == 5
        &&& r[0].value() == fmod::<F>(affine_addition_c1(self.bitmask.value() as int,
            self.partial_sums.0.value() as int, self.partial_sums.1.value() as int,
            self.keyset.0.value() as int, self.keyset.1.value() as int, 0, 0)
            * evals_at_zeta.zeta_minus_omega_inv.value())
        &&& r[1].value() == fmod::<F>(affine_addition_c2(self.bitmask.value() as int,
            self.partial_sums.0.value() as int, self.partial_sums.1.value() as int,
            self.keyset.0.value() as int, self.keyset.1.value() as int, 0, 0)
            * evals_at_zeta.zeta_minus_omega_inv.value())
        &&& r[2].value() == fmod::<F>(self.bitmask.value() * (1 - self.bitmask.value()))
        &&& r[3].value() == fmod::<F>((self.partial_sums.0.value() - h.0.value()) * evals_at_zeta.l_first.value()
            + (self.partial_sums.0.value() - apk_plus_h.0.value()) * evals_at_zeta.l_last.value())
        &&& r[4].value() == fmod::<F>((self.partial_sums.1.value() - h.1.value()) * evals_at_zeta.l_first.value()
            + (self.partial_sums.1.value() - apk_plus_h.1.value()) * evals_at_zeta.l_last.value())
    }

    /// The five affine-addition constraints at ζ: the two linearized
    /// conditional-addition constraints, bitmask booleanity, and the two
    /// public-input constraints (given the coordinates of `h` and `apk + h`).
    pub fn evaluate_constraint_polynomials(
        &self,
        h: (F, F),
        apk_plus_h: (F, F),
        evals_at_zeta: &LagrangeEvaluations<F>,
    ) -> (r: Vec<F>)
        ensures
            self.are_constraint_values(h, apk_plus_h, *evals_at_zeta, r@),
    {
        let b = self.bitmask;
        let (x1, y1) = self.partial_sums;
        let (x2, y2) = self.keyset;
        let (a1, a2) = evaluate_conditional_affine_addition_constraints_linearized(
            &evals_at_zeta.zeta_minus_omega_inv, &b, &x1, &y1, &x2, &y2);
        let a3 = evaluate_bitmask_booleanity_constraint(&b);
        let (a4, a5) = evaluate_public_inputs_constraints(h, apk_plus_h, evals_at_zeta, &x1, &y1);
        vec![a1, a2, a3, a4, a5]
    }
}

/// The scalar of the commitment to the accumulator's `x` register in the
/// linearization polynomial: `(ζ - ω^(n-1))·(b(x1-x2)² + b(y1-y2)φ + (1-b)φ)`.
pub open spec fn linearization_x_scalar(b: int, x1: int, y1: int, x2: int, y2: int, phi: int, z: int) -> int {
    z * (b * (x1 - x2) * (x1 - x2) + b * (y1 - y2) * phi + (1 - b) * phi)
}

/// The scalar of the commitment to the accumulator's `y` register in the
/// linearization polynomial: `(ζ - ω^(n-1))·((1-b) + b(x1-x2)φ)`.
pub open spec fn linearization_y_scalar(b: int, x1: int, y1: int, x2: int, y2: int, phi: int, z: int) -> int {
    z * ((1 - b) + b * (x1 - x2) * phi)
}

/// The restored linearization commitment accounts exactly for the next row:
/// with the verifier's evaluations `b, x1, y1, x2, y2` fixed, the part of the
/// aggregated constraint `z·(c1 + φ·c2)` that depends on the next
/// accumulator `(x3, y3)` is `s_x·x3 + s_y·y3`, where `s_x`, `s_y` are the
/// scalars of the partial-sum commitments. So the linearized evaluation
/// (with `x3 = y3 = 0`) plus the restored terms is the full constraint.
pub proof fn lemma_linearization_scalars_restore_constraints(
    b: int,
    x1: int,
    y1: int,
    x2: int,
    y2: int,
    x3: int,
    y3: int,
    phi: int,
    z: int,
)
    ensures
        z * affine_addition_c1(b, x1, y1, x2, y2, x3, y3) + phi * (z * affine_addition_c2(b, x1, y1, x2, y2, x3, y3))
            == z * affine_addition_c1(b, x1, y1, x2, y2, 0, 0) + phi * (z * affine_addition_c2(b, x1, y1, x2, y2, 0, 0))
                + linearization_x_scalar(b, x1, y1, x2, y2, phi, z) * x3
                + linearization_y_scalar(b, x1, y1, x2, y2, phi, z) * y3,
{
    let d1 = affine_addition_c1(b, x1, y1, x2, y2, x3, y3) - affine_addition_c1(b, x1, y1, x2, y2, 0, 0);
    let d2 = affine_addition_c2(b, x1, y1, x2, y2, x3, y3) - affine_addition_c2(b, x1, y1, x2, y2, 0, 0);
    assert(d1 == b * (x1 - x2) * (x1 - x2) * x3 + (1 - b) * y3) by (nonlinear_arith)
        requires
            d1 == (b * ((x1 - x2) * (x1 - x2) * (x1 + x2 + x3) - (y2 - y1) * (y2 - y1)) + (1 - b) * (y3 - y1))
                - (b * ((x1 - x2) * (x1 - x2) * (x1 + x2 + 0) - (y2 - y1) * (y2 - y1)) + (1 - b) * (0 - y1));
    let u = x1 - x2;
    let v = y2 - y1;
    let p2 = u * (y3 + y1) - v * (x3 - x1);
    let q2 = u * (0 + y1) - v * (0 - x1);
    assert(p2 - q2 == u * y3 - v * x3) by (nonlinear_arith)
        requires p2 == u * (y3 + y1) - v * (x3 - x1), q2 == u * (0 + y1) - v * (0 - x1);
    assert(b * p2 - b * q2 == b * (u * y3 - v * x3)) by (nonlinear_arith)
        requires p2 - q2 == u * y3 - v * x3;
    assert((1 - b) * (x3 - x1) - (1 - b) * (0 - x1) == (1 - b) * x3) by (nonlinear_arith);
    assert(d2 == b * (u * y3 - v * x3) + (1 - b) * x3);
    let cx = b * u * u + b * (y1 - y2) * phi + (1 - b) * phi;
    let cy = (1 - b) + b * u * phi;
    assert(z * d1 == z * (b * u * u) * x3 + z * (1 - b) * y3) by (nonlinear_arith)
        requires d1 == b * u * u * x3 + (1 - b) * y3;
    let w2 = b * (y1 - y2) + (1 - b);
    let bu = b * u;
    assert(d2 == bu * y3 + w2 * x3) by (nonlinear_arith)
        requires d2 == b * (u * y3 - v * x3) + (1 - b) * x3, v == y2 - y1, w2 == b * (y1 - y2) + (1 - b), bu == b * u;
    assert(phi * (z * d2) == z * (bu * phi) * y3 + z * (w2 * phi) * x3) by (nonlinear_arith)
        requires d2 == bu * y3 + w2 * x3;
    assert(b * u * phi == bu * phi);
    assert(z * (b * u * phi) * y3 == z * (bu * phi) * y3);
    assert(z * ((b * (y1 - y2) + (1 - b)) * phi) * x3 == z * (w2 * phi) * x3);
    assert(z * cx * x3 == z * (b * u * u) * x3 + z * ((b * (y1 - y2) + (1 - b)) * phi) * x3) by (nonlinear_arith)
        requires cx == b * u * u + b * (y1 - y2) * phi + (1 - b) * phi;
    assert(z * cy * y3 == z * (1 - b) * y3 + z * (b * u * phi) * y3) by (nonlinear_arith)
        requires cy == (1 - b) + b * u * phi;
    assert(linearization_x_scalar(b, x1, y1, x2, y2, phi, z) * x3 == z * cx * x3) by (nonlinear_arith)
        requires linearization_x_scalar(b, x1, y1, x2, y2, phi, z) == z * cx;
    assert(linearization_y_scalar(b, x1, y1, x2, y2, phi, z) * y3 == z * cy * y3) by (nonlinear_arith)
        requires linearization_y_scalar(b, x1, y1, x2, y2, phi, z) == z * cy;
    assert(z * affine_addition_c1(b, x1, y1, x2, y2, x3, y3) == z * affine_addition_c1(b, x1, y1, x2, y2, 0, 0) + z * d1)
        by (nonlinear_arith) requires d1 == affine_addition_c1(b, x1, y1, x2, y2, x3, y3) - affine_addition_c1(b, x1, y1, x2, y2, 0, 0);
    assert(phi * (z * affine_addition_c2(b, x1, y1, x2, y2, x3, y3))
        == phi * (z * affine_addition_c2(b, x1, y1, x2, y2, 0, 0)) + phi * (z * d2))
        by (nonlinear_arith) requires d2 == affine_addition_c2(b, x1, y1, x2, y2, x3, y3) - affine_addition_c2(b, x1, y1, x2, y2, 0, 0);
}

/// The public-input entries anchor the accumulator: in the first row
/// (`L_first = 1`, `L_last = 0`) they vanish exactly when the accumulator is
/// at `h`, and in the last row (`L_first = 0`, `L_last = 1`) exactly when it
/// is at `apk + h`.
pub proof fn lemma_public_input_constraints_anchor<F: PrimeFieldElement>(
    e: AffineAdditionEvaluations<F>,
    h: (F, F),
    apk_plus_h: (F, F),
    evals_at_zeta: LagrangeEvaluations<F>,
    r: Seq<F>,
)
    requires
        e.are_constraint_values(h, apk_plus_h, evals_at_zeta, r),
    ensures
        evals_at_zeta.l_first.value() == 1 && evals_at_zeta.l_last.value() == 0 ==> ((r[3].value() == 0
            && r[4].value() == 0) <==> (e.partial_sums.0.value() == h.0.value() && e.partial_sums.1.value() == h.1.value())),
        evals_at_zeta.l_first.value() == 0 && evals_at_zeta.l_last.value() == 1 ==> ((r[3].value() == 0
            && r[4].value() == 0) <==> (e.partial_sums.0.value() == apk_plus_h.0.value()
            && e.partial_sums.1.value() == apk_plus_h.1.value())),
{
    let (x1, y1) = (e.partial_sums.0.value() as int, e.partial_sums.1.value() as int);
    let (hx, hy) = (h.0.value() as int, h.1.value() as int);
    let (ax, ay) = (apk_plus_h.0.value() as int, apk_plus_h.1.value() as int);
    F::lemma_field_basics(e.partial_sums.0);
    F::lemma_field_basics(e.partial_sums.1);
    F::lemma_field_basics(h.0);
    F::lemma_field_basics(h.1);
    F::lemma_field_basics(apk_plus_h.0);
    F::lemma_field_basics(apk_plus_h.1);
    lemma_fmod_sub_zero::<F>(x1, hx);
    lemma_fmod_sub_zero::<F>(y1, hy);
    lemma_fmod_sub_zero::<F>(x1, ax);
    lemma_fmod_sub_zero::<F>(y1, ay);
    if evals_at_zeta.l_first.value() == 1 && evals_at_zeta.l_last.value() == 0 {
        assert((x1 - hx) * 1 + (x1 - ax) * 0 == x1 - hx) by (nonlinear_arith);
        assert((y1 - hy) * 1 + (y1 - ay) * 0 == y1 - hy) by (nonlinear_arith);
        if fmod::<F>(x1) == fmod::<F>(hx) {
            lemma_fmod_canonical_eq::<F>(x1, hx);
        }
        if fmod::<F>(y1) == fmod::<F>(hy) {
            lemma_fmod_canonical_eq::<F>(y1, hy);
        }
    }
    if evals_at_zeta.l_first.value() == 0 && evals_at_zeta.l_last.value() == 1 {
        assert((x1 - hx) * 0 + (x1 - ax) * 1 == x1 - ax) by (nonlinear_arith);
        assert((y1 - hy) * 0 + (y1 - ay) * 1 == y1 - ay) by (nonlinear_arith);
        if fmod::<F>(x1) == fmod::<F>(ax) {
            lemma_fmod_canonical_eq::<F>(x1, ax);
        }
        if fmod::<F>(y1) == fmod::<F>(ay) {
            lemma_fmod_canonical_eq::<F>(y1, ay);
        }
    }
}

impl<F: PrimeFieldElement> AffineAdditionEvaluations<F> {
    /// The two scalars of the linearization commitment, for the `x` and `y`
    /// partial-sum commitments.
    pub fn linearization_scalars(&self, phi: &F, zeta_minus_omega_inv: &F) -> (r: (F, F))
        ensures
            r.0.value() == fmod::<F>(linearization_x_scalar(self.bitmask.value() as int,
                self.partial_sums.0.value() as int, self.partial_sums.1.value() as int,
                self.keyset.0.value() as int, self.keyset.1.value() as int, phi.value() as int,
                zeta_minus_omega_inv.value() as int)),
            r.1.value() == fmod::<F>(linearization_y_scalar(self.bitmask.value() as int,
                self.partial_sums.0.value() as int, self.partial_sums.1.value() as int,
                self.keyset.0.value() as int, self.keyset.1.value() as int, phi.value() as int,
                zeta_minus_omega_inv.value() as int)),
    {
        let b = self.bitmask;
        let (x1, y1) = self.partial_sums;
        let (x2, y2) = self.keyset;
        let one = F::one();
        let ghost (bv, x1v, y1v, x2v, y2v, pv, zv) = (b.value() as int, x1.value() as int, y1.value() as int,
            x2.value() as int, y2.value() as int, phi.value() as int, zeta_minus_omega_inv.value() as int);
        proof {
            lemma_fmod_value(b);
            lemma_fmod_value(x1);
            lemma_fmod_value(y1);
            lemma_fmod_value(x2);
            lemma_fmod_value(y2);
            lemma_fmod_value(*phi);
            lemma_fmod_value(*zeta_minus_omega_inv);
            lemma_fmod_value(one);
        }
        let dx = x1.sub(&x2);
        let dy = y1.sub(&y2);
        let omb = one.sub(&b);
        let t1 = b.mul(&dx).mul(&dx);
        let t2 = b.mul(&dy).mul(phi);
        let t3 = omb.mul(phi);
        let sx = t1.add(&t2).add(&t3);
        let s0 = zeta_minus_omega_inv.mul(&sx);
        proof {
            lemma_fmod_ops::<F>(x1v, x2v);
            lemma_fmod_ops::<F>(y1v, y2v);
            lemma_fmod_ops::<F>(1, bv);
            lemma_fmod_ops::<F>(bv, x1v - x2v);
            lemma_fmod_ops::<F>(bv * (x1v - x2v), x1v - x2v);
            lemma_fmod_ops::<F>(bv, y1v - y2v);
            lemma_fmod_ops::<F>(bv * (y1v - y2v), pv);
            lemma_fmod_ops::<F>(1 - bv, pv);
            lemma_fmod_ops::<F>(bv * (x1v - x2v) * (x1v - x2v), bv * (y1v - y2v) * pv);
            lemma_fmod_ops::<F>(bv * (x1v - x2v) * (x1v - x2v) + bv * (y1v - y2v) * pv, (1 - bv) * pv);
            lemma_fmod_ops::<F>(zv, bv * (x1v - x2v) * (x1v - x2v) + bv * (y1v - y2v) * pv + (1 - bv) * pv);
        }
        let t4 = b.mul(&dx).mul(phi);
        let sy = omb.add(&t4);
        let s1 = zeta_minus_omega_inv.mul(&sy);
        proof {
            lemma_fmod_ops::<F>(bv * (x1v - x2v), pv);
            lemma_fmod_ops::<F>(1 - bv, bv * (x1v - x2v) * pv);
            lemma_fmod_ops::<F>(zv, (1 - bv) + bv * (x1v - x2v) * pv);
        }
        (s0, s1)
    }
}

impl<F: PrimeFieldElement, G: Copy> VerifierProtocol<F, G> for AffineAdditionEvaluations<F> {
    type C1 = PartialSumsCommitments<G>;
    type C2 = ();

    open spec fn polys_opened_at_zeta_spec() -> nat {
        5
    }

    fn polys_opened_at_zeta() -> (r: usize) {
        5
    }

    /// The linearization commitment is `s_x·C(acc_x) + s_y·C(acc_y)`.
    fn restore_commitment_to_linearization_polynomial(
        &self,
        phi: &F,
        zeta_minus_omega_inv: &F,
        commitments: &PartialSumsCommitments<G>,
        _extra_commitments: &(),
    ) -> (r: Vec<(F, G)>)
        ensures
            r@.len() == 2,
            r@[0].1 == commitments.0,
            r@[1].1 == commitments.1,
            r@[0].0.value() == fmod::<F>(linearization_x_scalar(self.bitmask.value() as int,
                self.partial_sums.0.value() as int, self.partial_sums.1.value() as int,
                self.keyset.0.value() as int, self.keyset.1.value() as int, phi.value() as int,
                zeta_minus_omega_inv.value() as int)),
            r@[1].0.value() == fmod::<F>(linearization_y_scalar(self.bitmask.value() as int,
                self.partial_sums.0.value() as int, self.partial_sums.1.value() as int,
                self.keyset.0.value() as int, self.keyset.1.value() as int, phi.value() as int,
                zeta_minus_omega_inv.value() as int)),
    {
        let (s0, s1) = self.linearization_scalars(phi, zeta_minus_omega_inv);
        vec![(s0, commitments.0), (s1, commitments.1)]
    }
}

} // verus!
