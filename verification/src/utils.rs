//! Small field utilities: powers of an element and polynomial evaluation.
use vstd::prelude::*;
use vstd::arithmetic::div_mod::*;
use vstd::arithmetic::power::*;
use crate::field::{PrimeFieldElement, fmod, lemma_fmod_ops, lemma_fmod_value};
use crate::sums::{sum, lemma_sum_split, lemma_sum_scale, lemma_sum_ext, lemma_sum_congruent};

verus! {

/// `[1, x, x², …, x^n]`.
pub fn powers<F: PrimeFieldElement>(x: &F, n: usize) -> (r: Vec<F>)
    requires
        n < usize::MAX,
    ensures
        r@.len() == n + 1,
        forall|i: int| 0 <= i <= n ==> #[trigger] r@[i].value() == fmod::<F>(pow(x.value() as int, i as nat)),
{
    let ghost xv = x.value() as int;
    let mut r: Vec<F> = Vec::new();
    let mut cur = F::one();
    let mut i: usize = 0;
    proof {
        lemma_fmod_value(*x);
        lemma_fmod_value(cur);
        lemma_pow0(xv);
    }
    while i <= n
        invariant
            xv == x.value() as int,
            F::modulus() > 0,
            n < usize::MAX,
            0 <= i <= n + 1,
            r@.len() == i,
            cur.value() == fmod::<F>(pow(xv, i as nat)),
            forall|t: int| 0 <= t < i ==> #[trigger] r@[t].value() == fmod::<F>(pow(xv, t as nat)),
        decreases n + 1 - i,
    {
        r.push(cur);
        let next = cur.mul(x);
        proof {
            lemma_fmod_ops::<F>(pow(xv, i as nat), xv);
            lemma_fmod_value(*x);
            lemma_pow_adds(xv, i as nat, 1);
            lemma_pow1(xv);
        }
        cur = next;
        i += 1;
    }
    r
}

/// `Σ_i v_i · x^i`, in Horner form.
pub open spec fn poly_eval(v: Seq<int>, x: int) -> int
    decreases v.len(),
{
    if v.len() == 0 {
        0
    } else {
        v[0] + x * poly_eval(v.drop_first(), x)
    }
}

/// Horner's form is the sum `Σ_i v_i · x^i`.
pub proof fn lemma_poly_eval_is_sum(v: Seq<int>, x: int)
    ensures
        poly_eval(v, x) == sum(|i: int| v[i] * pow(x, i as nat), v.len()),
    decreases v.len(),
{
    if v.len() > 0 {
        let rest = v.drop_first();
        let n1 = rest.len();
        lemma_poly_eval_is_sum(rest, x);
        let f = |i: int| v[i] * pow(x, i as nat);
        let g = |i: int| rest[i] * pow(x, i as nat);
        lemma_sum_split(f, 1, n1);
        lemma_pow0(x);
        assert(sum(f, 0) == 0);
        assert(sum(f, 1) == v[0] * pow(x, 0));
        assert(v[0] * 1 == v[0]);
        assert forall|i: int| 0 <= i < n1 implies #[trigger] f(1 + i) == x * g(i) by {
            lemma_pow_adds(x, 1, i as nat);
            lemma_pow1(x);
            assert(v[1 + i] == rest[i]);
            assert(rest[i] * (x * pow(x, i as nat)) == x * (rest[i] * pow(x, i as nat))) by (nonlinear_arith);
        }
        lemma_sum_ext(|i: int| f(1 + i), |i: int| x * g(i), n1);
        lemma_sum_scale(g, x, n1);
        assert(1 + n1 == v.len());
    }
}

/// The values of a sequence of field elements, as integers.
pub open spec fn field_values<F: PrimeFieldElement>(s: Seq<F>) -> Seq<int> {
    Seq::new(s.len(), |i: int| s[i].value() as int)
}

/// `Σ_i evals_i · x^i` by Horner's rule.
pub fn horner_field<F: PrimeFieldElement>(evals: &Vec<F>, x: &F) -> (r: F)
    ensures
        r.value() == fmod::<F>(poly_eval(field_values(evals@), x.value() as int)),
{
    let n = evals.len();
    let ghost v = field_values(evals@);
    let ghost xv = x.value() as int;
    let mut acc = F::zero();
    let mut i: usize = n;
    proof {
        lemma_fmod_value(acc);
        assert(v.skip(n as int) =~= Seq::<int>::empty());
    }
    while i > 0
        invariant
            n == evals@.len(),
            v == field_values(evals@),
            xv == x.value() as int,
            F::modulus() > 0,
            0 <= i <= n,
            acc.value() == fmod::<F>(poly_eval(v.skip(i as int), xv)),
        decreases i,
    {
        i -= 1;
        let t = acc.mul(x);
        let next = t.add(&evals[i]);
        proof {
            let rest = poly_eval(v.skip(i + 1), xv);
            lemma_fmod_value(*x);
            lemma_fmod_value(evals@[i as int]);
            lemma_fmod_ops::<F>(rest, xv);
            lemma_fmod_ops::<F>(rest * xv, v[i as int]);
            assert(v.skip(i as int).drop_first() =~= v.skip(i + 1));
            assert(v.skip(i as int)[0] == v[i as int]);
            vstd::arithmetic::mul::lemma_mul_is_commutative(rest, xv);
        }
        acc = next;
    }
    proof {
        assert(v.skip(0) =~= v);
    }
    acc
}

/// The coefficients of `(X - w)·p`: `r_0 = -w·p_0`, `r_j = p_{j-1} - w·p_j`,
/// and `r_n = p_{n-1}` for `p` of length `n`.
pub open spec fn times_x_minus(p: Seq<int>, w: int) -> Seq<int> {
    Seq::new(p.len() + 1, |j: int| (if j >= 1 { p[j - 1] } else { 0 }) - w * (if j < p.len() { p[j] } else { 0 }))
}

/// Multiplying by `X - w` multiplies every evaluation by `x - w`.
pub proof fn lemma_times_x_minus(p: Seq<int>, w: int, x: int)
    ensures
        poly_eval(times_x_minus(p, w), x) == (x - w) * poly_eval(p, x),
    decreases p.len(),
{
    let q = times_x_minus(p, w);
    if p.len() == 0 {
        assert(q.drop_first().len() == 0);
        assert(poly_eval(q.drop_first(), x) == 0);
        assert(q[0] == 0 - w * 0);
    } else {
        let p1 = p.drop_first();
        let q1 = times_x_minus(p1, w);
        lemma_times_x_minus(p1, w, x);
        let q1u = q1.update(0, q1[0] + p[0]);
        assert(q.drop_first() =~= q1u);
        assert(q1u.drop_first() =~= q1.drop_first());
        let a = poly_eval(p1, x);
        let b = poly_eval(q1.drop_first(), x);
        assert(poly_eval(q1, x) == q1[0] + x * b);
        assert(poly_eval(q1u, x) == q1[0] + p[0] + x * b);
        assert(poly_eval(q, x) == q[0] + x * poly_eval(q1u, x));
        assert(q[0] == 0 - w * p[0]);
        assert(poly_eval(p, x) == p[0] + x * a);
        assert((0 - w * p[0]) + x * ((x - w) * a + p[0]) == (x - w) * (p[0] + x * a)) by (nonlinear_arith);
    }
}

/// Coefficients congruent modulo `m` give congruent evaluations.
pub proof fn lemma_poly_eval_congruent(r: Seq<int>, q: Seq<int>, x: int, m: int)
    requires
        m > 0,
        r.len() == q.len(),
        forall|j: int| 0 <= j < r.len() ==> #[trigger] r[j] % m == q[j] % m,
    ensures
        poly_eval(r, x) % m == poly_eval(q, x) % m,
{
    lemma_poly_eval_is_sum(r, x);
    lemma_poly_eval_is_sum(q, x);
    assert forall|j: int| 0 <= j < r.len() implies #[trigger] (r[j] * pow(x, j as nat)) % m
        == (q[j] * pow(x, j as nat)) % m by {
        lemma_mul_mod_noop_left(r[j], pow(x, j as nat), m);
        lemma_mul_mod_noop_left(q[j], pow(x, j as nat), m);
    }
    lemma_sum_congruent(|j: int| r[j] * pow(x, j as nat), |j: int| q[j] * pow(x, j as nat), r.len(), m);
}

/// The coefficients of `(X - w)·p` for a polynomial `p` given by its
/// coefficients.
pub fn mul_by_x_minus<F: PrimeFieldElement>(p: &Vec<F>, w: &F) -> (r: Vec<F>)
    requires
        p@.len() < usize::MAX,
    ensures
        r@.len() == p@.len() + 1,
        forall|j: int| 0 <= j <= p@.len() ==> #[trigger] r@[j].value()
            == fmod::<F>(times_x_minus(field_values(p@), w.value() as int)[j]),
{
    let n = p.len();
    let ghost pv = field_values(p@);
    let ghost wv = w.value() as int;
    let mut r: Vec<F> = Vec::new();
    let mut j: usize = 0;
    while j <= n
        invariant
            n == p@.len(),
            n < usize::MAX,
            pv == field_values(p@),
            wv == w.value() as int,
            0 <= j <= n + 1,
            r@.len() == j,
            forall|t: int| 0 <= t < j ==> #[trigger] r@[t].value() == fmod::<F>(times_x_minus(pv, wv)[t]),
        decreases n + 1 - j,
    {
        let a = if j >= 1 { p[j - 1] } else { F::zero() };
        let b = if j < n { p[j] } else { F::zero() };
        let wb = w.mul(&b);
        let v = a.sub(&wb);
        proof {
            let av = a.value() as int;
            let bv = b.value() as int;
            assert(av == (if j >= 1 { pv[j - 1] } else { 0 }));
            assert(bv == (if j < n { pv[j as int] } else { 0 }));
            lemma_fmod_value(a);
            lemma_fmod_value(*w);
            lemma_fmod_value(b);
            lemma_fmod_ops::<F>(wv, bv);
            lemma_fmod_value(wb);
            lemma_fmod_ops::<F>(av, wv * bv);
        }
        r.push(v);
        j += 1;
    }
    r
}

} // verus!
