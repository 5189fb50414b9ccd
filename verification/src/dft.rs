//! The discrete Fourier transform over the integers modulo `m`, and the
//! index arithmetic behind the fast transforms.
use vstd::prelude::*;
use vstd::arithmetic::div_mod::*;
use vstd::arithmetic::mul::*;
use vstd::arithmetic::power::*;
use crate::sums::{sum, lemma_sum_ext, lemma_sum_congruent, lemma_sum_scale, lemma_sum_blocks, lemma_sum_swap, lemma_sum_permute, lemma_sum_split};
use crate::number_theory::{is_prime_spec, passes_root_test, lemma_fermat, lemma_primitive_root_order, lemma_euclid, lemma_prime_divides_pow,
    gcd, lemma_coprime_divides, lemma_coprime_product_divides, lemma_gcd_one_symmetric};

verus! {

/// `Σ_{j < i} v_j · w^(j k)` over the integers.
pub open spec fn dft_sum(v: Seq<int>, w: nat, k: nat, i: nat) -> int
    decreases i,
{
    if i == 0 {
        0
    } else {
        dft_sum(v, w, k, (i - 1) as nat) + v[i - 1] * pow(w as int, ((i - 1) * k) as nat)
    }
}

/// The summand `v_j · w^(j k)` as a function of `j`.
pub open spec fn dft_term(v: Seq<int>, w: int, k: nat) -> spec_fn(int) -> int {
    |j: int| v[j] * pow(w, (j * k) as nat)
}

pub proof fn lemma_dft_sum_is_sum(v: Seq<int>, w: nat, k: nat, i: nat)
    ensures
        dft_sum(v, w, k, i) == sum(dft_term(v, w as int, k), i),
    decreases i,
{
    if i > 0 {
        lemma_dft_sum_is_sum(v, w, k, (i - 1) as nat);
    }
}

/// Powers of congruent bases, and powers of powers, agree modulo `m`:
/// `(w^s mod m)^t ≡ w^(s t)`.
pub proof fn lemma_pow_of_reduced_pow(w: int, s: nat, t: nat, m: int)
    requires
        m > 0,
    ensures
        pow(pow(w, s) % m, t) % m == pow(w, s * t) % m,
{
    lemma_pow_mod_noop(pow(w, s), t, m);
    lemma_pow_multiplies(w, s, t);
}

/// `w^(e + q n) ≡ w^e` when `w^n ≡ 1`.
pub proof fn lemma_pow_period(w: int, e: nat, n: nat, q: nat, m: int)
    requires
        m > 0,
        pow(w, n) % m == 1int % m,
    ensures
        pow(w, e + n * q) % m == pow(w, e) % m,
{
    lemma_pow_adds(w, e, n * q);
    lemma_pow_multiplies(w, n, q);
    lemma_pow_mod_noop(pow(w, n), q, m);
    lemma_pow_mod_noop(1, q, m);
    lemma_pow1_any(q);
    lemma_mul_mod_noop(pow(w, e), pow(w, n * q), m);
    lemma_mul_mod_noop(pow(w, e), 1, m);
    lemma_mul_basics(pow(w, e));
    lemma_mod_twice(pow(w, e), m);
    lemma_mod_twice(1, m);
}

proof fn lemma_pow1_any(q: nat)
    ensures
        pow(1, q) == 1,
    decreases q,
{
    reveal(pow);
    if q > 0 {
        lemma_pow1_any((q - 1) as nat);
    }
}

/// The Cooley-Tukey recombination. With `n = n1 · n2`, `w^n ≡ 1`, rows
/// `R(k1, a) = Σ_{k2} x[k1 + k2 n1] · (w^n1)^(k2 a)`, twiddled entries
/// `T(k1) ≡ R(k1, a) · w^(a k1)` and the column transform
/// `C ≡ Σ_{k1} T(k1) · (w^n2)^(k1 b)`, the result is the transform of `x`
/// at index `b n2 + a`.
pub proof fn lemma_cooley_tukey_combine(
    x: Seq<int>,
    w: int,
    n1: nat,
    n2: nat,
    m: int,
    a: nat,
    b: nat,
    t: spec_fn(int) -> int,
    c: int,
)
    requires
        m > 0,
        n1 >= 1,
        n2 >= 1,
        x.len() == n1 * n2,
        a < n2,
        b < n1,
        pow(w, n1 * n2) % m == 1int % m,
        forall|k1: int| 0 <= k1 < n1 ==> #[trigger] t(k1) % m
            == (sum(|k2: int| x[k1 + k2 * n1] * pow(pow(w, n1) % m, (k2 * a) as nat), n2)
                * pow(w, (a * k1) as nat)) % m,
        c % m == sum(|k1: int| t(k1) * pow(pow(w, n2) % m, (k1 * b) as nat), n1) % m,
    ensures
        c % m == sum(dft_term(x, w, b * n2 + a), n1 * n2) % m,
{
    let n = n1 * n2;
    let k = b * n2 + a;
    let g = dft_term(x, w, k);
    // d(k1, k2): the summand after expanding every factor as a power of w
    let d = |k1: int, k2: int| x[k1 + k2 * n1] * pow(w, (n1 * k2 * a + a * k1 + n2 * k1 * b) as nat);
    let lhs = |k1: int| t(k1) * pow(pow(w, n2) % m, (k1 * b) as nat);
    let rows = |k1: int| sum(|k2: int| d(k1, k2), n2);
    // 1. each column term is congruent to the expanded row sum
    assert forall|k1: int| 0 <= k1 < n1 implies #[trigger] lhs(k1) % m == rows(k1) % m by {
        let r = sum(|k2: int| x[k1 + k2 * n1] * pow(pow(w, n1) % m, (k2 * a) as nat), n2);
        let fr = |k2: int| x[k1 + k2 * n1] * pow(w, (n1 * (k2 * a)) as nat);
        let rr = sum(fr, n2);
        // (w^n1 mod m)^(k2 a) ≡ w^(n1 k2 a)
        assert forall|k2: int| 0 <= k2 < n2 implies
            #[trigger] (x[k1 + k2 * n1] * pow(pow(w, n1) % m, (k2 * a) as nat)) % m
                == (x[k1 + k2 * n1] * pow(w, (n1 * (k2 * a)) as nat)) % m by {
            assert(k2 * a >= 0) by (nonlinear_arith) requires k2 >= 0;
            lemma_pow_of_reduced_pow(w, n1, (k2 * a) as nat, m);
            lemma_mul_mod_noop_right(x[k1 + k2 * n1], pow(pow(w, n1) % m, (k2 * a) as nat), m);
            lemma_mul_mod_noop_right(x[k1 + k2 * n1], pow(w, (n1 * (k2 * a)) as nat), m);
        }
        lemma_sum_congruent(|k2: int| x[k1 + k2 * n1] * pow(pow(w, n1) % m, (k2 * a) as nat), fr, n2, m);
        assert(k1 * b >= 0 && a * k1 >= 0) by (nonlinear_arith) requires k1 >= 0;
        let tw = pow(w, (a * k1) as nat);
        let cb = pow(w, (n2 * (k1 * b)) as nat);
        lemma_pow_of_reduced_pow(w, n2, (k1 * b) as nat, m);
        // lhs ≡ r · tw · cb ≡ rr · (tw · cb)
        lemma_mul_mod_noop(t(k1), pow(pow(w, n2) % m, (k1 * b) as nat), m);
        lemma_mul_mod_noop(r * tw, cb, m);
        lemma_mul_mod_noop(r, tw, m);
        lemma_mul_mod_noop(rr, tw, m);
        lemma_mul_mod_noop(rr * tw, cb, m);
        assert((t(k1) * pow(pow(w, n2) % m, (k1 * b) as nat)) % m == ((r * tw) * cb) % m) by {
            lemma_mul_mod_noop(t(k1), cb, m);
            lemma_mul_mod_noop(r * tw, cb, m);
            lemma_mod_twice(r * tw, m);
        }
        assert(((r * tw) * cb) % m == ((rr * tw) * cb) % m) by {
            lemma_mul_mod_noop(r * tw, cb, m);
            lemma_mul_mod_noop(rr * tw, cb, m);
            lemma_mul_mod_noop(r, tw, m);
            lemma_mul_mod_noop(rr, tw, m);
        }
        lemma_mul_is_associative(rr, tw, cb);
        lemma_sum_scale(fr, tw * cb, n2);
        let scaled = |i: int| (tw * cb) * fr(i);
        assert forall|k2: int| 0 <= k2 < n2 implies #[trigger] scaled(k2) == d(k1, k2) by {
            assert(k2 * a >= 0 && n1 * k2 * a >= 0 && n2 * k1 * b >= 0) by (nonlinear_arith)
                requires k2 >= 0, k1 >= 0;
            assert(n1 * (k2 * a) == n1 * k2 * a) by (nonlinear_arith);
            assert(n2 * (k1 * b) == n2 * k1 * b) by (nonlinear_arith);
            lemma_pow_adds(w, (n1 * k2 * a) as nat, (a * k1) as nat);
            lemma_pow_adds(w, (n1 * k2 * a + a * k1) as nat, (n2 * k1 * b) as nat);
            let p1 = pow(w, (n1 * k2 * a) as nat);
            assert((tw * cb) * (x[k1 + k2 * n1] * p1) == x[k1 + k2 * n1] * ((p1 * tw) * cb)) by (nonlinear_arith);
        }
        lemma_sum_ext(scaled, |k2: int| d(k1, k2), n2);
        lemma_mul_is_commutative(rr, tw * cb);
        assert(lhs(k1) % m == ((rr * tw) * cb) % m);
        assert(sum(scaled, n2) == (tw * cb) * rr);
        assert(sum(|k2: int| d(k1, k2), n2) == rows(k1));
    }
    lemma_sum_congruent(lhs, rows, n1, m);
    // 2. each expanded summand is congruent to the transform's summand
    let grid = |k1: int, k2: int| g(k1 + k2 * n1);
    assert forall|k1: int| 0 <= k1 < n1 implies #[trigger] rows(k1) % m == sum(|k2: int| grid(k1, k2), n2) % m by {
        assert forall|k2: int| 0 <= k2 < n2 implies #[trigger] d(k1, k2) % m == grid(k1, k2) % m by {
            let j = k1 + k2 * n1;
            let e = (n1 * k2 * a + a * k1 + n2 * k1 * b) as nat;
            assert(n1 * k2 * a + a * k1 + n2 * k1 * b >= 0 && k2 * b >= 0) by (nonlinear_arith)
                requires k1 >= 0, k2 >= 0;
            assert(j * k == k1 * k + (k2 * n1) * k) by (nonlinear_arith) requires j == k1 + k2 * n1;
            assert(k1 * k == k1 * (b * n2) + k1 * a) by (nonlinear_arith) requires k == b * n2 + a;
            assert((k2 * n1) * k == (k2 * n1) * (b * n2) + (k2 * n1) * a) by (nonlinear_arith) requires k == b * n2 + a;
            assert(k1 * (b * n2) == n2 * k1 * b) by (nonlinear_arith);
            assert(k1 * a == a * k1) by (nonlinear_arith);
            assert((k2 * n1) * a == n1 * k2 * a) by (nonlinear_arith);
            assert((k2 * n1) * (b * n2) == (n1 * n2) * (k2 * b)) by (nonlinear_arith);
            assert(j * k == e + (n1 * n2) * (k2 * b));
            assert(j * k >= 0) by (nonlinear_arith) requires j >= 0, k >= 0;
            lemma_pow_period(w, e, n1 * n2, (k2 * b) as nat, m);
            lemma_mul_mod_noop_right(x[j], pow(w, e), m);
            lemma_mul_mod_noop_right(x[j], pow(w, (j * k) as nat), m);
        }
        lemma_sum_congruent(|k2: int| d(k1, k2), |k2: int| grid(k1, k2), n2, m);
    }
    lemma_sum_congruent(rows, |k1: int| sum(|k2: int| grid(k1, k2), n2), n1, m);
    // 3. the double sum over the grid is the transform's sum
    lemma_sum_swap(grid, n1, n2);
    lemma_sum_blocks(g, n2, n1);
    let colsum = |q: int| sum(|k1: int| grid(k1, q), n1);
    let blk = |q: int| sum(|r: int| g(q * n1 + r), n1);
    assert forall|q: int| 0 <= q < n2 implies #[trigger] colsum(q) == blk(q) by {
        assert forall|r: int| 0 <= r < n1 implies #[trigger] grid(r, q) == g(q * n1 + r) by {
            assert(r + q * n1 == q * n1 + r);
        }
        lemma_sum_ext(|k1: int| grid(k1, q), |r: int| g(q * n1 + r), n1);
    }
    lemma_sum_ext(colsum, blk, n2);
    assert(n2 * n1 == n1 * n2) by (nonlinear_arith);
}

// ----------------------------------------------------------------------------
// Rader's reindexing by a primitive root
// ----------------------------------------------------------------------------

/// `g^t mod p`.
pub open spec fn root_pow(g: int, t: nat, p: nat) -> int {
    pow(g, t) % (p as int)
}

/// `(j - t) mod n` for `t, j < n`.
pub open spec fn cyclic_diff(j: int, t: int, n: int) -> int {
    if j >= t { j - t } else { j + (n - t) }
}

/// The powers `g^t mod p`, `t < p - 1`, of a primitive root are distinct
/// nonzero residues.
pub proof fn lemma_root_pows_distinct(g: int, p: nat, t: nat, u: nat)
    requires
        is_prime_spec(p),
        2 <= g < p,
        passes_root_test(g as nat, p),
        t < u < p - 1,
    ensures
        root_pow(g, t, p) != root_pow(g, u, p),
        root_pow(g, t, p) != 0,
{
    let pi = p as int;
    lemma_small_mod(g as nat, p);
    if pow(g, t) % pi == 0 {
        lemma_prime_divides_pow(p, g, t);
    }
    if root_pow(g, t, p) == root_pow(g, u, p) {
        let d = (u - t) as nat;
        lemma_pow_adds(g, t, d);
        // p | g^t · (g^d - 1)
        lemma_sub_mod_noop(pow(g, u), pow(g, t), pi);
        lemma_mod_self_0(pi);
        lemma_small_mod(0, p);
        assert(pow(g, t) * pow(g, d) - pow(g, t) == pow(g, t) * (pow(g, d) - 1)) by (nonlinear_arith);
        assert((pow(g, t) * (pow(g, d) - 1)) % pi == 0);
        lemma_euclid(p, pow(g, t), pow(g, d) - 1);
        lemma_fundamental_div_mod(pow(g, d) - 1, pi);
        lemma_mul_is_commutative(pi, (pow(g, d) - 1) / pi);
        lemma_fundamental_div_mod_converse(pow(g, d), pi, (pow(g, d) - 1) / pi, 1);
        lemma_primitive_root_order(g, p, d);
    }
}

/// `g^(-t) · g^j ≡ g^((j - t) mod (p-1)) (mod p)`, with `g^(-1)` given as
/// an inverse `gi` of `g`.
pub proof fn lemma_root_pow_quotient(g: int, gi: int, p: nat, t: nat, j: nat)
    requires
        is_prime_spec(p),
        2 <= g < p,
        0 <= gi,
        (g * gi) % (p as int) == 1,
        t < p - 1,
        j < p - 1,
    ensures
        (root_pow(gi, t, p) * root_pow(g, j, p)) % (p as int)
            == root_pow(g, cyclic_diff(j as int, t as int, p - 1) as nat, p),
{
    let pi = p as int;
    let n = (p - 1) as nat;
    let e = cyclic_diff(j as int, t as int, n as int) as nat;
    lemma_small_mod(g as nat, p);
    lemma_fermat(g, p);
    // g^e · g^t ≡ g^j
    lemma_pow_adds(g, e, t);
    assert(e + t == j || e + t == j + n);
    if e + t == j + n {
        lemma_pow_adds(g, j, n);
        lemma_mul_mod_noop(pow(g, j), pow(g, n), pi);
        lemma_mod_twice(pow(g, j), pi);
        lemma_small_mod(1, p);
        lemma_mul_basics(pow(g, j) % pi);
    }
    assert(pow(g, e + t) % pi == pow(g, j) % pi);
    // gi^t · g^t ≡ 1
    lemma_pow_distributes(gi, g, t);
    lemma_mul_is_commutative(gi, g);
    lemma_pow_mod_noop(g * gi, t, pi);
    lemma_pow1_any(t);
    lemma_small_mod(1, p);
    assert((pow(gi, t) * pow(g, t)) % pi == 1);
    // gi^t · g^j ≡ gi^t · g^e · g^t ≡ g^e
    let a = pow(gi, t);
    let b = pow(g, e);
    let c = pow(g, t);
    lemma_mul_mod_noop(a % pi, pow(g, j) % pi, pi);
    lemma_mul_mod_noop(a, pow(g, j), pi);
    lemma_mul_mod_noop(a, b * c, pi);
    lemma_mod_twice(a, pi);
    lemma_mod_twice(pow(g, j), pi);
    assert((a * (b * c)) == b * (a * c)) by (nonlinear_arith);
    lemma_mul_mod_noop(b, a * c, pi);
    lemma_mul_basics(b % pi);
    lemma_mod_twice(b, pi);
    assert((root_pow(gi, t, p) * root_pow(g, j, p)) % pi == (a * pow(g, j)) % pi);
    assert((a * pow(g, j)) % pi == (a * (b * c)) % pi);
    assert((b * (a * c)) % pi == ((b % pi) * ((a * c) % pi)) % pi);
}

/// A power of a base not divisible by the prime `p` is not divisible by `p`.
pub proof fn lemma_root_pow_nonzero(g: int, p: nat, t: nat)
    requires
        is_prime_spec(p),
        2 <= g < p,
    ensures
        root_pow(g, t, p) != 0,
        0 < root_pow(g, t, p) < p,
{
    lemma_small_mod(g as nat, p);
    if pow(g, t) % (p as int) == 0 {
        lemma_prime_divides_pow(p, g, t);
    }
    lemma_mod_bound(pow(g, t), p as int);
}

/// The Rader output: with `p` prime, `w^p ≡ 1`, a primitive root `g` and an
/// inverse `gi`, and `c ≡ Σ_{t < p-1} x[g^(-t)] · w^(g^((j-t) mod (p-1)))`,
/// the value `x_0 + c` is the transform of `x` at index `g^j mod p`.
pub proof fn lemma_rader_output(
    x: Seq<int>,
    w: int,
    m: int,
    g: int,
    gi: int,
    p: nat,
    j: nat,
    c: int,
)
    requires
        m > 0,
        is_prime_spec(p),
        x.len() == p,
        pow(w, p) % m == 1int % m,
        2 <= g < p,
        0 <= gi,
        passes_root_test(g as nat, p),
        (g * gi) % (p as int) == 1,
        j < p - 1,
        c % m == sum(|t: int| x[root_pow(gi, t as nat, p)]
            * (pow(w, root_pow(g, cyclic_diff(j as int, t, p - 1) as nat, p) as nat) % m), (p - 1) as nat) % m,
    ensures
        (x[0] + c) % m == sum(dft_term(x, w, root_pow(g, j, p) as nat), p) % m,
{
    let pi = p as int;
    let n = (p - 1) as nat;
    let kk = root_pow(g, j, p) as nat;
    let term = dft_term(x, w, kk);
    lemma_root_pow_nonzero(g, p, j);
    // split off index 0
    lemma_sum_split(term, 1, n);
    assert(sum(term, 1) == x[0]) by {
        assert(sum(term, 1) == sum(term, 0) + term(0));
        lemma_pow0(w);
        assert(term(0) == x[0] * pow(w, 0));
    }
    let shifted = |u: int| term(1 + u);
    // g^(-t) = g^((0 - t) mod (p-1))
    lemma_pow0(g);
    lemma_small_mod(1, p);
    assert forall|t: int| 0 <= t < n implies
        #[trigger] root_pow(gi, t as nat, p) == root_pow(g, cyclic_diff(0, t, n as int) as nat, p) by {
        lemma_root_pow_quotient(g, gi, p, t as nat, 0);
        lemma_mod_bound(pow(gi, t as nat), pi);
        lemma_small_mod(root_pow(gi, t as nat, p) as nat, p);
        lemma_mul_basics(root_pow(gi, t as nat, p));
    }
    // reindex u = g^(-t) - 1: injective with values in [0, p-1)
    let s = |t: int| root_pow(gi, t as nat, p) - 1;
    assert forall|t: int| 0 <= t < n implies 0 <= #[trigger] s(t) < n by {
        let e = cyclic_diff(0, t, n as int);
        assert(root_pow(gi, t as nat, p) == root_pow(g, e as nat, p));
        lemma_root_pow_nonzero(g, p, e as nat);
    }
    assert forall|t: int, u: int| 0 <= t < u < n implies #[trigger] s(t) != #[trigger] s(u) by {
        let et = cyclic_diff(0, t, n as int);
        let eu = cyclic_diff(0, u, n as int);
        assert(root_pow(gi, t as nat, p) == root_pow(g, et as nat, p));
        assert(root_pow(gi, u as nat, p) == root_pow(g, eu as nat, p));
        assert(et != eu);
        if et < eu {
            lemma_root_pows_distinct(g, p, et as nat, eu as nat);
        } else {
            lemma_root_pows_distinct(g, p, eu as nat, et as nat);
        }
    }
    lemma_sum_permute(shifted, s, n);
    // each reindexed summand is the convolution summand
    let conv = |t: int| x[root_pow(gi, t as nat, p)]
        * (pow(w, root_pow(g, cyclic_diff(j as int, t, n as int) as nat, p) as nat) % m);
    let perm = |t: int| shifted(s(t));
    assert forall|t: int| 0 <= t < n implies #[trigger] perm(t) % m == conv(t) % m by {
        let gv = root_pow(gi, t as nat, p);
        lemma_root_pow_nonzero(g, p, cyclic_diff(0, t, n as int) as nat);
        assert(gv == root_pow(g, cyclic_diff(0, t, n as int) as nat, p));
        assert(perm(t) == x[gv] * pow(w, (gv * kk) as nat));
        // (g^(-t) · g^j) mod p = g^((j-t) mod (p-1))
        lemma_root_pow_quotient(g, gi, p, t as nat, j);
        let e = gv * kk;
        assert(e >= 0) by (nonlinear_arith) requires gv > 0, kk > 0, e == gv * kk;
        lemma_fundamental_div_mod(e, pi);
        lemma_mod_bound(e, pi);
        assert(e / pi >= 0) by {
            lemma_div_pos_is_pos(e, pi);
        }
        lemma_pow_period(w, (e % pi) as nat, p, (e / pi) as nat, m);
        assert((e % pi) as nat + p * ((e / pi) as nat) == e);
        lemma_mul_mod_noop_right(x[gv], pow(w, e as nat), m);
        lemma_mul_mod_noop_right(x[gv], pow(w, (e % pi) as nat), m);
        lemma_mod_twice(pow(w, (e % pi) as nat), m);
    }
    lemma_sum_congruent(perm, conv, n, m);
    lemma_sum_ext(|t: int| shifted(s(t)), perm, n);
    lemma_add_mod_noop(x[0], c, m);
    lemma_add_mod_noop(x[0], sum(shifted, n), m);
    lemma_sum_ext(|i: int| term(1 + i), shifted, n);
}

// ----------------------------------------------------------------------------
// Good-Thomas index maps
// ----------------------------------------------------------------------------

/// `(a·n2 + b) / n2 = a` and `(a·n2 + b) mod n2 = b` for `b < n2`.
pub proof fn lemma_div_mod_of_grid(a: int, b: int, n2: int)
    requires
        0 <= a,
        0 <= b < n2,
    ensures
        (a * n2 + b) / n2 == a,
        (a * n2 + b) % n2 == b,
{
    lemma_fundamental_div_mod_converse(a * n2 + b, n2, a, b);
}

/// The Chinese remainder map `k ↦ (k mod n1)·n2 + (k mod n2)`.
pub open spec fn crt_index(k: int, n1: int, n2: int) -> int {
    (k % n1) * n2 + k % n2
}

/// The Ruritanian map `(a, b) ↦ (a·n2 + b·n1) mod (n1·n2)`.
pub open spec fn ruritanian_index(a: int, b: int, n1: int, n2: int) -> int {
    (a * n2 + b * n1) % (n1 * n2)
}

/// Powers with exponents congruent modulo an order `n` of `w` agree.
pub proof fn lemma_pow_congruent_exponents(w: int, e1: nat, e2: nat, n: nat, m: int)
    requires
        m > 0,
        n > 0,
        pow(w, n) % m == 1int % m,
        (e1 as int) % (n as int) == (e2 as int) % (n as int),
    ensures
        pow(w, e1) % m == pow(w, e2) % m,
{
    lemma_fundamental_div_mod(e1 as int, n as int);
    lemma_fundamental_div_mod(e2 as int, n as int);
    lemma_mod_bound(e1 as int, n as int);
    let r = ((e1 as int) % (n as int)) as nat;
    lemma_div_pos_is_pos(e1 as int, n as int);
    lemma_div_pos_is_pos(e2 as int, n as int);
    let q1 = ((e1 as int) / (n as int)) as nat;
    let q2 = ((e2 as int) / (n as int)) as nat;
    lemma_pow_period(w, r, n, q1, m);
    lemma_pow_period(w, r, n, q2, m);
    assert(r + n * q1 == e1);
    assert(r + n * q2 == e2);
}

/// The Chinese remainder map is injective on `[0, n1·n2)` for coprime
/// `n1`, `n2`, with values in that range.
pub proof fn lemma_crt_index_injective(n1: nat, n2: nat, k: int, l: int)
    requires
        n1 >= 1,
        n2 >= 1,
        gcd(n1, n2) == 1,
        0 <= k < n1 * n2,
        0 <= l < n1 * n2,
        k != l,
    ensures
        0 <= crt_index(k, n1 as int, n2 as int) < n1 * n2,
        crt_index(k, n1 as int, n2 as int) != crt_index(l, n1 as int, n2 as int),
{
    let a = n1 as int;
    let b = n2 as int;
    lemma_mod_bound(k, a);
    lemma_mod_bound(k, b);
    lemma_grid_bound(k % a, k % b, a, b);
    if crt_index(k, a, b) == crt_index(l, a, b) {
        lemma_mod_bound(l, a);
        lemma_mod_bound(l, b);
        lemma_fundamental_div_mod_converse(crt_index(k, a, b), b, k % a, k % b);
        lemma_fundamental_div_mod_converse(crt_index(l, a, b), b, l % a, l % b);
        // k ≡ l modulo n1 and modulo n2, hence modulo n1·n2
        lemma_sub_mod_noop(k, l, a);
        lemma_sub_mod_noop(k, l, b);
        lemma_small_mod(0, n1);
        lemma_small_mod(0, n2);
        assert(k % a == l % a && k % b == l % b);
        assert((k - l) % a == 0 && (k - l) % b == 0);
        lemma_coprime_product_divides(n1, n2, k - l);
        let n = a * b;
        assert(n == (n1 * n2) as int);
        assert(n > 0) by (nonlinear_arith) requires a >= 1, b >= 1, n == a * b;
        lemma_fundamental_div_mod(k - l, n);
        let q = (k - l) / n;
        assert(k - l == n * q);
        assert(q == 0) by (nonlinear_arith)
            requires k - l == n * q, -n < k - l < n, n > 0;
        assert(false);
    }
}

proof fn lemma_grid_bound(i: int, j: int, a: int, b: int)
    requires
        0 <= i < a,
        0 <= j < b,
    ensures
        0 <= i * b + j < a * b,
{
    assert(0 <= i * b + j < a * b) by (nonlinear_arith)
        requires 0 <= i < a, 0 <= j < b;
}

/// The Ruritanian map, read on the flattened grid `i = a·n2 + b`, is
/// injective on `[0, n1·n2)` for coprime `n1`, `n2`.
pub proof fn lemma_ruritanian_injective(n1: nat, n2: nat, i: int, j: int)
    requires
        n1 >= 1,
        n2 >= 1,
        gcd(n1, n2) == 1,
        0 <= i < n1 * n2,
        0 <= j < n1 * n2,
        i != j,
    ensures
        0 <= ruritanian_index(i / (n2 as int), i % (n2 as int), n1 as int, n2 as int) < n1 * n2,
        ruritanian_index(i / (n2 as int), i % (n2 as int), n1 as int, n2 as int)
            != ruritanian_index(j / (n2 as int), j % (n2 as int), n1 as int, n2 as int),
{
    let a = n1 as int;
    let b = n2 as int;
    let n = a * b;
    assert(n > 0) by (nonlinear_arith) requires a >= 1, b >= 1, n == a * b;
    lemma_mod_bound(i / b * b + i % b * a, n);
    let (ia, ib) = (i / b, i % b);
    let (ja, jb) = (j / b, j % b);
    lemma_fundamental_div_mod(i, b);
    lemma_fundamental_div_mod(j, b);
    lemma_mod_bound(i, b);
    lemma_mod_bound(j, b);
    assert(0 <= ia < a && 0 <= ja < a) by (nonlinear_arith)
        requires i == b * ia + ib, j == b * ja + jb, 0 <= ib < b, 0 <= jb < b, 0 <= i < a * b, 0 <= j < a * b, b >= 1;
    let u = ia * b + ib * a;
    let v = ja * b + jb * a;
    if u % n == v % n {
        lemma_sub_mod_noop(u, v, n);
        lemma_small_mod(0, n as nat);
        lemma_fundamental_div_mod(u - v, n);
        let q = (u - v) / n;
        assert(u - v == n * q);
        // modulo n1: (ia - ja)·n2 ≡ 0, so n1 | ia - ja
        assert((ia - ja) * b == a * (b * q - (ib - jb))) by (nonlinear_arith)
            requires u - v == n * q, u == ia * b + ib * a, v == ja * b + jb * a, n == a * b;
        lemma_mod_multiples_basic(b * q - (ib - jb), a);
        lemma_mul_is_commutative(a, b * q - (ib - jb));
        lemma_coprime_divides(n1, n2, ia - ja);
        lemma_fundamental_div_mod(ia - ja, a);
        assert(ia == ja) by (nonlinear_arith)
            requires ia - ja == a * ((ia - ja) / a) + 0, -a < ia - ja < a, a >= 1;
        // modulo n2: (ib - jb)·n1 ≡ 0, so n2 | ib - jb
        lemma_gcd_one_symmetric(n1, n2);
        assert((ib - jb) * a == b * (a * q)) by (nonlinear_arith)
            requires u - v == n * q, u == ia * b + ib * a, v == ja * b + jb * a, n == a * b, ia == ja;
        lemma_mod_multiples_basic(a * q, b);
        lemma_mul_is_commutative(b, a * q);
        lemma_coprime_divides(n2, n1, ib - jb);
        lemma_fundamental_div_mod(ib - jb, b);
        assert(ib == jb) by (nonlinear_arith)
            requires ib - jb == b * ((ib - jb) / b) + 0, -b < ib - jb < b, b >= 1;
    }
}

/// `k·n2 ≡ (k mod n1)·n2 (mod n1·n2)`.
proof fn lemma_crt_scaled(k: int, n1: int, n2: int)
    requires
        n1 >= 1,
        n2 >= 1,
    ensures
        (k * n2) % (n1 * n2) == ((k % n1) * n2) % (n1 * n2),
{
    lemma_fundamental_div_mod(k, n1);
    let q = k / n1;
    assert(k * n2 == (k % n1) * n2 + (n1 * n2) * q) by (nonlinear_arith)
        requires k == n1 * q + k % n1;
    assert(n1 * n2 > 0) by (nonlinear_arith) requires n1 >= 1, n2 >= 1;
    lemma_mod_multiples_vanish(q, (k % n1) * n2, n1 * n2);
}

/// The Good-Thomas recombination. With coprime `n1`, `n2`, `n = n1·n2`,
/// `w^n ≡ 1`, the matrix `mv` holding `x[k]` at the Chinese remainder
/// index of `k`, rows transformed at `w^n1`, and columns at `w^n2`, the
/// entry `(j1, j2)` is the transform of `x` at the Ruritanian index
/// `(j1 n2 + j2 n1) mod n`.
pub proof fn lemma_good_thomas_combine(
    x: Seq<int>,
    mv: Seq<int>,
    w: int,
    n1: nat,
    n2: nat,
    m: int,
    j1: nat,
    j2: nat,
    t: spec_fn(int) -> int,
    c: int,
)
    requires
        m > 0,
        n1 >= 1,
        n2 >= 1,
        gcd(n1, n2) == 1,
        x.len() == n1 * n2,
        mv.len() == n1 * n2,
        j1 < n1,
        j2 < n2,
        forall|k: int| 0 <= k < n1 * n2 ==> #[trigger] mv[crt_index(k, n1 as int, n2 as int)] == x[k],
        pow(w, n1 * n2) % m == 1int % m,
        forall|a: int| 0 <= a < n1 ==> #[trigger] t(a) % m
            == sum(|b: int| mv[a * n2 + b] * pow(pow(w, n1) % m, (b * j2) as nat), n2) % m,
        c % m == sum(|a: int| t(a) * pow(pow(w, n2) % m, (a * j1) as nat), n1) % m,
    ensures
        c % m == sum(dft_term(x, w, ruritanian_index(j1 as int, j2 as int, n1 as int, n2 as int) as nat), n1 * n2) % m,
{
    let n = n1 * n2;
    let ni = n as int;
    assert(ni > 0) by (nonlinear_arith) requires n1 >= 1, n2 >= 1, ni == n1 * n2;
    let kk = ruritanian_index(j1 as int, j2 as int, n1 as int, n2 as int);
    lemma_mod_bound((j1 * n2 + j2 * n1) as int, ni);
    let ex = |idx: int| (n1 * (idx % (n2 as int)) * j2 + n2 * (idx / (n2 as int)) * j1);
    let f = |idx: int| mv[idx] * pow(w, ex(idx) as nat);
    let g = dft_term(x, w, kk as nat);
    // 1. each column term expands into the row's cells
    let lhs = |a: int| t(a) * pow(pow(w, n2) % m, (a * j1) as nat);
    let blocks = |a: int| sum(|b: int| f(a * n2 + b), n2);
    assert forall|a: int| 0 <= a < n1 implies #[trigger] lhs(a) % m == blocks(a) % m by {
        let rowf = |b: int| mv[a * n2 + b] * pow(pow(w, n1) % m, (b * j2) as nat);
        let rowe = |b: int| mv[a * n2 + b] * pow(w, (n1 * (b * j2)) as nat);
        assert forall|b: int| 0 <= b < n2 implies #[trigger] rowf(b) % m == rowe(b) % m by {
            assert(b * j2 >= 0) by (nonlinear_arith) requires b >= 0;
            lemma_pow_of_reduced_pow(w, n1, (b * j2) as nat, m);
            lemma_mul_mod_noop_right(mv[a * n2 + b], pow(pow(w, n1) % m, (b * j2) as nat), m);
            lemma_mul_mod_noop_right(mv[a * n2 + b], pow(w, (n1 * (b * j2)) as nat), m);
        }
        lemma_sum_congruent(rowf, rowe, n2, m);
        assert(a * j1 >= 0) by (nonlinear_arith) requires a >= 0;
        let r = sum(rowf, n2);
        let re = sum(rowe, n2);
        let cb = pow(w, (n2 * (a * j1)) as nat);
        lemma_pow_of_reduced_pow(w, n2, (a * j1) as nat, m);
        assert(lhs(a) % m == (r * cb) % m) by {
            lemma_mul_mod_noop(t(a), pow(pow(w, n2) % m, (a * j1) as nat), m);
            lemma_mul_mod_noop(r, cb, m);
            lemma_mod_twice(r, m);
        }
        assert((r * cb) % m == (re * cb) % m) by {
            lemma_mul_mod_noop(r, cb, m);
            lemma_mul_mod_noop(re, cb, m);
        }
        lemma_sum_scale(rowe, cb, n2);
        let scaled = |b: int| cb * rowe(b);
        assert forall|b: int| 0 <= b < n2 implies #[trigger] scaled(b) == f(a * n2 + b) by {
            lemma_div_mod_of_grid(a, b, n2 as int);
            assert(b * j2 >= 0 && a * j1 >= 0) by (nonlinear_arith) requires b >= 0, a >= 0;
            assert(n1 * (b * j2) == n1 * b * j2) by (nonlinear_arith);
            assert(n2 * (a * j1) == n2 * a * j1) by (nonlinear_arith);
            lemma_pow_adds(w, (n1 * b * j2) as nat, (n2 * a * j1) as nat);
            let p1 = pow(w, (n1 * b * j2) as nat);
            assert(cb * (mv[a * n2 + b] * p1) == mv[a * n2 + b] * (p1 * cb)) by (nonlinear_arith);
        }
        lemma_sum_ext(scaled, |b: int| f(a * n2 + b), n2);
        lemma_mul_is_commutative(re, cb);
    }
    lemma_sum_congruent(lhs, blocks, n1, m);
    // 2. the blocks cover the flattened grid
    lemma_sum_blocks(f, n1, n2);
    // 3. reindex the grid by the Chinese remainder map
    let s = |k: int| crt_index(k, n1 as int, n2 as int);
    assert forall|k: int| 0 <= k < n implies 0 <= #[trigger] s(k) < n by {
        lemma_mod_bound(k, n1 as int);
        lemma_mod_bound(k, n2 as int);
        lemma_grid_bound(k % (n1 as int), k % (n2 as int), n1 as int, n2 as int);
    }
    assert forall|k: int, l: int| 0 <= k < l < n implies #[trigger] s(k) != #[trigger] s(l) by {
        lemma_crt_index_injective(n1, n2, k, l);
    }
    lemma_sum_permute(f, s, n);
    // 4. each reindexed cell is the transform's summand
    let fs = |k: int| f(s(k));
    assert forall|k: int| 0 <= k < n implies #[trigger] fs(k) % m == g(k) % m by {
        let a = k % (n1 as int);
        let b = k % (n2 as int);
        lemma_mod_bound(k, n1 as int);
        lemma_mod_bound(k, n2 as int);
        lemma_div_mod_of_grid(a, b, n2 as int);
        assert(s(k) == a * n2 + b);
        assert(mv[s(k)] == x[k]);
        let e = ex(s(k));
        assert(e == n1 * b * j2 + n2 * a * j1);
        assert(e >= 0) by (nonlinear_arith) requires a >= 0, b >= 0, e == n1 * b * j2 + n2 * a * j1;
        // k·kk ≡ e (mod n)
        assert(k * kk >= 0) by (nonlinear_arith) requires k >= 0, kk >= 0;
        lemma_mul_mod_noop_right(k, (j1 * n2 + j2 * n1) as int, ni);
        assert(k * (j1 * n2 + j2 * n1) == (k * n2) * j1 + (k * n1) * j2) by (nonlinear_arith);
        lemma_crt_scaled(k, n1 as int, n2 as int);
        lemma_crt_scaled_other(k, n1 as int, n2 as int);
        lemma_mul_mod_noop_left(k * n2, j1 as int, ni);
        lemma_mul_mod_noop_left(a * n2, j1 as int, ni);
        lemma_mul_mod_noop_left(k * n1, j2 as int, ni);
        lemma_mul_mod_noop_left(b * n1, j2 as int, ni);
        lemma_add_mod_noop((k * n2) * j1, (k * n1) * j2, ni);
        lemma_add_mod_noop((a * n2) * j1, (b * n1) * j2, ni);
        assert((a * n2) * j1 + (b * n1) * j2 == e) by (nonlinear_arith) requires e == n1 * b * j2 + n2 * a * j1;
        assert((k * kk) % ni == e % ni);
        lemma_pow_congruent_exponents(w, (k * kk) as nat, e as nat, n, m);
        lemma_mul_mod_noop_right(x[k], pow(w, e as nat), m);
        lemma_mul_mod_noop_right(x[k], pow(w, (k * kk) as nat), m);
    }
    lemma_sum_congruent(fs, g, n, m);
    lemma_sum_ext(|k: int| f(s(k)), fs, n);
}

/// `k·n1 ≡ (k mod n2)·n1 (mod n1·n2)`.
proof fn lemma_crt_scaled_other(k: int, n1: int, n2: int)
    requires
        n1 >= 1,
        n2 >= 1,
    ensures
        (k * n1) % (n1 * n2) == ((k % n2) * n1) % (n1 * n2),
{
    lemma_crt_scaled(k, n2, n1);
    lemma_mul_is_commutative(n1, n2);
}

} // verus!
