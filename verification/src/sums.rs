//! Finite sums over the integers, and the rearrangements the transforms
//! rely on: reindexing by blocks, exchanging a double sum, permuting the
//! summands, and reduction modulo `m` term by term.
use vstd::prelude::*;
use vstd::arithmetic::div_mod::*;
use vstd::arithmetic::mul::*;
use vstd::arithmetic::power::pow;

verus! {

/// `Σ_{i < n} f(i)`.
pub open spec fn sum(f: spec_fn(int) -> int, n: nat) -> int
    decreases n,
{
    if n == 0 {
        0
    } else {
        sum(f, (n - 1) as nat) + f(n - 1)
    }
}

/// Sums of functions that agree on `[0, n)` are equal.
pub proof fn lemma_sum_ext(f: spec_fn(int) -> int, g: spec_fn(int) -> int, n: nat)
    requires
        forall|i: int| 0 <= i < n ==> #[trigger] f(i) == g(i),
    ensures
        sum(f, n) == sum(g, n),
    decreases n,
{
    if n > 0 {
        lemma_sum_ext(f, g, (n - 1) as nat);
    }
}

/// Sums of functions congruent on `[0, n)` modulo `m` are congruent.
pub proof fn lemma_sum_congruent(f: spec_fn(int) -> int, g: spec_fn(int) -> int, n: nat, m: int)
    requires
        m > 0,
        forall|i: int| 0 <= i < n ==> #[trigger] f(i) % m == g(i) % m,
    ensures
        sum(f, n) % m == sum(g, n) % m,
    decreases n,
{
    if n > 0 {
        lemma_sum_congruent(f, g, (n - 1) as nat, m);
        lemma_add_mod_noop(sum(f, (n - 1) as nat), f(n - 1), m);
        lemma_add_mod_noop(sum(g, (n - 1) as nat), g(n - 1), m);
    }
}

/// A constant factor comes out of a sum.
pub proof fn lemma_sum_scale(f: spec_fn(int) -> int, c: int, n: nat)
    ensures
        sum(|i: int| c * f(i), n) == c * sum(f, n),
    decreases n,
{
    if n > 0 {
        lemma_sum_scale(f, c, (n - 1) as nat);
        lemma_mul_is_distributive_add(c, sum(f, (n - 1) as nat), f(n - 1));
    }
}

/// The sum of two functions is the sum of their sums.
pub proof fn lemma_sum_add(f: spec_fn(int) -> int, g: spec_fn(int) -> int, n: nat)
    ensures
        sum(|i: int| f(i) + g(i), n) == sum(f, n) + sum(g, n),
    decreases n,
{
    if n > 0 {
        lemma_sum_add(f, g, (n - 1) as nat);
    }
}

/// `Σ_{i < a + b} f(i) = Σ_{i < a} f(i) + Σ_{i < b} f(a + i)`.
pub proof fn lemma_sum_split(f: spec_fn(int) -> int, a: nat, b: nat)
    ensures
        sum(f, a + b) == sum(f, a) + sum(|i: int| f(a + i), b),
    decreases b,
{
    if b > 0 {
        lemma_sum_split(f, a, (b - 1) as nat);
        assert((a + b - 1) as nat == a + (b - 1) as nat);
    }
}

/// Summing in blocks of `b`: `Σ_{i < a b} f(i) = Σ_{q < a} Σ_{r < b} f(q b + r)`.
pub proof fn lemma_sum_blocks(f: spec_fn(int) -> int, a: nat, b: nat)
    ensures
        sum(f, a * b) == sum(|q: int| sum(|r: int| f(q * b + r), b), a),
    decreases a,
{
    let h = |q: int| sum(|r: int| f(q * b + r), b);
    if a > 0 {
        lemma_sum_blocks(f, (a - 1) as nat, b);
        let base = ((a - 1) * b) as nat;
        assert(a * b == base + b) by (nonlinear_arith) requires a > 0, base == (a - 1) * b;
        lemma_sum_split(f, base, b);
        let q = a - 1;
        lemma_sum_ext(|i: int| f(base + i), |r: int| f(q * b + r), b);
        assert(h(q) == sum(|r: int| f(q * b + r), b));
        assert(sum(h, a) == sum(h, (a - 1) as nat) + h(q));
        assert(sum(f, a * b) == sum(f, base) + sum(|i: int| f(base + i), b));
    } else {
        assert(a * b == 0) by (nonlinear_arith) requires a == 0;
    }
}

/// Exchanging the order of a double sum.
pub proof fn lemma_sum_swap(g: spec_fn(int, int) -> int, a: nat, b: nat)
    ensures
        sum(|i: int| sum(|j: int| g(i, j), b), a) == sum(|j: int| sum(|i: int| g(i, j), a), b),
    decreases a,
{
    let rows = |i: int| sum(|j: int| g(i, j), b);
    let cols = |j: int| sum(|i: int| g(i, j), a);
    if a > 0 {
        lemma_sum_swap(g, (a - 1) as nat, b);
        let prev_cols = |j: int| sum(|i: int| g(i, j), (a - 1) as nat);
        let last = |j: int| g(a - 1, j);
        assert forall|j: int| 0 <= j < b implies #[trigger] cols(j) == prev_cols(j) + last(j) by {
            assert(cols(j) == sum(|i: int| g(i, j), a));
            assert(sum(|i: int| g(i, j), a) == sum(|i: int| g(i, j), (a - 1) as nat) + g(a - 1, j));
        }
        lemma_sum_ext(cols, |j: int| prev_cols(j) + last(j), b);
        lemma_sum_add(prev_cols, last, b);
        assert(sum(rows, a) == sum(rows, (a - 1) as nat) + rows(a - 1));
        assert(rows(a - 1) == sum(last, b)) by {
            lemma_sum_ext(|j: int| g(a - 1, j), last, b);
        }
        assert(sum(rows, (a - 1) as nat) == sum(prev_cols, b));
    } else {
        assert forall|j: int| 0 <= j < b implies #[trigger] cols(j) == 0 by {
        }
        lemma_sum_ext(cols, |j: int| 0, b);
        lemma_sum_zero(b);
    }
}

proof fn lemma_sum_zero(n: nat)
    ensures
        sum(|j: int| 0, n) == 0,
    decreases n,
{
    if n > 0 {
        lemma_sum_zero((n - 1) as nat);
    }
}

/// Pigeonhole: a map from `[0, n)` into `[0, n - 1)` takes some value twice.
pub proof fn lemma_pigeonhole(s: spec_fn(int) -> int, n: nat)
    requires
        n >= 1,
        forall|i: int| 0 <= i < n ==> 0 <= #[trigger] s(i) < n - 1,
    ensures
        exists|i: int, j: int| 0 <= i < j < n && #[trigger] s(i) == #[trigger] s(j),
    decreases n,
{
    if !(exists|i: int, j: int| 0 <= i < j < n && #[trigger] s(i) == #[trigger] s(j)) {
        if n == 1 {
            let x = s(0);
            assert(0 <= x < n - 1);
        } else {
            let c = s(n - 1);
            if exists|i0: int| 0 <= i0 < n - 1 && #[trigger] s(i0) == n - 2 {
                let i0 = choose|i0: int| 0 <= i0 < n - 1 && #[trigger] s(i0) == n - 2;
                let t = |i: int| if i == i0 { c } else { s(i) };
                assert forall|i: int| 0 <= i < n - 1 implies 0 <= #[trigger] t(i) < n - 2 by {
                    if i != i0 {
                        assert(s(i) != s(i0) || i == i0) by {
                            if i < i0 { assert(!(s(i) == s(i0))); } else { assert(!(s(i0) == s(i))); }
                        }
                    } else {
                        assert(!(s(i0) == s(n - 1)));
                    }
                }
                lemma_pigeonhole(t, (n - 1) as nat);
                let (a, b) = choose|i: int, j: int| 0 <= i < j < n - 1 && #[trigger] t(i) == #[trigger] t(j);
                if a == i0 {
                    assert(!(s(b) == s(n - 1)));
                } else if b == i0 {
                    assert(!(s(a) == s(n - 1)));
                } else {
                    assert(!(s(a) == s(b)));
                }
            } else {
                assert forall|i: int| 0 <= i < n - 1 implies 0 <= #[trigger] s(i) < n - 2 by {
                    assert(s(i) != n - 2);
                }
                lemma_pigeonhole(s, (n - 1) as nat);
                let (a, b) = choose|i: int, j: int| 0 <= i < j < n - 1 && #[trigger] s(i) == #[trigger] s(j);
                assert(0 <= a < b < n);
            }
        }
    }
}

/// An injective map of `[0, n)` into itself reaches every value.
pub proof fn lemma_injective_onto(s: spec_fn(int) -> int, n: nat, v: int)
    requires
        0 <= v < n,
        forall|i: int| 0 <= i < n ==> 0 <= #[trigger] s(i) < n,
        forall|i: int, j: int| 0 <= i < j < n ==> #[trigger] s(i) != #[trigger] s(j),
    ensures
        exists|i: int| 0 <= i < n && #[trigger] s(i) == v,
{
    if !(exists|i: int| 0 <= i < n && #[trigger] s(i) == v) {
        // Squeeze the image into [0, n - 1) by moving n - 1 to v.
        let t = |i: int| if s(i) == n - 1 { v } else { s(i) };
        assert forall|i: int| 0 <= i < n implies 0 <= #[trigger] t(i) < n - 1 by {
            assert(s(i) != v);
        }
        lemma_pigeonhole(t, n);
        let (a, b) = choose|i: int, j: int| 0 <= i < j < n && #[trigger] t(i) == #[trigger] t(j);
        assert(s(a) != s(b));
        assert(s(a) != v && s(b) != v);
    }
}

/// Permuting the summands: for an injective `s` of `[0, n)` into itself,
/// `Σ_i f(s(i)) = Σ_i f(i)`.
pub proof fn lemma_sum_permute(f: spec_fn(int) -> int, s: spec_fn(int) -> int, n: nat)
    requires
        forall|i: int| 0 <= i < n ==> 0 <= #[trigger] s(i) < n,
        forall|i: int, j: int| 0 <= i < j < n ==> #[trigger] s(i) != #[trigger] s(j),
    ensures
        sum(|i: int| f(s(i)), n) == sum(f, n),
    decreases n,
{
    let fs = |i: int| f(s(i));
    if n > 0 {
        let top = n - 1;
        lemma_injective_onto(s, n, top);
        let i0 = choose|i: int| 0 <= i < n && #[trigger] s(i) == top;
        let c = s(n - 1);
        // t sends the preimage of the top value to s(n - 1) instead.
        let t = |i: int| if i == i0 { c } else { s(i) };
        assert forall|i: int| 0 <= i < n - 1 implies 0 <= #[trigger] t(i) < n - 1 by {
            if i != i0 {
                if i < i0 { assert(s(i) != s(i0)); } else { assert(s(i0) != s(i)); }
            } else {
                assert(s(i0) != s(n - 1));
            }
        }
        assert forall|i: int, j: int| 0 <= i < j < n - 1 implies #[trigger] t(i) != #[trigger] t(j) by {
            if i == i0 {
                assert(s(j) != s(n - 1));
            } else if j == i0 {
                assert(s(i) != s(n - 1));
            } else {
                assert(s(i) != s(j));
            }
        }
        lemma_sum_permute(f, t, (n - 1) as nat);
        let ft = |i: int| f(t(i));
        assert(sum(fs, n) == sum(fs, (n - 1) as nat) + fs(n - 1));
        assert(sum(f, n) == sum(f, (n - 1) as nat) + f(top));
        assert(sum(ft, (n - 1) as nat) == sum(f, (n - 1) as nat));
        if i0 == n - 1 {
            assert forall|i: int| 0 <= i < n - 1 implies #[trigger] fs(i) == ft(i) by {
            }
            lemma_sum_ext(fs, ft, (n - 1) as nat);
        } else {
            assert forall|i: int| 0 <= i < n - 1 && i != i0 implies #[trigger] fs(i) == ft(i) by {
            }
            lemma_sum_split_at(fs, ft, (n - 1) as nat, i0);
            assert(fs(i0) == f(top));
            assert(ft(i0) == f(c));
            assert(fs(n - 1) == f(c));
        }
    }
}

/// Two functions on `[0, k)` that differ at one point `p` only.
proof fn lemma_sum_split_at(a: spec_fn(int) -> int, b: spec_fn(int) -> int, k: nat, p: int)
    requires
        0 <= p < k,
        forall|i: int| 0 <= i < k && i != p ==> #[trigger] a(i) == b(i),
    ensures
        sum(a, k) == sum(b, k) + a(p) - b(p),
    decreases k,
{
    if k - 1 == p {
        lemma_sum_ext(a, b, (k - 1) as nat);
    } else {
        lemma_sum_split_at(a, b, (k - 1) as nat, p);
    }
}

/// `Π_{i < n} f(i)`.
pub open spec fn prod(f: spec_fn(int) -> int, n: nat) -> int
    decreases n,
{
    if n == 0 {
        1
    } else {
        prod(f, (n - 1) as nat) * f(n - 1)
    }
}

pub proof fn lemma_prod_ext(f: spec_fn(int) -> int, g: spec_fn(int) -> int, n: nat)
    requires
        forall|i: int| 0 <= i < n ==> #[trigger] f(i) == g(i),
    ensures
        prod(f, n) == prod(g, n),
    decreases n,
{
    if n > 0 {
        lemma_prod_ext(f, g, (n - 1) as nat);
    }
}

/// Products of functions congruent on `[0, n)` modulo `m` are congruent.
pub proof fn lemma_prod_congruent(f: spec_fn(int) -> int, g: spec_fn(int) -> int, n: nat, m: int)
    requires
        m > 0,
        forall|i: int| 0 <= i < n ==> #[trigger] f(i) % m == g(i) % m,
    ensures
        prod(f, n) % m == prod(g, n) % m,
    decreases n,
{
    if n > 0 {
        lemma_prod_congruent(f, g, (n - 1) as nat, m);
        lemma_mul_mod_noop(prod(f, (n - 1) as nat), f(n - 1), m);
        lemma_mul_mod_noop(prod(g, (n - 1) as nat), g(n - 1), m);
    }
}

/// `Π_i (a · f(i)) = a^n · Π_i f(i)`.
pub proof fn lemma_prod_scale(f: spec_fn(int) -> int, a: int, n: nat)
    ensures
        prod(|i: int| a * f(i), n) == pow(a, n) * prod(f, n),
    decreases n,
{
    reveal(pow);
    if n > 0 {
        lemma_prod_scale(f, a, (n - 1) as nat);
        let pa = pow(a, (n - 1) as nat);
        let pf = prod(f, (n - 1) as nat);
        assert((pa * pf) * (a * f(n - 1)) == (a * pa) * (pf * f(n - 1))) by (nonlinear_arith);
    }
}

/// Permuting the factors: for an injective `s` of `[0, n)` into itself,
/// `Π_i f(s(i)) = Π_i f(i)`.
pub proof fn lemma_prod_permute(f: spec_fn(int) -> int, s: spec_fn(int) -> int, n: nat)
    requires
        forall|i: int| 0 <= i < n ==> 0 <= #[trigger] s(i) < n,
        forall|i: int, j: int| 0 <= i < j < n ==> #[trigger] s(i) != #[trigger] s(j),
    ensures
        prod(|i: int| f(s(i)), n) == prod(f, n),
    decreases n,
{
    let fs = |i: int| f(s(i));
    if n > 0 {
        let top = n - 1;
        lemma_injective_onto(s, n, top);
        let i0 = choose|i: int| 0 <= i < n && #[trigger] s(i) == top;
        let c = s(n - 1);
        let t = |i: int| if i == i0 { c } else { s(i) };
        assert forall|i: int| 0 <= i < n - 1 implies 0 <= #[trigger] t(i) < n - 1 by {
            if i != i0 {
                if i < i0 { assert(s(i) != s(i0)); } else { assert(s(i0) != s(i)); }
            } else {
                assert(s(i0) != s(n - 1));
            }
        }
        assert forall|i: int, j: int| 0 <= i < j < n - 1 implies #[trigger] t(i) != #[trigger] t(j) by {
            if i == i0 {
                assert(s(j) != s(n - 1));
            } else if j == i0 {
                assert(s(i) != s(n - 1));
            } else {
                assert(s(i) != s(j));
            }
        }
        lemma_prod_permute(f, t, (n - 1) as nat);
        let ft = |i: int| f(t(i));
        assert(prod(fs, n) == prod(fs, (n - 1) as nat) * fs(n - 1));
        assert(prod(f, n) == prod(f, (n - 1) as nat) * f(top));
        if i0 == n - 1 {
            assert forall|i: int| 0 <= i < n - 1 implies #[trigger] fs(i) == ft(i) by {
            }
            lemma_prod_ext(fs, ft, (n - 1) as nat);
        } else {
            assert forall|i: int| 0 <= i < n - 1 && i != i0 implies #[trigger] fs(i) == ft(i) by {
            }
            lemma_prod_swap_one(fs, ft, (n - 1) as nat, i0);
            assert(fs(i0) == f(top));
            assert(ft(i0) == f(c));
            assert(fs(n - 1) == f(c));
            let q = prod(ft, (n - 1) as nat);
            assert(prod(fs, (n - 1) as nat) * ft(i0) == q * fs(i0));
            assert(prod(fs, (n - 1) as nat) * f(c) == q * f(top));
        }
    }
}

/// Two functions on `[0, k)` that differ at one point `p` only: their
/// products differ by exchanging that factor.
proof fn lemma_prod_swap_one(a: spec_fn(int) -> int, b: spec_fn(int) -> int, k: nat, p: int)
    requires
        0 <= p < k,
        forall|i: int| 0 <= i < k && i != p ==> #[trigger] a(i) == b(i),
    ensures
        prod(a, k) * b(p) == prod(b, k) * a(p),
    decreases k,
{
    if k - 1 == p {
        lemma_prod_ext(a, b, (k - 1) as nat);
        let q = prod(a, (k - 1) as nat);
        assert((q * a(p)) * b(p) == (q * b(p)) * a(p)) by (nonlinear_arith);
    } else {
        lemma_prod_swap_one(a, b, (k - 1) as nat, p);
        let qa = prod(a, (k - 1) as nat);
        let qb = prod(b, (k - 1) as nat);
        let l = a(k - 1);
        assert(b(k - 1) == l);
        assert((qa * l) * b(p) == (qb * l) * a(p)) by (nonlinear_arith)
            requires qa * b(p) == qb * a(p);
    }
}

} // verus!
