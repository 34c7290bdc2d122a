//! Binomial coefficients and the binomial theorem, for the distribution of
//! hit counts.

use vstd::prelude::*;
use vstd::arithmetic::power::{pow, lemma_pow0, lemma_pow1};
use vstd::arithmetic::mul::{lemma_mul_nonnegative, lemma_mul_is_distributive_add};

verus! {

/// The number of ways to pick `k` of `n` items (Pascal's rule).
pub open spec fn binom(n: nat, k: nat) -> nat
    decreases n,
{
    if k == 0 {
        1
    } else if n == 0 {
        0
    } else {
        binom((n - 1) as nat, (k - 1) as nat) + binom((n - 1) as nat, k)
    }
}

/// The term for `x` of the expansion of `(a + b)^n`:
/// `binom(n, x) * a^x * b^(n - x)` (0 past `n`).
pub open spec fn binomial_term(n: nat, x: nat, a: int, b: int) -> int {
    if x <= n {
        binom(n, x) * (pow(a, x) * pow(b, (n - x) as nat))
    } else {
        0
    }
}

/// The sum of the terms for `x < m`.
pub open spec fn binomial_partial(n: nat, m: nat, a: int, b: int) -> int
    decreases m,
{
    if m == 0 {
        0
    } else {
        binomial_partial(n, (m - 1) as nat, a, b) + binomial_term(n, (m - 1) as nat, a, b)
    }
}

pub proof fn lemma_binom_above(n: nat, k: nat)
    requires
        k > n,
    ensures
        binom(n, k) == 0,
    decreases n,
{
    if n > 0 {
        lemma_binom_above((n - 1) as nat, (k - 1) as nat);
        lemma_binom_above((n - 1) as nat, k);
    }
}

pub proof fn lemma_binom_positive(n: nat, k: nat)
    requires
        k <= n,
    ensures
        binom(n, k) >= 1,
    decreases n,
{
    if k > 0 {
        lemma_binom_positive((n - 1) as nat, (k - 1) as nat);
    }
}

pub proof fn lemma_pow_unfold(a: int, e: nat)
    requires
        e >= 1,
    ensures
        pow(a, e) == a * pow(a, (e - 1) as nat),
{
    reveal(pow);
}

proof fn lemma_term_step(n: nat, x: nat, a: int, b: int)
    ensures
        x >= 1 ==> binomial_term(n + 1, x, a, b) == a * binomial_term(n, (x - 1) as nat, a, b) + b
            * binomial_term(n, x, a, b),
        binomial_term(n + 1, 0, a, b) == b * binomial_term(n, 0, a, b),
{
    lemma_pow0(a);
    if n + 1 >= 1 {
        lemma_pow_unfold(b, n + 1);
    }
    assert(binomial_term(n + 1, 0, a, b) == b * binomial_term(n, 0, a, b)) by (nonlinear_arith)
        requires
            binomial_term(n + 1, 0, a, b) == 1 * (pow(a, 0) * pow(b, n + 1)),
            binomial_term(n, 0, a, b) == 1 * (pow(a, 0) * pow(b, n)),
            pow(b, n + 1) == b * pow(b, n),
    ;
    if x >= 1 {
        let c1 = binom(n, (x - 1) as nat);
        let c2 = binom(n, x);
        lemma_pow_unfold(a, x);
        let pa = pow(a, (x - 1) as nat);
        if x <= n + 1 {
            assert(binom(n + 1, x) == c1 + c2);
            let pb = pow(b, (n + 1 - x) as nat);
            assert(a * binomial_term(n, (x - 1) as nat, a, b) == c1 * (pow(a, x) * pb))
                by (nonlinear_arith)
                requires
                    binomial_term(n, (x - 1) as nat, a, b) == c1 * (pa * pb),
                    pow(a, x) == a * pa,
            ;
            if x <= n {
                lemma_pow_unfold(b, (n + 1 - x) as nat);
                assert(b * binomial_term(n, x, a, b) == c2 * (pow(a, x) * pb)) by (nonlinear_arith)
                    requires
                        binomial_term(n, x, a, b) == c2 * (pow(a, x) * pow(b, (n - x) as nat)),
                        pb == b * pow(b, (n - x) as nat),
                ;
            } else {
                lemma_binom_above(n, x);
            }
            assert(binomial_term(n + 1, x, a, b) == (c1 + c2) * (pow(a, x) * pb));
            assert((c1 + c2) * (pow(a, x) * pb) == c1 * (pow(a, x) * pb) + c2 * (pow(a, x) * pb))
                by (nonlinear_arith);
        } else {
            lemma_binom_above(n, (x - 1) as nat);
        }
    }
}

proof fn lemma_partial_step(n: nat, m: nat, a: int, b: int)
    ensures
        binomial_partial(n + 1, m + 1, a, b) == a * binomial_partial(n, m, a, b) + b
            * binomial_partial(n, m + 1, a, b),
    decreases m,
{
    lemma_term_step(n, m, a, b);
    let t1 = binomial_term(n, m, a, b);
    let u1 = binomial_term(n + 1, m, a, b);
    assert(binomial_partial(n + 1, m + 1, a, b) == binomial_partial(n + 1, m, a, b) + u1);
    assert(binomial_partial(n, m + 1, a, b) == binomial_partial(n, m, a, b) + t1);
    if m == 0 {
        assert(binomial_partial(n + 1, 0, a, b) == 0);
        assert(binomial_partial(n, 0, a, b) == 0);
        assert(a * 0 == 0);
        assert(b * (0 + t1) == b * t1);
    } else {
        lemma_partial_step(n, (m - 1) as nat, a, b);
        let p0 = binomial_partial(n, (m - 1) as nat, a, b);
        let t0 = binomial_term(n, (m - 1) as nat, a, b);
        assert(binomial_partial(n, m, a, b) == p0 + t0);
        assert(binomial_partial(n + 1, m, a, b) == a * p0 + b * (p0 + t0));
        assert(u1 == a * t0 + b * t1);
        assert(a * p0 + b * (p0 + t0) + (a * t0 + b * t1) == a * (p0 + t0) + b * (p0 + t0 + t1))
            by (nonlinear_arith);
    }
}

/// The binomial theorem: the terms for `x <= n` sum to `(a + b)^n`.
pub proof fn lemma_binomial_theorem(n: nat, a: int, b: int)
    ensures
        binomial_partial(n, n + 1, a, b) == pow(a + b, n),
    decreases n,
{
    if n == 0 {
        lemma_pow0(a);
        lemma_pow0(b);
        lemma_pow0(a + b);
        assert(binomial_partial(0, 1, a, b) == binomial_partial(0, 0, a, b) + binomial_term(
            0,
            0,
            a,
            b,
        ));
        assert(binomial_term(0, 0, a, b) == 1 * (1 * 1));
    } else {
        let m = (n - 1) as nat;
        lemma_binomial_theorem(m, a, b);
        lemma_partial_step(m, n, a, b);
        lemma_pow_unfold(a + b, n);
        let p = binomial_partial(m, n, a, b);
        assert(m + 1 == n);
        assert(p == pow(a + b, m));
        assert(binomial_term(m, n, a, b) == 0);
        assert(binomial_partial(m, n + 1, a, b) == p + binomial_term(m, n, a, b));
        assert(binomial_partial(n, n + 1, a, b) == a * p + b * p);
        assert(a * p + b * p == (a + b) * p) by (nonlinear_arith);
    }
}

pub proof fn lemma_pow_nonneg(a: int, e: nat)
    requires
        a >= 0,
    ensures
        pow(a, e) >= 0,
    decreases e,
{
    if e == 0 {
        lemma_pow0(a);
    } else {
        lemma_pow_nonneg(a, (e - 1) as nat);
        lemma_pow_unfold(a, e);
        lemma_mul_nonnegative(a, pow(a, (e - 1) as nat));
    }
}

proof fn lemma_term_nonneg(n: nat, x: nat, a: int, b: int)
    requires
        a >= 0,
        b >= 0,
    ensures
        binomial_term(n, x, a, b) >= 0,
{
    if x <= n {
        lemma_pow_nonneg(a, x);
        lemma_pow_nonneg(b, (n - x) as nat);
        lemma_mul_nonnegative(pow(a, x), pow(b, (n - x) as nat));
        lemma_mul_nonnegative(binom(n, x) as int, pow(a, x) * pow(b, (n - x) as nat));
    }
}

proof fn lemma_partial_grows(n: nat, m: nat, k: nat, a: int, b: int)
    requires
        a >= 0,
        b >= 0,
        m <= k,
    ensures
        0 <= binomial_partial(n, m, a, b) <= binomial_partial(n, k, a, b),
    decreases k - m + m,
{
    if m < k {
        lemma_partial_grows(n, m, (k - 1) as nat, a, b);
        lemma_term_nonneg(n, (k - 1) as nat, a, b);
    } else if m > 0 {
        lemma_partial_grows(n, (m - 1) as nat, (m - 1) as nat, a, b);
        lemma_term_nonneg(n, (m - 1) as nat, a, b);
    }
}

/// With non-negative `a` and `b`, each term, and `a^x * b^(n - x)` itself, is
/// at most `(a + b)^n`.
pub proof fn lemma_term_bounded(n: nat, x: nat, a: int, b: int)
    requires
        a >= 0,
        b >= 0,
        x <= n,
    ensures
        0 <= pow(a, x) * pow(b, (n - x) as nat) <= binomial_term(n, x, a, b) <= pow(a + b, n),
{
    lemma_binomial_theorem(n, a, b);
    lemma_partial_grows(n, x, n, a, b);
    lemma_partial_grows(n, x + 1, n + 1, a, b);
    lemma_term_nonneg(n, x, a, b);
    lemma_binom_positive(n, x);
    lemma_pow_nonneg(a, x);
    lemma_pow_nonneg(b, (n - x) as nat);
    let q = pow(a, x) * pow(b, (n - x) as nat);
    lemma_mul_nonnegative(pow(a, x), pow(b, (n - x) as nat));
    assert(q <= binom(n, x) * q) by (nonlinear_arith)
        requires
            q >= 0,
            binom(n, x) >= 1,
    ;
}

/// A binomial coefficient is at most `2^n`.
pub proof fn lemma_binom_bounded(n: nat, k: nat)
    requires
        k <= n,
    ensures
        binom(n, k) <= pow(2, n),
{
    lemma_term_bounded(n, k, 1, 1);
    vstd::arithmetic::power::lemma1_pow(k);
    vstd::arithmetic::power::lemma1_pow((n - k) as nat);
}

/// Absorption: `k * binom(n, k) == n * binom(n - 1, k - 1)`.
pub proof fn lemma_absorb(n: nat, k: nat)
    requires
        n >= 1,
        k >= 1,
    ensures
        k * binom(n, k) == n * binom((n - 1) as nat, (k - 1) as nat),
    decreases n,
{
    let m = (n - 1) as nat;
    if n == 1 {
        if k > 1 {
            lemma_binom_above(1, k);
            lemma_binom_above(0, (k - 1) as nat);
        } else {
            assert(binom(1, 1) == binom(0, 0) + binom(0, 1));
        }
    } else {
        let cnk = binom(n, k);
        let a = binom(m, (k - 1) as nat);
        let c = binom(m, k);
        assert(cnk == a + c);
        lemma_absorb(m, k);
        let d = binom((m - 1) as nat, (k - 1) as nat);
        assert(k * c == m * d);
        if k >= 2 {
            lemma_absorb(m, (k - 1) as nat);
            let e = binom((m - 1) as nat, (k - 2) as nat);
            assert((k - 1) * a == m * e);
            assert(a == e + d);
            assert(k * cnk == n * a) by (nonlinear_arith)
                requires
                    cnk == a + c,
                    k * c == m * d,
                    (k - 1) * a == m * e,
                    a == e + d,
                    n == m + 1,
            ;
        } else {
            assert(a == 1);
            assert(d == 1);
            assert(k * cnk == n * a) by (nonlinear_arith)
                requires
                    k == 1,
                    cnk == a + c,
                    k * c == m * d,
                    a == 1,
                    d == 1,
                    n == m + 1,
            ;
        }
    }
}

/// The step of the running product: `i * binom(n, i) == (n - i + 1) * binom(n, i - 1)`.
pub proof fn lemma_binom_step(n: nat, i: nat)
    requires
        1 <= i <= n,
    ensures
        i * binom(n, i) == (n - i + 1) * binom(n, (i - 1) as nat),
{
    let m = (n - 1) as nat;
    let j = (i - 1) as nat;
    lemma_absorb(n, i);
    // (n - j) * C(n, j) == n * C(m, j), from Pascal's rule and absorption.
    if j >= 1 {
        lemma_absorb(n, j);
        assert(binom(n, i) == binom(m, j) + binom(m, i));
        assert(binom(n, j) == binom(m, (j - 1) as nat) + binom(m, j));
        assert((n - j) * binom(n, j) == n * binom(n, j) - j * binom(n, j)) by (nonlinear_arith);
        assert(n * binom(n, j) == n * binom(m, (j - 1) as nat) + n * binom(m, j))
            by (nonlinear_arith)
            requires
                binom(n, j) == binom(m, (j - 1) as nat) + binom(m, j),
        ;
    } else {
        assert(binom(n, 0) == 1 && binom(m, 0) == 1);
    }
}

} // verus!
