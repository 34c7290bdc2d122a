//! Polynomials with integer coefficients, used as generating functions: the
//! coefficient at exponent `k` counts the outcomes whose value is `k`.

use vstd::prelude::*;
use vstd::arithmetic::power::{pow, lemma_pow1};
use vstd::arithmetic::mul::lemma_mul_nonnegative;

verus! {

/// The coefficient at exponent `k`; 0 past the end.
pub open spec fn coeff(p: Seq<int>, k: int) -> int {
    if 0 <= k < p.len() {
        p[k]
    } else {
        0
    }
}

/// The sum of the first `n` coefficients.
pub open spec fn prefix_sum(p: Seq<int>, n: int) -> int
    decreases n,
{
    if n <= 0 {
        0
    } else {
        prefix_sum(p, n - 1) + coeff(p, n - 1)
    }
}

/// The sum of all coefficients: the value at 1.
pub open spec fn coeff_sum(p: Seq<int>) -> int {
    prefix_sum(p, p.len() as int)
}

/// The sum of the coefficients at exponents `from` and above.
pub open spec fn tail_sum(p: Seq<int>, from: int) -> int {
    coeff_sum(p) - prefix_sum(p, from)
}

/// Every coefficient is non-negative.
pub open spec fn nonneg(p: Seq<int>) -> bool {
    forall|i: int| 0 <= i < p.len() ==> 0 <= #[trigger] p[i]
}

/// `a` and `b` have the same coefficient at every exponent.
pub open spec fn same_poly(a: Seq<int>, b: Seq<int>) -> bool {
    forall|k: int| #[trigger] coeff(a, k) == coeff(b, k)
}

/// The first `i` terms of the coefficient at exponent `k` of the product:
/// the sum over `j < i` of `coeff(a, j) * coeff(b, k - j)`.
pub open spec fn conv_upto(a: Seq<int>, b: Seq<int>, k: int, i: int) -> int
    decreases i,
{
    if i <= 0 {
        0
    } else {
        conv_upto(a, b, k, i - 1) + coeff(a, i - 1) * coeff(b, k - (i - 1))
    }
}

/// The number of coefficients the product of `a` and `b` has.
pub open spec fn product_len(a: Seq<int>, b: Seq<int>) -> nat {
    if a.len() == 0 || b.len() == 0 {
        0
    } else {
        (a.len() + b.len() - 1) as nat
    }
}

/// The product of `a` and `b`: the coefficient at `k` is the sum, over
/// `i + j == k`, of `coeff(a, i) * coeff(b, j)`.
pub open spec fn product(a: Seq<int>, b: Seq<int>) -> Seq<int> {
    Seq::new(product_len(a, b), |k: int| conv_upto(a, b, k, a.len() as int))
}

/// `p` multiplied by itself `n` times; the zero polynomial for `n == 0`.
pub open spec fn power(p: Seq<int>, n: nat) -> Seq<int>
    decreases n,
{
    if n == 0 {
        Seq::empty()
    } else if n == 1 {
        p
    } else {
        product(power(p, (n - 1) as nat), p)
    }
}

/// The coefficient-wise sum of `a` and `b`.
pub open spec fn sum_poly(a: Seq<int>, b: Seq<int>) -> Seq<int> {
    Seq::new(
        if a.len() >= b.len() { a.len() } else { b.len() },
        |k: int| coeff(a, k) + coeff(b, k),
    )
}

/// The coefficient-wise difference of `a` and `b`.
pub open spec fn diff_poly(a: Seq<int>, b: Seq<int>) -> Seq<int> {
    Seq::new(
        if a.len() >= b.len() { a.len() } else { b.len() },
        |k: int| coeff(a, k) - coeff(b, k),
    )
}

pub proof fn lemma_prefix_sum_past_end(p: Seq<int>, n: int)
    requires
        n >= p.len(),
    ensures
        prefix_sum(p, n) == coeff_sum(p),
    decreases n - p.len(),
{
    if n > p.len() {
        lemma_prefix_sum_past_end(p, n - 1);
    }
}

pub proof fn lemma_prefix_sum_nonneg(p: Seq<int>, n: int, m: int)
    requires
        nonneg(p),
        n <= m,
    ensures
        0 <= prefix_sum(p, n) <= prefix_sum(p, m),
    decreases m - n + (if n > 0 { n } else { 0 }),
{
    if n < m {
        lemma_prefix_sum_nonneg(p, n, m - 1);
        if m - 1 >= 0 && m - 1 < p.len() {
            assert(0 <= p[m - 1]);
        }
    } else if n > 0 {
        lemma_prefix_sum_nonneg(p, n - 1, n - 1);
        if n - 1 < p.len() {
            assert(0 <= p[n - 1]);
        }
    }
}

/// Each coefficient of a non-negative polynomial is at most their sum.
pub proof fn lemma_coeff_le_sum(p: Seq<int>, k: int)
    requires
        nonneg(p),
    ensures
        0 <= coeff(p, k) <= coeff_sum(p),
{
    if 0 <= k < p.len() {
        assert(0 <= p[k]);
        lemma_prefix_sum_nonneg(p, k, k);
        lemma_prefix_sum_nonneg(p, k + 1, p.len() as int);
    }
    lemma_prefix_sum_nonneg(p, 0, p.len() as int);
}

/// The sum of `coeff(b, k - i)` over `k < n`.
pub open spec fn shifted_sum(b: Seq<int>, i: int, n: int) -> int
    decreases n,
{
    if n <= 0 {
        0
    } else {
        shifted_sum(b, i, n - 1) + coeff(b, n - 1 - i)
    }
}

proof fn lemma_shifted_sum(b: Seq<int>, i: int, n: int)
    requires
        0 <= i,
    ensures
        shifted_sum(b, i, n) == prefix_sum(b, n - i),
    decreases n,
{
    if n > 0 {
        lemma_shifted_sum(b, i, n - 1);
    }
}

/// The sum over `k < n` of `conv_upto(a, b, k, i)`.
pub open spec fn conv_sum(a: Seq<int>, b: Seq<int>, i: int, n: int) -> int
    decreases n,
{
    if n <= 0 {
        0
    } else {
        conv_sum(a, b, i, n - 1) + conv_upto(a, b, n - 1, i)
    }
}

proof fn lemma_conv_sum_step(a: Seq<int>, b: Seq<int>, i: int, n: int)
    requires
        0 <= i,
    ensures
        conv_sum(a, b, i + 1, n) == conv_sum(a, b, i, n) + coeff(a, i) * shifted_sum(b, i, n),
    decreases n,
{
    if n > 0 {
        lemma_conv_sum_step(a, b, i, n - 1);
        let c = coeff(a, i);
        assert(c * shifted_sum(b, i, n) == c * shifted_sum(b, i, n - 1) + c * coeff(b, n - 1 - i))
            by (nonlinear_arith)
            requires
                shifted_sum(b, i, n) == shifted_sum(b, i, n - 1) + coeff(b, n - 1 - i),
        ;
    }
}

proof fn lemma_conv_sum_zero(a: Seq<int>, b: Seq<int>, n: int)
    ensures
        conv_sum(a, b, 0, n) == 0,
    decreases n,
{
    if n > 0 {
        lemma_conv_sum_zero(a, b, n - 1);
    }
}

proof fn lemma_conv_sum_total(a: Seq<int>, b: Seq<int>, i: int, n: int)
    requires
        0 <= i <= a.len(),
        b.len() > 0,
        n >= a.len() + b.len() - 1,
    ensures
        conv_sum(a, b, i, n) == prefix_sum(a, i) * coeff_sum(b),
    decreases i,
{
    if i == 0 {
        lemma_conv_sum_zero(a, b, n);
    } else {
        lemma_conv_sum_total(a, b, i - 1, n);
        lemma_conv_sum_step(a, b, i - 1, n);
        lemma_shifted_sum(b, i - 1, n);
        lemma_prefix_sum_past_end(b, n - (i - 1));
        let s = coeff_sum(b);
        assert(prefix_sum(a, i - 1) * s + coeff(a, i - 1) * s == prefix_sum(a, i) * s)
            by (nonlinear_arith)
            requires
                prefix_sum(a, i) == prefix_sum(a, i - 1) + coeff(a, i - 1),
        ;
    }
}

proof fn lemma_product_prefix(a: Seq<int>, b: Seq<int>, n: int)
    requires
        0 <= n <= product_len(a, b),
    ensures
        prefix_sum(product(a, b), n) == conv_sum(a, b, a.len() as int, n),
    decreases n,
{
    if n > 0 {
        lemma_product_prefix(a, b, n - 1);
    }
}

proof fn lemma_prefix_sum_empty(p: Seq<int>, n: int)
    requires
        p.len() == 0,
    ensures
        prefix_sum(p, n) == 0,
    decreases n,
{
    if n > 0 {
        lemma_prefix_sum_empty(p, n - 1);
    }
}

/// The coefficients of a product sum to the product of the factors' sums:
/// the number of outcomes of two independent parts multiplies.
pub proof fn lemma_product_sum(a: Seq<int>, b: Seq<int>)
    ensures
        coeff_sum(product(a, b)) == coeff_sum(a) * coeff_sum(b),
{
    if a.len() == 0 || b.len() == 0 {
        lemma_prefix_sum_empty(product(a, b), 0);
        if a.len() == 0 {
            lemma_prefix_sum_empty(a, 0);
        } else {
            lemma_prefix_sum_empty(b, 0);
        }
        assert(coeff_sum(a) * coeff_sum(b) == 0) by (nonlinear_arith)
            requires
                coeff_sum(a) == 0 || coeff_sum(b) == 0,
        ;
    } else {
        let n = product_len(a, b) as int;
        lemma_product_prefix(a, b, n);
        lemma_conv_sum_total(a, b, a.len() as int, n);
    }
}

proof fn lemma_conv_upto_grows(a: Seq<int>, b: Seq<int>, k: int, i: int, j: int)
    requires
        nonneg(a),
        nonneg(b),
        i <= j,
    ensures
        0 <= conv_upto(a, b, k, i) <= conv_upto(a, b, k, j),
    decreases j - i + (if i > 0 { i } else { 0 }),
{
    if i < j {
        lemma_conv_upto_grows(a, b, k, i, j - 1);
        lemma_coeff_le_sum(a, j - 1);
        lemma_coeff_le_sum(b, k - (j - 1));
        lemma_mul_nonnegative(coeff(a, j - 1), coeff(b, k - (j - 1)));
    } else if i > 0 {
        lemma_conv_upto_grows(a, b, k, i - 1, i - 1);
        lemma_coeff_le_sum(a, i - 1);
        lemma_coeff_le_sum(b, k - (i - 1));
        lemma_mul_nonnegative(coeff(a, i - 1), coeff(b, k - (i - 1)));
    }
}

/// A product of non-negative polynomials is non-negative, and each partial
/// sum of one of its coefficients is at most the product of the sums.
pub proof fn lemma_product_bounds(a: Seq<int>, b: Seq<int>, k: int, i: int)
    requires
        nonneg(a),
        nonneg(b),
        0 <= k < product_len(a, b),
        0 <= i <= a.len(),
    ensures
        nonneg(product(a, b)),
        0 <= conv_upto(a, b, k, i) <= coeff_sum(a) * coeff_sum(b),
{
    let p = product(a, b);
    assert forall|j: int| 0 <= j < p.len() implies 0 <= #[trigger] p[j] by {
        lemma_conv_upto_grows(a, b, j, 0, a.len() as int);
    }
    lemma_conv_upto_grows(a, b, k, i, a.len() as int);
    lemma_coeff_le_sum(p, k);
    lemma_product_sum(a, b);
}

/// The powers of a non-negative polynomial are non-negative, and their
/// coefficients sum to the power of its sum.
pub proof fn lemma_power_sum(p: Seq<int>, n: nat)
    requires
        nonneg(p),
        n >= 1,
    ensures
        nonneg(power(p, n)),
        coeff_sum(power(p, n)) == pow(coeff_sum(p), n),
    decreases n,
{
    if n == 1 {
        lemma_pow1(coeff_sum(p));
    } else {
        lemma_power_sum(p, (n - 1) as nat);
        let q = power(p, (n - 1) as nat);
        lemma_product_sum(q, p);
        let r = product(q, p);
        if r.len() > 0 {
            lemma_product_bounds(q, p, 0, 0);
        }
        assert(pow(coeff_sum(p), n) == coeff_sum(p) * pow(coeff_sum(p), (n - 1) as nat)) by {
            reveal(pow);
        }
        assert(coeff_sum(q) * coeff_sum(p) == coeff_sum(p) * coeff_sum(q)) by (nonlinear_arith);
    }
}

/// A coefficient of a product is zero when each of its terms has a zero
/// factor.
pub proof fn lemma_conv_zero(a: Seq<int>, b: Seq<int>, k: int, i: int)
    requires
        forall|j: int| 0 <= j < i ==> #[trigger] coeff(a, j) == 0 || coeff(b, k - j) == 0,
    ensures
        conv_upto(a, b, k, i) == 0,
    decreases i,
{
    if i > 0 {
        lemma_conv_zero(a, b, k, i - 1);
        if coeff(a, i - 1) == 0 {
            assert(coeff(a, i - 1) * coeff(b, k - (i - 1)) == 0);
        } else {
            assert(coeff(b, k - (i - 1)) == 0);
            assert(coeff(a, i - 1) * coeff(b, k - (i - 1)) == 0);
        }
    }
}

/// Squaring is multiplying by itself, and the zeroth power is the zero
/// polynomial rather than the constant 1.
pub proof fn lemma_square_and_zeroth_power(p: Seq<int>)
    ensures
        power(p, 2) == product(p, p),
        forall|k: int| coeff(#[trigger] power(p, 0), k) == 0,
{
    assert(power(p, 1) == p);
}

pub proof fn lemma_power_len(p: Seq<int>, n: nat)
    ensures
        power(p, n).len() <= n * p.len(),
    decreases n,
{
    if n >= 2 {
        lemma_power_len(p, (n - 1) as nat);
        assert((n - 1) * p.len() + p.len() == n * p.len()) by (nonlinear_arith);
    } else if n == 1 {
        assert(1 * p.len() == p.len());
    }
}

/// A polynomial with integer coefficients, stored densely by exponent.
#[derive(Debug)]
pub struct Polynomial {
    coefficients: Vec<i128>,
}

impl View for Polynomial {
    type V = Seq<int>;

    closed spec fn view(&self) -> Seq<int> {
        self.coefficients@.map_values(|c: i128| c as int)
    }
}

impl Polynomial {
    proof fn lemma_view(&self)
        ensures
            self@.len() == self.coefficients@.len(),
            forall|i: int|
                0 <= i < self@.len() ==> #[trigger] self@[i] == self.coefficients@[i] as int,
    {
    }

    /// The coefficient at exponent `k` as stored.
    fn coefficient_at(&self, k: usize) -> (r: i128)
        ensures
            r == coeff(self@, k as int),
    {
        proof {
            self.lemma_view();
        }
        if k < self.coefficients.len() {
            self.coefficients[k]
        } else {
            0
        }
    }

    /// The zero polynomial.
    pub fn new() -> (r: Polynomial)
        ensures
            r@ == Seq::<int>::empty(),
    {
        let r = Polynomial { coefficients: Vec::new() };
        assert(r@ =~= Seq::<int>::empty());
        r
    }

    /// The polynomial with the given coefficients, lowest exponent first.
    pub fn from_coefficients(coefficients: Vec<i128>) -> (r: Polynomial)
        ensures
            r@ == coefficients@.map_values(|c: i128| c as int),
    {
        Polynomial { coefficients }
    }

    /// The coefficient at `exponent`.
    pub fn get_coefficient(&self, exponent: u16) -> (r: i128)
        ensures
            r == coeff(self@, exponent as int),
    {
        self.coefficient_at(exponent as usize)
    }

    /// The stored coefficients, lowest exponent first; exponents past the end
    /// have coefficient 0.
    pub fn get_coefficients(&self) -> (r: &[i128])
        ensures
            r@.len() == self@.len(),
            forall|i: int| 0 <= i < r@.len() ==> #[trigger] r@[i] as int == self@[i],
    {
        proof {
            self.lemma_view();
        }
        self.coefficients.as_slice()
    }

    /// Sets the coefficient at `exponent` to `value`.
    pub fn set_coefficient(&mut self, exponent: u16, value: i128)
        ensures
            forall|k: int|
                #[trigger] coeff(final(self)@, k) == if k == exponent as int {
                    value as int
                } else {
                    coeff(old(self)@, k)
                },
    {
        proof {
            self.lemma_view();
        }
        let ghost start = self.coefficients@;
        let e = exponent as usize;
        while self.coefficients.len() <= e
            invariant
                self.coefficients@.len() >= start.len(),
                self.coefficients@.take(start.len() as int) == start,
                forall|i: int|
                    start.len() <= i < self.coefficients@.len() ==> #[trigger] self.coefficients@[i]
                        == 0,
            decreases e + 1 - self.coefficients.len(),
        {
            let ghost before = self.coefficients@;
            self.coefficients.push(0);
            assert(self.coefficients@.take(start.len() as int) =~= before.take(start.len() as int));
        }
        self.coefficients[e] = value;
        proof {
            self.lemma_view();
            assert forall|k: int|
                #[trigger] coeff(self@, k) == if k == exponent as int {
                    value as int
                } else {
                    coeff(old(self)@, k)
                } by {
                if 0 <= k < start.len() && k != e {
                    assert(self.coefficients@[k] == self.coefficients@.take(start.len() as int)[k]);
                }
            }
        }
    }

    /// A copy of this polynomial.
    pub fn duplicate(&self) -> (r: Polynomial)
        ensures
            r@ == self@,
    {
        let mut c: Vec<i128> = Vec::new();
        let mut i: usize = 0;
        while i < self.coefficients.len()
            invariant
                i <= self.coefficients@.len(),
                c@ == self.coefficients@.take(i as int),
            decreases self.coefficients.len() - i,
        {
            c.push(self.coefficients[i]);
            i = i + 1;
        }
        assert(c@ =~= self.coefficients@);
        let r = Polynomial { coefficients: c };
        assert(r@ =~= self@);
        r
    }

    /// Whether both have the same coefficient at every exponent.
    pub fn same_as(&self, other: &Polynomial) -> (r: bool)
        ensures
            r == same_poly(self@, other@),
    {
        let n = if self.coefficients.len() >= other.coefficients.len() {
            self.coefficients.len()
        } else {
            other.coefficients.len()
        };
        let mut k: usize = 0;
        while k < n
            invariant
                n == if self@.len() >= other@.len() { self@.len() } else { other@.len() },
                k <= n,
                forall|j: int| 0 <= j < k ==> #[trigger] coeff(self@, j) == coeff(other@, j),
            decreases n - k,
        {
            proof {
                self.lemma_view();
                other.lemma_view();
            }
            if self.coefficient_at(k) != other.coefficient_at(k) {
                return false;
            }
            k = k + 1;
        }
        assert forall|j: int| #[trigger] coeff(self@, j) == coeff(other@, j) by {
            if !(0 <= j < k) {
                assert(coeff(self@, j) == 0 && coeff(other@, j) == 0);
            }
        }
        true
    }

    /// The coefficient-wise sum, or difference when `negate` is set.
    fn combine(&self, rhs: &Polynomial, negate: bool) -> (r: Polynomial)
        requires
            forall|k: int|
                i128::MIN <= #[trigger] coeff(self@, k) + (if negate { -coeff(rhs@, k) } else {
                    coeff(rhs@, k)
                }) <= i128::MAX,
        ensures
            r@ == if negate { diff_poly(self@, rhs@) } else { sum_poly(self@, rhs@) },
    {
        let n = if self.coefficients.len() >= rhs.coefficients.len() {
            self.coefficients.len()
        } else {
            rhs.coefficients.len()
        };
        let mut c: Vec<i128> = Vec::new();
        let mut k: usize = 0;
        while k < n
            invariant
                n == if self@.len() >= rhs@.len() { self@.len() } else { rhs@.len() },
                k <= n,
                c@.len() == k,
                forall|k: int|
                    i128::MIN <= #[trigger] coeff(self@, k) + (if negate { -coeff(rhs@, k) } else {
                        coeff(rhs@, k)
                    }) <= i128::MAX,
                forall|j: int|
                    0 <= j < k ==> #[trigger] c@[j] == coeff(self@, j) + (if negate {
                        -coeff(rhs@, j)
                    } else {
                        coeff(rhs@, j)
                    }),
            decreases n - k,
        {
            proof {
                self.lemma_view();
                rhs.lemma_view();
            }
            let x = self.coefficient_at(k);
            let y = rhs.coefficient_at(k);
            assert(i128::MIN <= coeff(self@, k as int) + (if negate { -coeff(rhs@, k as int) } else {
                coeff(rhs@, k as int)
            }) <= i128::MAX);
            if negate {
                c.push(x - y);
            } else {
                c.push(x + y);
            }
            k = k + 1;
        }
        let r = Polynomial { coefficients: c };
        if negate {
            assert(r@ =~= diff_poly(self@, rhs@));
        } else {
            assert(r@ =~= sum_poly(self@, rhs@));
        }
        r
    }

    /// The coefficient-wise sum.
    pub fn add(self, rhs: Polynomial) -> (r: Polynomial)
        requires
            forall|k: int| i128::MIN <= #[trigger] coeff(self@, k) + coeff(rhs@, k) <= i128::MAX,
        ensures
            r@ == sum_poly(self@, rhs@),
    {
        self.combine(&rhs, false)
    }

    /// Adds `rhs` coefficient by coefficient.
    pub fn add_assign(&mut self, rhs: Polynomial)
        requires
            forall|k: int|
                i128::MIN <= #[trigger] coeff(old(self)@, k) + coeff(rhs@, k) <= i128::MAX,
        ensures
            final(self)@ == sum_poly(old(self)@, rhs@),
    {
        let r = self.combine(&rhs, false);
        *self = r;
    }

    /// The coefficient-wise difference.
    pub fn sub(self, rhs: Polynomial) -> (r: Polynomial)
        requires
            forall|k: int| i128::MIN <= #[trigger] coeff(self@, k) - coeff(rhs@, k) <= i128::MAX,
        ensures
            r@ == diff_poly(self@, rhs@),
    {
        self.combine(&rhs, true)
    }

    /// Subtracts `rhs` coefficient by coefficient.
    pub fn sub_assign(&mut self, rhs: Polynomial)
        requires
            forall|k: int|
                i128::MIN <= #[trigger] coeff(old(self)@, k) - coeff(rhs@, k) <= i128::MAX,
        ensures
            final(self)@ == diff_poly(old(self)@, rhs@),
    {
        let r = self.combine(&rhs, true);
        *self = r;
    }

    /// The product of two generating functions with non-negative coefficients,
    /// by convolution.
    pub fn mul(self, rhs: Polynomial) -> (r: Polynomial)
        requires
            nonneg(self@),
            nonneg(rhs@),
            coeff_sum(self@) * coeff_sum(rhs@) <= i128::MAX,
            self@.len() + rhs@.len() <= usize::MAX,
        ensures
            r@ == product(self@, rhs@),
    {
        self.times(&rhs)
    }

    /// Multiplies by `rhs` (see `mul`).
    pub fn mul_assign(&mut self, rhs: Polynomial)
        requires
            nonneg(old(self)@),
            nonneg(rhs@),
            coeff_sum(old(self)@) * coeff_sum(rhs@) <= i128::MAX,
            old(self)@.len() + rhs@.len() <= usize::MAX,
        ensures
            final(self)@ == product(old(self)@, rhs@),
    {
        let r = self.times(&rhs);
        *self = r;
    }

    fn times(&self, rhs: &Polynomial) -> (r: Polynomial)
        requires
            nonneg(self@),
            nonneg(rhs@),
            coeff_sum(self@) * coeff_sum(rhs@) <= i128::MAX,
            self@.len() + rhs@.len() <= usize::MAX,
        ensures
            r@ == product(self@, rhs@),
    {
        proof {
            self.lemma_view();
            rhs.lemma_view();
        }
        let la = self.coefficients.len();
        let lb = rhs.coefficients.len();
        if la == 0 || lb == 0 {
            let r = Polynomial::new();
            assert(r@ =~= product(self@, rhs@));
            return r;
        }
        let n = la + lb - 1;
        let mut c: Vec<i128> = Vec::new();
        let mut k: usize = 0;
        while k < n
            invariant
                la == self@.len(),
                lb == rhs@.len(),
                n == product_len(self@, rhs@),
                k <= n,
                c@.len() == k,
                nonneg(self@),
                nonneg(rhs@),
                coeff_sum(self@) * coeff_sum(rhs@) <= i128::MAX,
                forall|j: int| 0 <= j < k ==> #[trigger] c@[j] == product(self@, rhs@)[j],
            decreases n - k,
        {
            let mut acc: i128 = 0;
            let mut i: usize = 0;
            while i < la
                invariant
                    la == self@.len(),
                    lb == rhs@.len(),
                    n == product_len(self@, rhs@),
                    k < n,
                    i <= la,
                    nonneg(self@),
                    nonneg(rhs@),
                    coeff_sum(self@) * coeff_sum(rhs@) <= i128::MAX,
                    acc == conv_upto(self@, rhs@, k as int, i as int),
                decreases la - i,
            {
                proof {
                    lemma_product_bounds(self@, rhs@, k as int, i as int);
                    lemma_product_bounds(self@, rhs@, k as int, i + 1);
                    assert(conv_upto(self@, rhs@, k as int, i + 1) == conv_upto(
                        self@,
                        rhs@,
                        k as int,
                        i as int,
                    ) + coeff(self@, i as int) * coeff(rhs@, k - i));
                    if !(i <= k && k - i < lb) {
                        assert(coeff(rhs@, k - i) == 0);
                        assert(coeff(self@, i as int) * coeff(rhs@, k - i) == 0);
                    }
                }
                if i <= k && k - i < lb {
                    let x = self.coefficient_at(i);
                    let y = rhs.coefficient_at(k - i);
                    acc = acc + x * y;
                }
                i = i + 1;
            }
            c.push(acc);
            k = k + 1;
        }
        let r = Polynomial { coefficients: c };
        assert(r@ =~= product(self@, rhs@));
        r
    }

    /// This polynomial multiplied by itself `exponent` times; the zero
    /// polynomial for `exponent == 0`.
    pub fn pow(&self, exponent: u16) -> (r: Polynomial)
        requires
            nonneg(self@),
            pow(coeff_sum(self@), exponent as nat) <= i128::MAX,
            exponent * self@.len() <= usize::MAX,
        ensures
            r@ == power(self@, exponent as nat),
    {
        if exponent == 0 {
            let r = Polynomial::new();
            assert(r@ =~= power(self@, 0));
            return r;
        }
        let mut result = self.duplicate();
        let mut t: u16 = 1;
        while t < exponent
            invariant
                1 <= t <= exponent,
                nonneg(self@),
                pow(coeff_sum(self@), exponent as nat) <= i128::MAX,
                exponent * self@.len() <= usize::MAX,
                result@ == power(self@, t as nat),
            decreases exponent - t,
        {
            proof {
                let s = coeff_sum(self@);
                lemma_power_sum(self@, t as nat);
                lemma_power_sum(self@, (t + 1) as nat);
                lemma_product_sum(result@, self@);
                lemma_prefix_sum_nonneg(self@, 0, self@.len() as int);
                if s >= 1 {
                    vstd::arithmetic::power::lemma_pow_increases(s as nat, (t + 1) as nat, exponent as nat);
                } else {
                    assert(s == 0);
                    assert(coeff_sum(result@) * s == 0) by (nonlinear_arith) requires s == 0;
                }
                lemma_power_len(self@, t as nat);
                assert(t * self@.len() + self@.len() <= exponent * self@.len()) by (nonlinear_arith)
                    requires
                        t < exponent,
                ;
            }
            let step = self.duplicate();
            result = result.mul(step);
            t = t + 1;
        }
        result
    }
}

impl PartialEq for Polynomial {
    fn eq(&self, other: &Polynomial) -> (r: bool) {
        self.same_as(other)
    }
}

impl vstd::std_specs::cmp::PartialEqSpecImpl for Polynomial {
    open spec fn obeys_eq_spec() -> bool {
        true
    }

    open spec fn eq_spec(&self, other: &Polynomial) -> bool {
        same_poly(self@, other@)
    }
}

} // verus!
