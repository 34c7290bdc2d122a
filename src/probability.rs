//! Exact outcome distributions of a pool: of its total (by convolution of the
//! dice's generating functions) and of its hit count (by the binomial
//! formula), and the glitch odds derived from them. Probabilities are exact
//! fractions: a count of outcomes over the number of all outcomes.

use vstd::prelude::*;
use vstd::arithmetic::power::{pow, lemma_pow0, lemma_pow_increases};
use crate::binomial::{
    binom, binomial_partial, binomial_term, lemma_binom_bounded, lemma_binom_step,
    lemma_binomial_theorem, lemma_pow_nonneg, lemma_pow_unfold, lemma_term_bounded,
};
use crate::dice::{DiceGroup, Die, common_sides, dice_wf, modifier_sum};
use crate::poly::{
    Polynomial, coeff, coeff_sum, nonneg, power, prefix_sum, tail_sum, lemma_power_sum,
    lemma_power_len, lemma_prefix_sum_past_end, lemma_prefix_sum_nonneg, lemma_coeff_le_sum,
    lemma_conv_zero, conv_upto, product,
};

verus! {

/// A probability as a fraction of outcomes.
#[derive(Clone, Copy, Debug, PartialEq, Eq, Structural)]
pub struct Fraction {
    pub numerator: u128,
    pub denominator: u128,
}

/// The side count the distributions use for a pool: the one all dice share,
/// or 1 for an empty or mixed pool.
pub open spec fn pool_sides(dice: Seq<Die>) -> nat {
    match common_sides(dice) {
        Some(s) => s as nat,
        None => 1,
    }
}

/// The number of equally likely outcomes of rolling the pool's faces:
/// `sides^count`.
pub open spec fn outcome_count(dice: Seq<Die>) -> nat {
    pow(pool_sides(dice) as int, dice.len()) as nat
}

/// Pools whose exact distributions fit in the integers used here:
/// `max(sides, 2)^count` does not exceed `u64::MAX`.
pub open spec fn exact_in_range(dice: Seq<Die>) -> bool {
    pow(if pool_sides(dice) >= 2 { pool_sides(dice) as int } else { 2 }, dice.len()) <= u64::MAX
}

/// Whether the exact distributions of `dice` can be computed here (see
/// `exact_in_range`).
pub fn in_exact_range(dice: &DiceGroup) -> (r: bool)
    requires
        dice.wf(),
    ensures
        r == exact_in_range(dice.dice@),
{
    let sides: u16 = match dice.get_sides() {
        Some(s) => s,
        None => 1,
    };
    let base: u128 = if sides >= 2 { sides as u128 } else { 2 };
    let n = dice.get_count();
    let mut acc: u128 = 1;
    let mut i: u16 = 0;
    proof {
        lemma_pow0(base as int);
    }
    while i < n
        invariant
            i <= n,
            n == dice.dice@.len(),
            base == (if pool_sides(dice.dice@) >= 2 { pool_sides(dice.dice@) as int } else { 2 }),
            2 <= base <= 65535,
            acc == pow(base as int, i as nat),
            acc <= u64::MAX,
        decreases n - i,
    {
        proof {
            lemma_pow_unfold(base as int, (i + 1) as nat);
            assert(acc * base == base * acc) by (nonlinear_arith);
            assert(acc * base <= u64::MAX * 65535) by (nonlinear_arith)
                requires
                    acc <= u64::MAX,
                    base <= 65535,
            ;
        }
        acc = acc * base;
        i = i + 1;
        if acc > 18446744073709551615 {
            proof {
                lemma_pow_increases(base as nat, i as nat, n as nat);
            }
            return false;
        }
    }
    true
}

/// The generating function of one die of `sides` faces: one outcome at each
/// value from 1 to `sides`.
pub open spec fn die_poly(sides: nat) -> Seq<int> {
    Seq::new(sides + 1, |k: int| if k == 0 { 0 } else { 1 })
}

/// The generating function of the pool's total: the die's raised to the
/// number of dice.
pub open spec fn total_poly(dice: Seq<Die>) -> Seq<int> {
    power(die_poly(pool_sides(dice)), dice.len())
}

pub proof fn lemma_pow_base_le(a: int, b: int, e: nat)
    requires
        0 <= a <= b,
    ensures
        0 <= pow(a, e) <= pow(b, e),
    decreases e,
{
    reveal(pow);
    if e > 0 {
        lemma_pow_base_le(a, b, (e - 1) as nat);
        let pa = pow(a, (e - 1) as nat);
        let pb = pow(b, (e - 1) as nat);
        assert(a * pa <= b * pb) by (nonlinear_arith)
            requires
                0 <= a <= b,
                0 <= pa <= pb,
        ;
        assert(0 <= a * pa) by (nonlinear_arith)
            requires
                0 <= a,
                0 <= pa,
        ;
    }
}

/// What a pool in range allows: at most 63 dice, and `sides^count` and
/// `2^count` fit in a `u64`.
pub proof fn lemma_in_range(dice: Seq<Die>)
    requires
        dice_wf(dice),
        exact_in_range(dice),
    ensures
        dice.len() <= 63,
        1 <= outcome_count(dice) <= u64::MAX,
        pow(2, dice.len()) <= u64::MAX,
        1 <= pool_sides(dice) <= u16::MAX,
{
    let s = pool_sides(dice);
    let m: int = if s >= 2 { s as int } else { 2 };
    lemma_pow_base_le(2, m, dice.len());
    lemma_pow_base_le(s as int, m, dice.len());
    if dice.len() >= 64 {
        lemma_pow_increases(2, 64, dice.len());
        vstd::arithmetic::power2::lemma2_to64();
        vstd::arithmetic::power2::lemma_pow2(64);
    }
    vstd::arithmetic::power::lemma_pow_positive(s as int, dice.len());
}

proof fn lemma_die_poly_sum(sides: nat, k: int)
    requires
        1 <= k <= sides + 1,
    ensures
        prefix_sum(die_poly(sides), k) == k - 1,
    decreases k,
{
    assert(prefix_sum(die_poly(sides), k) == prefix_sum(die_poly(sides), k - 1) + coeff(
        die_poly(sides),
        k - 1,
    ));
    if k > 1 {
        lemma_die_poly_sum(sides, k - 1);
        assert(coeff(die_poly(sides), k - 1) == 1);
    } else {
        assert(prefix_sum(die_poly(sides), 0) == 0);
        assert(coeff(die_poly(sides), 0) == 0);
    }
}

/// The die's generating function has non-negative coefficients summing to
/// its side count.
pub proof fn lemma_die_poly(sides: nat)
    ensures
        nonneg(die_poly(sides)),
        coeff_sum(die_poly(sides)) == sides,
{
    lemma_die_poly_sum(sides, sides + 1int);
}

/// Normalization: for one die or more, the outcome counts of the total add up
/// to all `sides^count` outcomes, so the probabilities add up to 1.
pub proof fn lemma_total_normalized(dice: Seq<Die>)
    requires
        dice_wf(dice),
        dice.len() >= 1,
    ensures
        nonneg(total_poly(dice)),
        coeff_sum(total_poly(dice)) == outcome_count(dice),
{
    lemma_die_poly(pool_sides(dice));
    lemma_power_sum(die_poly(pool_sides(dice)), dice.len());
    vstd::arithmetic::power::lemma_pow_positive(pool_sides(dice) as int, dice.len());
}

proof fn lemma_power_support(sides: nat, n: nat, k: int)
    requires
        n >= 1,
        k < n || k > n * sides,
    ensures
        coeff(power(die_poly(sides), n), k) == 0,
    decreases n,
{
    let d = die_poly(sides);
    if n >= 2 {
        let q = power(d, (n - 1) as nat);
        assert(power(d, n) == product(q, d));
        assert forall|j: int| 0 <= j < q.len() implies #[trigger] coeff(q, j) == 0 || coeff(
            d,
            k - j,
        ) == 0 by {
            if k < n {
                if j < n - 1 {
                    lemma_power_support(sides, (n - 1) as nat, j);
                }
            } else {
                if j > (n - 1) * sides {
                    lemma_power_support(sides, (n - 1) as nat, j);
                } else {
                    assert(k - j > sides) by (nonlinear_arith)
                        requires
                            k > n * sides,
                            j <= (n - 1) * sides,
                            n >= 1,
                    ;
                }
            }
        }
        lemma_conv_zero(q, d, k, q.len() as int);
        if 0 <= k < product(q, d).len() {
            assert(coeff(product(q, d), k) == conv_upto(q, d, k, q.len() as int));
        }
    } else {
        assert(power(d, 1) == d);
        assert(k < 1 || k > sides) by (nonlinear_arith)
            requires
                n == 1,
                k < n || k > n * sides,
        ;
        if 0 <= k < d.len() {
            assert(d[k] == 0);
        }
    }
}

/// Normalization over the range of totals: for one die or more, every total
/// below `count` or above `count * sides` has no outcome, and the outcomes of
/// the totals from `count` to `count * sides` add up to all `sides^count`
/// outcomes.
pub proof fn lemma_total_range(dice: Seq<Die>)
    requires
        dice_wf(dice),
        dice.len() >= 1,
    ensures
        forall|k: int|
            k < dice.len() || k > dice.len() * pool_sides(dice) ==> #[trigger] coeff(
                total_poly(dice),
                k,
            ) == 0,
        prefix_sum(total_poly(dice), (dice.len() * pool_sides(dice)) as int + 1) - prefix_sum(
            total_poly(dice),
            dice.len() as int,
        ) == outcome_count(dice),
{
    let s = pool_sides(dice);
    let n = dice.len();
    let p = total_poly(dice);
    assert forall|k: int| k < n || k > n * s implies #[trigger] coeff(p, k) == 0 by {
        lemma_power_support(s, n, k);
    }
    lemma_total_normalized(dice);
    lemma_prefix_zero_below(p, n as int);
    lemma_prefix_rest_zero(p, (n * s) as int + 1, p.len() as int);
}

proof fn lemma_prefix_zero_below(p: Seq<int>, m: int)
    requires
        forall|k: int| k < m ==> #[trigger] coeff(p, k) == 0,
    ensures
        prefix_sum(p, m) == 0,
    decreases m,
{
    if m > 0 {
        lemma_prefix_zero_below(p, m - 1);
    }
}

proof fn lemma_prefix_rest_zero(p: Seq<int>, m: int, e: int)
    requires
        0 <= m,
        e == p.len(),
        forall|k: int| k >= m ==> #[trigger] coeff(p, k) == 0,
    ensures
        prefix_sum(p, m) == coeff_sum(p),
    decreases if e > m { e - m } else { 0 },
{
    if m >= p.len() {
        lemma_prefix_sum_past_end(p, m);
    } else {
        lemma_prefix_rest_zero(p, m + 1, e);
        assert(prefix_sum(p, m + 1) == prefix_sum(p, m) + coeff(p, m));
    }
}

/// `base^e`, for a result that fits.
fn int_pow(base: u64, e: u16) -> (r: u128)
    requires
        pow(base as int, e as nat) <= u64::MAX,
    ensures
        r == pow(base as int, e as nat),
{
    let mut r: u128 = 1;
    let mut i: u16 = 0;
    proof {
        lemma_pow0(base as int);
    }
    while i < e
        invariant
            i <= e,
            r == pow(base as int, i as nat),
            pow(base as int, e as nat) <= u64::MAX,
        decreases e - i,
    {
        proof {
            lemma_pow_unfold(base as int, (i + 1) as nat);
            if base >= 1 {
                lemma_pow_increases(base as nat, (i + 1) as nat, e as nat);
                assert(pow(base as int, (i + 1) as nat) <= pow(base as int, e as nat));
            } else {
                assert(r * base == 0) by (nonlinear_arith)
                    requires
                        base == 0,
                ;
            }
            assert(r * base == base * r) by (nonlinear_arith);
            assert(r * base == pow(base as int, (i + 1) as nat));
            assert(r * base <= u64::MAX);
        }
        r = r * base as u128;
        i = i + 1;
    }
    r
}

/// The distribution of a pool's total, before the modifiers are added.
pub struct Total {
    pub polynomial: Polynomial,
    pub dice: DiceGroup,
    pub outcomes: u128,
}

impl Total {
    /// The stored distribution is the one of the stored pool.
    pub open spec fn wf(&self) -> bool {
        &&& self.dice.wf()
        &&& exact_in_range(self.dice.dice@)
        &&& self.polynomial@ == total_poly(self.dice.dice@)
        &&& self.outcomes == outcome_count(self.dice.dice@)
    }

    proof fn lemma_bounds(&self)
        requires
            self.wf(),
        ensures
            nonneg(self.polynomial@),
            coeff_sum(self.polynomial@) <= u64::MAX,
            self.polynomial@.len() <= self.dice.dice@.len() * (pool_sides(self.dice.dice@) + 1),
    {
        let d = self.dice.dice@;
        lemma_in_range(d);
        lemma_power_len(die_poly(pool_sides(d)), d.len());
        if d.len() >= 1 {
            lemma_total_normalized(d);
        } else {
            assert(self.polynomial@.len() == 0);
            assert(coeff_sum(self.polynomial@) == 0);
        }
    }

    /// The distribution of the total of `dice`: the die's generating function
    /// raised to the number of dice, over `sides^count` outcomes.
    pub fn from_dice(dice: &DiceGroup) -> (r: Total)
        requires
            dice.wf(),
            exact_in_range(dice.dice@),
        ensures
            r.wf(),
            r.dice.dice@ == dice.dice@,
            r.dice.hit == dice.hit,
            r.polynomial@ == total_poly(dice.dice@),
            r.outcomes == outcome_count(dice.dice@),
    {
        proof {
            lemma_in_range(dice.dice@);
        }
        let num = dice.get_count();
        let sides: u16 = match dice.get_sides() {
            Some(s) => s,
            None => 1,
        };
        let mut c: Vec<i128> = Vec::new();
        c.push(0);
        let mut i: u16 = 0;
        while i < sides
            invariant
                i <= sides,
                c@.len() == i + 1,
                c@[0] == 0,
                forall|k: int| 1 <= k <= i ==> #[trigger] c@[k] == 1,
            decreases sides - i,
        {
            c.push(1);
            i = i + 1;
        }
        let die = Polynomial::from_coefficients(c);
        assert(die@ =~= die_poly(sides as nat));
        proof {
            lemma_die_poly(sides as nat);
            assert(num * die@.len() <= 63 * 65536) by (nonlinear_arith)
                requires
                    num <= 63,
                    die@.len() <= 65536,
            ;
        }
        let polynomial = die.pow(num);
        let outcomes = int_pow(sides as u64, num);
        Total { polynomial, dice: dice.duplicate(), outcomes }
    }

    /// The probability that the total is exactly `value`.
    pub fn get_probability_of(&self, value: u16) -> (r: Fraction)
        requires
            self.wf(),
        ensures
            r.numerator == coeff(self.polynomial@, value as int),
            r.denominator == self.outcomes,
    {
        proof {
            self.lemma_bounds();
            lemma_coeff_le_sum(self.polynomial@, value as int);
        }
        let c = self.polynomial.get_coefficient(value);
        Fraction { numerator: c as u128, denominator: self.outcomes }
    }

    /// The probability that the total is `value` or more.
    pub fn get_probability_of_gt(&self, value: u16) -> (r: Fraction)
        requires
            self.wf(),
        ensures
            r.numerator == tail_sum(self.polynomial@, value as int),
            r.denominator == self.outcomes,
    {
        proof {
            self.lemma_bounds();
        }
        let cs = self.polynomial.get_coefficients();
        let ghost p = self.polynomial@;
        let mut acc: u128 = 0;
        let mut k: usize = value as usize;
        while k < cs.len()
            invariant
                cs@.len() == p.len(),
                forall|i: int| 0 <= i < cs@.len() ==> #[trigger] cs@[i] as int == p[i],
                value <= k,
                nonneg(p),
                coeff_sum(p) <= u64::MAX,
                acc == prefix_sum(p, k as int) - prefix_sum(p, value as int),
                k <= p.len() || k == value,
            decreases cs.len() - k,
        {
            proof {
                lemma_prefix_sum_nonneg(p, value as int, k + 1);
                lemma_prefix_sum_nonneg(p, k + 1, p.len() as int);
                assert(p[k as int] >= 0);
            }
            acc = acc + cs[k] as u128;
            k = k + 1;
        }
        proof {
            if value as int <= p.len() {
                assert(k == p.len());
            } else {
                lemma_prefix_sum_past_end(p, value as int);
            }
        }
        Fraction { numerator: acc, denominator: self.outcomes }
    }

    /// The totals that can come up, in ascending order, each shifted by the
    /// pool's total modifier and paired with its probability.
    pub fn to_data(&self) -> (r: Vec<(u32, Fraction)>)
        requires
            self.wf(),
        ensures
            r@ == total_data(
                self.polynomial@,
                self.polynomial@.len() as int,
                modifier_sum(self.dice.dice@),
                self.outcomes,
            ),
    {
        proof {
            self.lemma_bounds();
            lemma_in_range(self.dice.dice@);
            lemma_modifier_sum_bounded(self.dice.dice@);
            assert(self.polynomial@.len() <= 63 * 65536) by (nonlinear_arith)
                requires
                    self.polynomial@.len() <= self.dice.dice@.len() * (pool_sides(self.dice.dice@)
                        + 1),
                    self.dice.dice@.len() <= 63,
                    pool_sides(self.dice.dice@) <= 65535,
            ;
            assert(modifier_sum(self.dice.dice@) <= 63 * 65535) by (nonlinear_arith)
                requires
                    modifier_sum(self.dice.dice@) <= self.dice.dice@.len() * 65535,
                    self.dice.dice@.len() <= 63,
            ;
        }
        let offset = self.dice.get_total_modifier();
        let cs = self.polynomial.get_coefficients();
        let ghost p = self.polynomial@;
        let mut data: Vec<(u32, Fraction)> = Vec::new();
        let mut k: usize = 0;
        while k < cs.len()
            invariant
                cs@.len() == p.len(),
                p.len() <= 63 * 65536,
                offset == modifier_sum(self.dice.dice@),
                offset <= 63 * 65535,
                forall|i: int| 0 <= i < cs@.len() ==> #[trigger] cs@[i] as int == p[i],
                nonneg(p),
                coeff_sum(p) <= u64::MAX,
                k <= p.len(),
                data@ == total_data(p, k as int, offset as nat, self.outcomes),
            decreases cs.len() - k,
        {
            proof {
                lemma_coeff_le_sum(p, k as int);
            }
            let c = cs[k];
            if c != 0 {
                data.push(
                    (k as u32 + offset, Fraction { numerator: c as u128, denominator: self.outcomes }),
                );
            }
            k = k + 1;
        }
        data
    }
}

/// The nonzero entries among the first `n` coefficients of `p`, in order:
/// the exponent plus `offset`, and the coefficient over `den`.
pub open spec fn total_data(p: Seq<int>, n: int, offset: nat, den: u128) -> Seq<(u32, Fraction)>
    decreases n,
{
    if n <= 0 {
        Seq::empty()
    } else if coeff(p, n - 1) != 0 {
        total_data(p, n - 1, offset, den).push(
            (
                (n - 1 + offset) as u32,
                Fraction { numerator: coeff(p, n - 1) as u128, denominator: den },
            ),
        )
    } else {
        total_data(p, n - 1, offset, den)
    }
}

proof fn lemma_modifier_sum_bounded(dice: Seq<Die>)
    ensures
        modifier_sum(dice) <= dice.len() * 65535,
    decreases dice.len(),
{
    if dice.len() > 0 {
        lemma_modifier_sum_bounded(dice.drop_last());
    }
}

/// The faces of a die of the pool that count as hits for the probability
/// engine: `sides - (hit - 1)`, all faces for a threshold of 0 or 1, none for a
/// threshold above the side count.
pub open spec fn success_faces(dice: Seq<Die>, hit: u16) -> nat {
    let s = pool_sides(dice);
    if hit <= 1 {
        s
    } else if hit <= s {
        (s - (hit - 1)) as nat
    } else {
        0
    }
}

/// The number of outcomes with exactly `x` hits, for each `x` from 0 to the
/// number of dice: `binom(n, x) * succ^x * (sides - succ)^(n - x)`.
pub open spec fn hits_dist(dice: Seq<Die>, hit: u16) -> Seq<int> {
    let s = pool_sides(dice);
    let succ = success_faces(dice, hit);
    Seq::new(
        dice.len() + 1,
        |x: int| binomial_term(dice.len(), x as nat, succ as int, s - succ),
    )
}

proof fn lemma_hits_prefix(dice: Seq<Die>, hit: u16, m: int)
    requires
        0 <= m <= dice.len() + 1,
    ensures
        prefix_sum(hits_dist(dice, hit), m) == binomial_partial(
            dice.len(),
            m as nat,
            success_faces(dice, hit) as int,
            pool_sides(dice) - success_faces(dice, hit),
        ),
    decreases m,
{
    if m > 0 {
        lemma_hits_prefix(dice, hit, m - 1);
    }
}

/// The hit counts of a pool cover all its outcomes: their numbers add up to
/// `sides^count`, so the probability of at least 0 hits is 1.
pub proof fn lemma_hits_normalized(dice: Seq<Die>, hit: u16)
    ensures
        coeff_sum(hits_dist(dice, hit)) == outcome_count(dice),
        tail_sum(hits_dist(dice, hit), 0) == outcome_count(dice),
{
    let s = pool_sides(dice);
    let succ = success_faces(dice, hit);
    lemma_hits_prefix(dice, hit, dice.len() + 1int);
    lemma_binomial_theorem(dice.len(), succ as int, s - succ);
    assert(succ + (s - succ) == s);
    assert(prefix_sum(hits_dist(dice, hit), 0) == 0);
    lemma_pow_nonneg(s as int, dice.len());
}

/// The glitch pool of a pool whose dice share a side count (the same dice,
/// with hits at that side count) has exactly one success face: a natural 1 is
/// what it counts.
pub proof fn lemma_glitch_pool_one_face(dice: Seq<Die>)
    requires
        dice_wf(dice),
        common_sides(dice) is Some,
    ensures
        success_faces(dice, common_sides(dice)->0) == 1,
{
    assert(dice[0].sides >= 1);
}

/// The number of faces of each die that count as hits (see `success_faces`).
pub fn success_sides(dice: &DiceGroup) -> (r: u16)
    requires
        dice.wf(),
    ensures
        r == success_faces(dice.dice@, dice.hit),
{
    let sides: u16 = match dice.get_sides() {
        Some(s) => s,
        None => 1,
    };
    if dice.hit <= 1 {
        sides
    } else if dice.hit <= sides {
        sides - (dice.hit - 1)
    } else {
        0
    }
}

/// The distribution of a pool's hit count: the number of outcomes for each
/// count from 0 to the number of dice, over all outcomes.
pub struct Hits {
    pub data: Vec<u128>,
    pub outcomes: u128,
}

impl Hits {
    /// The counts as a sequence of integers, indexed by hit count.
    pub open spec fn counts(&self) -> Seq<int> {
        self.data@.map_values(|c: u128| c as int)
    }

    /// The counts cover all outcomes, which fit in a `u64`.
    pub open spec fn wf(&self) -> bool {
        &&& coeff_sum(self.counts()) == self.outcomes
        &&& self.outcomes <= u64::MAX
    }

    /// The number of outcomes for each hit count of `dice`, by the binomial
    /// formula; each binomial coefficient is a running product of descending
    /// integers divided step by step by ascending ones.
    fn create_data(dice: &DiceGroup) -> (r: Vec<u128>)
        requires
            dice.wf(),
            exact_in_range(dice.dice@),
        ensures
            r@.map_values(|c: u128| c as int) == hits_dist(dice.dice@, dice.hit),
    {
        let ghost d = dice.dice@;
        proof {
            lemma_in_range(d);
        }
        let sides: u16 = match dice.get_sides() {
            Some(s) => s,
            None => 1,
        };
        let success = success_sides(dice);
        let fail: u16 = sides - success;
        let n = dice.get_count();
        let mut data: Vec<u128> = Vec::new();
        let mut x: u16 = 0;
        while x <= n
            invariant
                d == dice.dice@,
                n == d.len(),
                n <= 63,
                sides == pool_sides(d),
                sides >= 1,
                success == success_faces(d, dice.hit),
                fail == sides - success,
                outcome_count(d) <= u64::MAX,
                pow(2, d.len()) <= u64::MAX,
                x <= n + 1,
                data@.len() == x,
                forall|j: int|
                    0 <= j < x ==> #[trigger] data@[j] as int == hits_dist(d, dice.hit)[j],
            decreases n + 1 - x,
        {
            let mut coeff: u128 = 1;
            let mut i: u16 = 1;
            while i <= x
                invariant
                    n == d.len(),
                    n <= 63,
                    pow(2, d.len()) <= u64::MAX,
                    x <= n,
                    1 <= i <= x + 1,
                    coeff == binom(n as nat, (i - 1) as nat),
                decreases x + 1 - i,
            {
                proof {
                    lemma_binom_step(n as nat, i as nat);
                    lemma_binom_bounded(n as nat, (i - 1) as nat);
                    lemma_binom_bounded(n as nat, i as nat);
                    assert(coeff * (n - i + 1) <= u64::MAX * 64) by (nonlinear_arith)
                        requires
                            coeff <= u64::MAX,
                            n - i + 1 <= 64,
                            n - i + 1 >= 0,
                    ;
                }
                let m = coeff * (n - i + 1) as u128;
                proof {
                    let c = binom(n as nat, i as nat);
                    assert(m == i * c);
                    let mi = m as int;
                    let ii = i as int;
                    assert(mi / ii == c) by (nonlinear_arith)
                        requires
                            mi == ii * c,
                            ii >= 1,
                    ;
                }
                coeff = m / i as u128;
                i = i + 1;
            }
            proof {
                lemma_term_bounded(n as nat, x as nat, success as int, fail as int);
                lemma_pow_base_le(success as int, sides as int, x as nat);
                lemma_pow_base_le(fail as int, sides as int, (n - x) as nat);
                lemma_pow_increases(sides as nat, x as nat, n as nat);
                lemma_pow_increases(sides as nat, (n - x) as nat, n as nat);
            }
            let sp = int_pow(success as u64, x);
            let fp = int_pow(fail as u64, n - x);
            let count = coeff * (sp * fp);
            data.push(count);
            x = x + 1;
        }
        assert(data@.map_values(|c: u128| c as int) =~= hits_dist(d, dice.hit));
        data
    }

    /// The distribution of the hit count of `dice` (see `hits_dist`).
    pub fn from_dice(dice: &DiceGroup) -> (r: Hits)
        requires
            dice.wf(),
            exact_in_range(dice.dice@),
        ensures
            r.wf(),
            r.counts() == hits_dist(dice.dice@, dice.hit),
            r.outcomes == outcome_count(dice.dice@),
    {
        proof {
            lemma_in_range(dice.dice@);
            lemma_hits_normalized(dice.dice@, dice.hit);
        }
        let sides: u16 = match dice.get_sides() {
            Some(s) => s,
            None => 1,
        };
        let outcomes = int_pow(sides as u64, dice.get_count());
        Hits { data: Self::create_data(dice), outcomes }
    }

    /// The probability of exactly `value` hits.
    pub fn get_probability_of(&self, value: u16) -> (r: Fraction)
        requires
            self.wf(),
        ensures
            r.numerator == coeff(self.counts(), value as int),
            r.denominator == self.outcomes,
    {
        if (value as usize) < self.data.len() {
            Fraction { numerator: self.data[value as usize], denominator: self.outcomes }
        } else {
            Fraction { numerator: 0, denominator: self.outcomes }
        }
    }

    /// The probability of `value` hits or more.
    pub fn get_probability_of_gt(&self, value: u16) -> (r: Fraction)
        requires
            self.wf(),
        ensures
            r.numerator == tail_sum(self.counts(), value as int),
            r.denominator == self.outcomes,
    {
        let ghost p = self.counts();
        let mut total: u128 = 0;
        let mut k: usize = value as usize;
        while k < self.data.len()
            invariant
                p == self.counts(),
                p.len() == self.data@.len(),
                coeff_sum(p) == self.outcomes,
                self.outcomes <= u64::MAX,
                value <= k,
                total == prefix_sum(p, k as int) - prefix_sum(p, value as int),
                k <= p.len() || k == value,
            decreases self.data.len() - k,
        {
            proof {
                assert(nonneg(p));
                lemma_prefix_sum_nonneg(p, value as int, k + 1);
                lemma_prefix_sum_nonneg(p, k + 1, p.len() as int);
                assert(p[k as int] == self.data@[k as int]);
            }
            total = total + self.data[k];
            k = k + 1;
        }
        proof {
            if value as int <= p.len() {
                assert(k == p.len());
            } else {
                lemma_prefix_sum_past_end(p, value as int);
            }
        }
        Fraction { numerator: total, denominator: self.outcomes }
    }

    /// Each hit count paired with its probability, in ascending order.
    pub fn to_data(&self) -> (r: Vec<(u16, Fraction)>)
        requires
            self.wf(),
            self.data@.len() <= 65536,
        ensures
            r@.len() == self.data@.len(),
            forall|x: int|
                0 <= x < r@.len() ==> #[trigger] r@[x] == (
                    x as u16,
                    Fraction { numerator: self.data@[x], denominator: self.outcomes },
                ),
    {
        let mut data: Vec<(u16, Fraction)> = Vec::new();
        let mut k: usize = 0;
        while k < self.data.len()
            invariant
                k <= self.data@.len() <= 65536,
                data@.len() == k,
                forall|x: int|
                    0 <= x < k ==> #[trigger] data@[x] == (
                        x as u16,
                        Fraction { numerator: self.data@[x], denominator: self.outcomes },
                    ),
            decreases self.data.len() - k,
        {
            data.push(
                (k as u16, Fraction { numerator: self.data[k], denominator: self.outcomes }),
            );
            k = k + 1;
        }
        data
    }
}

/// The hit threshold of the glitch pool: the pool's common side count, so
/// that only a natural 1 counts (the largest `u16` for an empty or mixed pool).
pub open spec fn glitch_hit(dice: Seq<Die>) -> u16 {
    match common_sides(dice) {
        Some(s) => s,
        None => u16::MAX,
    }
}

/// The number of natural 1s that makes a glitch: half the dice, rounded up.
pub open spec fn glitch_threshold(count: nat) -> int {
    (count as int + 1) / 2
}

/// The odds shown beside a roll: of reaching the hit target and the total
/// target, of a glitch, and of a critical glitch.
#[derive(Clone, Copy, Debug)]
pub struct SummaryDisplay {
    /// The hit target; `u16::MAX` when none was given.
    pub hits: u16,
    /// The total target; `u16::MAX` when none was given.
    pub total: u16,
    pub hit_chance: Fraction,
    pub total_chance: Fraction,
    pub glitch_chance: Fraction,
    pub critical_glitch_chance: Fraction,
}

proof fn lemma_tail_bounded(p: Seq<int>, from: int)
    requires
        nonneg(p),
    ensures
        0 <= tail_sum(p, from) <= coeff_sum(p),
{
    if from <= p.len() {
        lemma_prefix_sum_nonneg(p, from, p.len() as int);
    } else {
        lemma_prefix_sum_past_end(p, from);
    }
    lemma_prefix_sum_nonneg(p, from, from);
}

impl SummaryDisplay {
    /// The odds for `dice`: at least `hitnum` hits, a total of at least
    /// `totalnum`, a glitch (at least half the dice, rounded up, showing 1),
    /// and a critical glitch, `(1 - P(hits)) * P(glitch)`.
    pub fn new(dice: &DiceGroup, hitnum: Option<u16>, totalnum: Option<u16>) -> (r:
        SummaryDisplay)
        requires
            dice.wf(),
            exact_in_range(dice.dice@),
        ensures
            r.hits == (match hitnum {
                Some(h) => h,
                None => u16::MAX,
            }),
            r.total == (match totalnum {
                Some(t) => t,
                None => u16::MAX,
            }),
            r.hit_chance.numerator == tail_sum(hits_dist(dice.dice@, dice.hit), r.hits as int),
            r.hit_chance.denominator == outcome_count(dice.dice@),
            r.total_chance.numerator == tail_sum(total_poly(dice.dice@), r.total as int),
            r.total_chance.denominator == outcome_count(dice.dice@),
            r.glitch_chance.numerator == tail_sum(
                hits_dist(dice.dice@, glitch_hit(dice.dice@)),
                glitch_threshold(dice.dice@.len()),
            ),
            r.glitch_chance.denominator == outcome_count(dice.dice@),
            r.critical_glitch_chance.numerator == (r.hit_chance.denominator
                - r.hit_chance.numerator) * r.glitch_chance.numerator,
            r.critical_glitch_chance.denominator == r.hit_chance.denominator
                * r.glitch_chance.denominator,
    {
        let hits: u16 = match hitnum {
            Some(h) => h,
            None => u16::MAX,
        };
        let total: u16 = match totalnum {
            Some(t) => t,
            None => u16::MAX,
        };
        let hitsummary = Hits::from_dice(dice);
        let totalsummary = Total::from_dice(dice);
        let glitch_hit: u16 = match dice.get_sides() {
            Some(s) => s,
            None => u16::MAX,
        };
        let glitchdice = DiceGroup::new(dice.duplicate().dice, glitch_hit);
        let glitchsummary = Hits::from_dice(&glitchdice);
        let successchance_hit = hitsummary.get_probability_of_gt(hits);
        let successchance_total = totalsummary.get_probability_of_gt(total);
        proof {
            lemma_in_range(dice.dice@);
        }
        let n = dice.get_count();
        let threshold: u16 = (n + 1) / 2;
        let glitchchance = glitchsummary.get_probability_of_gt(threshold);
        proof {
            lemma_tail_bounded(hitsummary.counts(), hits as int);
            lemma_tail_bounded(glitchsummary.counts(), threshold as int);
            let dd = successchance_hit.denominator as int;
            let hn = successchance_hit.numerator as int;
            let gn = glitchchance.numerator as int;
            assert((dd - hn) * gn <= dd * dd) by (nonlinear_arith)
                requires
                    0 <= hn <= dd,
                    0 <= gn <= dd,
            ;
            assert(dd * dd <= u64::MAX * u64::MAX) by (nonlinear_arith)
                requires
                    0 <= dd <= u64::MAX,
            ;
            assert(0 <= (dd - hn) * gn) by (nonlinear_arith)
                requires
                    0 <= hn <= dd,
                    0 <= gn,
            ;
        }
        let critglitch = Fraction {
            numerator: (successchance_hit.denominator - successchance_hit.numerator)
                * glitchchance.numerator,
            denominator: successchance_hit.denominator * glitchchance.denominator,
        };
        SummaryDisplay {
            hits,
            total,
            hit_chance: successchance_hit,
            total_chance: successchance_total,
            glitch_chance: glitchchance,
            critical_glitch_chance: critglitch,
        }
    }
}

} // verus!
