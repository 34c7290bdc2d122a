//! The roll engine: rolling a pool with rerolls, recording each roll, and the
//! summary tree that collects the records.

use vstd::prelude::*;
use rand::rngs::StdRng;
use crate::dice::{DiceGroup, Die, possible_roll, parse_notation};
use crate::text::{decimal, substitute};
use crate::rng::draw_u16;

verus! {

/// The record of one roll of one die.
#[derive(Clone, Copy, Debug, PartialEq, Eq, Structural)]
pub struct RollResult {
    /// The roll showed 1.
    pub critfail: bool,
    /// The unmodified face was both the highest face and the crit value.
    pub crit: bool,
    /// The value reached the success threshold.
    pub hit: bool,
    /// The value shown, modifier included.
    pub value: u32,
    pub sides: u16,
    pub modifier: u16,
}

/// The most records one summary node holds.
pub const MAX_RESULTS: u64 = 4294967295;

/// The number of records that are hits.
pub open spec fn hit_count(rs: Seq<RollResult>) -> nat
    decreases rs.len(),
{
    if rs.len() == 0 {
        0
    } else {
        hit_count(rs.drop_last()) + if rs.last().hit { 1nat } else { 0nat }
    }
}

/// The number of records that are crits.
pub open spec fn crit_count(rs: Seq<RollResult>) -> nat
    decreases rs.len(),
{
    if rs.len() == 0 {
        0
    } else {
        crit_count(rs.drop_last()) + if rs.last().crit { 1nat } else { 0nat }
    }
}

/// The number of records that show 1.
pub open spec fn critfail_count(rs: Seq<RollResult>) -> nat
    decreases rs.len(),
{
    if rs.len() == 0 {
        0
    } else {
        critfail_count(rs.drop_last()) + if rs.last().critfail { 1nat } else { 0nat }
    }
}

/// The sum of the values shown.
pub open spec fn value_sum(rs: Seq<RollResult>) -> nat
    decreases rs.len(),
{
    if rs.len() == 0 {
        0
    } else {
        (value_sum(rs.drop_last()) + rs.last().value) as nat
    }
}

/// The sum of the modifiers of the dice rolled.
pub open spec fn result_modifier_sum(rs: Seq<RollResult>) -> nat
    decreases rs.len(),
{
    if rs.len() == 0 {
        0
    } else {
        (result_modifier_sum(rs.drop_last()) + rs.last().modifier) as nat
    }
}

pub proof fn lemma_counts_bounded(rs: Seq<RollResult>)
    ensures
        hit_count(rs) <= rs.len(),
        crit_count(rs) <= rs.len(),
        critfail_count(rs) <= rs.len(),
        value_sum(rs) <= rs.len() * 4294967295,
        result_modifier_sum(rs) <= rs.len() * 65535,
    decreases rs.len(),
{
    if rs.len() > 0 {
        lemma_counts_bounded(rs.drop_last());
    }
}

/// A node of the summary tree: the records of one roll with counters taken
/// from those records alone, and the nodes merged below it. Counters never
/// include the records of the nodes below.
#[derive(Debug)]
pub struct Summary {
    pub summaries: Vec<Summary>,
    pub results: Vec<RollResult>,
    pub hits: u64,
    pub crits: u64,
    pub total: u64,
    pub total_modifier: u64,
}

impl Summary {
    /// The nodes merged below this one.
    pub open spec fn children(&self) -> Seq<Summary> {
        self.summaries@
    }

    /// This node's own records.
    pub open spec fn records(&self) -> Seq<RollResult> {
        self.results@
    }

    /// The counters agree with this node's own records.
    pub open spec fn wf(&self) -> bool {
        &&& self.results@.len() <= MAX_RESULTS
        &&& self.hits == hit_count(self.results@)
        &&& self.crits == crit_count(self.results@)
        &&& self.total == value_sum(self.results@)
        &&& self.total_modifier == result_modifier_sum(self.results@)
    }

    /// An empty node.
    pub fn new() -> (r: Summary)
        ensures
            r.children() == Seq::<Summary>::empty(),
            r.records() == Seq::<RollResult>::empty(),
            r.wf(),
    {
        Summary {
            summaries: Vec::new(),
            results: Vec::new(),
            hits: 0,
            crits: 0,
            total: 0,
            total_modifier: 0,
        }
    }

    /// Records one roll and counts it in this node's counters.
    pub fn add_result(&mut self, result: RollResult)
        requires
            old(self).wf(),
            old(self).records().len() < MAX_RESULTS,
        ensures
            final(self).wf(),
            final(self).records() == old(self).records().push(result),
            final(self).children() == old(self).children(),
    {
        proof {
            lemma_counts_bounded(self.results@);
            assert(self.results@.len() * 4294967295 <= 4294967294 * 4294967295)
                by (nonlinear_arith)
                requires
                    self.results@.len() <= 4294967294,
            ;
        }
        self.hits = self.hits + if result.hit { 1 } else { 0 };
        self.crits = self.crits + if result.crit { 1 } else { 0 };
        self.total = self.total + result.value as u64;
        self.total_modifier = self.total_modifier + result.modifier as u64;
        let ghost before = self.results@;
        self.results.push(result);
        assert(self.results@.drop_last() =~= before);
    }

    /// This node's own records.
    pub fn get_results(&self) -> (r: &[RollResult])
        ensures
            r@ == self.records(),
    {
        self.results.as_slice()
    }

    /// The nodes merged below this one.
    pub fn get_summaries(&self) -> (r: &[Summary])
        ensures
            r@ == self.children(),
    {
        self.summaries.as_slice()
    }

    /// Whether this node has records and at least half of them show 1.
    pub fn get_glitch(&self) -> (r: bool)
        ensures
            r == (self.records().len() > 0 && critfail_count(self.records()) * 2
                >= self.records().len()),
    {
        let mut fails: u64 = 0;
        let mut i: usize = 0;
        while i < self.results.len()
            invariant
                i <= self.results@.len(),
                fails == critfail_count(self.results@.take(i as int)),
                fails <= i,
            decreases self.results.len() - i,
        {
            assert(self.results@.take(i + 1).drop_last() =~= self.results@.take(i as int));
            if self.results[i].critfail {
                fails = fails + 1;
            }
            i = i + 1;
        }
        assert(self.results@.take(self.results@.len() as int) =~= self.results@);
        self.results.len() > 0 && (fails as u128) * 2 >= self.results.len() as u128
    }

    /// A copy of a node that has no nodes below it.
    pub fn duplicate_leaf(&self) -> (r: Summary)
        requires
            self.children().len() == 0,
        ensures
            r.children() == self.children(),
            r.records() == self.records(),
            r.hits == self.hits,
            r.crits == self.crits,
            r.total == self.total,
            r.total_modifier == self.total_modifier,
    {
        let mut results: Vec<RollResult> = Vec::new();
        let mut i: usize = 0;
        while i < self.results.len()
            invariant
                i <= self.results@.len(),
                results@ == self.results@.take(i as int),
            decreases self.results.len() - i,
        {
            results.push(self.results[i]);
            i = i + 1;
        }
        assert(results@ =~= self.results@);
        let summaries: Vec<Summary> = Vec::new();
        assert(summaries@ =~= self.summaries@);
        Summary {
            summaries,
            results,
            hits: self.hits,
            crits: self.crits,
            total: self.total,
            total_modifier: self.total_modifier,
        }
    }

    /// Merges two summaries: a node with no records of its own whose children
    /// are the two, in order.
    pub fn merge(self, rhs: Summary) -> (r: Summary)
        ensures
            r.children() == seq![self, rhs],
            r.records() == Seq::<RollResult>::empty(),
            r.wf(),
    {
        let mut summaries: Vec<Summary> = Vec::new();
        summaries.push(self);
        summaries.push(rhs);
        assert(summaries@ =~= seq![self, rhs]);
        Summary {
            summaries,
            results: Vec::new(),
            hits: 0,
            crits: 0,
            total: 0,
            total_modifier: 0,
        }
    }
}

/// How the roll engine judges each roll.
pub struct RollRules {
    /// A value that counts as a crit when it is also the highest face.
    pub critval: u16,
    /// The value at or above which a roll is a hit.
    pub success: u16,
    /// The value at or above which a die is rolled again.
    pub reroll: u16,
}

/// The most batches that one roll of a pool goes through: the first batch and
/// at most this many less one rounds of rerolls.
pub const MAX_BATCHES: u64 = 100;

/// Whether `r` is a correct record of a roll of `die`.
pub open spec fn records_roll(
    r: RollResult,
    die: Die,
    nsc: bool,
    critval: u16,
    success: u16,
) -> bool {
    &&& possible_roll(die, nsc, r.value as int)
    &&& r.sides == die.sides
    &&& r.modifier == die.modifier
    &&& r.critfail == (r.value == 1)
    &&& r.crit == (r.value - die.modifier == die.sides && r.value - die.modifier == critval)
    &&& r.hit == (r.value >= success)
}

/// Whether `rs` records one roll of each die of `dice`, in order.
pub open spec fn records_batch(
    rs: Seq<RollResult>,
    dice: Seq<Die>,
    nsc: bool,
    critval: u16,
    success: u16,
) -> bool {
    &&& rs.len() == dice.len()
    &&& forall|i: int|
        0 <= i < dice.len() ==> records_roll(#[trigger] rs[i], dice[i], nsc, critval, success)
}

/// The dice of a batch whose recorded value reached `reroll`, in order.
pub open spec fn rerolled(dice: Seq<Die>, rs: Seq<RollResult>, reroll: u16) -> Seq<Die>
    decreases dice.len(),
{
    if dice.len() == 0 || rs.len() == 0 {
        Seq::empty()
    } else if rs[rs.len() - 1].value >= reroll {
        rerolled(dice.drop_last(), rs.drop_last(), reroll).push(dice.last())
    } else {
        rerolled(dice.drop_last(), rs.drop_last(), reroll)
    }
}

/// Whether `rs` is what rolling `batch` yields: one record per die of the
/// batch, followed, when some of them reached the reroll value and `rounds`
/// more batches are allowed, by the records of rolling those dice again.
pub open spec fn rolled_batches(
    batch: Seq<Die>,
    rs: Seq<RollResult>,
    nsc: bool,
    rules: RollRules,
    rounds: nat,
) -> bool
    decreases rounds,
{
    &&& batch.len() <= rs.len()
    &&& records_batch(rs.take(batch.len() as int), batch, nsc, rules.critval, rules.success)
    &&& {
        let next = rerolled(batch, rs.take(batch.len() as int), rules.reroll);
        if next.len() == 0 || rounds == 0 {
            rs.len() == batch.len()
        } else {
            rolled_batches(next, rs.skip(batch.len() as int), nsc, rules, (rounds - 1) as nat)
        }
    }
}

pub proof fn lemma_rerolled_len(dice: Seq<Die>, rs: Seq<RollResult>, reroll: u16)
    ensures
        rerolled(dice, rs, reroll).len() <= dice.len(),
        (forall|i: int| 0 <= i < dice.len() ==> (#[trigger] dice[i]).sides >= 1) ==> forall|i: int|
            0 <= i < rerolled(dice, rs, reroll).len() ==> (#[trigger] rerolled(
                dice,
                rs,
                reroll,
            )[i]).sides >= 1,
    decreases dice.len(),
{
    if dice.len() > 0 && rs.len() > 0 {
        lemma_rerolled_len(dice.drop_last(), rs.drop_last(), reroll);
        let p = rerolled(dice.drop_last(), rs.drop_last(), reroll);
        if forall|i: int| 0 <= i < dice.len() ==> (#[trigger] dice[i]).sides >= 1 {
            assert(forall|i: int|
                0 <= i < dice.drop_last().len() ==> (#[trigger] dice.drop_last()[i]) == dice[i]);
            assert(dice.last() == dice[dice.len() - 1]);
        }
    }
}

proof fn lemma_nothing_rerolled(
    dice: Seq<Die>,
    rs: Seq<RollResult>,
    nsc: bool,
    rules: RollRules,
)
    requires
        records_batch(rs, dice, nsc, rules.critval, rules.success),
        forall|i: int|
            0 <= i < dice.len() ==> (#[trigger] dice[i]).modifier + dice[i].sides < rules.reroll,
    ensures
        rerolled(dice, rs, rules.reroll).len() == 0,
    decreases dice.len(),
{
    if dice.len() > 0 {
        let d = dice.drop_last();
        let r = rs.drop_last();
        assert forall|i: int| 0 <= i < d.len() implies records_roll(
            #[trigger] r[i],
            d[i],
            nsc,
            rules.critval,
            rules.success,
        ) by {
            assert(r[i] == rs[i] && d[i] == dice[i]);
        }
        assert(forall|i: int| 0 <= i < d.len() ==> #[trigger] d[i] == dice[i]);
        lemma_nothing_rerolled(d, r, nsc, rules);
        assert(records_roll(rs[rs.len() - 1], dice[dice.len() - 1], nsc, rules.critval, rules.success));
    }
}

/// When the reroll value is above every value that the dice of a pool can
/// show, rolling the pool is a single batch: exactly one record per die.
pub proof fn lemma_single_batch(
    pool: Seq<Die>,
    rs: Seq<RollResult>,
    nsc: bool,
    rules: RollRules,
    rounds: nat,
)
    requires
        forall|i: int|
            0 <= i < pool.len() ==> (#[trigger] pool[i]).modifier + pool[i].sides < rules.reroll,
        rolled_batches(pool, rs, nsc, rules, rounds),
    ensures
        rs.len() == pool.len(),
{
    lemma_nothing_rerolled(pool, rs.take(pool.len() as int), nsc, rules);
}

/// Rolls a pool and records every roll, rerolling the dice that reach the
/// reroll value.
pub struct Roller {
    dice: DiceGroup,
    rules: RollRules,
    summary: Summary,
}

impl Roller {
    /// The pool being rolled.
    pub closed spec fn pool(&self) -> DiceGroup {
        self.dice
    }

    /// The rules the rolls are judged by.
    pub closed spec fn judged_by(&self) -> RollRules {
        self.rules
    }

    /// The records so far.
    pub closed spec fn summary_so_far(&self) -> Summary {
        self.summary
    }

    /// A roller for the pool `dice`, with no records yet.
    pub fn from_dice_group(dice: DiceGroup, critval: u16, success: u16, reroll: u16) -> (r: Roller)
        ensures
            r.pool() == dice,
            r.judged_by() == (RollRules { critval, success, reroll }),
            r.summary_so_far().children() == Seq::<Summary>::empty(),
            r.summary_so_far().records() == Seq::<RollResult>::empty(),
            r.summary_so_far().wf(),
    {
        Roller { dice, rules: RollRules { critval, success, reroll }, summary: Summary::new() }
    }

    /// Rolls each die of `dice` once, records the rolls, and returns the dice
    /// whose value reached the reroll value.
    fn add_results(&mut self, dice: &Vec<Die>, nsc: bool, rng: &mut StdRng) -> (r: Vec<Die>)
        requires
            old(self).summary.wf(),
            old(self).summary.records().len() + dice@.len() <= MAX_RESULTS,
            forall|i: int| 0 <= i < dice@.len() ==> (#[trigger] dice@[i]).sides >= 1,
        ensures
            final(self).summary.wf(),
            final(self).dice == old(self).dice,
            final(self).rules == old(self).rules,
            final(self).summary.children() == old(self).summary.children(),
            final(self).summary.records().len() == old(self).summary.records().len() + dice@.len(),
            final(self).summary.records().take(old(self).summary.records().len() as int)
                == old(self).summary.records(),
            records_batch(
                final(self).summary.records().skip(old(self).summary.records().len() as int),
                dice@,
                nsc,
                old(self).rules.critval,
                old(self).rules.success,
            ),
            r@ == rerolled(
                dice@,
                final(self).summary.records().skip(old(self).summary.records().len() as int),
                old(self).rules.reroll,
            ),
    {
        let ghost start = self.summary.results@;
        let mut reroll_result: Vec<Die> = Vec::new();
        let mut i: usize = 0;
        while i < dice.len()
            invariant
                i <= dice@.len(),
                self.summary.wf(),
                self.dice == old(self).dice,
                self.rules == old(self).rules,
                self.summary.children() == old(self).summary.children(),
                start == old(self).summary.records(),
                start.len() + dice@.len() <= MAX_RESULTS,
                forall|k: int| 0 <= k < dice@.len() ==> (#[trigger] dice@[k]).sides >= 1,
                self.summary.results@.len() == start.len() + i,
                self.summary.results@.take(start.len() as int) == start,
                records_batch(
                    self.summary.results@.skip(start.len() as int),
                    dice@.take(i as int),
                    nsc,
                    self.rules.critval,
                    self.rules.success,
                ),
                reroll_result@ == rerolled(
                    dice@.take(i as int),
                    self.summary.results@.skip(start.len() as int),
                    self.rules.reroll,
                ),
            decreases dice.len() - i,
        {
            let die = dice[i];
            let num = die.roll(nsc, rng);
            let face: u32 = num - die.modifier as u32;
            let crit = face == die.sides as u32 && face == self.rules.critval as u32;
            if num >= self.rules.reroll as u32 {
                reroll_result.push(die);
            }
            let result = RollResult {
                critfail: num == 1,
                crit,
                hit: num >= self.rules.success as u32,
                value: num,
                sides: die.sides,
                modifier: die.modifier,
            };
            let ghost prev = self.summary.results@;
            self.summary.add_result(result);
            proof {
                let done = self.summary.results@.skip(start.len() as int);
                let before = prev.skip(start.len() as int);
                assert(done =~= before.push(result));
                assert(dice@.take(i + 1).drop_last() =~= dice@.take(i as int));
                assert(done.drop_last() =~= before);
                assert(self.summary.results@.take(start.len() as int) =~= start);
                assert(dice@.take(i + 1).last() == die);
            }
            i = i + 1;
        }
        assert(dice@.take(dice@.len() as int) =~= dice@);
        reroll_result
    }

    /// Rolls the pool: every die once, then again each die whose value reached
    /// the reroll value, batch after batch, until a batch has no such die or
    /// `MAX_BATCHES` batches have been rolled. Every roll is recorded.
    pub fn roll(&mut self, nsc: bool, rng: &mut StdRng)
        requires
            old(self).pool().wf(),
            old(self).summary_so_far().wf(),
            old(self).summary_so_far().records().len() + 65535 * MAX_BATCHES <= MAX_RESULTS,
        ensures
            final(self).pool() == old(self).pool(),
            final(self).judged_by() == old(self).judged_by(),
            final(self).summary_so_far().wf(),
            final(self).summary_so_far().children() == old(self).summary_so_far().children(),
            final(self).summary_so_far().records().take(
                old(self).summary_so_far().records().len() as int,
            ) == old(self).summary_so_far().records(),
            rolled_batches(
                old(self).pool().dice@,
                final(self).summary_so_far().records().skip(
                    old(self).summary_so_far().records().len() as int,
                ),
                nsc,
                old(self).judged_by(),
                (MAX_BATCHES - 1) as nat,
            ),
            (forall|i: int|
                0 <= i < old(self).pool().dice@.len() ==> (#[trigger] old(self).pool().dice@[i]).modifier
                    + old(self).pool().dice@[i].sides < old(self).judged_by().reroll)
                ==> final(self).summary_so_far().records().len()
                == old(self).summary_so_far().records().len() + old(self).pool().dice@.len(),
    {
        let ghost start = self.summary.results@;
        let ghost pool = self.dice.dice@;
        let mut batch = self.dice.duplicate().dice;
        let mut left: u64 = MAX_BATCHES - 1;
        loop
            invariant_except_break
                self.summary.results@.len() + batch@.len() * (left + 1) <= MAX_RESULTS,
                batch@.len() <= 65535,
                forall|k: int| 0 <= k < batch@.len() ==> (#[trigger] batch@[k]).sides >= 1,
                forall|t: Seq<RollResult>|
                    #[trigger] rolled_batches(batch@, t, nsc, self.rules, left as nat)
                        ==> rolled_batches(
                        pool,
                        self.summary.results@.skip(start.len() as int) + t,
                        nsc,
                        self.rules,
                        (MAX_BATCHES - 1) as nat,
                    ),
            invariant
                self.dice == old(self).dice,
                self.rules == old(self).rules,
                self.summary.wf(),
                self.summary.children() == old(self).summary.children(),
                start == old(self).summary.records(),
                pool == old(self).dice.dice@,
                left < MAX_BATCHES,
                self.summary.results@.len() >= start.len(),
                self.summary.results@.take(start.len() as int) == start,
            ensures
                rolled_batches(
                    pool,
                    self.summary.results@.skip(start.len() as int),
                    nsc,
                    self.rules,
                    (MAX_BATCHES - 1) as nat,
                ),
            decreases left,
        {
            let ghost before = self.summary.results@;
            let ghost cur = batch@;
            assert(before.len() + cur.len() <= MAX_RESULTS) by (nonlinear_arith)
                requires
                    before.len() + cur.len() * (left + 1) <= MAX_RESULTS,
                    left >= 0,
            ;
            let next = self.add_results(&batch, nsc, rng);
            let ghost made = self.summary.results@.skip(before.len() as int);
            proof {
                lemma_rerolled_len(cur, made, self.rules.reroll);
                assert(made.take(cur.len() as int) =~= made);
                assert(self.summary.results@.take(start.len() as int) =~= start);
                assert(self.summary.results@.skip(start.len() as int) =~= before.skip(
                    start.len() as int,
                ) + made);
            }
            if next.len() == 0 || left == 0 {
                proof {
                    assert(rolled_batches(cur, made, nsc, self.rules, left as nat));
                    assert(rolled_batches(
                        pool,
                        before.skip(start.len() as int) + made,
                        nsc,
                        self.rules,
                        (MAX_BATCHES - 1) as nat,
                    ));
                    assert(before.skip(start.len() as int) + made =~= self.summary.results@.skip(
                        start.len() as int,
                    ));
                }
                break;
            }
            proof {
                assert forall|t: Seq<RollResult>|
                    #[trigger] rolled_batches(next@, t, nsc, self.rules, (left - 1) as nat)
                        implies rolled_batches(
                        pool,
                        self.summary.results@.skip(start.len() as int) + t,
                        nsc,
                        self.rules,
                        (MAX_BATCHES - 1) as nat,
                    ) by {
                    let whole = made + t;
                    assert(whole.take(cur.len() as int) =~= made);
                    assert(whole.skip(cur.len() as int) =~= t);
                    assert(rolled_batches(cur, whole, nsc, self.rules, left as nat));
                    assert(before.skip(start.len() as int) + whole =~= self.summary.results@.skip(
                        start.len() as int,
                    ) + t);
                }
                assert(self.summary.results@.len() + next@.len() * left <= MAX_RESULTS)
                    by (nonlinear_arith)
                    requires
                        before.len() + cur.len() * (left + 1) <= MAX_RESULTS,
                        self.summary.results@.len() == before.len() + cur.len(),
                        next@.len() <= cur.len(),
                ;
            }
            let ghost nb = next@;
            let ghost l0 = left;
            batch = next;
            left = left - 1;
            assert forall|t: Seq<RollResult>|
                #[trigger] rolled_batches(batch@, t, nsc, self.rules, left as nat)
                    implies rolled_batches(
                    pool,
                    self.summary.results@.skip(start.len() as int) + t,
                    nsc,
                    self.rules,
                    (MAX_BATCHES - 1) as nat,
                ) by {
                assert(rolled_batches(nb, t, nsc, self.rules, (l0 - 1) as nat));
            }
        }
        proof {
            if forall|i: int|
                0 <= i < pool.len() ==> (#[trigger] pool[i]).modifier + pool[i].sides
                    < self.rules.reroll {
                lemma_single_batch(
                    pool,
                    self.summary.results@.skip(start.len() as int),
                    nsc,
                    self.rules,
                    (MAX_BATCHES - 1) as nat,
                );
            }
        }
    }

    /// The records of the rolls made.
    pub fn get_summary(self) -> (r: Summary)
        ensures
            r == self.summary_so_far(),
    {
        self.summary
    }
}

/// The dice that one step of a chained roll rolls: the notation with each `x`
/// replaced by the earlier hits (at most `u16::MAX`), read with the earlier
/// crits (at most `u16::MAX`); no dice when the notation yields no pool.
pub open spec fn chained_pool(dice: Seq<char>, hits: u64, crits: u64, nsc: bool) -> Seq<Die> {
    let h: u16 = if hits > u16::MAX { u16::MAX } else { hits as u16 };
    let c: u16 = if crits > u16::MAX { u16::MAX } else { crits as u16 };
    match parse_notation(substitute(dice, 'x', decimal(h as nat)), c, nsc) {
        Some(d) => d,
        None => Seq::empty(),
    }
}

/// One step of a chained roll: reads `dice` with the hits and crits of
/// `previous`, rolls the pool, leaves its records in `previous`, and merges a
/// copy of them into `total`.
pub fn roll(
    dice: &str,
    previous: &mut Summary,
    success: u16,
    no_shitty_crits: bool,
    critval: u16,
    reroll: u16,
    total: &mut Summary,
    rng: &mut StdRng,
)
    ensures
        final(previous).wf(),
        final(previous).children() == Seq::<Summary>::empty(),
        rolled_batches(
            chained_pool(dice@, old(previous).hits, old(previous).crits, no_shitty_crits),
            final(previous).records(),
            no_shitty_crits,
            RollRules { critval, success, reroll },
            (MAX_BATCHES - 1) as nat,
        ),
        final(total).children().len() == 2,
        final(total).children()[0] == *old(total),
        final(total).children()[1].records() == final(previous).records(),
        final(total).children()[1].children() == Seq::<Summary>::empty(),
        final(total).children()[1].wf(),
        final(total).records() == Seq::<RollResult>::empty(),
        final(total).wf(),
{
    let hits: u16 = if previous.hits > 65535 { 65535 } else { previous.hits as u16 };
    let crits: u16 = if previous.crits > 65535 { 65535 } else { previous.crits as u16 };
    let d = match DiceGroup::from_previous(dice, hits, crits, success, no_shitty_crits) {
        Some(g) => g,
        None => DiceGroup::default(),
    };
    assert(d.dice@ == chained_pool(dice@, previous.hits, previous.crits, no_shitty_crits));
    let mut roller = Roller::from_dice_group(d, critval, success, reroll);
    roller.roll(no_shitty_crits, rng);
    let summary = roller.get_summary();
    assert(summary.records().skip(0) =~= summary.records());
    let copy = summary.duplicate_leaf();
    let mut old_total = Summary::new();
    core::mem::swap(total, &mut old_total);
    *total = old_total.merge(copy);
    *previous = summary;
}

} // verus!
