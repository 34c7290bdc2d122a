//! Dice and dice pools, and the notation `[<groups>*]<n>d<sides>[+<modifier>]`
//! that describes a pool.

use vstd::prelude::*;
use rand::rngs::StdRng;
use crate::rng::draw_u16;
use crate::text::{
    after_char, before_char, chars_of, decimal, find_char_in, has_char, parse_u16,
    parse_u16_in, piece_after, piece_before, substitute, substitute_decimal,
};

verus! {

/// One die: its number of faces, a bonus added to each roll, and whether it
/// always shows its highest face under the forced-crit variant.
#[derive(Clone, Copy, Debug, PartialEq, Eq, Structural)]
pub struct Die {
    pub crit: bool,
    pub sides: u16,
    pub modifier: u16,
}

impl Die {
    /// A die of `sides` faces with a bonus of `modifier`.
    pub fn new(sides: u16, modifier: u16, crit: bool) -> (r: Die)
        requires
            sides >= 1,
        ensures
            r == (Die { crit, sides, modifier }),
    {
        Die { crit, sides, modifier }
    }
}

/// The value that `die` shows for the drawn number `draw`: its highest face
/// plus its modifier when it is a forced crit under the variant, else
/// `1 + modifier + draw % sides`.
pub open spec fn roll_value(die: Die, nsc: bool, draw: u16) -> int {
    if die.crit && nsc {
        die.modifier + die.sides
    } else {
        1 + die.modifier + draw % die.sides
    }
}

/// Whether `value` is a value that `die` can show.
pub open spec fn possible_roll(die: Die, nsc: bool, value: int) -> bool {
    if die.crit && nsc {
        value == die.modifier + die.sides
    } else {
        die.modifier + 1 <= value <= die.modifier + die.sides
    }
}

impl Die {
    /// The value shown for the drawn number `draw`.
    pub fn roll_with(&self, nsc: bool, draw: u16) -> (r: u32)
        requires
            self.sides >= 1,
        ensures
            r == roll_value(*self, nsc, draw),
            possible_roll(*self, nsc, r as int),
    {
        if self.crit && nsc {
            self.modifier as u32 + self.sides as u32
        } else {
            1 + self.modifier as u32 + (draw % self.sides) as u32
        }
    }

    /// Rolls the die: a forced crit under the variant shows its highest face
    /// plus its modifier without drawing, any other die a face drawn from `rng`
    /// plus its modifier.
    pub fn roll(&self, nsc: bool, rng: &mut StdRng) -> (r: u32)
        requires
            self.sides >= 1,
        ensures
            possible_roll(*self, nsc, r as int),
    {
        if self.crit && nsc {
            self.roll_with(nsc, 0)
        } else {
            let draw = draw_u16(rng);
            self.roll_with(nsc, draw)
        }
    }
}

impl Default for Die {
    /// A plain one-sided die.
    fn default() -> (r: Die)
        ensures
            r == (Die { crit: false, sides: 1, modifier: 0 }),
    {
        Die { crit: false, sides: 1, modifier: 0 }
    }
}

/// A pool of dice and the value at or above which a roll is a hit.
#[derive(Clone, Debug)]
pub struct DiceGroup {
    pub dice: Vec<Die>,
    pub hit: u16,
}

/// The dice of one notated group: `n` dice of `sides` faces, of which only the
/// first carries the modifier.
pub open spec fn batch(n: nat, sides: u16, modifier: u16, crit: bool) -> Seq<Die> {
    Seq::new(n, |i: int| Die { crit, sides, modifier: if i == 0 { modifier } else { 0 } })
}

/// `k` copies of `b`, one after another.
pub open spec fn repeat(k: nat, b: Seq<Die>) -> Seq<Die>
    decreases k,
{
    if k == 0 {
        Seq::empty()
    } else {
        repeat((k - 1) as nat, b) + b
    }
}

/// The part of the notation that describes one group: what follows the first
/// `*` up to the next one, or the whole text when there is no `*`.
pub open spec fn group_text(s: Seq<char>) -> Seq<char> {
    if has_char(s, '*') {
        piece_before(piece_after(s, '*'), '*')
    } else {
        s
    }
}

/// The number of groups written before the `*`: 1 when absent or unreadable.
pub open spec fn multiplier(s: Seq<char>) -> nat {
    if has_char(s, '*') {
        match parse_u16(piece_before(s, '*')) {
            Some(v) => v as nat,
            None => 1,
        }
    } else {
        1
    }
}

/// The number of dice in each group: 0 when unreadable.
pub open spec fn dice_per_group(s: Seq<char>) -> nat {
    match parse_u16(piece_before(group_text(s), 'd')) {
        Some(v) => v as nat,
        None => 0,
    }
}

/// The faces part of a group, after its first `d` up to the next one (empty
/// when the group has no `d`).
pub open spec fn face_text(s: Seq<char>) -> Seq<char> {
    let g = group_text(s);
    if has_char(g, 'd') {
        piece_before(piece_after(g, 'd'), 'd')
    } else {
        Seq::empty()
    }
}

/// The number of faces written before an optional `+`: 1 when it is
/// unreadable or zero.
pub open spec fn faces_sides(t: Seq<char>) -> u16 {
    match parse_u16(piece_before(t, '+')) {
        Some(v) => if v >= 1 { v } else { 1 },
        None => 1,
    }
}

/// The modifier written after a `+`: 0 when absent or unreadable.
pub open spec fn faces_modifier(t: Seq<char>) -> u16 {
    if has_char(t, '+') {
        match parse_u16(piece_before(piece_after(t, '+'), '+')) {
            Some(v) => v,
            None => 0,
        }
    } else {
        0
    }
}

/// How many groups of ordinary dice the notation yields once `crits`
/// earlier crits are taken into account.
pub open spec fn normal_groups(s: Seq<char>, crits: u16, nsc: bool) -> nat {
    if !nsc {
        multiplier(s)
    } else if has_char(s, '*') {
        if multiplier(s) >= crits {
            (multiplier(s) - crits) as nat
        } else {
            0
        }
    } else if crits > 0 {
        0
    } else {
        1
    }
}

/// How many groups of forced-crit dice are added: twice the crits under the
/// forced-crit variant, none otherwise (the crits count only under it).
pub open spec fn crit_groups(crits: u16, nsc: bool) -> nat {
    if nsc {
        (2 * crits) as nat
    } else {
        0
    }
}

/// The number of dice that the notation describes.
pub open spec fn notation_size(s: Seq<char>, crits: u16, nsc: bool) -> nat {
    (normal_groups(s, crits, nsc) + crit_groups(crits, nsc)) * dice_per_group(s)
}

/// The dice that the notation describes: the ordinary groups, then the
/// forced-crit groups.
pub open spec fn notation_dice(s: Seq<char>, crits: u16, nsc: bool) -> Seq<Die> {
    let t = face_text(s);
    let n = dice_per_group(s);
    repeat(normal_groups(s, crits, nsc), batch(n, faces_sides(t), faces_modifier(t), false))
        + repeat(crit_groups(crits, nsc), batch(n, faces_sides(t), faces_modifier(t), true))
}

/// What the notation yields: nothing when it has no `d`; an empty pool when it
/// describes more dice than a pool can count; else its dice.
pub open spec fn parse_notation(s: Seq<char>, crits: u16, nsc: bool) -> Option<Seq<Die>> {
    if !has_char(s, 'd') {
        None
    } else if notation_size(s, crits, nsc) > u16::MAX {
        Some(Seq::empty())
    } else {
        Some(notation_dice(s, crits, nsc))
    }
}

/// Whether a list of dice can form a pool: every die has a face, and the count
/// fits in a `u16`.
pub open spec fn dice_wf(dice: Seq<Die>) -> bool {
    &&& dice.len() <= u16::MAX
    &&& forall|i: int| 0 <= i < dice.len() ==> (#[trigger] dice[i]).sides >= 1
}

/// The side count that all the dice share, if the pool is non-empty and they do.
pub open spec fn common_sides(dice: Seq<Die>) -> Option<u16> {
    if dice.len() > 0 && forall|i: int| 0 <= i < dice.len() ==> (#[trigger] dice[i]).sides
        == dice[0].sides {
        Some(dice[0].sides)
    } else {
        None
    }
}

/// The sum of the dice's modifiers.
pub open spec fn modifier_sum(dice: Seq<Die>) -> nat
    decreases dice.len(),
{
    if dice.len() == 0 {
        0
    } else {
        (modifier_sum(dice.drop_last()) + dice.last().modifier) as nat
    }
}

pub proof fn lemma_repeat(k: nat, b: Seq<Die>)
    ensures
        repeat(k, b).len() == k * b.len(),
        (forall|i: int| 0 <= i < b.len() ==> (#[trigger] b[i]).sides >= 1) ==> forall|i: int|
            0 <= i < repeat(k, b).len() ==> (#[trigger] repeat(k, b)[i]).sides >= 1,
    decreases k,
{
    if k > 0 {
        lemma_repeat((k - 1) as nat, b);
        assert(repeat(k, b) == repeat((k - 1) as nat, b) + b);
        assert(repeat(k, b).len() == repeat((k - 1) as nat, b).len() + b.len());
        assert(k * b.len() == (k - 1) * b.len() + b.len()) by (nonlinear_arith);
        let r = repeat(k, b);
        let p = repeat((k - 1) as nat, b);
        if forall|i: int| 0 <= i < b.len() ==> (#[trigger] b[i]).sides >= 1 {
            assert forall|i: int| 0 <= i < r.len() implies (#[trigger] r[i]).sides >= 1 by {
                if i < p.len() {
                    assert(r[i] == p[i]);
                } else {
                    assert(r[i] == b[i - p.len()]);
                }
            }
        }
    } else {
        assert(k * b.len() == 0) by (nonlinear_arith) requires k == 0;
    }
}

/// Appends one group to `dice_vec`: `dice` dice of `sides` faces, the first
/// of which carries `modifier`.
fn fill_dice(dice: u16, sides: u16, modifier: u16, crit: bool, dice_vec: &mut Vec<Die>)
    ensures
        final(dice_vec)@ == old(dice_vec)@ + batch(dice as nat, sides, modifier, crit),
{
    let ghost start = old(dice_vec)@;
    let mut m = modifier;
    let mut i: u16 = 0;
    while i < dice
        invariant
            i <= dice,
            m == (if i == 0 { modifier } else { 0u16 }),
            dice_vec@ == start + batch(i as nat, sides, modifier, crit),
        decreases dice - i,
    {
        dice_vec.push(Die { crit, sides, modifier: m });
        assert(dice_vec@ =~= start + batch((i + 1) as nat, sides, modifier, crit));
        m = 0;
        i = i + 1;
    }
}

/// Appends `groups` copies of one group to `dice_vec`.
fn fill_groups(
    groups: u32,
    dice: u16,
    sides: u16,
    modifier: u16,
    crit: bool,
    dice_vec: &mut Vec<Die>,
)
    ensures
        final(dice_vec)@ == old(dice_vec)@ + repeat(
            groups as nat,
            batch(dice as nat, sides, modifier, crit),
        ),
{
    let ghost start = old(dice_vec)@;
    let ghost b = batch(dice as nat, sides, modifier, crit);
    let mut g: u32 = 0;
    while g < groups
        invariant
            g <= groups,
            b == batch(dice as nat, sides, modifier, crit),
            dice_vec@ == start + repeat(g as nat, b),
        decreases groups - g,
    {
        let ghost before = dice_vec@;
        fill_dice(dice, sides, modifier, crit, dice_vec);
        assert(repeat((g + 1) as nat, b) == repeat(g as nat, b) + b);
        assert(dice_vec@ =~= start + repeat((g + 1) as nat, b));
        g = g + 1;
    }
}

/// Reads the faces part of a group: its side count and its modifier.
fn read_faces(t: &[char]) -> (r: (u16, u16))
    ensures
        r.0 == faces_sides(t@),
        r.1 == faces_modifier(t@),
{
    let head = before_char(t, '+');
    let sides = match parse_u16_in(head.as_slice()) {
        Some(v) => if v >= 1 { v } else { 1 },
        None => 1,
    };
    let modifier = if find_char_in(t, '+') < t.len() {
        let rest = after_char(t, '+');
        let field = before_char(rest.as_slice(), '+');
        match parse_u16_in(field.as_slice()) {
            Some(v) => v,
            None => 0,
        }
    } else {
        0
    };
    (sides, modifier)
}

impl DiceGroup {
    /// Whether the pool is well formed (see `dice_wf`).
    pub open spec fn wf(&self) -> bool {
        dice_wf(self.dice@)
    }

    /// A pool of the given dice, with hits at `hit` and above.
    pub fn new(dice: Vec<Die>, hit: u16) -> (r: DiceGroup)
        ensures
            r.dice@ == dice@,
            r.hit == hit,
    {
        DiceGroup { dice, hit }
    }

    /// The number of dice.
    pub fn get_count(&self) -> (r: u16)
        requires
            self.wf(),
        ensures
            r == self.dice@.len(),
    {
        self.dice.len() as u16
    }

    /// The hit threshold.
    pub fn get_hit(&self) -> (r: u16)
        ensures
            r == self.hit,
    {
        self.hit
    }

    /// The side count that all dice share; none for an empty or mixed pool.
    pub fn get_sides(&self) -> (r: Option<u16>)
        ensures
            r == common_sides(self.dice@),
    {
        if self.dice.len() == 0 {
            return None;
        }
        let first = self.dice[0].sides;
        let mut i: usize = 1;
        while i < self.dice.len()
            invariant
                1 <= i <= self.dice@.len(),
                first == self.dice@[0].sides,
                forall|j: int| 0 <= j < i ==> (#[trigger] self.dice@[j]).sides == first,
            decreases self.dice.len() - i,
        {
            if self.dice[i].sides != first {
                return None;
            }
            i = i + 1;
        }
        Some(first)
    }

    /// The sum of the dice's modifiers.
    pub fn get_total_modifier(&self) -> (r: u32)
        requires
            self.wf(),
        ensures
            r == modifier_sum(self.dice@),
    {
        let mut total: u32 = 0;
        let mut i: usize = 0;
        while i < self.dice.len()
            invariant
                i <= self.dice@.len() <= u16::MAX,
                total == modifier_sum(self.dice@.take(i as int)),
                total <= i * 65535,
            decreases self.dice.len() - i,
        {
            assert(self.dice@.take(i + 1).drop_last() =~= self.dice@.take(i as int));
            total = total + self.dice[i].modifier as u32;
            i = i + 1;
        }
        assert(self.dice@.take(self.dice@.len() as int) =~= self.dice@);
        total
    }

    /// A pool with the same dice and hit threshold.
    pub fn duplicate(&self) -> (r: DiceGroup)
        ensures
            r.dice@ == self.dice@,
            r.hit == self.hit,
    {
        let mut dice: Vec<Die> = Vec::new();
        let mut i: usize = 0;
        while i < self.dice.len()
            invariant
                i <= self.dice@.len(),
                dice@ == self.dice@.take(i as int),
            decreases self.dice.len() - i,
        {
            dice.push(self.dice[i]);
            i = i + 1;
        }
        assert(dice@ =~= self.dice@);
        DiceGroup { dice, hit: self.hit }
    }

    /// Reads the notation `[<groups>*]<n>d<sides>[+<modifier>]` into a pool with
    /// hits at `hit`; under the forced-crit variant, `crits` earlier crits turn
    /// groups into forced-crit dice (see `parse_notation`).
    pub fn from(dice_args: &str, crits: u16, hit: u16, no_shitty_crit: bool) -> (r: Option<
        DiceGroup,
    >)
        ensures
            match parse_notation(dice_args@, crits, no_shitty_crit) {
                Some(d) => r is Some && r->0.dice@ == d && r->0.hit == hit && r->0.wf(),
                None => r is None,
            },
    {
        let s = chars_of(dice_args);
        Self::from_chars(s.as_slice(), crits, hit, no_shitty_crit)
    }

    /// As `from`, after each `x` in the notation is replaced by `default`
    /// written in decimal.
    pub fn from_previous(
        dice_args: &str,
        default: u16,
        crits: u16,
        hit: u16,
        no_shitty_crit: bool,
    ) -> (r: Option<DiceGroup>)
        ensures
            match parse_notation(
                substitute(dice_args@, 'x', decimal(default as nat)),
                crits,
                no_shitty_crit,
            ) {
                Some(d) => r is Some && r->0.dice@ == d && r->0.hit == hit && r->0.wf(),
                None => r is None,
            },
    {
        let s = chars_of(dice_args);
        let replaced = substitute_decimal(s.as_slice(), 'x', default);
        Self::from_chars(replaced.as_slice(), crits, hit, no_shitty_crit)
    }

    fn from_chars(s: &[char], crits: u16, hit: u16, no_shitty_crit: bool) -> (r: Option<
        DiceGroup,
    >)
        ensures
            match parse_notation(s@, crits, no_shitty_crit) {
                Some(d) => r is Some && r->0.dice@ == d && r->0.hit == hit && r->0.wf(),
                None => r is None,
            },
    {
        if find_char_in(s, 'd') >= s.len() {
            return None;
        }
        let has_star = find_char_in(s, '*') < s.len();
        let group: Vec<char>;
        let mut rolls: u32;
        if has_star {
            let head = before_char(s, '*');
            rolls = match parse_u16_in(head.as_slice()) {
                Some(v) => v as u32,
                None => 1,
            };
            let rest = after_char(s, '*');
            group = before_char(rest.as_slice(), '*');
        } else {
            rolls = 1;
            group = copy_whole(s);
        }
        assert(group@ == group_text(s@));
        assert(rolls == multiplier(s@));
        let count_text = before_char(group.as_slice(), 'd');
        let dice: u16 = match parse_u16_in(count_text.as_slice()) {
            Some(v) => v,
            None => 0,
        };
        let face: Vec<char> = if find_char_in(group.as_slice(), 'd') < group.len() {
            let after = after_char(group.as_slice(), 'd');
            before_char(after.as_slice(), 'd')
        } else {
            Vec::new()
        };
        assert(face@ =~= face_text(s@));
        let (sides, modifier) = read_faces(face.as_slice());
        let mut crit_rolls: u32 = 0;
        if no_shitty_crit {
            if has_star {
                rolls = if rolls >= crits as u32 { rolls - crits as u32 } else { 0 };
            } else {
                rolls = if crits > 0 { 0 } else { 1 };
            }
            crit_rolls = 2 * crits as u32;
        }
        assert(rolls == normal_groups(s@, crits, no_shitty_crit));
        assert(crit_rolls == crit_groups(crits, no_shitty_crit));
        assert(rolls <= 65535 && crit_rolls <= 131070);
        assert((rolls + crit_rolls) * dice <= 196605 * 65535) by (nonlinear_arith)
            requires
                rolls <= 65535,
                crit_rolls <= 131070,
                dice <= 65535,
        ;
        let size: u64 = (rolls as u64 + crit_rolls as u64) * dice as u64;
        if size > 65535 {
            let empty: Vec<Die> = Vec::new();
            assert(empty@ =~= Seq::<Die>::empty());
            return Some(DiceGroup { dice: empty, hit });
        }
        let mut dice_vec: Vec<Die> = Vec::new();
        fill_groups(rolls, dice, sides, modifier, false, &mut dice_vec);
        fill_groups(crit_rolls, dice, sides, modifier, true, &mut dice_vec);
        proof {
            let b0 = batch(dice as nat, sides, modifier, false);
            let b1 = batch(dice as nat, sides, modifier, true);
            lemma_repeat(rolls as nat, b0);
            lemma_repeat(crit_rolls as nat, b1);
            assert(dice_vec@ =~= notation_dice(s@, crits, no_shitty_crit));
            assert((rolls + crit_rolls) * dice == rolls * dice + crit_rolls * dice)
                by (nonlinear_arith);
            let d = dice_vec@;
            let p = repeat(rolls as nat, b0);
            assert forall|i: int| 0 <= i < d.len() implies (#[trigger] d[i]).sides >= 1 by {
                if i < p.len() {
                    assert(d[i] == p[i]);
                } else {
                    assert(d[i] == repeat(crit_rolls as nat, b1)[i - p.len()]);
                }
            }
        }
        Some(DiceGroup { dice: dice_vec, hit })
    }
}

impl Default for DiceGroup {
    /// An empty pool on which nothing is a hit.
    fn default() -> (r: DiceGroup)
        ensures
            r.dice@ == Seq::<Die>::empty(),
            r.hit == u16::MAX,
    {
        DiceGroup { dice: Vec::new(), hit: u16::MAX }
    }
}

/// A copy of `s`.
fn copy_whole(s: &[char]) -> (r: Vec<char>)
    ensures
        r@ == s@,
{
    let mut r: Vec<char> = Vec::new();
    let mut i: usize = 0;
    while i < s.len()
        invariant
            i <= s@.len(),
            r@ == s@.take(i as int),
        decreases s.len() - i,
    {
        r.push(s[i]);
        i = i + 1;
    }
    r
}

} // verus!
