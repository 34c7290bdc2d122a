use dicepool::dice::{DiceGroup, Die};
use dicepool::roll::{roll, RollResult, Roller, Summary};
use rand::rngs::StdRng;
use rand::SeedableRng;

fn record(value: u32, hit: bool, crit: bool) -> RollResult {
    RollResult { critfail: value == 1, crit, hit, value, sides: 6, modifier: 0 }
}

#[test]
fn counters_follow_own_records() {
    let mut s = Summary::new();
    s.add_result(record(6, true, true));
    s.add_result(record(1, false, false));
    s.add_result(record(5, true, false));
    assert_eq!(s.hits, 2);
    assert_eq!(s.crits, 1);
    assert_eq!(s.total, 12);
    assert_eq!(s.total_modifier, 0);
    assert_eq!(s.get_results().len(), 3);
}

#[test]
fn glitch_needs_at_least_half_ones() {
    let mut s = Summary::new();
    assert!(!s.get_glitch());
    s.add_result(record(1, false, false));
    assert!(s.get_glitch());
    s.add_result(record(4, false, false));
    assert!(s.get_glitch());
    s.add_result(record(5, true, false));
    assert!(!s.get_glitch());
    s.add_result(record(1, false, false));
    assert!(s.get_glitch());
    s.add_result(record(3, false, false));
    assert!(!s.get_glitch());
}

#[test]
fn merge_keeps_children_and_does_not_roll_up() {
    let mut a = Summary::new();
    a.add_result(record(6, true, false));
    let mut b = Summary::new();
    b.add_result(record(3, false, false));
    let m = a.merge(b);
    assert_eq!(m.get_summaries().len(), 2);
    assert_eq!(m.get_summaries()[0].hits, 1);
    assert_eq!(m.get_summaries()[1].total, 3);
    assert_eq!(m.hits, 0);
    assert_eq!(m.total, 0);
    assert!(m.get_results().is_empty());
}

#[test]
fn no_reroll_above_highest_face() {
    let mut rng = StdRng::seed_from_u64(11);
    let g = DiceGroup::from("5d6+1", 0, 5, false).unwrap();
    let mut roller = Roller::from_dice_group(g, 6, 5, 8);
    roller.roll(false, &mut rng);
    let s = roller.get_summary();
    assert_eq!(s.get_results().len(), 5);
    for (r, m) in s.get_results().iter().zip([1u16, 0, 0, 0, 0]) {
        assert_eq!(r.sides, 6);
        assert_eq!(r.modifier, m);
        assert!(r.value >= 1 + m as u32 && r.value <= 6 + m as u32);
        assert_eq!(r.hit, r.value >= 5);
        assert_eq!(r.critfail, r.value == 1);
    }
}

#[test]
fn rerolls_every_die_that_reaches_threshold() {
    let mut rng = StdRng::seed_from_u64(3);
    let g = DiceGroup::from("20d6", 0, 5, false).unwrap();
    let mut roller = Roller::from_dice_group(g, 6, 5, 6);
    roller.roll(false, &mut rng);
    let s = roller.get_summary();
    let rs = s.get_results();
    let mut start = 0;
    let mut batch = 20;
    while batch > 0 {
        let sixes = rs[start..start + batch].iter().filter(|r| r.value >= 6).count();
        start += batch;
        batch = sixes;
    }
    assert_eq!(start, rs.len());
    assert!(rs.iter().all(|r| r.crit == (r.value == 6)));
}

#[test]
fn reroll_on_every_face_stops_at_batch_limit() {
    let mut rng = StdRng::seed_from_u64(5);
    let g = DiceGroup::new(vec![Die::new(4, 0, false), Die::new(4, 0, false)], 3);
    let mut roller = Roller::from_dice_group(g, 4, 3, 1);
    roller.roll(false, &mut rng);
    assert_eq!(roller.get_summary().get_results().len(), 200);
}

#[test]
fn forced_crits_show_highest_face() {
    let mut rng = StdRng::seed_from_u64(9);
    let g = DiceGroup::from("2d6+1", 1, 5, true).unwrap();
    let mut roller = Roller::from_dice_group(g, 6, 5, 100);
    roller.roll(true, &mut rng);
    let s = roller.get_summary();
    let values: Vec<u32> = s.get_results().iter().map(|r| r.value).collect();
    assert_eq!(values, vec![7, 6, 7, 6]);
    assert_eq!(s.crits, 4);
    assert_eq!(s.total_modifier, 2);
}

#[test]
fn chained_roll_uses_previous_hits() {
    let mut rng = StdRng::seed_from_u64(21);
    let mut previous = Summary::new();
    let mut total = Summary::new();
    roll("4d6", &mut previous, 1, false, u16::MAX, u16::MAX, &mut total, &mut rng);
    assert_eq!(previous.hits, 4);
    roll("x*1d8+4", &mut previous, 100, false, u16::MAX, u16::MAX, &mut total, &mut rng);
    assert_eq!(previous.get_results().len(), 4);
    assert!(previous.get_results().iter().all(|r| r.modifier == 4 && r.sides == 8));
    assert_eq!(total.get_summaries().len(), 2);
    assert_eq!(total.get_summaries()[1].get_results().len(), 4);
    assert_eq!(total.get_summaries()[0].get_summaries().len(), 2);
}

#[test]
fn bad_notation_rolls_nothing() {
    let mut rng = StdRng::seed_from_u64(1);
    let mut previous = Summary::new();
    let mut total = Summary::new();
    roll("six", &mut previous, 5, false, 6, 7, &mut total, &mut rng);
    assert!(previous.get_results().is_empty());
    assert_eq!(previous.hits, 0);
}
