use dicepool::dice::{DiceGroup, Die};
use dicepool::probability::{success_sides, Fraction, Hits, SummaryDisplay, Total};

fn pool(s: &str, hit: u16) -> DiceGroup {
    DiceGroup::from(s, 0, hit, false).unwrap()
}

fn frac(numerator: u128, denominator: u128) -> Fraction {
    Fraction { numerator, denominator }
}

#[test]
fn two_d6_total() {
    let t = Total::from_dice(&pool("2d6", 5));
    assert_eq!(t.get_probability_of(7), frac(6, 36));
    assert_eq!(t.get_probability_of(2), frac(1, 36));
    assert_eq!(t.get_probability_of(13), frac(0, 36));
    assert_eq!(t.get_probability_of_gt(10), frac(6, 36));
}

#[test]
fn totals_cover_all_outcomes() {
    for (n, sides) in [(1u16, 6u16), (3, 6), (5, 4), (2, 20), (10, 2), (24, 6)] {
        let g = DiceGroup::new(vec![Die::new(sides, 0, false); n as usize], 5);
        let t = Total::from_dice(&g);
        let all = (sides as u128).pow(n as u32);
        assert_eq!(t.get_probability_of_gt(0), frac(all, all));
        assert_eq!(t.get_probability_of_gt(n), frac(all, all));
        assert_eq!(t.get_probability_of_gt(n * sides + 1), frac(0, all));
        assert_eq!(t.get_probability_of(n), frac(1, all));
        assert_eq!(t.get_probability_of(n * sides), frac(1, all));
    }
}

#[test]
fn empty_pool_has_zero_total_distribution() {
    let t = Total::from_dice(&DiceGroup::new(vec![], 5));
    assert_eq!(t.get_probability_of(0), frac(0, 1));
    assert_eq!(t.get_probability_of_gt(0), frac(0, 1));
    assert!(t.to_data().is_empty());
}

#[test]
fn total_data_is_shifted_by_modifier() {
    let t = Total::from_dice(&pool("2d3+5", 5));
    let data = t.to_data();
    let expected = vec![
        (7, frac(1, 9)),
        (8, frac(2, 9)),
        (9, frac(3, 9)),
        (10, frac(2, 9)),
        (11, frac(1, 9)),
    ];
    assert_eq!(data, expected);
}

#[test]
fn hits_of_four_d6() {
    let h = Hits::from_dice(&pool("4d6", 5));
    assert_eq!(h.get_probability_of(0), frac(256, 1296));
    assert_eq!(h.get_probability_of(1), frac(512, 1296));
    assert_eq!(h.get_probability_of(2), frac(384, 1296));
    assert_eq!(h.get_probability_of(3), frac(128, 1296));
    assert_eq!(h.get_probability_of(4), frac(16, 1296));
    assert_eq!(h.get_probability_of(5), frac(0, 1296));
    assert_eq!(h.get_probability_of_gt(2), frac(528, 1296));
    let data = h.to_data();
    assert_eq!(data.len(), 5);
    assert_eq!(data[3], (3, frac(128, 1296)));
}

#[test]
fn at_least_zero_hits_is_certain() {
    for (s, hit) in [("1d6", 5), ("4d6", 5), ("12d6", 6), ("3d10", 11), ("5d4", 0), ("2d2", 1)] {
        let h = Hits::from_dice(&pool(s, hit));
        let p = h.get_probability_of_gt(0);
        assert_eq!(p.numerator, p.denominator);
    }
    let empty = Hits::from_dice(&DiceGroup::new(vec![], 5));
    assert_eq!(empty.get_probability_of_gt(0), frac(1, 1));
}

#[test]
fn success_faces_clamp() {
    assert_eq!(success_sides(&pool("3d6", 5)), 2);
    assert_eq!(success_sides(&pool("3d6", 7)), 0);
    assert_eq!(success_sides(&pool("3d6", 1)), 6);
    assert_eq!(success_sides(&pool("3d6", 0)), 6);
    let h = Hits::from_dice(&pool("3d6", 7));
    assert_eq!(h.get_probability_of(0), frac(216, 216));
}

#[test]
fn glitch_odds_of_four_d6() {
    let g = pool("4d6", 5);
    let glitch_pool = DiceGroup::new(g.dice.clone(), g.get_sides().unwrap());
    assert_eq!(success_sides(&glitch_pool), 1);
    let d = SummaryDisplay::new(&g, Some(2), Some(15));
    assert_eq!(d.hits, 2);
    assert_eq!(d.total, 15);
    assert_eq!(d.hit_chance, frac(528, 1296));
    assert_eq!(d.glitch_chance, frac(171, 1296));
    assert_eq!(d.critical_glitch_chance, frac(768 * 171, 1296 * 1296));
    let t = Total::from_dice(&g);
    assert_eq!(d.total_chance, t.get_probability_of_gt(15));
}

#[test]
fn glitch_threshold_rounds_half_up() {
    let d = SummaryDisplay::new(&pool("3d6", 5), None, None);
    assert_eq!(d.hits, u16::MAX);
    assert_eq!(d.total, u16::MAX);
    assert_eq!(d.hit_chance, frac(0, 216));
    assert_eq!(d.glitch_chance, frac(16, 216));
    assert_eq!(d.critical_glitch_chance, frac(216 * 16, 216 * 216));
}
