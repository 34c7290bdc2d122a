use dicepool::dice::{DiceGroup, Die};
use rand::rngs::StdRng;
use rand::SeedableRng;

fn pool(s: &str) -> DiceGroup {
    DiceGroup::from(s, 0, 5, false).unwrap()
}

fn modifiers(g: &DiceGroup) -> Vec<u16> {
    g.dice.iter().map(|d| d.modifier).collect()
}

#[test]
fn modifier_goes_to_first_die_of_group() {
    let g = pool("2d6+4");
    assert_eq!(g.get_count(), 2);
    assert_eq!(g.get_sides(), Some(6));
    assert_eq!(modifiers(&g), vec![4, 0]);
    assert_eq!(g.get_total_modifier(), 4);
    assert_eq!(g.get_hit(), 5);
}

#[test]
fn each_group_gets_its_modifier() {
    let g = pool("3*1d20+8");
    assert_eq!(g.get_count(), 3);
    assert_eq!(g.get_sides(), Some(20));
    assert_eq!(modifiers(&g), vec![8, 8, 8]);
    let g = pool("2*3d6+1");
    assert_eq!(modifiers(&g), vec![1, 0, 0, 1, 0, 0]);
    assert_eq!(g.get_total_modifier(), 2);
}

#[test]
fn placeholder_takes_previous_count() {
    let a = DiceGroup::from_previous("x*1d8+4", 3, 0, 14, false).unwrap();
    let b = DiceGroup::from("3*1d8+4", 0, 14, false).unwrap();
    assert_eq!(a.dice, b.dice);
    assert_eq!(a.get_hit(), b.get_hit());
    let c = DiceGroup::from_previous("xd6", 12, 0, 5, false).unwrap();
    assert_eq!(c.get_count(), 12);
}

#[test]
fn notation_without_d_is_no_pool() {
    assert!(DiceGroup::from("12", 0, 5, false).is_none());
    assert!(DiceGroup::from("", 0, 5, false).is_none());
    assert!(DiceGroup::from("3*4", 0, 5, false).is_none());
}

#[test]
fn unreadable_fields_fall_back() {
    let g = pool("d6");
    assert_eq!(g.get_count(), 0);
    let g = pool("2dq");
    assert_eq!(g.get_sides(), Some(1));
    let g = pool("q*2d6");
    assert_eq!(g.get_count(), 2);
    let g = pool("2d6+q");
    assert_eq!(modifiers(&g), vec![0, 0]);
    let g = pool("2d0");
    assert_eq!(g.get_sides(), Some(1));
    let g = pool("+2d+6");
    assert_eq!(g.get_count(), 2);
    assert_eq!(g.get_sides(), Some(1));
    assert_eq!(modifiers(&g), vec![6, 0]);
}

#[test]
fn pool_too_large_is_empty_pool() {
    let g = DiceGroup::from("2*40000d6", 0, 5, false).unwrap();
    assert_eq!(g.get_count(), 0);
    assert_eq!(g.get_hit(), 5);
    assert_eq!(DiceGroup::from("65535d6", 0, 5, false).unwrap().get_count(), 65535);
}

#[test]
fn forced_crit_groups_under_variant() {
    let g = DiceGroup::from("3*2d6", 1, 5, true).unwrap();
    let crit: Vec<bool> = g.dice.iter().map(|d| d.crit).collect();
    assert_eq!(crit, vec![false, false, false, false, true, true, true, true]);
    let g = DiceGroup::from("1*2d6", 3, 5, true).unwrap();
    assert_eq!(g.get_count(), 12);
    assert!(g.dice.iter().all(|d| d.crit));
    let g = DiceGroup::from("2d6", 1, 5, true).unwrap();
    assert_eq!(g.get_count(), 4);
    assert!(g.dice.iter().all(|d| d.crit));
    let g = DiceGroup::from("2d6", 0, 5, true).unwrap();
    assert_eq!(g.get_count(), 2);
    assert!(g.dice.iter().all(|d| !d.crit));
    let g = DiceGroup::from("2d6", 1, 5, false).unwrap();
    assert_eq!(g.get_count(), 2);
    assert!(g.dice.iter().all(|d| !d.crit));
    let g = DiceGroup::from("3*2d6+1", 4, 5, false).unwrap();
    assert_eq!(g.get_count(), 6);
    assert!(g.dice.iter().all(|d| !d.crit));
}

#[test]
fn sides_of_mixed_and_empty_pools() {
    let g = DiceGroup::new(vec![Die::new(6, 0, false), Die::new(8, 0, false)], 5);
    assert_eq!(g.get_sides(), None);
    let g = DiceGroup::new(vec![], 5);
    assert_eq!(g.get_sides(), None);
    assert_eq!(DiceGroup::default().get_count(), 0);
    assert_eq!(DiceGroup::default().get_hit(), u16::MAX);
}

#[test]
fn roll_value_from_draw() {
    let d = Die::new(6, 2, false);
    assert_eq!(d.roll_with(false, 13), 4);
    assert_eq!(d.roll_with(true, 0), 3);
    let c = Die::new(6, 2, true);
    assert_eq!(c.roll_with(true, 13), 8);
    assert_eq!(c.roll_with(false, 5), 8);
    assert_eq!(Die::default(), Die::new(1, 0, false));
}

#[test]
fn rolls_stay_on_the_die() {
    let mut rng = StdRng::seed_from_u64(7);
    let d = Die::new(6, 1, false);
    let mut seen = [false; 8];
    for _ in 0..500 {
        let v = d.roll(false, &mut rng);
        assert!((2..=7).contains(&v));
        seen[v as usize] = true;
    }
    assert!(seen[2..=7].iter().all(|s| *s));
    let c = Die::new(10, 0, true);
    assert_eq!(c.roll(true, &mut rng), 10);
}
