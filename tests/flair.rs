use dicepool::flair::{get_max_length, Address};
use rand::rngs::StdRng;
use rand::SeedableRng;

#[test]
fn address_ring_cycles_through_four() {
    let mut rng = StdRng::seed_from_u64(42);
    let mut a = Address::new(&mut rng);
    assert_eq!(Address::size(), 4);
    let first: Vec<u16> = (0..4).map(|_| a.next()).collect();
    let second: Vec<u16> = (0..4).map(|_| a.next()).collect();
    assert_eq!(first, second);
    let mut rng = StdRng::seed_from_u64(43);
    let mut b = Address::new(&mut rng);
    let other: Vec<u16> = (0..4).map(|_| b.next()).collect();
    assert_ne!(first, other);
}

#[test]
fn address_ring_survives_counter_wrap() {
    let mut rng = StdRng::seed_from_u64(1);
    let mut a = Address::new(&mut rng);
    let first: Vec<u16> = (0..4).map(|_| a.next()).collect();
    let mut last = 0;
    for _ in 0..1000 {
        last = a.next();
    }
    assert!(first.contains(&last));
}

#[test]
fn longest_label_in_bytes() {
    let labels = vec!["ab".to_string(), "abcd".to_string(), "é".to_string()];
    assert_eq!(get_max_length(&labels), 4);
    assert_eq!(get_max_length(&["ééé".to_string()]), 6);
    assert_eq!(get_max_length(&[]), 0);
}
