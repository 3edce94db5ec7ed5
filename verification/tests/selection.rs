//! Searches over order keys and draws from the generator.

use ghr::random::{pick_coordinate, visit_order};
use ghr::select::{first_maximum, first_minimum};
use rand::rngs::StdRng;
use rand::SeedableRng;

#[test]
fn first_minimum_wins_ties() {
    assert_eq!(first_minimum(&[5, 3, 3, 7], 100), Some(1));
    assert_eq!(first_minimum(&[2, 2, 2], 100), Some(0));
    assert_eq!(first_minimum(&[9, 8, 7, 6], u64::MAX), Some(3));
}

#[test]
fn first_minimum_below_the_bound_only() {
    assert_eq!(first_minimum(&[5, 3, 7], 3), None);
    assert_eq!(first_minimum(&[5, 3, 7], 4), Some(1));
    assert_eq!(first_minimum(&[], 4), None);
    assert_eq!(first_minimum(&[0], 0), None);
    assert_eq!(first_minimum(&[u64::MAX, u64::MAX], u64::MAX), None);
}

#[test]
fn first_maximum_wins_ties() {
    assert_eq!(first_maximum(&[5, 9, 9, 7], 0), Some(1));
    assert_eq!(first_maximum(&[2, 2, 2], 0), Some(0));
    assert_eq!(first_maximum(&[1, 2, 3, 4], 0), Some(3));
}

#[test]
fn first_maximum_above_the_bound_only() {
    assert_eq!(first_maximum(&[0, 0, 0], 0), None);
    assert_eq!(first_maximum(&[], 0), None);
    assert_eq!(first_maximum(&[5, 3, 7], 7), None);
    assert_eq!(first_maximum(&[5, 3, 7], 6), Some(2));
}

#[test]
fn order_keys_of_scores() {
    let scores = [0.75f64, 0.5, f64::INFINITY, 0.5, 0.0, 1e-300];
    let keys: Vec<u64> = scores.iter().map(|v| v.to_bits()).collect();
    assert_eq!(first_minimum(&keys, f64::INFINITY.to_bits()), Some(4));
    assert_eq!(first_maximum(&keys[..2], 0f64.to_bits()), Some(0));
    assert_eq!(first_minimum(&keys[..4], f64::INFINITY.to_bits()), Some(1));
    assert_eq!(first_minimum(&keys[2..3], f64::INFINITY.to_bits()), None);
}

#[test]
fn picked_coordinates_are_in_range() {
    let mut rng = StdRng::seed_from_u64(17);
    assert_eq!(pick_coordinate(&mut rng, 0), None);
    assert_eq!(pick_coordinate(&mut rng, 1), Some(0));
    let mut seen = [false; 5];
    for _ in 0..200 {
        let i = pick_coordinate(&mut rng, 5).unwrap();
        assert!(i < 5);
        seen[i] = true;
    }
    assert!(seen.iter().all(|s| *s));
}

#[test]
fn picked_coordinates_follow_the_seed() {
    let mut first = StdRng::seed_from_u64(99);
    let mut second = StdRng::seed_from_u64(99);
    for _ in 0..50 {
        assert_eq!(pick_coordinate(&mut first, 1000), pick_coordinate(&mut second, 1000));
    }
}

#[test]
fn visit_order_is_ascending_without_randomizing() {
    let mut rng = StdRng::seed_from_u64(1);
    assert_eq!(visit_order(5, false, &mut rng), vec![0, 1, 2, 3, 4]);
    assert_eq!(visit_order(0, false, &mut rng), Vec::<usize>::new());
    assert_eq!(visit_order(0, true, &mut rng), Vec::<usize>::new());
    assert_eq!(visit_order(1, true, &mut rng), vec![0]);
}

#[test]
fn visit_order_is_a_permutation() {
    let mut rng = StdRng::seed_from_u64(4);
    let order = visit_order(100, true, &mut rng);
    let ascending: Vec<usize> = (0..100).collect();
    assert_ne!(order, ascending);
    let mut sorted = order.clone();
    sorted.sort();
    assert_eq!(sorted, ascending);
}

#[test]
fn visit_order_follows_the_seed() {
    let first = visit_order(50, true, &mut StdRng::seed_from_u64(8));
    let second = visit_order(50, true, &mut StdRng::seed_from_u64(8));
    let other = visit_order(50, true, &mut StdRng::seed_from_u64(9));
    assert_eq!(first, second);
    assert_ne!(first, other);
}
