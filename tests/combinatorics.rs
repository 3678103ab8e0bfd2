use ipd_sim::combinatorics::{fill_bins, get_combinations};

#[test]
fn iterations_number() {
    assert_eq!(get_combinations(4, 5).count(), 625);
    assert_eq!(get_combinations(5, 5).count(), 3125);
    assert_eq!(get_combinations(6, 5).count(), 15625);
    assert_eq!(get_combinations(3, 6).count(), 216);
    assert_eq!(get_combinations(4, 6).count(), 1296);
    assert_eq!(get_combinations(5, 6).count(), 7776);
}

#[test]
fn all_binary_combinations() {
    let combinations: Vec<_> = get_combinations(2, 2).collect();
    assert_eq!(combinations.len(), 4);
    assert!(combinations.contains(&vec!(0u8, 0u8)));
    assert!(combinations.contains(&vec!(1u8, 0u8)));
    assert!(combinations.contains(&vec!(0u8, 1u8)));
    assert!(combinations.contains(&vec!(1u8, 1u8)));
}

#[test]
fn single_combination() {
    let combinations: Vec<_> = get_combinations(4, 1).collect();
    assert_eq!(combinations.len(), 1);
    assert!(combinations.contains(&vec!(0u8, 0u8, 0u8, 0u8)));
}

#[test]
fn some_combinations() {
    let combinations: Vec<_> = get_combinations(4, 6).collect();
    assert!(combinations.contains(&vec!(0u8, 0u8, 0u8, 0u8)));
    assert!(combinations.contains(&vec!(5u8, 0u8, 0u8, 0u8)));
    assert!(combinations.contains(&vec!(1u8, 1u8, 1u8, 1u8)));
    assert!(combinations.contains(&vec!(5u8, 5u8, 5u8, 5u8)));
    assert!(combinations.contains(&vec!(2u8, 3u8, 1u8, 4u8)));

    assert_eq!(false, combinations.contains(&vec!(0u8, 0u8, 0u8, 6u8)));
    assert_eq!(false, combinations.contains(&vec!(6u8, 6u8, 6u8, 6u8)));
}

#[test]
fn combinations_come_in_ascending_index_order() {
    let combinations: Vec<_> = get_combinations(2, 2).collect();
    assert_eq!(combinations, vec![vec![0u8, 0], vec![1, 0], vec![0, 1], vec![1, 1]]);
}

#[test]
fn combinations_are_distinct_and_in_range() {
    let combinations = get_combinations(3, 4).collect();
    assert_eq!(combinations.len(), 64);
    for (i, a) in combinations.iter().enumerate() {
        assert_eq!(a.len(), 3);
        assert!(a.iter().all(|d| *d < 4));
        for b in combinations.iter().skip(i + 1) {
            assert_ne!(a, b);
        }
    }
}

#[test]
fn decoding_then_encoding_gives_the_index_back() {
    for index in 0u64..343 {
        let digits = fill_bins(index, 3, 7);
        let encoded: u64 = digits.iter().rev().fold(0u64, |acc, d| acc * 7 + u64::from(*d));
        assert_eq!(encoded, index);
    }
    assert_eq!(fill_bins(23, 4, 3), vec![2u8, 1, 2, 0]);
}

#[test]
fn generator_steps_one_at_a_time() {
    let mut walk = get_combinations(2, 3);
    assert_eq!(walk.next(), Some(vec![0u8, 0]));
    assert_eq!(walk.next(), Some(vec![1u8, 0]));
    assert_eq!(walk.count(), 7);
}

#[test]
fn generator_with_zero_radix_or_bins() {
    assert_eq!(get_combinations(3, 0).count(), 0);
    let only: Vec<_> = get_combinations(0, 5).collect();
    assert_eq!(only, vec![Vec::<u8>::new()]);
    let mut walk = get_combinations(1, 1);
    assert_eq!(walk.next(), Some(vec![0u8]));
    assert_eq!(walk.next(), None);
    assert_eq!(walk.next(), None);
}
