use assignments::a5::Assignment5;
use std::ops::RangeInclusive;

fn compare_slices(expected: &[RangeInclusive<u32>], result: &[&RangeInclusive<u32>]) {
    let is_eq = expected.len() == result.len()
        && expected.iter().zip(result.iter()).all(|(a, b)| a == *b);

    if !is_eq {
        panic!(
            "Slices are not equal\nExpected: {:?}\nGot: {:?}",
            expected, result
        );
    }
}

fn optimal_ranges<'i>(
    intervals: &'i [RangeInclusive<u32>],
    numbers: &[u32],
) -> Vec<&'i RangeInclusive<u32>> {
    if !Assignment5::covers_every_number(intervals, numbers) {
        panic!("A number lies in no range");
    }
    Assignment5::find_optimal_ranges_for_numbers(intervals, numbers)
}

#[test]
fn test_lilo_and_stich1() {
    let intervals = [
        5..=6,
        4..=5,
        2..=2,
        1..=1,
        1..=2,
        6..=6,
        2..=5,
        3..=4,
        3..=6,
    ];

    let numbers = (1..=6).collect::<Vec<_>>();
    let expected = [1..=2, 3..=6];

    let result = optimal_ranges(&intervals, &numbers);
    compare_slices(&expected, &result);
}

#[test]
fn test_lilo_and_stich2() {
    let intervals = [
        1..=1,
        3..=6,
        7..=20,
        25..=50,
        50..=100,
        50..=80,
        20..=50,
        16..=70,
        80..=100,
        99..=100,
    ];

    let numbers = [1, 3, 35, 41, 55, 99, 100];
    let expected = [1..=1, 3..=6, 16..=70, 50..=100];

    let result = optimal_ranges(&intervals, &numbers);
    compare_slices(&expected, &result);
}

#[test]
fn test_lilo_and_stich3() {
    let intervals = [0..=7, 6..=10, 20..=50];

    let numbers = [7, 20, 49];
    let expected = [6..=10, 20..=50];

    let result = optimal_ranges(&intervals, &numbers);
    compare_slices(&expected, &result);
}

#[test]
fn test_lilo_and_stich4() {
    let intervals = [2..=8, 9..=11, 10..=12];

    let numbers = [7, 8, 9, 10, 11];
    let expected = [2..=8, 9..=11];

    let result = optimal_ranges(&intervals, &numbers);
    compare_slices(&expected, &result);
}

#[test]
fn test_lilo_and_stich5() {
    let intervals = [1..=3, 2..=6, 4..=9];

    let numbers = [2, 5, 7];
    let expected = [2..=6, 4..=9];

    let result = optimal_ranges(&intervals, &numbers);
    compare_slices(&expected, &result);
}

#[test]
fn test_lilo_and_stich6() {
    let intervals = [1..=4, 2..=5, 3..=6, 4..=7, 5..=8, 6..=9, 7..=10];

    let numbers = [1, 2, 3, 4, 5, 6, 7, 8, 9, 10];
    let expected = [1..=4, 5..=8, 7..=10];

    let result = optimal_ranges(&intervals, &numbers);
    compare_slices(&expected, &result);
}

#[test]
#[should_panic]
fn test_lilo_and_stich7() {
    let intervals = [1..=4, 2..=5, 3..=6, 4..=7, 5..=8, 6..=9, 7..=10];

    let numbers = [1, 2, 3, 4, 5, 6, 7, 8, 9, 10, 11];
    let expected = [1..=4, 5..=8, 7..=10];

    let result = optimal_ranges(&intervals, &numbers);
    compare_slices(&expected, &result);
}

#[test]
fn unsorted_numbers_with_repeats() {
    let intervals = [1..=4, 2..=5, 3..=6, 4..=7, 5..=8, 6..=9, 7..=10];
    let numbers = [10, 1, 5, 1, 9, 2];
    let expected = [1..=4, 5..=8, 7..=10];
    let result = optimal_ranges(&intervals, &numbers);
    compare_slices(&expected, &result);
}

#[test]
fn no_numbers_take_no_range() {
    let intervals = [1..=4, 2..=5];
    let result = optimal_ranges(&intervals, &[]);
    assert!(result.is_empty());
    let none: [RangeInclusive<u32>; 0] = [];
    assert!(optimal_ranges(&none, &[]).is_empty());
}

#[test]
fn equal_starts_take_the_longer_range() {
    let intervals = [1..=3, 1..=5, 1..=4];
    let result = optimal_ranges(&intervals, &[2, 5]);
    compare_slices(&[1..=5], &result);
}

#[test]
fn enclosing_range_wins_ties_on_the_end() {
    let intervals = [2..=9, 1..=9];
    let result = optimal_ranges(&intervals, &[3]);
    compare_slices(&[1..=9], &result);
}

#[test]
fn no_two_ranges_cover_stich6() {
    let intervals = [1..=4, 2..=5, 3..=6, 4..=7, 5..=8, 6..=9, 7..=10];
    let numbers: Vec<u32> = (1..=10).collect();
    let result = optimal_ranges(&intervals, &numbers);
    assert_eq!(result.len(), 3);
    for a in &intervals {
        for b in &intervals {
            let both = numbers.iter().all(|n| a.contains(n) || b.contains(n));
            assert!(!both);
        }
    }
}

#[test]
fn coverage_check() {
    let intervals = [1..=2, 5..=6];
    assert!(Assignment5::covers_every_number(&intervals, &[1, 2, 5, 6]));
    assert!(!Assignment5::covers_every_number(&intervals, &[3]));
    assert!(Assignment5::covers_every_number(&intervals, &[]));
}

#[test]
fn farthest_interval_before_the_first_later_start() {
    let a = 1..=4;
    let b = 2..=5;
    let c = 6..=9;
    let list = [&a, &b, &c];
    let (found, rest) = Assignment5::find_farthest_interval(&list, 3);
    assert_eq!(*found, 2..=5);
    assert_eq!(rest.len(), 1);
    assert_eq!(*rest[0], 6..=9);

    let (found, rest) = Assignment5::find_farthest_interval(&list, 7);
    assert_eq!(*found, 6..=9);
    assert!(rest.is_empty());
}

#[test]
fn choice_ignores_input_order() {
    let intervals = [
        1..=1,
        3..=6,
        7..=20,
        25..=50,
        50..=100,
        50..=80,
        20..=50,
        16..=70,
        80..=100,
        99..=100,
    ];
    let numbers = [1, 3, 35, 41, 55, 99, 100];
    let mut intervals2 = intervals.clone();
    intervals2.reverse();
    let numbers2 = [100, 41, 1, 99, 3, 55, 35];
    let a = optimal_ranges(&intervals, &numbers);
    let b = optimal_ranges(&intervals2, &numbers2);
    assert_eq!(a, b);
}
