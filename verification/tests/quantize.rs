use oner_quantize::find_intervals;
use oner_quantize::intervals_from_splits;
use oner_quantize::merge_neighbours_with_same_class;
use oner_quantize::quantize;
use oner_quantize::trim_splits;
use oner_quantize::Interval;

#[test]
fn test_golf_example() {
    // Inputs and boundary points from the published golf temperature
    // example; the classes "play" and "don't play" are labels 1 and 2.
    let p: u64 = 1;
    let d: u64 = 2;

    let attribute: Vec<i64> = vec![64, 65, 68, 69, 70, 71, 72, 72, 75, 75, 80, 81, 83, 85];
    let classes: Vec<u64> = vec![p, d, p, p, p, d, p, d, p, p, d, p, p, d];

    let actual = find_intervals(&attribute, &classes, 3);

    let expected = vec![Interval::lower(85, p), Interval::upper(85, d)];

    assert_eq!(expected, actual);
}

#[test]
fn find_intervals_three_clear_splits() {
    // Fake data with three clear splits; classes a, b, c are 0, 1, 2.
    let a: u64 = 0;
    let b: u64 = 1;
    let c: u64 = 2;

    let attribute: Vec<i64> = vec![1, 10, 3, 1, 20, 30, 100];
    let classes: Vec<u64> = vec![a, b, a, a, b, b, c];

    let intervals = find_intervals(&attribute, &classes, 2);

    assert_eq!(
        intervals,
        vec![
            Interval::lower(10, a),
            Interval::range(10, 100, b),
            Interval::upper(100, c)
        ]
    );
}

#[test]
fn quantize_picks_the_containing_interval() {
    let x: u64 = 10;
    let y: u64 = 20;
    let z: u64 = 30;

    let intervals = vec![
        Interval::lower(15, x),
        Interval::range(15, 20, y),
        Interval::upper(20, z),
    ];

    let class = |attribute_value| quantize(&intervals, attribute_value).map(|i| i.class());

    assert_eq!(class(10), Some(x));
    assert_eq!(class(15), Some(y));
    assert_eq!(class(99), Some(z));
}

#[test]
fn quantize_misses_outside_every_interval() {
    let intervals = vec![Interval::range(10, 20, 7)];
    assert_eq!(quantize(&intervals, 5), None);
    assert_eq!(quantize(&intervals, 20), None);
    assert_eq!(quantize(&intervals, 15), Some(&Interval::range(10, 20, 7)));
}

#[test]
fn rerunning_gives_the_identical_list() {
    let attribute: Vec<i64> = vec![3, 1, 4, 1, 5, 9, 2, 6];
    let classes: Vec<u64> = vec![0, 1, 0, 1, 1, 0, 0, 1];

    let first = find_intervals(&attribute, &classes, 1);
    let second = find_intervals(&attribute, &classes, 1);

    assert_eq!(first, second);
}

#[test]
fn zero_threshold_keeps_every_class_change() {
    let a: u64 = 0;
    let b: u64 = 1;

    let attribute: Vec<i64> = vec![1, 2, 3];
    let classes: Vec<u64> = vec![a, b, a];

    let intervals = find_intervals(&attribute, &classes, 0);

    assert_eq!(
        intervals,
        vec![
            Interval::lower(2, a),
            Interval::range(2, 3, b),
            Interval::upper(3, a)
        ]
    );
}

#[test]
fn huge_threshold_collapses_to_one_infinite_interval() {
    let p: u64 = 1;
    let d: u64 = 2;

    let attribute: Vec<i64> = vec![64, 65, 68, 69, 70, 71, 72, 72, 75, 75, 80, 81, 83, 85];
    let classes: Vec<u64> = vec![p, d, p, p, p, d, p, d, p, p, d, p, p, d];

    let intervals = find_intervals(&attribute, &classes, 14);

    // The overall majority class is "play": nine observations to five.
    assert_eq!(intervals, vec![Interval::infinite(p)]);
}

#[test]
fn single_observation_covers_everything() {
    let intervals = find_intervals(&vec![5], &vec![3], 0);
    assert_eq!(intervals, vec![Interval::infinite(3)]);
}

#[test]
fn constant_attribute_covers_everything() {
    let intervals = find_intervals(&vec![7, 7, 7, 7], &vec![1, 2, 1, 1], 0);
    assert_eq!(intervals, vec![Interval::infinite(1)]);
}

#[test]
fn unequal_lengths_zip_to_the_shorter() {
    let a: u64 = 0;
    let b: u64 = 1;

    let intervals = find_intervals(&vec![1, 2, 3], &vec![a, b], 0);

    assert_eq!(intervals, vec![Interval::lower(2, a), Interval::upper(2, b)]);
}

#[test]
fn majority_ties_break_to_the_earliest_class_in_sorted_order() {
    let a: u64 = 0;
    let b: u64 = 1;

    // Both segments have a tied frequency count; the class appearing
    // first in value-sorted order wins each segment.
    let attribute: Vec<i64> = vec![1, 1, 2, 2];
    let classes: Vec<u64> = vec![a, b, b, a];

    let intervals = find_intervals(&attribute, &classes, 0);

    assert_eq!(intervals, vec![Interval::lower(2, a), Interval::upper(2, b)]);
}

#[test]
fn merge_collapses_adjacent_same_class_runs() {
    let x: u64 = 0;
    let y: u64 = 1;

    let intervals = vec![
        Interval::lower(10, x),
        Interval::range(10, 20, x),
        Interval::upper(20, y),
    ];

    let merged = merge_neighbours_with_same_class(&intervals);

    assert_eq!(merged, vec![Interval::lower(20, x), Interval::upper(20, y)]);
}

#[test]
fn merge_collapses_a_whole_run_to_infinite() {
    let x: u64 = 4;

    let intervals = vec![
        Interval::lower(10, x),
        Interval::range(10, 20, x),
        Interval::upper(20, x),
    ];

    let merged = merge_neighbours_with_same_class(&intervals);

    assert_eq!(merged, vec![Interval::infinite(x)]);
}

#[test]
fn trim_drops_splits_between_same_majority_segments() {
    let a: u64 = 0;
    let b: u64 = 1;

    // Sorted (value, class) pairs with candidate splits at 1 and 2.
    let data: Vec<(i64, u64)> = vec![(1, a), (2, a), (3, b)];

    let trimmed = trim_splits(vec![1, 2], 0, &data);

    // The split at 1 separates two segments whose majority class is the
    // same, so only the split at 2 survives.
    assert_eq!(trimmed, vec![2]);
}

#[test]
fn trim_drops_splits_without_a_dominant_class() {
    let a: u64 = 0;
    let b: u64 = 1;

    let data: Vec<(i64, u64)> = vec![(1, a), (2, b), (3, b), (4, b)];

    // With a threshold of 1 the first segment (one observation) has no
    // class occurring more than once, so its split is dropped.
    let trimmed = trim_splits(vec![1, 2, 3], 1, &data);

    assert_eq!(trimmed, vec![3]);
}

#[test]
fn intervals_from_splits_builds_the_segment_intervals() {
    let a: u64 = 0;
    let b: u64 = 1;

    let data: Vec<(i64, u64)> = vec![(1, a), (2, a), (3, b)];

    let intervals = intervals_from_splits(vec![2], &data);

    assert_eq!(
        intervals,
        vec![Interval::lower(3, a), Interval::upper(3, b)]
    );
}

#[test]
fn intervals_from_no_splits_takes_the_overall_majority() {
    let data: Vec<(i64, u64)> = vec![(1, 5), (1, 6), (1, 5)];
    let intervals = intervals_from_splits(vec![], &data);
    assert_eq!(intervals, vec![Interval::infinite(5)]);
}

#[test]
fn interval_accessors() {
    assert_eq!(Interval::lower(3, 9).class(), 9);
    assert_eq!(Interval::range(3, 5, 8).class(), 8);
    assert_eq!(Interval::upper(5, 7).class(), 7);
    assert_eq!(Interval::infinite(6).class(), 6);

    assert!(Interval::lower(3, 9).matches(2));
    assert!(!Interval::lower(3, 9).matches(3));
    assert!(Interval::range(3, 5, 8).matches(3));
    assert!(!Interval::range(3, 5, 8).matches(5));
    assert!(Interval::upper(5, 7).matches(5));
    assert!(!Interval::upper(5, 7).matches(4));
    assert!(Interval::infinite(6).matches(-100));
}
