use advent_puzzles::assignments::fully_contained_pairs;
use advent_puzzles::assignments::is_fully_contained;
use advent_puzzles::assignments::overlapping_pairs;
use advent_puzzles::assignments::overlaps;
use advent_puzzles::assignments::parse_range;

const SAMPLE_INPUT: &str = "2-4,6-8\n2-3,4-5\n5-7,7-9\n2-8,3-7\n6-6,4-6\n2-6,4-8\n";

#[test]
fn finds_fully_contained_pairs() {
    assert_eq!(fully_contained_pairs(SAMPLE_INPUT), 2)
}

#[test]
fn finds_overlapping_pairs() {
    assert_eq!(overlapping_pairs(SAMPLE_INPUT), 4)
}

#[test]
fn reads_a_range() {
    let r = parse_range("2-4");
    assert_eq!(r, 2..=4);
}

#[test]
fn compares_single_pairs() {
    assert!(is_fully_contained("2-8", "3-7"));
    assert!(!is_fully_contained("2-4", "6-8"));
    assert!(overlaps("5-7", "7-9"));
    assert!(!overlaps("2-4", "6-8"));
}
