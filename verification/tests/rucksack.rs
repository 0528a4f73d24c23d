use advent_puzzles::rucksack::badge_priority_sum;
use advent_puzzles::rucksack::char_to_priority;
use advent_puzzles::rucksack::find_priority_char;
use advent_puzzles::rucksack::priority_sum;

const SAMPLE_INPUT: &str = "vJrwpWtwJgWrhcsFMMfFFhFp\njqHRNqRjqzjGDLGLrsFMfFZSrLrFZsSL\nPmmdzqPrVvPwwTWBwg\nwMqvLMZHhHMvwLHjbvcjnnSBnvTQFn\nttgJtRGJQctTZtZT\nCrZsJsPPZsGzwwsLwLmpwMDw\n";

#[test]
fn parses_single_line() {
    assert_eq!(priority_sum(SAMPLE_INPUT.lines().next().unwrap()), 16)
}

#[test]
fn parses_sample_input() {
    assert_eq!(priority_sum(SAMPLE_INPUT), 157)
}

#[test]
fn computes_badge_priority_sum() {
    assert_eq!(badge_priority_sum(SAMPLE_INPUT), 70)
}

#[test]
fn finds_the_shared_item() {
    assert_eq!(find_priority_char("vJrwpWtwJgWrhcsFMMfFFhFp"), 'p');
}

#[test]
fn priorities_span_both_cases() {
    assert_eq!(char_to_priority('a'), 1);
    assert_eq!(char_to_priority('z'), 26);
    assert_eq!(char_to_priority('A'), 27);
    assert_eq!(char_to_priority('Z'), 52);
}
