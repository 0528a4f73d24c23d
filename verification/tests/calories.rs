use advent_puzzles::calories::most_calories;
use advent_puzzles::calories::top3_calories;

const SAMPLE_INPUT: &str = "1000\n2000\n3000\n\n4000\n\n5000\n6000\n\n7000\n8000\n9000\n\n10000\n";

#[test]
fn it_finds_most_calories() {
    assert_eq!(most_calories(SAMPLE_INPUT), 24_000)
}

#[test]
fn it_finds_top_three_calories() {
    assert_eq!(top3_calories(SAMPLE_INPUT), 45_000)
}

#[test]
fn single_group() {
    assert_eq!(most_calories("5\n7\n"), 12);
    assert_eq!(top3_calories("5\n7\n"), 12);
}

#[test]
fn empty_input_counts_nothing() {
    assert_eq!(most_calories(""), 0);
    assert_eq!(top3_calories(""), 0);
}
