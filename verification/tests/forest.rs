use advent_puzzles::forest::count_visible_trees;
use advent_puzzles::forest::highest_scenic_score;

const SAMPLE_INPUT: &str = "30373\n25512\n65332\n33549\n35390";

const MIN_INPUT: &str = "303\n255\n653";

#[test]
fn test_visible_trees_min() {
    assert_eq!(count_visible_trees(MIN_INPUT), 9);
}

#[test]
fn test_visible_trees() {
    assert_eq!(count_visible_trees(SAMPLE_INPUT), 21);
}

#[test]
fn test_scenic_score() {
    assert_eq!(highest_scenic_score(SAMPLE_INPUT), 8);
}
