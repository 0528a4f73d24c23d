use advent_puzzles::rope::new_knot_position;
use advent_puzzles::rope::part1;
use advent_puzzles::rope::part2;

const SAMPLE_INPUT: &str = "R 4\nU 4\nL 3\nD 1\nR 4\nD 1\nL 5\nR 2 ";

#[test]
fn part1_counts_start() {
    assert_eq!(part1(""), 1);
}

#[test]
fn part1_moves_right() {
    assert_eq!(part1("R 3"), 3);
}

#[test]
fn part1_moves_up() {
    assert_eq!(part1("U 3"), 3);
}

#[test]
fn part1_moves_down() {
    assert_eq!(part1("D 3"), 3);
}

#[test]
fn part1_moves_left() {
    assert_eq!(part1("L 3"), 3);
}

#[test]
fn part1_moves_diagonal_up_right() {
    let s = SAMPLE_INPUT.lines().take(2).fold(String::new(), |a, b| a + b + "\n");
    assert_eq!(part1(&s), 7);
}

#[test]
fn part1_moves_diagonal_up_left() {
    let s = SAMPLE_INPUT.lines().take(3).fold(String::new(), |a, b| a + b + "\n");
    assert_eq!(part1(&s), 9);
}

#[test]
fn part1_moves_diagonal_down_right() {
    let s = SAMPLE_INPUT.lines().take(5).fold(String::new(), |a, b| a + b + "\n");
    assert_eq!(part1(&s), 10);
}

#[test]
fn part1_moves_diagonal_left_down() {
    let s = SAMPLE_INPUT.lines().take(7).fold(String::new(), |a, b| a + b + "\n");
    assert_eq!(part1(&s), 13);
}

#[test]
fn test_part1() {
    assert_eq!(part1(SAMPLE_INPUT), 13);
}

const PART2_SAMPLE: &str = "R 5\nU 8\nL 8\nD 3\nR 17\nD 10\nL 25\nU 20";

#[test]
fn test_part2() {
    assert_eq!(part2(PART2_SAMPLE), 36);
}

#[test]
fn knots_follow_diagonally() {
    assert_eq!(new_knot_position(&(2, 2), &(0, 1)), (1, 2));
    assert_eq!(new_knot_position(&(1, 1), &(0, 0)), (0, 0));
    assert_eq!(new_knot_position(&(2, 0), &(0, 0)), (1, 0));
}
