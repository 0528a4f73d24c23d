use advent_puzzles::stacks::crate_message;
use advent_puzzles::stacks::crate_message2;
use advent_puzzles::stacks::parse_stacks;

const SAMPLE_INPUT: &str = "    [D]\n[N] [C]\n[Z] [M] [P]\n 1   2   3\n\nmove 1 from 2 to 1\nmove 3 from 1 to 3\nmove 2 from 2 to 1\nmove 1 from 1 to 2\n";

#[test]
fn can_move_single_items() {
    assert_eq!(crate_message(SAMPLE_INPUT), "CMZ")
}

#[test]
fn can_move_single_items2() {
    assert_eq!(crate_message2(SAMPLE_INPUT), "MCD")
}

#[test]
fn reads_the_drawing_bottom_up() {
    let stacks = parse_stacks("    [D]\n[N] [C]\n[Z] [M] [P]\n 1   2   3\n");
    assert_eq!(stacks.len(), 3);
    assert_eq!(stacks[0], vec![b'Z', b'N']);
    assert_eq!(stacks[1], vec![b'M', b'C', b'D']);
    assert_eq!(stacks[2], vec![b'P']);
}
