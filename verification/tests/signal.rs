use advent_puzzles::signal::unique_characters_offset;

const SAMPLE_INPUT: &str = "mjqjpqmgbljsphdztnvjfqwrcgsmlb";

#[test]
fn test_start_packet_offset() {
    assert_eq!(unique_characters_offset(SAMPLE_INPUT, 4), 7)
}

#[test]
fn test_more_examples1() {
    assert_eq!(unique_characters_offset("bvwbjplbgvbhsrlpgdmjqwftvncz", 4), 5);
}

#[test]
fn test_more_examples2() {
    assert_eq!(unique_characters_offset("nppdvjthqldpwncqszvftbrmjlhg", 4), 6);
}

#[test]
fn test_more_examples3() {
    assert_eq!(unique_characters_offset("nznrnfrfntjfmvfwmzdfjlvtqnbhcprsg", 4), 10);
}

#[test]
fn test_more_examples4() {
    assert_eq!(unique_characters_offset("zcfzfwzzqfrljwzlrfnpqdbhtmscgvjw", 4), 11);
}

#[test]
fn message_marker_of_fourteen() {
    assert_eq!(unique_characters_offset(SAMPLE_INPUT, 14), 19);
}
