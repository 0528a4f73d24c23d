use advent_puzzles::packets::part1;
use advent_puzzles::packets::part2;
use advent_puzzles::packets::Packet;

const SAMPLE_INPUT: &str = "[1,1,3,1,1]\n[1,1,5,1,1]\n\n[[1],[2,3,4]]\n[[1],4]\n\n[9]\n[[8,7,6]]\n\n[[4,4],4,4]\n[[4,4],4,4,4]\n\n[7,7,7,7]\n[7,7,7]\n\n[]\n[3]\n\n[[[]]]\n[[]]\n\n[1,[2,[3,[4,[5,6,7]]]],8,9]\n[1,[2,[3,[4,[5,6,0]]]],8,9]\n";

#[test]
fn parses_int_only_input() {
    let packet = Packet::new(SAMPLE_INPUT.lines().next().unwrap());
    let vec1 = vec![Packet::Int(1), Packet::Int(1), Packet::Int(3), Packet::Int(1), Packet::Int(1)];
    assert_eq!(packet, Packet::List(vec1));
}

#[test]
fn parses_nested_list() {
    let packet = Packet::new(SAMPLE_INPUT.lines().nth(3).unwrap());
    let vec1 = vec![
        Packet::List(vec![Packet::Int(1)]),
        Packet::List(vec![Packet::Int(2), Packet::Int(3), Packet::Int(4)]),
    ];
    assert_eq!(packet, Packet::List(vec1));
}

#[test]
fn parses_deeply_nested_list() {
    let packet = Packet::new("[1,[2,[3,[4,[5,6,7]]]],8,9]");
    let p = Packet::List(vec![
        Packet::Int(1),
        Packet::List(vec![
            Packet::Int(2),
            Packet::List(vec![
                Packet::Int(3),
                Packet::List(vec![
                    Packet::Int(4),
                    Packet::List(vec![Packet::Int(5), Packet::Int(6), Packet::Int(7)]),
                ]),
            ]),
        ]),
        Packet::Int(8),
        Packet::Int(9),
    ]);
    assert_eq!(packet, p);
}

#[test]
fn compares_int_lists() {
    assert!(Packet::new("[1,1,3,1,1]") < Packet::new("[1,1,5,1,1]"));
}

#[test]
fn compares_mixed_lists() {
    assert!(Packet::new("[[1],[2,3,4]]") < Packet::new("[[1],4]"));
    assert!(Packet::new("[[1],4]") > Packet::new("[[1],[2,3,4]]"));
}

#[test]
fn compare_mixed_lists_2() {
    assert!(Packet::new("[9]") > Packet::new("[[8,7,6]]"));
    assert!(Packet::new("[[8,7,6]]") < Packet::new("[9]"));
}

#[test]
fn sums_correct_order_indices() {
    assert_eq!(part1(SAMPLE_INPUT), 13);
}

#[test]
fn computes_decoder_key() {
    let result = part2(SAMPLE_INPUT);
    assert_eq!(result, 140);
}
