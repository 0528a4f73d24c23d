use advent_puzzles::monkeys::monkey_business;
use advent_puzzles::monkeys::parse_monkeys;
use advent_puzzles::monkeys::round;
use advent_puzzles::monkeys::Monkey;

const SAMPLE_INPUT: &str = "Monkey 0:\n  Starting items: 79, 98\n  Operation: new = old * 19\n  Test: divisible by 23\n    If true: throw to monkey 2\n    If false: throw to monkey 3\n\nMonkey 1:\n  Starting items: 54, 65, 75, 74\n  Operation: new = old + 6\n  Test: divisible by 19\n    If true: throw to monkey 2\n    If false: throw to monkey 0\n\nMonkey 2:\n  Starting items: 79, 60, 97\n  Operation: new = old * old\n  Test: divisible by 13\n    If true: throw to monkey 1\n    If false: throw to monkey 3\n\nMonkey 3:\n  Starting items: 74\n  Operation: new = old + 3\n  Test: divisible by 17\n    If true: throw to monkey 0\n    If false: throw to monkey 1\n";

#[test]
fn test_parses_monkey() {
    let block: Vec<&str> = SAMPLE_INPUT.lines().take(6).collect();
    let monkey = Monkey::new(&block.join("\n"));
    assert_eq!(monkey.id, 0);
    assert_eq!(monkey.items, vec![79, 98]);
    assert_eq!(monkey.apply_operation(1), 19);
    assert_eq!(monkey.apply_operation(2), 2 * 19);
    assert_eq!(monkey.test_divisor, 23);
    assert_eq!(monkey.true_target, 2);
    assert_eq!(monkey.false_target, 3);
}

#[test]
fn test_parses_multiple_monkeys() {
    let mut monkeys = parse_monkeys(SAMPLE_INPUT);
    let last = monkeys.pop().unwrap();
    assert_eq!(last.id, 3);
    assert_eq!(last.items, vec![74]);
    assert_eq!(last.apply_operation(1), 4);
    assert_eq!(last.apply_operation(2), 5);
    assert_eq!(last.test_divisor, 17);
    assert_eq!(last.true_target, 0);
    assert_eq!(last.false_target, 1);
}

#[test]
fn test_throw() {
    let mut monkeys = parse_monkeys(SAMPLE_INPUT);
    let modulus = monkeys.iter().map(|m| m.test_divisor).product();
    let (item, target) = monkeys[2].throw(&modulus, true).unwrap();
    assert_eq!(target, 1);
    assert_eq!(item, 2080);
    let (item, target) = monkeys[2].throw(&modulus, true).unwrap();
    assert_eq!(target, 3);
    assert_eq!(item, 1200);
    let (item, target) = monkeys[2].throw(&modulus, true).unwrap();
    assert_eq!(target, 3);
    assert_eq!(item, 3136);
    assert_eq!(monkeys[2].throw(&modulus, true), None);
}

#[test]
fn test_round() {
    let mut monkeys = parse_monkeys(SAMPLE_INPUT);
    round(&mut monkeys, true);
    assert_eq!(monkeys[0].items, vec![20, 23, 27, 26]);
    assert_eq!(monkeys[1].items, vec![2080, 25, 167, 207, 401, 1046]);
    assert!(monkeys[2].items.is_empty());
    assert!(monkeys[3].items.is_empty());
}

#[test]
fn test_round_2() {
    let mut monkeys = parse_monkeys(SAMPLE_INPUT);
    round(&mut monkeys, true);
    round(&mut monkeys, true);
    assert_eq!(monkeys[0].items, vec![695, 10, 71, 135, 350]);
    assert_eq!(monkeys[1].items, vec![43, 49, 58, 55, 362]);
    assert!(monkeys[2].items.is_empty());
    assert!(monkeys[3].items.is_empty());
}

#[test]
fn test_round_20() {
    let mut monkeys = parse_monkeys(SAMPLE_INPUT);
    for _ in 0..20 {
        round(&mut monkeys, true);
    }
    assert_eq!(monkeys[0].items, vec![10, 12, 14, 26, 34]);
    assert_eq!(monkeys[1].items, vec![245, 93, 53, 199, 115]);
    assert!(monkeys[2].items.is_empty());
    assert!(monkeys[3].items.is_empty());
}

#[test]
fn test_item_counts() {
    let mut monkeys = parse_monkeys(SAMPLE_INPUT);
    for _ in 0..20 {
        round(&mut monkeys, true);
    }
    assert_eq!(monkeys[0].item_count, 101);
    assert_eq!(monkeys[1].item_count, 95);
    assert_eq!(monkeys[2].item_count, 7);
    assert_eq!(monkeys[3].item_count, 105);
}

#[test]
fn test_monkey_business() {
    assert_eq!(monkey_business(SAMPLE_INPUT, 20, true), 10605);
}

#[test]
fn test_monkey_business2() {
    assert_eq!(monkey_business(SAMPLE_INPUT, 10_000, false), 52166 * 52013);
}
