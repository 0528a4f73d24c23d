use advent_puzzles::crt::print;
use advent_puzzles::crt::signal_strength;
use advent_puzzles::crt::CathodeRay;
use advent_puzzles::crt::Instruction;

const SAMPLE_INPUT: &str = "addx 15\naddx -11\naddx 6\naddx -3\naddx 5\naddx -1\naddx -8\naddx 13\naddx 4\nnoop\naddx -1\naddx 5\naddx -1\naddx 5\naddx -1\naddx 5\naddx -1\naddx 5\naddx -1\naddx -35\naddx 1\naddx 24\naddx -19\naddx 1\naddx 16\naddx -11\nnoop\nnoop\naddx 21\naddx -15\nnoop\nnoop\naddx -3\naddx 9\naddx 1\naddx -3\naddx 8\naddx 1\naddx 5\nnoop\nnoop\nnoop\nnoop\nnoop\naddx -36\nnoop\naddx 1\naddx 7\nnoop\nnoop\nnoop\naddx 2\naddx 6\nnoop\nnoop\nnoop\nnoop\nnoop\naddx 1\nnoop\nnoop\naddx 7\naddx 1\nnoop\naddx -13\naddx 13\naddx 7\nnoop\naddx 1\naddx -33\nnoop\nnoop\nnoop\naddx 2\nnoop\nnoop\nnoop\naddx 8\nnoop\naddx -1\naddx 2\naddx 1\nnoop\naddx 17\naddx -9\naddx 1\naddx 1\naddx -3\naddx 11\nnoop\nnoop\naddx 1\nnoop\naddx 1\nnoop\nnoop\naddx -13\naddx -19\naddx 1\naddx 3\naddx 26\naddx -30\naddx 12\naddx -1\naddx 3\naddx 1\nnoop\nnoop\nnoop\naddx -9\naddx 18\naddx 1\naddx 2\nnoop\nnoop\naddx 9\nnoop\nnoop\nnoop\naddx -1\naddx 2\naddx -37\naddx 1\naddx 3\nnoop\naddx 15\naddx -21\naddx 22\naddx -6\naddx 1\nnoop\naddx 2\naddx 1\nnoop\naddx -10\nnoop\nnoop\naddx 20\naddx 1\naddx 2\naddx 2\naddx -6\naddx -11\nnoop\nnoop\nnoop\n";

#[test]
fn parses_first_line() {
    let cathode_ray = CathodeRay::new(SAMPLE_INPUT.lines().next().unwrap());
    assert_eq!(cathode_ray.instructions, vec![Instruction::Addx(15)]);
}

#[test]
fn parses_noop() {
    let cathode_ray = CathodeRay::new("noop");
    assert_eq!(cathode_ray.instructions, vec![Instruction::Noop]);
}

#[test]
fn parses_instructions() {
    let cathode_ray = CathodeRay::new(SAMPLE_INPUT);
    assert_eq!(cathode_ray.instructions.len(), 146);
}

#[test]
fn computes_x_during_cycle_1() {
    let cathode_ray = CathodeRay::new(SAMPLE_INPUT);
    assert_eq!(cathode_ray.register_x_during_cycle(1), 1)
}

#[test]
fn computes_x_during_cycle_2() {
    let cathode_ray = CathodeRay::new(SAMPLE_INPUT);
    assert_eq!(cathode_ray.register_x_during_cycle(2), 1)
}

#[test]
fn computes_x_during_cycle_3() {
    let cathode_ray = CathodeRay::new(SAMPLE_INPUT);
    assert_eq!(cathode_ray.register_x_during_cycle(3), 16)
}

#[test]
fn computes_x_during_cycle_4() {
    let cathode_ray = CathodeRay::new(SAMPLE_INPUT);
    assert_eq!(cathode_ray.register_x_during_cycle(4), 16)
}

#[test]
fn computes_signal_strength() {
    let cathode_ray = CathodeRay::new(SAMPLE_INPUT);
    assert_eq!(cathode_ray.register_x_during_cycle(20) * 20, 420);
}

#[test]
fn computes_signal_strength_60() {
    let cathode_ray = CathodeRay::new(SAMPLE_INPUT);
    assert_eq!(cathode_ray.register_x_during_cycle(60) * 60, 1140);
}

#[test]
fn computes_signal_strength_100() {
    let cathode_ray = CathodeRay::new(SAMPLE_INPUT);
    assert_eq!(cathode_ray.signal_strength_at_cycle(100), 1800);
}

#[test]
fn computes_signal_strength_140() {
    let cathode_ray = CathodeRay::new(SAMPLE_INPUT);
    assert_eq!(cathode_ray.signal_strength_at_cycle(140), 2940);
}

#[test]
fn computes_signal_strength_180() {
    let cathode_ray = CathodeRay::new(SAMPLE_INPUT);
    assert_eq!(cathode_ray.signal_strength_at_cycle(180), 2880);
}

#[test]
fn computes_signal_strength_220() {
    let cathode_ray = CathodeRay::new(SAMPLE_INPUT);
    assert_eq!(cathode_ray.signal_strength_at_cycle(220), 3960);
}

#[test]
fn computes_sum_of_signla_strengths() {
    let cathode_ray = CathodeRay::new(SAMPLE_INPUT);
    assert_eq!(cathode_ray.sum_interesting_signal_strengths(), 13140);
}

const SAMPLE_SCREEN: &str = "##..##..##..##..##..##..##..##..##..##..\n###...###...###...###...###...###...###.\n####....####....####....####....####....\n#####.....#####.....#####.....#####.....\n######......######......######......####\n#######.......#######.......#######.....\n";

#[test]
fn renders_screen() {
    let cathode_ray = CathodeRay::new(SAMPLE_INPUT);
    assert_eq!(cathode_ray.render_screen(), SAMPLE_SCREEN);
}

#[test]
fn crt_top_level_queries() {
    assert_eq!(signal_strength(SAMPLE_INPUT), 13140);
    assert_eq!(print(SAMPLE_INPUT), SAMPLE_SCREEN);
}

#[test]
fn parses_negative_addx() {
    let cathode_ray = CathodeRay::new("addx -11");
    assert_eq!(cathode_ray.instructions, vec![Instruction::Addx(-11)]);
}
