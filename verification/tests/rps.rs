use advent_puzzles::rps::match_score;
use advent_puzzles::rps::match_score2;
use advent_puzzles::rps::parse;
use advent_puzzles::rps::parse2;
use advent_puzzles::rps::shape_score;
use advent_puzzles::rps::shape_score2;
use advent_puzzles::rps::total_score;
use advent_puzzles::rps::total_score2;
use advent_puzzles::rps::Outcome;
use advent_puzzles::rps::Symbol;

const SAMPLE_INPUT: &str = "A Y\nB X\nC Z\n";

#[test]
fn parses_rock_rock() {
    assert_eq!(parse("A X"), (Symbol::Rock, Symbol::Rock))
}

#[test]
fn parses_paper_paper() {
    assert_eq!(parse("B Y"), (Symbol::Paper, Symbol::Paper))
}

#[test]
fn parses_scissors_scissors() {
    assert_eq!(parse("C Z"), (Symbol::Scissors, Symbol::Scissors))
}

#[test]
fn computes_total_score() {
    assert_eq!(total_score(SAMPLE_INPUT), 15)
}

#[test]
fn computes_total_score2() {
    assert_eq!(total_score2(SAMPLE_INPUT), 12)
}

#[test]
fn parses_outcomes() {
    assert_eq!(parse2("A X"), (Symbol::Rock, Outcome::Lose));
    assert_eq!(parse2("C Y"), (Symbol::Scissors, Outcome::Draw));
}

#[test]
fn scores_single_rounds() {
    assert_eq!(shape_score(&Symbol::Paper), 2);
    assert_eq!(match_score(&Symbol::Rock, &Symbol::Paper), 6);
    assert_eq!(match_score(&Symbol::Rock, &Symbol::Rock), 3);
    assert_eq!(match_score2(&Outcome::Win), 6);
    assert_eq!(shape_score2(&Symbol::Rock, &Outcome::Lose), 3);
}
