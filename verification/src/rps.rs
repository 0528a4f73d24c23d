//! Rock-paper-scissors score sheets.
//!
//! Each line of the input names the opponent's shape (A, B, C) and, in
//! its third column, either the player's shape (X, Y, Z) or the round's
//! demanded outcome. Scores follow the usual rules: 1/2/3 for the shape
//! played, 0/3/6 for a loss, draw or win.
use vstd::prelude::*;
use vstd::string::StrSliceExecFns;
use vstd::string::StringSliceAdditionalSpecFns;

use crate::text::spec_lines;
use crate::text::split_lines;
use crate::text::views_of;

verus! {

#[derive(Clone, Copy, Debug, PartialEq, Eq, Structural)]
pub enum Symbol {
    Rock,
    Paper,
    Scissors,
}

#[derive(Clone, Copy, Debug, PartialEq, Eq, Structural)]
pub enum Outcome {
    Lose,
    Draw,
    Win,
}

/// An opponent column byte: 'A', 'B' or 'C'.
pub open spec fn opp_ok(b: u8) -> bool {
    b == 65 || b == 66 || b == 67
}

/// A player column byte: 'X', 'Y' or 'Z'.
pub open spec fn mine_ok(b: u8) -> bool {
    b == 88 || b == 89 || b == 90
}

pub open spec fn opp_of(b: u8) -> Symbol {
    if b == 65 {
        Symbol::Rock
    } else if b == 66 {
        Symbol::Paper
    } else {
        Symbol::Scissors
    }
}

pub open spec fn mine_of(b: u8) -> Symbol {
    if b == 88 {
        Symbol::Rock
    } else if b == 89 {
        Symbol::Paper
    } else {
        Symbol::Scissors
    }
}

pub open spec fn outcome_of(b: u8) -> Outcome {
    if b == 88 {
        Outcome::Lose
    } else if b == 89 {
        Outcome::Draw
    } else {
        Outcome::Win
    }
}

/// The score of the shape played.
pub open spec fn shape_val(s: Symbol) -> int {
    match s {
        Symbol::Rock => 1,
        Symbol::Paper => 2,
        Symbol::Scissors => 3,
    }
}

/// The score of the round's outcome, seen from the played shapes.
pub open spec fn match_val(opp: Symbol, mine: Symbol) -> int {
    if opp == mine {
        3
    } else {
        match (opp, mine) {
            (Symbol::Rock, Symbol::Paper) => 6,
            (Symbol::Paper, Symbol::Scissors) => 6,
            (Symbol::Scissors, Symbol::Rock) => 6,
            _ => 0,
        }
    }
}

/// The score of a demanded outcome.
pub open spec fn outcome_val(o: Outcome) -> int {
    match o {
        Outcome::Lose => 0,
        Outcome::Draw => 3,
        Outcome::Win => 6,
    }
}

/// The shape to play for a demanded outcome against `opp`.
pub open spec fn forced_shape(opp: Symbol, o: Outcome) -> Symbol {
    if o == Outcome::Draw {
        opp
    } else {
        match (opp, o) {
            (Symbol::Rock, Outcome::Lose) => Symbol::Scissors,
            (Symbol::Rock, Outcome::Win) => Symbol::Paper,
            (Symbol::Paper, Outcome::Lose) => Symbol::Rock,
            (Symbol::Paper, Outcome::Win) => Symbol::Scissors,
            (Symbol::Scissors, Outcome::Lose) => Symbol::Paper,
            _ => Symbol::Rock,
        }
    }
}

/// An opponent column character.
pub open spec fn opp_char_ok(c: char) -> bool {
    c == 'A' || c == 'B' || c == 'C'
}

/// A player column character.
pub open spec fn mine_char_ok(c: char) -> bool {
    c == 'X' || c == 'Y' || c == 'Z'
}

pub open spec fn opp_of_char(c: char) -> Symbol {
    if c == 'A' {
        Symbol::Rock
    } else if c == 'B' {
        Symbol::Paper
    } else {
        Symbol::Scissors
    }
}

pub open spec fn mine_of_char(c: char) -> Symbol {
    if c == 'X' {
        Symbol::Rock
    } else if c == 'Y' {
        Symbol::Paper
    } else {
        Symbol::Scissors
    }
}

pub open spec fn outcome_of_char(c: char) -> Outcome {
    if c == 'X' {
        Outcome::Lose
    } else if c == 'Y' {
        Outcome::Draw
    } else {
        Outcome::Win
    }
}

/// A line of a score sheet: shape, anything, shape or outcome.
pub open spec fn round_ok(l: Seq<u8>) -> bool {
    l.len() >= 3 && opp_ok(l[0]) && mine_ok(l[2])
}

/// Score of one line, reading the third column as the player's shape.
pub open spec fn round_val(l: Seq<u8>) -> int {
    shape_val(mine_of(l[2])) + match_val(opp_of(l[0]), mine_of(l[2]))
}

/// Score of one line, reading the third column as the demanded outcome.
pub open spec fn round_val2(l: Seq<u8>) -> int {
    shape_val(forced_shape(opp_of(l[0]), outcome_of(l[2]))) + outcome_val(outcome_of(l[2]))
}

/// Total of the first reading over all lines.
pub open spec fn total_spec(ls: Seq<Seq<u8>>) -> int
    decreases ls.len(),
{
    if ls.len() == 0 {
        0
    } else {
        round_val(ls[0]) + total_spec(ls.skip(1))
    }
}

/// Total of the second reading over all lines.
pub open spec fn total_spec2(ls: Seq<Seq<u8>>) -> int
    decreases ls.len(),
{
    if ls.len() == 0 {
        0
    } else {
        round_val2(ls[0]) + total_spec2(ls.skip(1))
    }
}

proof fn lemma_total_nonneg(ls: Seq<Seq<u8>>)
    ensures
        total_spec(ls) >= 0,
        total_spec2(ls) >= 0,
    decreases ls.len(),
{
    if ls.len() > 0 {
        lemma_total_nonneg(ls.skip(1));
    }
}

/// Reads one line as the opponent's and the player's shapes, from its
/// first and third characters.
pub fn parse(line: &str) -> (r: (Symbol, Symbol))
    requires
        line@.len() >= 3,
        opp_char_ok(line@[0]),
        mine_char_ok(line@[2]),
    ensures
        r == (opp_of_char(line@[0]), mine_of_char(line@[2])),
{
    let a = line.get_char(0);
    let b = line.get_char(2);
    let opponent = if a == 'A' {
        Symbol::Rock
    } else if a == 'B' {
        Symbol::Paper
    } else {
        Symbol::Scissors
    };
    let mine = if b == 'X' {
        Symbol::Rock
    } else if b == 'Y' {
        Symbol::Paper
    } else {
        Symbol::Scissors
    };
    (opponent, mine)
}

/// Reads one line as the opponent's shape and the demanded outcome.
pub fn parse2(line: &str) -> (r: (Symbol, Outcome))
    requires
        line@.len() >= 3,
        opp_char_ok(line@[0]),
        mine_char_ok(line@[2]),
    ensures
        r == (opp_of_char(line@[0]), outcome_of_char(line@[2])),
{
    let a = line.get_char(0);
    let b = line.get_char(2);
    let opponent = if a == 'A' {
        Symbol::Rock
    } else if a == 'B' {
        Symbol::Paper
    } else {
        Symbol::Scissors
    };
    let outcome = if b == 'X' {
        Outcome::Lose
    } else if b == 'Y' {
        Outcome::Draw
    } else {
        Outcome::Win
    };
    (opponent, outcome)
}

/// Score of the shape `symbol`.
pub fn shape_score(symbol: &Symbol) -> (r: u32)
    ensures
        r == shape_val(*symbol),
{
    match symbol {
        Symbol::Rock => 1,
        Symbol::Paper => 2,
        Symbol::Scissors => 3,
    }
}

/// Score of the round `opponent` against `mine`.
pub fn match_score(opponent: &Symbol, mine: &Symbol) -> (r: u32)
    ensures
        r == match_val(*opponent, *mine),
{
    if opponent == mine {
        return 3;
    }
    match (opponent, mine) {
        (Symbol::Rock, Symbol::Paper) => 6,
        (Symbol::Paper, Symbol::Scissors) => 6,
        (Symbol::Scissors, Symbol::Rock) => 6,
        _ => 0,
    }
}

/// Score of the demanded outcome.
pub fn match_score2(outcome: &Outcome) -> (r: u32)
    ensures
        r == outcome_val(*outcome),
{
    match outcome {
        Outcome::Lose => 0,
        Outcome::Draw => 3,
        Outcome::Win => 6,
    }
}

/// Score of the shape forced by the demanded outcome.
pub fn shape_score2(opponent: &Symbol, outcome: &Outcome) -> (r: u32)
    ensures
        r == shape_val(forced_shape(*opponent, *outcome)),
{
    if outcome == &Outcome::Draw {
        return shape_score(opponent);
    }
    match (opponent, outcome) {
        (Symbol::Rock, Outcome::Lose) => shape_score(&Symbol::Scissors),
        (Symbol::Rock, Outcome::Win) => shape_score(&Symbol::Paper),
        (Symbol::Paper, Outcome::Lose) => shape_score(&Symbol::Rock),
        (Symbol::Paper, Outcome::Win) => shape_score(&Symbol::Scissors),
        (Symbol::Scissors, Outcome::Lose) => shape_score(&Symbol::Paper),
        _ => shape_score(&Symbol::Rock),
    }
}

/// Total score of the sheet, third column read as the player's shape.
pub fn total_score(input: &str) -> (r: u32)
    requires
        ({
            let ls = spec_lines(input.spec_bytes());
            &&& forall|i: int| 0 <= i < ls.len() ==> round_ok(#[trigger] ls[i])
            &&& total_spec(ls) <= u32::MAX
        }),
    ensures
        r == total_spec(spec_lines(input.spec_bytes())),
{
    let ghost s = input.spec_bytes();
    let ghost ls = spec_lines(s);
    let lines = split_lines(input.as_bytes());
    let n = lines.len();
    let mut sum: u32 = 0;
    let mut i: usize = 0;
    proof {
        assert(ls.skip(0) =~= ls);
    }
    while i < n
        invariant
            s == input.spec_bytes(),
            ls == spec_lines(s),
            views_of(lines@) == ls,
            n == ls.len(),
            n == lines@.len(),
            0 <= i <= n,
            forall|k: int| 0 <= k < ls.len() ==> round_ok(#[trigger] ls[k]),
            total_spec(ls) <= u32::MAX,
            sum + total_spec(ls.skip(i as int)) == total_spec(ls),
        decreases n - i,
    {
        proof {
            assert(ls[i as int] == lines@[i as int]@);
            assert(round_ok(ls[i as int]));
            assert(ls.skip(i as int)[0] == ls[i as int]);
            assert(ls.skip(i as int).skip(1) =~= ls.skip(i + 1));
            lemma_total_nonneg(ls.skip(i + 1));
        }
        let line = &lines[i];
        let opp = line[0];
        let mine = line[2];
        let shape: u32 = if mine == 88 {
            1
        } else if mine == 89 {
            2
        } else {
            3
        };
        let won: u32 = if opp + 23 == mine {
            3
        } else if (opp == 65 && mine == 89) || (opp == 66 && mine == 90) || (opp == 67 && mine
            == 88) {
            6
        } else {
            0
        };
        sum = sum + shape + won;
        i += 1;
    }
    proof {
        assert(ls.skip(n as int) =~= Seq::<Seq<u8>>::empty());
    }
    sum
}

/// Total score of the sheet, third column read as the demanded outcome.
pub fn total_score2(input: &str) -> (r: u32)
    requires
        ({
            let ls = spec_lines(input.spec_bytes());
            &&& forall|i: int| 0 <= i < ls.len() ==> round_ok(#[trigger] ls[i])
            &&& total_spec2(ls) <= u32::MAX
        }),
    ensures
        r == total_spec2(spec_lines(input.spec_bytes())),
{
    let ghost s = input.spec_bytes();
    let ghost ls = spec_lines(s);
    let lines = split_lines(input.as_bytes());
    let n = lines.len();
    let mut sum: u32 = 0;
    let mut i: usize = 0;
    proof {
        assert(ls.skip(0) =~= ls);
    }
    while i < n
        invariant
            s == input.spec_bytes(),
            ls == spec_lines(s),
            views_of(lines@) == ls,
            n == ls.len(),
            n == lines@.len(),
            0 <= i <= n,
            forall|k: int| 0 <= k < ls.len() ==> round_ok(#[trigger] ls[k]),
            total_spec2(ls) <= u32::MAX,
            sum + total_spec2(ls.skip(i as int)) == total_spec2(ls),
        decreases n - i,
    {
        proof {
            assert(ls[i as int] == lines@[i as int]@);
            assert(round_ok(ls[i as int]));
            assert(ls.skip(i as int)[0] == ls[i as int]);
            assert(ls.skip(i as int).skip(1) =~= ls.skip(i + 1));
            lemma_total_nonneg(ls.skip(i + 1));
        }
        let line = &lines[i];
        let opp = line[0];
        let out = line[2];
        let outcome_score: u32 = if out == 88 {
            0
        } else if out == 89 {
            3
        } else {
            6
        };
        let played: u32 = if out == 89 {
            // draw: play the opponent's shape
            if opp == 65 {
                1
            } else if opp == 66 {
                2
            } else {
                3
            }
        } else if out == 88 {
            // lose: play the shape the opponent's shape beats
            if opp == 65 {
                3
            } else if opp == 66 {
                1
            } else {
                2
            }
        } else {
            // win: play the shape that beats the opponent's shape
            if opp == 65 {
                2
            } else if opp == 66 {
                3
            } else {
                1
            }
        };
        sum = sum + played + outcome_score;
        i += 1;
    }
    proof {
        assert(ls.skip(n as int) =~= Seq::<Seq<u8>>::empty());
    }
    sum
}

} // verus!
