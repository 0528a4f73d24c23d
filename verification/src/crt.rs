//! A cathode-ray tube driven by a two-instruction processor.
//!
//! `noop` takes one cycle; `addx v` takes two and then adds `v` to the
//! X register, which starts at 1. The signal strength at a cycle is
//! the cycle number times the X value during that cycle; the screen
//! lights a pixel when the three-pixel sprite centred on X covers the
//! column being drawn.
use vstd::prelude::*;
use vstd::string::StringSliceAdditionalSpecFns;

use crate::text::ascii_string;
use crate::text::int_value;
use crate::text::is_int_numeral;
use crate::text::parse_i64;
use crate::text::spec_lines;
use crate::text::split_lines;
use crate::text::views_of;

verus! {

#[derive(Clone, Copy, Debug, PartialEq, Eq, Structural)]
pub enum Instruction {
    Noop,
    Addx(i32),
}

/// The line begins with "noop".
pub open spec fn is_noop(l: Seq<u8>) -> bool {
    l.len() >= 4 && l[0] == 110 && l[1] == 111 && l[2] == 111 && l[3] == 112
}

/// A line the instruction reader accepts: one beginning with "noop"
/// is a no-op; any other line is read as an add whose value stands
/// from the sixth byte on — the reader never looks at the five bytes
/// before the value, so the add keyword itself is not checked.
pub open spec fn line_ok(l: Seq<u8>) -> bool {
    is_noop(l) || (l.len() >= 6 && is_int_numeral(l.skip(5)) && i32::MIN <= int_value(l.skip(5))
        <= i32::MAX)
}

/// The instruction a line spells: "noop..." is a no-op, anything
/// else an add of the value from the sixth byte on.
pub open spec fn instr_of(l: Seq<u8>) -> Instruction {
    if is_noop(l) {
        Instruction::Noop
    } else {
        Instruction::Addx(int_value(l.skip(5)) as i32)
    }
}

/// The instructions of all lines.
pub open spec fn instrs_of(ls: Seq<Seq<u8>>) -> Seq<Instruction> {
    ls.map_values(|l: Seq<u8>| instr_of(l))
}

/// Every X value the run reaches, starting from `x`, stays inside
/// `i32`.
pub open spec fn bounded_all(instrs: Seq<Instruction>, x: int) -> bool
    decreases instrs.len(),
{
    if instrs.len() == 0 {
        true
    } else {
        match instrs[0] {
            Instruction::Noop => bounded_all(instrs.skip(1), x),
            Instruction::Addx(v) => i32::MIN <= x + v <= i32::MAX && bounded_all(
                instrs.skip(1),
                x + v,
            ),
        }
    }
}

/// The register folded over the instructions: `c` cycles have passed,
/// the register holds `x`; the fold stops short of `cycle`.
pub open spec fn x_fold(instrs: Seq<Instruction>, c: int, x: int, cycle: int) -> int
    decreases instrs.len(),
{
    if instrs.len() == 0 {
        x
    } else if c + 1 >= cycle - 1 {
        x
    } else {
        match instrs[0] {
            Instruction::Noop => x_fold(instrs.skip(1), c + 1, x, cycle),
            Instruction::Addx(v) => x_fold(instrs.skip(1), c + 2, x + v, cycle),
        }
    }
}

/// The X register during the given cycle.
pub open spec fn x_during(instrs: Seq<Instruction>, cycle: int) -> int {
    if cycle <= 1 {
        1
    } else {
        x_fold(instrs, 0, 1, cycle)
    }
}

/// The signal strength at a cycle.
pub open spec fn strength_at(instrs: Seq<Instruction>, cycle: int) -> int {
    cycle * x_during(instrs, cycle)
}

/// Sum of the signal strengths at the six interesting cycles.
pub open spec fn interesting_sum(instrs: Seq<Instruction>) -> int {
    strength_at(instrs, 20) + strength_at(instrs, 60) + strength_at(instrs, 100) + strength_at(
        instrs,
        140,
    ) + strength_at(instrs, 180) + strength_at(instrs, 220)
}

/// The pixel drawn during cycle `n` (1-based): lit when the sprite
/// centred on X covers the column.
pub open spec fn pixel_at(instrs: Seq<Instruction>, n: int) -> u8 {
    let pos = (n - 1) % 40;
    if pos - 1 <= x_during(instrs, n) <= pos + 1 {
        35u8
    } else {
        46u8
    }
}

/// The first `n` cycles of the screen, a line feed after every 40th
/// pixel.
pub open spec fn screen_upto(instrs: Seq<Instruction>, n: int) -> Seq<u8>
    decreases n,
{
    if n <= 0 {
        Seq::empty()
    } else {
        screen_upto(instrs, n - 1) + seq![pixel_at(instrs, n)] + (if n % 40 == 0 {
            seq![10u8]
        } else {
            Seq::empty()
        })
    }
}

pub struct CathodeRay {
    pub instructions: Vec<Instruction>,
}

impl CathodeRay {
    /// Reads one instruction per line.
    pub fn new(input: &str) -> (r: CathodeRay)
        requires
            forall|i: int|
                0 <= i < spec_lines(input.spec_bytes()).len() ==> line_ok(
                    #[trigger] spec_lines(input.spec_bytes())[i],
                ),
        ensures
            r.instructions@ == instrs_of(spec_lines(input.spec_bytes())),
    {
        let ghost s = input.spec_bytes();
        let ghost ls = spec_lines(s);
        let lines = split_lines(input.as_bytes());
        let n = lines.len();
        let mut instructions: Vec<Instruction> = Vec::new();
        let mut i: usize = 0;
        while i < n
            invariant
                s == input.spec_bytes(),
                ls == spec_lines(s),
                views_of(lines@) == ls,
                n == ls.len(),
                n == lines@.len(),
                0 <= i <= n,
                forall|k: int| 0 <= k < ls.len() ==> line_ok(#[trigger] ls[k]),
                instructions@.len() == i,
                forall|k: int| 0 <= k < i ==> instructions@[k] == instr_of(ls[k]),
            decreases n - i,
        {
            proof {
                assert(ls[i as int] == lines@[i as int]@);
            }
            let line = &lines[i];
            let ins = if line.len() >= 4 && line[0] == 110 && line[1] == 111 && line[2] == 111
                && line[3] == 112 {
                Instruction::Noop
            } else {
                let num = vstd::slice::slice_subrange(line.as_slice(), 5, line.len());
                proof {
                    assert(num@ =~= ls[i as int].skip(5));
                }
                match parse_i64(num) {
                    Some(v) => Instruction::Addx(v as i32),
                    None => vstd::pervasive::unreached(),
                }
            };
            instructions.push(ins);
            i += 1;
        }
        proof {
            assert(instructions@ =~= instrs_of(ls));
        }
        CathodeRay { instructions }
    }

    /// The X register during the given cycle.
    pub fn register_x_during_cycle(&self, cycle: u32) -> (r: i32)
        requires
            bounded_all(self.instructions@, 1),
        ensures
            r == x_during(self.instructions@, cycle as int),
    {
        if cycle <= 1 {
            return 1;
        }
        let ghost instrs = self.instructions@;
        let n = self.instructions.len();
        let mut c: u64 = 0;
        let mut x: i32 = 1;
        let mut i: usize = 0;
        let target: u64 = (cycle - 1) as u64;
        proof {
            assert(instrs.skip(0) =~= instrs);
        }
        while i < n
            invariant
                instrs == self.instructions@,
                n == instrs.len(),
                0 <= i <= n,
                cycle >= 2,
                target == cycle - 1,
                bounded_all(instrs.skip(i as int), x as int),
                x_fold(instrs.skip(i as int), c as int, x as int, cycle as int) == x_fold(
                    instrs,
                    0,
                    1,
                    cycle as int,
                ),
            decreases n - i,
        {
            proof {
                assert(instrs.skip(i as int)[0] == instrs[i as int]);
                assert(instrs.skip(i as int).skip(1) =~= instrs.skip(i + 1));
            }
            if c >= target - 1 {
                return x;
            }
            match self.instructions[i] {
                Instruction::Addx(v) => {
                    x = x + v;
                    c = c + 2;
                },
                Instruction::Noop => {
                    c = c + 1;
                },
            }
            i += 1;
        }
        proof {
            assert(instrs.skip(n as int) =~= Seq::<Instruction>::empty());
        }
        x
    }

    /// The signal strength at the given cycle.
    pub fn signal_strength_at_cycle(&self, cycle: u32) -> (r: i32)
        requires
            bounded_all(self.instructions@, 1),
            cycle <= i32::MAX,
            i32::MIN <= strength_at(self.instructions@, cycle as int) <= i32::MAX,
        ensures
            r == strength_at(self.instructions@, cycle as int),
    {
        let x = self.register_x_during_cycle(cycle);
        let wide: i64 = (cycle as i64) * (x as i64);
        wide as i32
    }

    /// Sum of the signal strengths at cycles 20, 60, 100, 140, 180
    /// and 220.
    pub fn sum_interesting_signal_strengths(&self) -> (r: i32)
        requires
            bounded_all(self.instructions@, 1),
            i32::MIN <= interesting_sum(self.instructions@) <= i32::MAX,
        ensures
            r == interesting_sum(self.instructions@),
    {
        let mut total: i64 = 0;
        let a = self.register_x_during_cycle(20);
        let b = self.register_x_during_cycle(60);
        let c = self.register_x_during_cycle(100);
        let d = self.register_x_during_cycle(140);
        let e = self.register_x_during_cycle(180);
        let f = self.register_x_during_cycle(220);
        total = 20 * (a as i64) + 60 * (b as i64) + 100 * (c as i64) + 140 * (d as i64) + 180 * (
        e as i64) + 220 * (f as i64);
        total as i32
    }

    /// Draws the six 40-pixel rows of the screen.
    pub fn render_screen(&self) -> (r: String)
        requires
            bounded_all(self.instructions@, 1),
        ensures
            r@ == screen_upto(self.instructions@, 240).map_values(|b: u8| b as char),
    {
        let ghost instrs = self.instructions@;
        let mut out: Vec<u8> = Vec::new();
        let mut n: u32 = 1;
        proof {
            assert(out@ =~= screen_upto(instrs, 0));
        }
        while n <= 240
            invariant
                instrs == self.instructions@,
                bounded_all(instrs, 1),
                1 <= n <= 241,
                out@ == screen_upto(instrs, n - 1),
                forall|k: int| 0 <= k < out@.len() ==> #[trigger] out@[k] < 128,
            decreases 241 - n,
        {
            let x = self.register_x_during_cycle(n);
            let pos = ((n - 1) % 40) as i64;
            let lit = pos - 1 <= x as i64 && x as i64 <= pos + 1;
            if lit {
                out.push(35);
            } else {
                out.push(46);
            }
            if n % 40 == 0 {
                out.push(10);
            }
            proof {
                assert(out@ =~= screen_upto(instrs, n as int));
            }
            n += 1;
        }
        ascii_string(out)
    }
}

/// Sum of the interesting signal strengths of the listed program.
pub fn signal_strength(input: &str) -> (r: i32)
    requires
        forall|i: int|
            0 <= i < spec_lines(input.spec_bytes()).len() ==> line_ok(
                #[trigger] spec_lines(input.spec_bytes())[i],
            ),
        bounded_all(instrs_of(spec_lines(input.spec_bytes())), 1),
        i32::MIN <= interesting_sum(instrs_of(spec_lines(input.spec_bytes()))) <= i32::MAX,
    ensures
        r == interesting_sum(instrs_of(spec_lines(input.spec_bytes()))),
{
    let ray = CathodeRay::new(input);
    ray.sum_interesting_signal_strengths()
}

/// The screen the listed program draws.
pub fn print(input: &str) -> (r: String)
    requires
        forall|i: int|
            0 <= i < spec_lines(input.spec_bytes()).len() ==> line_ok(
                #[trigger] spec_lines(input.spec_bytes())[i],
            ),
        bounded_all(instrs_of(spec_lines(input.spec_bytes())), 1),
    ensures
        r@ == screen_upto(instrs_of(spec_lines(input.spec_bytes())), 240).map_values(
            |b: u8| b as char,
        ),
{
    let ray = CathodeRay::new(input);
    ray.render_screen()
}

} // verus!
