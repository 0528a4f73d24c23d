//! Monkeys throwing items by worry level.
//!
//! Each monkey holds a queue of worry levels, an arithmetic operation,
//! a divisor and two targets. In a round every monkey inspects each of
//! its items in turn: the operation is applied, the level reduced
//! modulo the product of all divisors, optionally divided by three,
//! and the item flies to one of the two targets. The monkey business
//! score multiplies the two largest inspection counts.
use itertools::Itertools;
use vstd::prelude::*;
use vstd::string::StringSliceAdditionalSpecFns;

use crate::text::all_digits;
use crate::text::dec_value;
use crate::text::parse_u32;
use crate::text::parse_u64;
use crate::text::spec_lines;
use crate::text::split_lines;
use crate::text::views_of;

verus! {

/// The second factor of a monkey's operation.
#[derive(Clone, Copy, Debug, PartialEq, Eq, Structural)]
pub enum Operand {
    Num(u64),
    Old,
}

/// A monkey's inspection operation on the worry level.
#[derive(Clone, Copy, Debug, PartialEq, Eq, Structural)]
pub enum Operation {
    Add(Operand),
    Mul(Operand),
}

/// The new worry level the operation yields.
pub open spec fn apply_op(op: Operation, x: int) -> int {
    match op {
        Operation::Add(Operand::Num(n)) => x + n,
        Operation::Add(Operand::Old) => x + x,
        Operation::Mul(Operand::Num(n)) => x * n,
        Operation::Mul(Operand::Old) => x * x,
    }
}

pub struct Monkey {
    pub id: u32,
    pub items: Vec<u64>,
    pub operation: Operation,
    pub test_divisor: u64,
    pub true_target: u32,
    pub false_target: u32,
    pub item_count: u64,
}

/// The changing part of a monkey: its queue and its inspection count.
pub open spec fn lift_state(ms: Seq<Monkey>) -> Seq<(Seq<int>, int)> {
    ms.map_values(|m: Monkey| (m.items@.map_values(|x: u64| x as int), m.item_count as int))
}

/// The fixed part of a monkey: operation, divisor, the two targets.
pub open spec fn lift_cfg(ms: Seq<Monkey>) -> Seq<(Operation, int, int, int)> {
    ms.map_values(
        |m: Monkey|
            (m.operation, m.test_divisor as int, m.true_target as int, m.false_target as int),
    )
}

/// Product of the divisors from index `i` on.
pub open spec fn divisor_product(cfg: Seq<(Operation, int, int, int)>, i: int) -> int
    decreases cfg.len() - i,
{
    if i < 0 || i >= cfg.len() {
        1
    } else {
        cfg[i].1 * divisor_product(cfg, i + 1)
    }
}

/// The worry level of an inspected item, and where it flies.
pub open spec fn inspect(
    cfg: Seq<(Operation, int, int, int)>,
    i: int,
    x: int,
    modulus: int,
    dec: bool,
) -> (int, int) {
    let w0 = apply_op(cfg[i].0, x) % modulus;
    let w = if dec {
        w0 / 3
    } else {
        w0
    };
    let hit = if cfg[i].1 == 0 {
        w == 0
    } else {
        w % cfg[i].1 == 0
    };
    let t = if hit {
        cfg[i].2
    } else {
        cfg[i].3
    };
    (w, t)
}

/// One throw of monkey `i`'s front item.
pub open spec fn throw_one(
    cfg: Seq<(Operation, int, int, int)>,
    st: Seq<(Seq<int>, int)>,
    i: int,
    modulus: int,
    dec: bool,
) -> Seq<(Seq<int>, int)> {
    let (w, t) = inspect(cfg, i, st[i].0[0], modulus, dec);
    let st1 = st.update(i, (st[i].0.skip(1), st[i].1 + 1));
    st1.update(t, (st1[t].0.push(w), st1[t].1))
}

/// Monkey `i` throws all of its items.
pub open spec fn process_monkey(
    cfg: Seq<(Operation, int, int, int)>,
    st: Seq<(Seq<int>, int)>,
    i: int,
    modulus: int,
    dec: bool,
) -> Seq<(Seq<int>, int)>
    decreases (if 0 <= i < st.len() {
        st[i].0.len()
    } else {
        0
    }),
{
    if !(0 <= i < st.len()) || st[i].0.len() == 0 {
        st
    } else {
        let (w, t) = inspect(cfg, i, st[i].0[0], modulus, dec);
        if t == i || !(0 <= t < st.len()) {
            st
        } else {
            process_monkey(cfg, throw_one(cfg, st, i, modulus, dec), i, modulus, dec)
        }
    }
}

/// The monkeys from `i` on take their turns.
pub open spec fn run_round(
    cfg: Seq<(Operation, int, int, int)>,
    st: Seq<(Seq<int>, int)>,
    i: int,
    modulus: int,
    dec: bool,
) -> Seq<(Seq<int>, int)>
    decreases cfg.len() - i,
{
    if i < 0 || i >= cfg.len() {
        st
    } else {
        run_round(cfg, process_monkey(cfg, st, i, modulus, dec), i + 1, modulus, dec)
    }
}

/// One full round.
pub open spec fn spec_round(cfg: Seq<(Operation, int, int, int)>, st: Seq<(Seq<int>, int)>, dec: bool) -> Seq<
    (Seq<int>, int),
> {
    run_round(cfg, st, 0, divisor_product(cfg, 0), dec)
}

/// `r` full rounds.
pub open spec fn run_rounds(cfg: Seq<(Operation, int, int, int)>, st: Seq<(Seq<int>, int)>, r: int, dec: bool) -> Seq<
    (Seq<int>, int),
>
    decreases r,
{
    if r <= 0 {
        st
    } else {
        run_rounds(cfg, spec_round(cfg, st, dec), r - 1, dec)
    }
}

/// Relies on `num_integer::Integer::is_multiple_of` for `u64`: zero is
/// the only multiple of zero; otherwise the remainder decides.
#[verifier::external_body]
fn is_multiple(a: u64, d: u64) -> (r: bool)
    ensures
        r == (if d == 0 {
            a == 0
        } else {
            a % d == 0
        }),
{
    num_integer::Integer::is_multiple_of(&a, &d)
}

impl Monkey {
    /// Reads the operation column pair: "+" or "*", and a number or
    /// "old". A second column that is no number that fits stands for
    /// the old value.
    pub fn parse_operation(operation: &str, operand: &str) -> (r: Operation)
        requires
            operation.spec_bytes() == seq![43u8] || operation.spec_bytes() == seq![42u8],
        ensures
            r == ({
                let o = if operand.spec_bytes().len() > 0 && all_digits(operand.spec_bytes())
                    && dec_value(operand.spec_bytes()) <= u64::MAX {
                    Operand::Num(dec_value(operand.spec_bytes()) as u64)
                } else {
                    Operand::Old
                };
                if operation.spec_bytes() == seq![43u8] {
                    Operation::Add(o)
                } else {
                    Operation::Mul(o)
                }
            }),
    {
        let ob = operand.as_bytes();
        let o = match parse_u64(ob) {
            Some(v) => Operand::Num(v),
            None => Operand::Old,
        };
        let b = operation.as_bytes();
        proof {
            assert(b@.len() == 1);
            assert(b@[0] == 43 || b@[0] == 42);
        }
        if b[0] == 43 {
            proof {
                assert(operation.spec_bytes() =~= seq![43u8]);
            }
            Operation::Add(o)
        } else {
            proof {
                assert(operation.spec_bytes() != seq![43u8]);
            }
            Operation::Mul(o)
        }
    }

    /// Applies this monkey's operation to a worry level.
    pub fn apply_operation(&self, old_level: u64) -> (r: u64)
        requires
            apply_op(self.operation, old_level as int) <= u64::MAX,
        ensures
            r == apply_op(self.operation, old_level as int),
    {
        match self.operation {
            Operation::Add(Operand::Num(n)) => old_level + n,
            Operation::Add(Operand::Old) => old_level + old_level,
            Operation::Mul(Operand::Num(n)) => old_level * n,
            Operation::Mul(Operand::Old) => old_level * old_level,
        }
    }

    /// Inspects and throws the front item; `None` when the queue is
    /// empty.
    pub fn throw(&mut self, modulus: &u64, decrease_worry_level: bool) -> (r: Option<(u64, u32)>)
        requires
            *modulus != 0,
            old(self).items@.len() > 0 ==> old(self).item_count < u64::MAX,
            old(self).items@.len() > 0 ==> apply_op(
                old(self).operation,
                old(self).items@[0] as int,
            ) <= u64::MAX,
        ensures
            final(self).id == old(self).id,
            final(self).operation == old(self).operation,
            final(self).test_divisor == old(self).test_divisor,
            final(self).true_target == old(self).true_target,
            final(self).false_target == old(self).false_target,
            old(self).items@.len() == 0 ==> r is None && final(self).items@ == old(self).items@
                && final(self).item_count == old(self).item_count,
            old(self).items@.len() > 0 ==> {
                let cfg = lift_cfg(seq![*old(self)]);
                let (w, t) = inspect(cfg, 0, old(self).items@[0] as int, *modulus as int,
                    decrease_worry_level);
                &&& r == Some((w as u64, t as u32))
                &&& final(self).items@ == old(self).items@.skip(1)
                &&& final(self).item_count == old(self).item_count + 1
                &&& 0 <= w < *modulus
            },
    {
        if self.items.len() == 0 {
            return None;
        }
        let x = self.items.remove(0);
        proof {
            assert(self.items@ =~= old(self).items@.skip(1));
        }
        self.item_count = self.item_count + 1;
        let applied: u64 = match self.operation {
            Operation::Add(Operand::Num(n)) => x + n,
            Operation::Add(Operand::Old) => x + x,
            Operation::Mul(Operand::Num(n)) => x * n,
            Operation::Mul(Operand::Old) => x * x,
        };
        let mut worry_level = applied % *modulus;
        if decrease_worry_level {
            worry_level = worry_level / 3;
        }
        let target = if is_multiple(worry_level, self.test_divisor) {
            self.true_target
        } else {
            self.false_target
        };
        proof {
            let cfg = lift_cfg(seq![*old(self)]);
            assert(seq![*old(self)][0] == *old(self));
            assert(cfg[0] == (
                old(self).operation,
                old(self).test_divisor as int,
                old(self).true_target as int,
                old(self).false_target as int,
            ));
        }
        Some((worry_level, target))
    }
}

/// `p` begins the line.
pub open spec fn has_prefix(l: Seq<u8>, p: Seq<u8>) -> bool {
    p.len() <= l.len() && l.take(p.len() as int) == p
}

/// The items column: numerals that fit `u64`, separated by ", ".
pub open spec fn items_ok(s: Seq<u8>) -> bool
    decreases s.len(),
    via items_ok_decreases
{
    let c = crate::text::find_byte_from(s, 0, 44);
    if c >= s.len() {
        s.len() > 0 && all_digits(s) && dec_value(s) <= u64::MAX
    } else {
        &&& c > 0
        &&& c + 2 <= s.len()
        &&& s[c + 1] == 32
        &&& all_digits(s.take(c))
        &&& dec_value(s.take(c)) <= u64::MAX
        &&& items_ok(s.skip(c + 2))
    }
}

#[via_fn]
proof fn items_ok_decreases(s: Seq<u8>) {
    crate::text::lemma_find_byte_bounds(s, 0, 44);
}

/// The worry levels the items column lists.
pub open spec fn items_of(s: Seq<u8>) -> Seq<int>
    decreases s.len(),
    via items_of_decreases
{
    let c = crate::text::find_byte_from(s, 0, 44);
    if c >= s.len() {
        seq![dec_value(s)]
    } else {
        let cut = if c + 2 <= s.len() {
            c + 2
        } else {
            s.len() as int
        };
        seq![dec_value(s.take(c))] + items_of(s.skip(cut))
    }
}

#[via_fn]
proof fn items_of_decreases(s: Seq<u8>) {
    crate::text::lemma_find_byte_bounds(s, 0, 44);
}

/// "Monkey N:".
pub open spec fn line0_ok(l: Seq<u8>) -> bool {
    &&& l.len() >= 9
    &&& has_prefix(l, seq![77u8, 111u8, 110u8, 107u8, 101u8, 121u8, 32u8])
    &&& l.last() == 58
    &&& all_digits(l.subrange(7, l.len() - 1))
    &&& l.len() - 1 > 7
    &&& dec_value(l.subrange(7, l.len() - 1)) <= u32::MAX
}

pub open spec fn block_id(l: Seq<u8>) -> int {
    dec_value(l.subrange(7, l.len() - 1))
}

/// "  Starting items: ...".
pub open spec fn line1_ok(l: Seq<u8>) -> bool {
    &&& l.len() > 18
    &&& has_prefix(
        l,
        seq![
            32u8, 32u8, 83u8, 116u8, 97u8, 114u8, 116u8, 105u8, 110u8, 103u8, 32u8, 105u8,
            116u8, 101u8, 109u8, 115u8, 58u8, 32u8,
        ],
    )
    &&& items_ok(l.skip(18))
}

/// "  Operation: new = old <op> <operand>".
pub open spec fn line2_ok(l: Seq<u8>) -> bool {
    &&& l.len() >= 26
    &&& has_prefix(
        l,
        seq![
            32u8, 32u8, 79u8, 112u8, 101u8, 114u8, 97u8, 116u8, 105u8, 111u8, 110u8, 58u8,
            32u8, 110u8, 101u8, 119u8, 32u8, 61u8, 32u8, 111u8, 108u8, 100u8, 32u8,
        ],
    )
    &&& (l[23] == 43 || l[23] == 42)
    &&& l[24] == 32
    &&& (l.skip(25) == seq![111u8, 108u8, 100u8] || all_digits(l.skip(25)))
}

/// The operand column: a numeral that fits becomes a number;
/// anything else stands for the old value.
pub open spec fn operand_of(s: Seq<u8>) -> Operand {
    if s.len() > 0 && all_digits(s) && dec_value(s) <= u64::MAX {
        Operand::Num(dec_value(s) as u64)
    } else {
        Operand::Old
    }
}

pub open spec fn block_op(l: Seq<u8>) -> Operation {
    if l[23] == 43 {
        Operation::Add(operand_of(l.skip(25)))
    } else {
        Operation::Mul(operand_of(l.skip(25)))
    }
}

/// "  Test: divisible by N".
pub open spec fn line3_ok(l: Seq<u8>) -> bool {
    &&& l.len() > 21
    &&& has_prefix(
        l,
        seq![
            32u8, 32u8, 84u8, 101u8, 115u8, 116u8, 58u8, 32u8, 100u8, 105u8, 118u8, 105u8,
            115u8, 105u8, 98u8, 108u8, 101u8, 32u8, 98u8, 121u8, 32u8,
        ],
    )
    &&& all_digits(l.skip(21))
    &&& dec_value(l.skip(21)) <= u64::MAX
}

pub open spec fn block_divisor(l: Seq<u8>) -> int {
    dec_value(l.skip(21))
}

/// "    If true: throw to monkey N".
pub open spec fn line4_ok(l: Seq<u8>) -> bool {
    &&& l.len() > 29
    &&& has_prefix(
        l,
        seq![
            32u8, 32u8, 32u8, 32u8, 73u8, 102u8, 32u8, 116u8, 114u8, 117u8, 101u8, 58u8,
            32u8, 116u8, 104u8, 114u8, 111u8, 119u8, 32u8, 116u8, 111u8, 32u8, 109u8, 111u8,
            110u8, 107u8, 101u8, 121u8, 32u8,
        ],
    )
    &&& all_digits(l.skip(29))
    &&& dec_value(l.skip(29)) <= u32::MAX
}

pub open spec fn block_true_target(l: Seq<u8>) -> int {
    dec_value(l.skip(29))
}

/// "    If false: throw to monkey N".
pub open spec fn line5_ok(l: Seq<u8>) -> bool {
    &&& l.len() > 30
    &&& has_prefix(
        l,
        seq![
            32u8, 32u8, 32u8, 32u8, 73u8, 102u8, 32u8, 102u8, 97u8, 108u8, 115u8, 101u8,
            58u8, 32u8, 116u8, 104u8, 114u8, 111u8, 119u8, 32u8, 116u8, 111u8, 32u8, 109u8,
            111u8, 110u8, 107u8, 101u8, 121u8, 32u8,
        ],
    )
    &&& all_digits(l.skip(30))
    &&& dec_value(l.skip(30)) <= u32::MAX
}

pub open spec fn block_false_target(l: Seq<u8>) -> int {
    dec_value(l.skip(30))
}

/// Six lines spell one monkey.
pub open spec fn block_ok(nb: Seq<Seq<u8>>, k: int) -> bool {
    &&& line0_ok(nb[6 * k])
    &&& line1_ok(nb[6 * k + 1])
    &&& line2_ok(nb[6 * k + 2])
    &&& line3_ok(nb[6 * k + 3])
    &&& line4_ok(nb[6 * k + 4])
    &&& line5_ok(nb[6 * k + 5])
}

/// The non-blank lines come in blocks of six, each spelling a monkey.
pub open spec fn blocks_ok(nb: Seq<Seq<u8>>) -> bool {
    nb.len() % 6 == 0 && forall|k: int| 0 <= k < nb.len() / 6 ==> #[trigger] block_ok(nb, k)
}

/// The fixed configuration the blocks spell.
pub open spec fn parsed_cfg(nb: Seq<Seq<u8>>) -> Seq<(Operation, int, int, int)> {
    Seq::new(
        (nb.len() / 6) as nat,
        |k: int|
            (
                block_op(nb[6 * k + 2]),
                block_divisor(nb[6 * k + 3]),
                block_true_target(nb[6 * k + 4]),
                block_false_target(nb[6 * k + 5]),
            ),
    )
}

/// The starting queues (and zero counts) the blocks spell.
pub open spec fn parsed_state(nb: Seq<Seq<u8>>) -> Seq<(Seq<int>, int)> {
    Seq::new((nb.len() / 6) as nat, |k: int| (items_of(nb[6 * k + 1].skip(18)), 0int))
}

/// The non-blank lines of the input.
fn nonblank_lines(input: &str) -> (r: Vec<Vec<u8>>)
    ensures
        views_of(r@) == crate::packets::nonblank(spec_lines(input.spec_bytes())),
{
    let ghost s = input.spec_bytes();
    let ghost lsq = spec_lines(s);
    let lines = split_lines(input.as_bytes());
    let n = lines.len();
    let mut r: Vec<Vec<u8>> = Vec::new();
    let mut i: usize = 0;
    proof {
        assert(lsq.skip(0) =~= lsq);
        assert(views_of(r@) + crate::packets::nonblank(lsq) =~= crate::packets::nonblank(lsq));
    }
    while i < n
        invariant
            0 <= i <= n,
            n == lsq.len(),
            views_of(lines@) == lsq,
            n == lines@.len(),
            views_of(r@) + crate::packets::nonblank(lsq.skip(i as int)) == crate::packets::nonblank(
                lsq,
            ),
        decreases n - i,
    {
        proof {
            assert(lsq[i as int] == lines@[i as int]@);
            assert(lsq.skip(i as int)[0] == lsq[i as int]);
            assert(lsq.skip(i as int).skip(1) =~= lsq.skip(i + 1));
        }
        let line = &lines[i];
        if line.len() > 0 {
            let copy = crate::text::bytes_of(line.as_slice(), 0, line.len());
            proof {
                assert(copy@ =~= lsq[i as int]);
            }
            r.push(copy);
            proof {
                assert(views_of(r@) =~= views_of(r@.drop_last()) + seq![lsq[i as int]]);
            }
        }
        i += 1;
    }
    proof {
        assert(crate::packets::nonblank(lsq.skip(n as int)) =~= Seq::<Seq<u8>>::empty());
        assert(views_of(r@) + crate::packets::nonblank(lsq.skip(n as int)) =~= views_of(r@));
    }
    r
}

/// Reads the comma-separated worry levels.
fn parse_items(b: &[u8]) -> (r: Vec<u64>)
    requires
        items_ok(b@),
    ensures
        r@.map_values(|x: u64| x as int) == items_of(b@),
{
    let ghost whole = b@;
    let n = b.len();
    let mut r: Vec<u64> = Vec::new();
    let mut pos: usize = 0;
    proof {
        assert(whole.skip(0) =~= whole);
        assert(r@.map_values(|x: u64| x as int) + items_of(whole) =~= items_of(whole));
    }
    while pos < n
        invariant
            0 <= pos <= n,
            n == whole.len(),
            b@ == whole,
            pos < n ==> items_ok(whole.skip(pos as int)),
            pos < n ==> r@.map_values(|x: u64| x as int) + items_of(whole.skip(pos as int))
                == items_of(whole),
            pos == n ==> r@.map_values(|x: u64| x as int) == items_of(whole),
        decreases n - pos,
    {
        let ghost rest = whole.skip(pos as int);
        proof {
            crate::text::lemma_find_byte_bounds(rest, 0, 44);
        }
        let c = crate::text::find_byte(b, pos, 44);
        proof {
            assert(c - pos == crate::text::find_byte_from(rest, 0, 44)) by {
                lemma_find_shift(whole, pos as int, c as int, 44);
            }
        }
        if c >= n {
            let piece = vstd::slice::slice_subrange(b, pos, n);
            proof {
                assert(piece@ =~= rest);
            }
            let v = match parse_u64(piece) {
                Some(v) => v,
                None => vstd::pervasive::unreached(),
            };
            r.push(v);
            proof {
                assert(items_of(rest) == seq![dec_value(rest)]);
                assert(r@.map_values(|x: u64| x as int) =~= r@.drop_last().map_values(
                    |x: u64| x as int,
                ) + seq![dec_value(rest)]);
            }
            pos = n;
        } else {
            let piece = vstd::slice::slice_subrange(b, pos, c);
            proof {
                assert(piece@ =~= rest.take(c - pos));
            }
            let v = match parse_u64(piece) {
                Some(v) => v,
                None => vstd::pervasive::unreached(),
            };
            r.push(v);
            proof {
                assert(whole.skip(c + 2) =~= rest.skip(c - pos + 2));
                assert(items_of(rest) == seq![dec_value(rest.take(c - pos))] + items_of(
                    rest.skip(c - pos + 2),
                ));
                assert(r@.map_values(|x: u64| x as int) =~= r@.drop_last().map_values(
                    |x: u64| x as int,
                ) + seq![dec_value(rest.take(c - pos))]);
            }
            proof {
                if c + 2 == n {
                    assert(whole.skip(c + 2) =~= Seq::<u8>::empty());
                    assert(!items_ok(Seq::<u8>::empty()));
                    assert(false);
                }
            }
            pos = c + 2;
        }
    }
    r
}

proof fn lemma_find_shift(s: Seq<u8>, from: int, c: int, target: u8)
    requires
        0 <= from <= s.len(),
        c == crate::text::find_byte_from(s, from, target),
    ensures
        c - from == crate::text::find_byte_from(s.skip(from), 0, target),
{
    crate::text::lemma_find_byte_bounds(s, from, target);
    crate::text::lemma_find_byte_bounds(s.skip(from), 0, target);
    let rest = s.skip(from);
    let d = crate::text::find_byte_from(rest, 0, target);
    assert forall|k: int| 0 <= k < c - from implies rest[k] != target by {
        assert(rest[k] == s[from + k]);
    }
    if d < rest.len() {
        assert(rest[d] == s[from + d]);
    }
    if c < s.len() {
        assert(rest[c - from] == s[c]);
        if d > c - from {
            assert(rest[c - from] != target);
        }
    }
    if c - from < d {
        assert(s[c] == target);
    }
}

/// Reads the six lines of block `k` as one monkey.
fn parse_block(nb: &Vec<Vec<u8>>, k: usize) -> (r: Monkey)
    requires
        6 * k + 5 < nb@.len(),
        block_ok(views_of(nb@), k as int),
    ensures
        ({
            let v = views_of(nb@);
            &&& r.id == block_id(v[6 * k as int])
            &&& r.items@.map_values(|x: u64| x as int) == items_of(v[6 * k + 1].skip(18))
            &&& r.operation == block_op(v[6 * k + 2])
            &&& r.test_divisor == block_divisor(v[6 * k + 3])
            &&& r.true_target == block_true_target(v[6 * k + 4])
            &&& r.false_target == block_false_target(v[6 * k + 5])
            &&& r.item_count == 0
        }),
{
    let ghost v = views_of(nb@);
    let nlen = nb.len();
    proof {
        assert(nb@.len() == nlen);
    }
    let l0 = &nb[6 * k];
    let l1 = &nb[6 * k + 1];
    let l2 = &nb[6 * k + 2];
    let l3 = &nb[6 * k + 3];
    let l4 = &nb[6 * k + 4];
    let l5 = &nb[6 * k + 5];
    proof {
        assert(l0@ == v[6 * k as int]);
        assert(l1@ == v[6 * k + 1]);
        assert(l2@ == v[6 * k + 2]);
        assert(l3@ == v[6 * k + 3]);
        assert(l4@ == v[6 * k + 4]);
        assert(l5@ == v[6 * k + 5]);
    }
    let idb = vstd::slice::slice_subrange(l0.as_slice(), 7, l0.len() - 1);
    proof {
        assert(idb@ =~= l0@.subrange(7, l0@.len() - 1));
    }
    let id = match parse_u32(idb) {
        Some(x) => x,
        None => vstd::pervasive::unreached(),
    };
    let itb = vstd::slice::slice_subrange(l1.as_slice(), 18, l1.len());
    proof {
        assert(itb@ =~= l1@.skip(18));
    }
    let items = parse_items(itb);
    let opb = vstd::slice::slice_subrange(l2.as_slice(), 25, l2.len());
    proof {
        assert(opb@ =~= l2@.skip(25));
    }
    let operand = match parse_u64(opb) {
        Some(x) => Operand::Num(x),
        None => Operand::Old,
    };
    let operation = if l2[23] == 43 {
        Operation::Add(operand)
    } else {
        Operation::Mul(operand)
    };
    let dvb = vstd::slice::slice_subrange(l3.as_slice(), 21, l3.len());
    proof {
        assert(dvb@ =~= l3@.skip(21));
    }
    let test_divisor = match parse_u64(dvb) {
        Some(x) => x,
        None => vstd::pervasive::unreached(),
    };
    let ttb = vstd::slice::slice_subrange(l4.as_slice(), 29, l4.len());
    proof {
        assert(ttb@ =~= l4@.skip(29));
    }
    let true_target = match parse_u32(ttb) {
        Some(x) => x,
        None => vstd::pervasive::unreached(),
    };
    let ftb = vstd::slice::slice_subrange(l5.as_slice(), 30, l5.len());
    proof {
        assert(ftb@ =~= l5@.skip(30));
    }
    let false_target = match parse_u32(ftb) {
        Some(x) => x,
        None => vstd::pervasive::unreached(),
    };
    Monkey { id, items, operation, test_divisor, true_target, false_target, item_count: 0 }
}

impl Monkey {
    /// Reads the first six non-blank lines as one monkey.
    pub fn new(input: &str) -> (r: Monkey)
        requires
            crate::packets::nonblank(spec_lines(input.spec_bytes())).len() >= 6,
            block_ok(crate::packets::nonblank(spec_lines(input.spec_bytes())), 0),
        ensures
            ({
                let nb = crate::packets::nonblank(spec_lines(input.spec_bytes()));
                &&& r.id == block_id(nb[0])
                &&& r.items@.map_values(|x: u64| x as int) == items_of(nb[1].skip(18))
                &&& r.operation == block_op(nb[2])
                &&& r.test_divisor == block_divisor(nb[3])
                &&& r.true_target == block_true_target(nb[4])
                &&& r.false_target == block_false_target(nb[5])
                &&& r.item_count == 0
            }),
    {
        let nb = nonblank_lines(input);
        parse_block(&nb, 0)
    }
}

/// Reads all monkeys: six non-blank lines each.
#[verifier::loop_isolation(false)]
pub fn parse_monkeys(input: &str) -> (r: Vec<Monkey>)
    requires
        blocks_ok(crate::packets::nonblank(spec_lines(input.spec_bytes()))),
    ensures
        ({
            let nb = crate::packets::nonblank(spec_lines(input.spec_bytes()));
            &&& r@.len() == nb.len() / 6
            &&& lift_cfg(r@) == parsed_cfg(nb)
            &&& lift_state(r@) == parsed_state(nb)
            &&& forall|k: int| 0 <= k < r@.len() ==> (#[trigger] r@[k]).id == block_id(nb[6 * k])
        }),
{
    let ghost nbg = crate::packets::nonblank(spec_lines(input.spec_bytes()));
    let nb = nonblank_lines(input);
    let count = nb.len() / 6;
    let mut r: Vec<Monkey> = Vec::new();
    let mut k: usize = 0;
    while k < count
        invariant
            0 <= k <= count,
            r@.len() == k,
            forall|j: int|
                0 <= j < k ==> {
                    let m = #[trigger] r@[j];
                    &&& m.id == block_id(nbg[6 * j])
                    &&& m.items@.map_values(|x: u64| x as int) == items_of(nbg[6 * j + 1].skip(18))
                    &&& m.operation == block_op(nbg[6 * j + 2])
                    &&& m.test_divisor == block_divisor(nbg[6 * j + 3])
                    &&& m.true_target == block_true_target(nbg[6 * j + 4])
                    &&& m.false_target == block_false_target(nbg[6 * j + 5])
                    &&& m.item_count == 0
                },
        decreases count - k,
    {
        proof {
            assert(block_ok(nbg, k as int));
        }
        let m = parse_block(&nb, k);
        r.push(m);
        k += 1;
    }
    proof {
        assert(lift_cfg(r@) =~= parsed_cfg(nbg));
        assert(lift_state(r@) =~= parsed_state(nbg));
    }
    r
}

/// The operation's number, if any, stays small enough that applying
/// it to a reduced worry level fits.
pub open spec fn op_small(op: Operation) -> bool {
    match op {
        Operation::Add(Operand::Num(n)) => n <= 0x1_0000_0000,
        Operation::Mul(Operand::Num(n)) => n <= 0x1_0000_0000,
        _ => true,
    }
}

/// The fixed configuration is sound: targets in range and never the
/// thrower itself, divisors positive with a small product, operations
/// small.
pub open spec fn cfg_wf(cfg: Seq<(Operation, int, int, int)>) -> bool {
    &&& forall|k: int|
        0 <= k < cfg.len() ==> {
            let m = #[trigger] cfg[k];
            &&& 0 <= m.2 < cfg.len()
            &&& 0 <= m.3 < cfg.len()
            &&& m.2 != k
            &&& m.3 != k
            &&& m.1 >= 1
            &&& op_small(m.0)
        }
    &&& divisor_product(cfg, 0) <= 0x1_0000_0000
}

/// Every queued worry level is non-negative and survives its owner's
/// operation inside `u64`.
pub open spec fn state_ok(
    cfg: Seq<(Operation, int, int, int)>,
    st: Seq<(Seq<int>, int)>,
) -> bool {
    &&& st.len() == cfg.len()
    &&& forall|k: int, j: int|
        0 <= k < st.len() && 0 <= j < st[k].0.len() ==> 0 <= #[trigger] st[k].0[j] && apply_op(
            cfg[k].0,
            st[k].0[j],
        ) <= u64::MAX
}

/// No count shrinks from `a` to `b`.
pub open spec fn counts_le(a: Seq<(Seq<int>, int)>, b: Seq<(Seq<int>, int)>) -> bool {
    a.len() == b.len() && forall|k: int| 0 <= k < a.len() ==> (#[trigger] a[k]).1 <= b[k].1
}

pub proof fn lemma_divprod_pos(cfg: Seq<(Operation, int, int, int)>, i: int)
    requires
        forall|k: int| 0 <= k < cfg.len() ==> (#[trigger] cfg[k]).1 >= 1,
    ensures
        divisor_product(cfg, i) >= 1,
    decreases cfg.len() - i,
{
    if 0 <= i && i < cfg.len() {
        lemma_divprod_pos(cfg, i + 1);
        assert(cfg[i].1 * divisor_product(cfg, i + 1) >= 1) by (nonlinear_arith)
            requires
                cfg[i].1 >= 1,
                divisor_product(cfg, i + 1) >= 1,
        ;
    }
}

proof fn lemma_throw_one_ok(
    cfg: Seq<(Operation, int, int, int)>,
    st: Seq<(Seq<int>, int)>,
    i: int,
    modulus: int,
    dec: bool,
)
    requires
        cfg_wf(cfg),
        state_ok(cfg, st),
        1 <= modulus <= 0x1_0000_0000,
        0 <= i < st.len(),
        st[i].0.len() > 0,
    ensures
        ({
            let r = throw_one(cfg, st, i, modulus, dec);
            &&& r.len() == st.len()
            &&& state_ok(cfg, r)
            &&& counts_le(st, r)
            &&& r[i].0.len() == st[i].0.len() - 1
        }),
{
    let (w, t) = inspect(cfg, i, st[i].0[0], modulus, dec);
    let r = throw_one(cfg, st, i, modulus, dec);
    assert(0 <= t < cfg.len() && t != i);
    assert(0 <= w < modulus) by {
        let a = apply_op(cfg[i].0, st[i].0[0]);
        assert(0 <= a % modulus < modulus) by (nonlinear_arith)
            requires
                modulus >= 1,
        ;
        assert(0 <= (a % modulus) / 3 <= a % modulus) by (nonlinear_arith)
            requires
                a % modulus >= 0,
        ;
    }
    assert(apply_op(cfg[t].0, w) <= u64::MAX) by {
        match cfg[t].0 {
            Operation::Add(Operand::Num(n)) => {},
            Operation::Add(Operand::Old) => {},
            Operation::Mul(Operand::Num(n)) => {
                assert(w * n <= 0x1_0000_0000 * 0x1_0000_0000) by (nonlinear_arith)
                    requires
                        0 <= w <= 0x1_0000_0000,
                        0 <= n <= 0x1_0000_0000,
                ;
                assert(w * n != 0x1_0000_0000 * 0x1_0000_0000 || (w == 0x1_0000_0000 && n
                    == 0x1_0000_0000)) by (nonlinear_arith)
                    requires
                        0 <= w <= 0x1_0000_0000,
                        0 <= n <= 0x1_0000_0000,
                ;
                assert(w < 0x1_0000_0000);
                assert(w * n <= (0x1_0000_0000 - 1) * 0x1_0000_0000) by (nonlinear_arith)
                    requires
                        0 <= w <= 0x1_0000_0000 - 1,
                        0 <= n <= 0x1_0000_0000,
                ;
            },
            Operation::Mul(Operand::Old) => {
                assert(w * w <= (0x1_0000_0000 - 1) * (0x1_0000_0000 - 1)) by (nonlinear_arith)
                    requires
                        0 <= w <= 0x1_0000_0000 - 1,
                ;
            },
        }
    }
    assert forall|k: int, j: int|
        0 <= k < r.len() && 0 <= j < r[k].0.len() implies 0 <= #[trigger] r[k].0[j] && apply_op(
        cfg[k].0,
        r[k].0[j],
    ) <= u64::MAX by {
        if k == t {
            if j < r[t].0.len() - 1 {
                if t == i {
                } else {
                    assert(r[t].0[j] == st[t].0[j]);
                }
            } else {
                assert(r[t].0[j] == w);
            }
        } else if k == i {
            assert(r[i].0[j] == st[i].0[j + 1]);
        } else {
            assert(r[k].0[j] == st[k].0[j]);
        }
    }
}

proof fn lemma_process_ok(
    cfg: Seq<(Operation, int, int, int)>,
    st: Seq<(Seq<int>, int)>,
    i: int,
    modulus: int,
    dec: bool,
)
    requires
        cfg_wf(cfg),
        state_ok(cfg, st),
        1 <= modulus <= 0x1_0000_0000,
    ensures
        ({
            let r = process_monkey(cfg, st, i, modulus, dec);
            &&& r.len() == st.len()
            &&& state_ok(cfg, r)
            &&& counts_le(st, r)
        }),
    decreases (if 0 <= i < st.len() {
        st[i].0.len()
    } else {
        0
    }),
{
    if !(0 <= i < st.len()) || st[i].0.len() == 0 {
    } else {
        let (w, t) = inspect(cfg, i, st[i].0[0], modulus, dec);
        if t == i || !(0 <= t < st.len()) {
        } else {
            lemma_throw_one_ok(cfg, st, i, modulus, dec);
            lemma_process_ok(cfg, throw_one(cfg, st, i, modulus, dec), i, modulus, dec);
        }
    }
}

proof fn lemma_run_round_ok(
    cfg: Seq<(Operation, int, int, int)>,
    st: Seq<(Seq<int>, int)>,
    i: int,
    modulus: int,
    dec: bool,
)
    requires
        cfg_wf(cfg),
        state_ok(cfg, st),
        1 <= modulus <= 0x1_0000_0000,
    ensures
        ({
            let r = run_round(cfg, st, i, modulus, dec);
            &&& r.len() == st.len()
            &&& state_ok(cfg, r)
            &&& counts_le(st, r)
        }),
    decreases cfg.len() - i,
{
    if 0 <= i && i < cfg.len() {
        lemma_process_ok(cfg, st, i, modulus, dec);
        lemma_run_round_ok(cfg, process_monkey(cfg, st, i, modulus, dec), i + 1, modulus, dec);
    }
}

pub proof fn lemma_run_rounds_ok(
    cfg: Seq<(Operation, int, int, int)>,
    st: Seq<(Seq<int>, int)>,
    r: int,
    dec: bool,
)
    requires
        cfg_wf(cfg),
        state_ok(cfg, st),
    ensures
        ({
            let fin = run_rounds(cfg, st, r, dec);
            &&& fin.len() == st.len()
            &&& state_ok(cfg, fin)
            &&& counts_le(st, fin)
        }),
    decreases r,
{
    lemma_divprod_pos(cfg, 0);
    if r > 0 {
        lemma_run_round_ok(cfg, st, 0, divisor_product(cfg, 0), dec);
        lemma_run_rounds_ok(cfg, spec_round(cfg, st, dec), r - 1, dec);
    }
}

/// One full round: every monkey in turn empties its queue.
#[verifier::rlimit(100)]
pub fn round(monkeys: &mut Vec<Monkey>, decrease_worry_level: bool)
    requires
        cfg_wf(lift_cfg(old(monkeys)@)),
        state_ok(lift_cfg(old(monkeys)@), lift_state(old(monkeys)@)),
        forall|k: int|
            0 <= k < old(monkeys)@.len() ==> (#[trigger] spec_round(
                lift_cfg(old(monkeys)@),
                lift_state(old(monkeys)@),
                decrease_worry_level,
            )[k]).1 <= u64::MAX,
    ensures
        lift_cfg(final(monkeys)@) == lift_cfg(old(monkeys)@),
        final(monkeys)@.len() == old(monkeys)@.len(),
        forall|k: int|
            0 <= k < final(monkeys)@.len() ==> (#[trigger] final(monkeys)@[k]).id == old(
                monkeys,
            )@[k].id,
        lift_state(final(monkeys)@) == spec_round(
            lift_cfg(old(monkeys)@),
            lift_state(old(monkeys)@),
            decrease_worry_level,
        ),
{
    let ghost cfg = lift_cfg(old(monkeys)@);
    let ghost st0 = lift_state(old(monkeys)@);
    let ghost goal = spec_round(cfg, st0, decrease_worry_level);
    let n = monkeys.len();
    proof {
        lemma_divprod_pos(cfg, 0);
    }
    let mut modulus: u64 = 1;
    let mut k: usize = 0;
    while k < n
        invariant
            cfg == lift_cfg(old(monkeys)@),
            cfg_wf(cfg),
            monkeys@ == old(monkeys)@,
            n == monkeys@.len(),
            n == cfg.len(),
            0 <= k <= n,
            1 <= modulus,
            modulus * divisor_product(cfg, k as int) == divisor_product(cfg, 0),
            modulus <= 0x1_0000_0000,
        decreases n - k,
    {
        let d = monkeys[k].test_divisor;
        proof {
            assert(cfg[k as int] == (
                monkeys@[k as int].operation,
                monkeys@[k as int].test_divisor as int,
                monkeys@[k as int].true_target as int,
                monkeys@[k as int].false_target as int,
            ));
            assert(divisor_product(cfg, k as int) == d * divisor_product(cfg, k + 1));
            lemma_divprod_pos(cfg, k + 1);
            assert((modulus * d) * divisor_product(cfg, k + 1) == divisor_product(cfg, 0))
                by (nonlinear_arith)
                requires
                    modulus * divisor_product(cfg, k as int) == divisor_product(cfg, 0),
                    divisor_product(cfg, k as int) == d * divisor_product(cfg, k + 1),
            ;
            assert(modulus * d <= 0x1_0000_0000 && modulus * d >= 1) by (nonlinear_arith)
                requires
                    (modulus * d) * divisor_product(cfg, k + 1) == divisor_product(cfg, 0),
                    divisor_product(cfg, k + 1) >= 1,
                    divisor_product(cfg, 0) <= 0x1_0000_0000,
                    modulus >= 1,
                    d >= 1,
            ;
        }
        modulus = modulus * d;
        k += 1;
    }
    proof {
        assert(divisor_product(cfg, n as int) == 1);
        assert(modulus * 1 == modulus) by (nonlinear_arith);
        assert(modulus == divisor_product(cfg, 0));
    }
    let mut i: usize = 0;
    while i < n
        invariant
            cfg == lift_cfg(old(monkeys)@),
            cfg_wf(cfg),
            st0 == lift_state(old(monkeys)@),
            goal == spec_round(cfg, st0, decrease_worry_level),
            forall|k2: int| 0 <= k2 < n ==> (#[trigger] goal[k2]).1 <= u64::MAX,
            0 <= i <= n,
            monkeys@.len() == n,
            n == cfg.len(),
            modulus == divisor_product(cfg, 0),
            1 <= modulus <= 0x1_0000_0000,
            lift_cfg(monkeys@) == cfg,
            forall|k2: int|
                0 <= k2 < n ==> (#[trigger] monkeys@[k2]).id == old(monkeys)@[k2].id,
            state_ok(cfg, lift_state(monkeys@)),
            run_round(cfg, lift_state(monkeys@), i as int, modulus as int, decrease_worry_level)
                == goal,
        decreases n - i,
    {
        loop
            invariant
                cfg == lift_cfg(old(monkeys)@),
                cfg_wf(cfg),
                st0 == lift_state(old(monkeys)@),
                goal == spec_round(cfg, st0, decrease_worry_level),
                forall|k2: int| 0 <= k2 < n ==> (#[trigger] goal[k2]).1 <= u64::MAX,
                0 <= i < n,
                monkeys@.len() == n,
                n == cfg.len(),
                modulus == divisor_product(cfg, 0),
                1 <= modulus <= 0x1_0000_0000,
                lift_cfg(monkeys@) == cfg,
                forall|k2: int|
                    0 <= k2 < n ==> (#[trigger] monkeys@[k2]).id == old(monkeys)@[k2].id,
                state_ok(cfg, lift_state(monkeys@)),
                run_round(
                    cfg,
                    process_monkey(
                        cfg,
                        lift_state(monkeys@),
                        i as int,
                        modulus as int,
                        decrease_worry_level,
                    ),
                    i + 1,
                    modulus as int,
                    decrease_worry_level,
                ) == goal,
            ensures
                monkeys@[i as int].items@.len() == 0,
            decreases monkeys@[i as int].items@.len(),
        {
            let ghost cur = lift_state(monkeys@);
            proof {
                if monkeys@[i as int].items@.len() > 0 {
                    assert(cur[i as int] == (
                        monkeys@[i as int].items@.map_values(|x: u64| x as int),
                        monkeys@[i as int].item_count as int,
                    ));
                    assert(cur[i as int].0.len() > 0);
                    let t1 = throw_one(cfg, cur, i as int, modulus as int, decrease_worry_level);
                    lemma_throw_one_ok(cfg, cur, i as int, modulus as int, decrease_worry_level);
                    let (w, t) = inspect(
                        cfg,
                        i as int,
                        cur[i as int].0[0],
                        modulus as int,
                        decrease_worry_level,
                    );
                    assert(0 <= t < n && t != i);
                    assert(process_monkey(cfg, cur, i as int, modulus as int,
                        decrease_worry_level) == process_monkey(
                        cfg,
                        t1,
                        i as int,
                        modulus as int,
                        decrease_worry_level,
                    ));
                    lemma_process_ok(cfg, t1, i as int, modulus as int, decrease_worry_level);
                    lemma_run_round_ok(
                        cfg,
                        process_monkey(cfg, cur, i as int, modulus as int, decrease_worry_level),
                        i + 1,
                        modulus as int,
                        decrease_worry_level,
                    );
                    assert(t1[i as int].1 == cur[i as int].1 + 1);
                    assert(cur[i as int].1 + 1 <= goal[i as int].1);
                    assert(goal[i as int].1 <= u64::MAX);
                    assert(cur[i as int].0[0] == monkeys@[i as int].items@[0] as int);
                }
            }
            let r = monkeys[i].throw(&modulus, decrease_worry_level);
            match r {
                None => {
                    proof {
                        assert(lift_state(monkeys@) =~= cur);
                    }
                    break ;
                },
                Some((item, target)) => {
                    proof {
                        let (w, t) = inspect(
                            cfg,
                            i as int,
                            cur[i as int].0[0],
                            modulus as int,
                            decrease_worry_level,
                        );
                        assert(t == target as int);
                        assert(t != i && 0 <= t < n);
                        assert(target != i && target < n);
                    }
                    let tu = target as usize;
                    let ghost mid = monkeys@;
                    monkeys[tu].items.push(item);
                    proof {
                        let (w, t) = inspect(
                            cfg,
                            i as int,
                            cur[i as int].0[0],
                            modulus as int,
                            decrease_worry_level,
                        );
                        let t1 = throw_one(cfg, cur, i as int, modulus as int,
                            decrease_worry_level);
                        let st1 = cur.update(i as int, (cur[i as int].0.skip(1), cur[i as int].1
                            + 1));
                        assert forall|k2: int| 0 <= k2 < n implies lift_state(monkeys@)[k2] == t1[
                        k2] by {
                            if k2 == i {
                                assert(monkeys@[k2] == mid[k2]);
                                let curi = cur[k2];
                                assert(mid[k2].items@.map_values(|x: u64| x as int)
                                    =~= curi.0.skip(1));
                                assert(mid[k2].item_count == cur[k2].1 + 1);
                            } else if k2 == t {
                                assert(monkeys@[k2].items@ =~= mid[k2].items@.push(item));
                                assert(monkeys@[k2].items@.map_values(|x: u64| x as int)
                                    =~= mid[k2].items@.map_values(|x: u64| x as int).push(
                                    w,
                                ));
                            } else {
                                assert(monkeys@[k2] == mid[k2]);
                            }
                        }
                        assert(lift_state(monkeys@) =~= t1);
                        assert(lift_cfg(monkeys@) =~= cfg);
                        lemma_throw_one_ok(
                            cfg,
                            cur,
                            i as int,
                            modulus as int,
                            decrease_worry_level,
                        );
                    }
                },
            }
        }
        proof {
            assert(process_monkey(
                cfg,
                lift_state(monkeys@),
                i as int,
                modulus as int,
                decrease_worry_level,
            ) == lift_state(monkeys@));
        }
        i += 1;
    }
    proof {
        assert(run_round(cfg, lift_state(monkeys@), n as int, modulus as int,
            decrease_worry_level) == lift_state(monkeys@));
    }
}

/// Relies on `itertools::Itertools::sorted`: the elements come back in
/// ascending order, the collection unchanged.
#[verifier::external_body]
fn sorted_u64(v: Vec<u64>) -> (r: Vec<u64>)
    ensures
        r@.to_multiset() == v@.to_multiset(),
        r@.len() == v@.len(),
        forall|i: int, j: int| 0 <= i <= j < r@.len() ==> r@[i] <= r@[j],
{
    v.into_iter().sorted().collect()
}

/// The lifted view of a count list.
pub open spec fn lift64(s: Seq<u64>) -> Seq<int> {
    s.map_values(|x: u64| x as int)
}

proof fn lemma_lift_count(s: Seq<u64>, x: int)
    ensures
        lift64(s).to_multiset().count(x) == (if 0 <= x <= u64::MAX {
            s.to_multiset().count(x as u64) as int
        } else {
            0int
        }),
    decreases s.len(),
{
    s.to_multiset_ensures();
    lift64(s).to_multiset_ensures();
    if s.len() == 0 {
        assert(!s.contains(x as u64));
        assert(!lift64(s).contains(x));
        if s.to_multiset().count(x as u64) > 0 {
            assert(s.contains(x as u64));
        }
        if lift64(s).to_multiset().count(x) > 0 {
            assert(lift64(s).contains(x));
        }
    } else {
        let d = s.drop_last();
        let l = s.last();
        lemma_lift_count(d, x);
        d.to_multiset_ensures();
        lift64(d).to_multiset_ensures();
        assert(s =~= d.push(l));
        assert(lift64(s) =~= lift64(d).push(l as int));
        assert(d.push(l).to_multiset() =~= d.to_multiset().insert(l));
        assert(lift64(d).push(l as int).to_multiset() =~= lift64(d).to_multiset().insert(
            l as int,
        ));
    }
}

proof fn lemma_lift_multiset_eq(a: Seq<u64>, b: Seq<u64>)
    requires
        a.to_multiset() == b.to_multiset(),
    ensures
        lift64(a).to_multiset() == lift64(b).to_multiset(),
{
    assert forall|x: int| true implies lift64(a).to_multiset().count(x) == lift64(
        b,
    ).to_multiset().count(x) by {
        lemma_lift_count(a, x);
        lemma_lift_count(b, x);
    }
    assert(lift64(a).to_multiset() =~= lift64(b).to_multiset());
}

proof fn lemma_run_rounds_compose(
    cfg: Seq<(Operation, int, int, int)>,
    st: Seq<(Seq<int>, int)>,
    a: int,
    b: int,
    dec: bool,
)
    requires
        a >= 0,
        b >= 0,
    ensures
        run_rounds(cfg, st, a + b, dec) == run_rounds(cfg, run_rounds(cfg, st, a, dec), b, dec),
    decreases a,
{
    if a > 0 {
        lemma_run_rounds_compose(cfg, spec_round(cfg, st, dec), a - 1, b, dec);
    }
}

/// The inspection counts of a state.
pub open spec fn counts_of(st: Seq<(Seq<int>, int)>) -> Seq<int> {
    st.map_values(|p: (Seq<int>, int)| p.1)
}

/// Plays the given number of rounds and multiplies the two largest
/// inspection counts.
#[verifier::loop_isolation(false)]
#[verifier::rlimit(60)]
pub fn monkey_business(input: &str, rounds: u32, decrease_worry_level: bool) -> (r: u64)
    requires
        blocks_ok(crate::packets::nonblank(spec_lines(input.spec_bytes()))),
        cfg_wf(parsed_cfg(crate::packets::nonblank(spec_lines(input.spec_bytes())))),
        state_ok(
            parsed_cfg(crate::packets::nonblank(spec_lines(input.spec_bytes()))),
            parsed_state(crate::packets::nonblank(spec_lines(input.spec_bytes()))),
        ),
        ({
            let nb = crate::packets::nonblank(spec_lines(input.spec_bytes()));
            let fin = run_rounds(
                parsed_cfg(nb),
                parsed_state(nb),
                rounds as int,
                decrease_worry_level,
            );
            &&& forall|k: int| 0 <= k < fin.len() ==> 0 <= (#[trigger] fin[k]).1 <= u64::MAX
            &&& forall|k1: int, k2: int|
                0 <= k1 < fin.len() && 0 <= k2 < fin.len() ==> (#[trigger] fin[k1].1) * (
                #[trigger] fin[k2].1) <= u64::MAX
        }),
    ensures
        ({
            let nb = crate::packets::nonblank(spec_lines(input.spec_bytes()));
            let fin = run_rounds(
                parsed_cfg(nb),
                parsed_state(nb),
                rounds as int,
                decrease_worry_level,
            );
            exists|t: Seq<int>|
                {
                    &&& t.to_multiset() == counts_of(fin).to_multiset()
                    &&& t.len() == fin.len()
                    &&& (forall|i: int, j: int| 0 <= i <= j < t.len() ==> t[i] <= t[j])
                    &&& r == (if t.len() == 0 {
                        1int
                    } else if t.len() == 1 {
                        t[0]
                    } else {
                        t[t.len() - 1] * t[t.len() - 2]
                    })
                }
        }),
{
    let ghost nb = crate::packets::nonblank(spec_lines(input.spec_bytes()));
    let ghost cfg = parsed_cfg(nb);
    let ghost st0 = parsed_state(nb);
    let ghost fin = run_rounds(cfg, st0, rounds as int, decrease_worry_level);
    let mut monkeys = parse_monkeys(input);
    let mut rd: u32 = 0;
    while rd < rounds
        invariant
            0 <= rd <= rounds,
            lift_cfg(monkeys@) == cfg,
            monkeys@.len() == cfg.len(),
            state_ok(cfg, lift_state(monkeys@)),
            lift_state(monkeys@) == run_rounds(cfg, st0, rd as int, decrease_worry_level),
        decreases rounds - rd,
    {
        proof {
            lemma_run_rounds_compose(cfg, st0, rd as int, 1, decrease_worry_level);
            assert(run_rounds(cfg, st0, rd + 1, decrease_worry_level) == spec_round(
                cfg,
                lift_state(monkeys@),
                decrease_worry_level,
            )) by {
                assert(run_rounds(cfg, st0, rd as int + 1, decrease_worry_level) == run_rounds(
                    cfg,
                    run_rounds(cfg, st0, rd as int, decrease_worry_level),
                    1,
                    decrease_worry_level,
                ));
                let mid = spec_round(cfg, lift_state(monkeys@), decrease_worry_level);
                assert(run_rounds(cfg, lift_state(monkeys@), 1, decrease_worry_level)
                    == run_rounds(cfg, mid, 0, decrease_worry_level));
                assert(run_rounds(cfg, mid, 0, decrease_worry_level) == mid);
            }
            lemma_run_rounds_compose(
                cfg,
                st0,
                rd + 1,
                rounds - rd - 1,
                decrease_worry_level,
            );
            lemma_divprod_pos(cfg, 0);
            lemma_run_round_ok(
                cfg,
                lift_state(monkeys@),
                0,
                divisor_product(cfg, 0),
                decrease_worry_level,
            );
            lemma_run_rounds_ok(
                cfg,
                run_rounds(cfg, st0, rd + 1, decrease_worry_level),
                rounds - rd - 1,
                decrease_worry_level,
            );
        }
        round(&mut monkeys, decrease_worry_level);
        rd += 1;
    }
    let n = monkeys.len();
    let mut counts: Vec<u64> = Vec::new();
    let mut k: usize = 0;
    while k < n
        invariant
            0 <= k <= n,
            n == monkeys@.len(),
            counts@.len() == k,
            forall|j: int| 0 <= j < k ==> counts@[j] == monkeys@[j].item_count,
        decreases n - k,
    {
        counts.push(monkeys[k].item_count);
        k += 1;
    }
    proof {
        assert(lift64(counts@) =~= counts_of(fin));
    }
    let sorted = sorted_u64(counts);
    proof {
        lemma_lift_multiset_eq(sorted@, counts@);
    }
    if n == 0 {
        proof {
            let t = lift64(sorted@);
            assert(t.to_multiset() == counts_of(fin).to_multiset());
            assert(t.len() == 0);
        }
        return 1;
    }
    if n == 1 {
        let r = sorted[0];
        proof {
            let t = lift64(sorted@);
            assert(t[0] == sorted@[0] as int);
        }
        return r;
    }
    let a = sorted[n - 1];
    let b = sorted[n - 2];
    proof {
        sorted@.to_multiset_ensures();
        counts@.to_multiset_ensures();
        assert(sorted@.contains(a)) by {
            assert(sorted@[n - 1] == a);
        }
        assert(sorted@.contains(b)) by {
            assert(sorted@[n - 2] == b);
        }
        assert(counts@.to_multiset().count(a) > 0);
        assert(counts@.contains(a));
        assert(counts@.to_multiset().count(b) > 0);
        assert(counts@.contains(b));
        let ka = choose|ka: int| 0 <= ka < counts@.len() && counts@[ka] == a;
        let kb = choose|kb: int| 0 <= kb < counts@.len() && counts@[kb] == b;
        assert(a as int == fin[ka].1);
        assert(b as int == fin[kb].1);
        assert(fin[ka].1 * fin[kb].1 <= u64::MAX);
        let t = lift64(sorted@);
        assert(t[t.len() - 1] == a as int && t[t.len() - 2] == b as int);
    }
    a * b
}

} // verus!
