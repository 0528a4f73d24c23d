//! Rope simulation on a grid.
//!
//! A rope of knots starts at the origin. Each instruction moves the
//! head one unit at a time in one of four directions; every following
//! knot trails the one before it, stepping diagonally when it falls
//! two behind. The queries count the distinct cells the last knot
//! visits.
use vstd::prelude::*;
use vstd::string::StringSliceAdditionalSpecFns;

use crate::text::all_digits;
use crate::text::dec_value;
use crate::text::parse_u64;
use crate::text::spec_lines;
use crate::text::spec_trim;
use crate::text::split_lines;
use crate::text::trim_bytes;
use crate::text::views_of;

verus! {

/// A direction byte: 'R', 'U', 'D' or 'L'.
pub open spec fn dir_ok(b: u8) -> bool {
    b == 82 || b == 85 || b == 68 || b == 76
}

/// The unit step of a direction byte.
pub open spec fn dir_vec(b: u8) -> (int, int) {
    if b == 82 {
        (1, 0)
    } else if b == 85 {
        (0, 1)
    } else if b == 68 {
        (0, -1)
    } else {
        (-1, 0)
    }
}

/// The sign of `x`.
pub open spec fn sgn(x: int) -> int {
    if x > 0 {
        1
    } else if x < 0 {
        -1
    } else {
        0
    }
}

/// Where a trailing knot moves when the knot before it stands at `h`:
/// it stays while touching `h`, else it steps one unit towards it,
/// diagonally when needed.
pub open spec fn follow(h: (int, int), t: (int, int)) -> (int, int) {
    let dx = h.0 - t.0;
    let dy = h.1 - t.1;
    if -1 <= dx <= 1 && -1 <= dy <= 1 {
        t
    } else {
        (t.0 + sgn(dx), t.1 + sgn(dy))
    }
}

/// The positions of the knots after `rest`, each trailing the knot
/// before it, the first trailing `prev`.
pub open spec fn chain_upd(prev: (int, int), rest: Seq<(int, int)>) -> Seq<(int, int)>
    decreases rest.len(),
{
    if rest.len() == 0 {
        Seq::empty()
    } else {
        let t = follow(prev, rest[0]);
        seq![t] + chain_upd(t, rest.skip(1))
    }
}

pub proof fn lemma_chain_upd(prev: (int, int), rest: Seq<(int, int)>)
    ensures
        chain_upd(prev, rest).len() == rest.len(),
        forall|j: int|
            0 < j < rest.len() ==> #[trigger] chain_upd(prev, rest)[j] == follow(
                chain_upd(prev, rest)[j - 1],
                rest[j],
            ),
        rest.len() > 0 ==> chain_upd(prev, rest)[0] == follow(prev, rest[0]),
    decreases rest.len(),
{
    if rest.len() > 0 {
        let t = follow(prev, rest[0]);
        lemma_chain_upd(t, rest.skip(1));
        assert forall|j: int| 0 < j < rest.len() implies #[trigger] chain_upd(prev, rest)[j]
            == follow(chain_upd(prev, rest)[j - 1], rest[j]) by {
            assert(chain_upd(prev, rest)[j] == chain_upd(t, rest.skip(1))[j - 1]);
            assert(rest.skip(1)[j - 1] == rest[j]);
            if j > 1 {
                assert(chain_upd(prev, rest)[j - 1] == chain_upd(t, rest.skip(1))[j - 2]);
            }
        }
    }
}

/// The whole rope after the head takes one unit step `d`.
pub open spec fn step_rope(knots: Seq<(int, int)>, d: (int, int)) -> Seq<(int, int)> {
    let h = (knots[0].0 + d.0, knots[0].1 + d.1);
    seq![h] + chain_upd(h, knots.skip(1))
}

/// The rope and the visited set after `cnt` unit steps `d`.
pub open spec fn run_steps(
    knots: Seq<(int, int)>,
    d: (int, int),
    cnt: int,
    vis: Set<(int, int)>,
) -> (Seq<(int, int)>, Set<(int, int)>)
    decreases cnt,
{
    if cnt <= 0 {
        (knots, vis)
    } else {
        let k2 = step_rope(knots, d);
        run_steps(k2, d, cnt - 1, vis.insert(k2.last()))
    }
}

/// The rope and the visited set after all the moves.
pub open spec fn run_moves(
    knots: Seq<(int, int)>,
    moves: Seq<(u8, int)>,
    vis: Set<(int, int)>,
) -> (Seq<(int, int)>, Set<(int, int)>)
    decreases moves.len(),
{
    if moves.len() == 0 {
        (knots, vis)
    } else {
        let s = run_steps(knots, dir_vec(moves[0].0), moves[0].1, vis);
        run_moves(s.0, moves.skip(1), s.1)
    }
}

/// A rope of `n` knots, all at the origin.
pub open spec fn rope_init(n: int) -> Seq<(int, int)> {
    Seq::new(n as nat, |i: int| (0int, 0int))
}

/// How many distinct cells the last knot of an `n`-knot rope visits,
/// the origin included.
pub open spec fn visited_count(moves: Seq<(u8, int)>, n: int) -> int {
    run_moves(rope_init(n), moves, Set::empty().insert((0int, 0int))).1.len() as int
}

/// The moves the lines spell: lines blank after trimming are skipped;
/// any other line holds a direction byte, one separator byte (of any
/// value), and a step count.
pub open spec fn moves_of(ls: Seq<Seq<u8>>) -> Seq<(u8, int)>
    decreases ls.len(),
{
    if ls.len() == 0 {
        Seq::empty()
    } else {
        let t = spec_trim(ls[0]);
        if t.len() == 0 {
            moves_of(ls.skip(1))
        } else {
            seq![(t[0], dec_value(t.skip(2)))] + moves_of(ls.skip(1))
        }
    }
}

/// A line is blank after trimming or spells a move: a direction
/// byte, one separator byte the reader never looks at, then the step
/// count from the third byte on.
pub open spec fn move_line_ok(l: Seq<u8>) -> bool {
    let t = spec_trim(l);
    t.len() == 0 || (t.len() >= 3 && dir_ok(t[0]) && all_digits(t.skip(2)) && dec_value(t.skip(2))
        <= u64::MAX)
}

/// Sum of the step counts.
pub open spec fn total_steps(moves: Seq<(u8, int)>) -> int
    decreases moves.len(),
{
    if moves.len() == 0 {
        0
    } else {
        moves[0].1 + total_steps(moves.skip(1))
    }
}

proof fn lemma_moves_nonneg(ls: Seq<Seq<u8>>)
    requires
        forall|i: int| 0 <= i < ls.len() ==> move_line_ok(#[trigger] ls[i]),
    ensures
        forall|i: int| 0 <= i < moves_of(ls).len() ==> (#[trigger] moves_of(ls)[i]).1 >= 0,
    decreases ls.len(),
{
    if ls.len() > 0 {
        assert forall|i: int| 0 <= i < ls.skip(1).len() implies move_line_ok(
            #[trigger] ls.skip(1)[i],
        ) by {
            assert(ls.skip(1)[i] == ls[i + 1]);
        }
        lemma_moves_nonneg(ls.skip(1));
        let t = spec_trim(ls[0]);
        if t.len() != 0 {
            crate::text::lemma_dec_value_nonneg(t.skip(2));
            assert forall|i: int| 0 <= i < moves_of(ls).len() implies (#[trigger] moves_of(
                ls,
            )[i]).1 >= 0 by {
                if i > 0 {
                    assert(moves_of(ls)[i] == moves_of(ls.skip(1))[i - 1]);
                }
            }
        }
    }
}

proof fn lemma_total_steps_nonneg(moves: Seq<(u8, int)>)
    requires
        forall|i: int| 0 <= i < moves.len() ==> (#[trigger] moves[i]).1 >= 0,
    ensures
        total_steps(moves) >= 0,
    decreases moves.len(),
{
    if moves.len() > 0 {
        assert forall|i: int| 0 <= i < moves.skip(1).len() implies (#[trigger] moves.skip(
            1,
        )[i]).1 >= 0 by {
            assert(moves.skip(1)[i] == moves[i + 1]);
        }
        lemma_total_steps_nonneg(moves.skip(1));
    }
}

/// Where the trailing knot stands after the knot before it moved to
/// `head`.
pub fn new_knot_position(head: &(i32, i32), tail: &(i32, i32)) -> (r: (i32, i32))
    requires
        -2 <= head.0 - tail.0 <= 2,
        -2 <= head.1 - tail.1 <= 2,
    ensures
        (r.0 as int, r.1 as int) == follow((head.0 as int, head.1 as int), (
            tail.0 as int,
            tail.1 as int,
        )),
{
    let dx = head.0 - tail.0;
    let dy = head.1 - tail.1;
    if -1 <= dx && dx <= 1 && -1 <= dy && dy <= 1 {
        (tail.0, tail.1)
    } else {
        let sx: i32 = if dx > 0 {
            1
        } else if dx < 0 {
            -1
        } else {
            0
        };
        let sy: i32 = if dy > 0 {
            1
        } else if dy < 0 {
            -1
        } else {
            0
        };
        (tail.0 + sx, tail.1 + sy)
    }
}

/// The lifted view of an exec rope.
pub open spec fn lift(s: Seq<(i64, i64)>) -> Seq<(int, int)> {
    s.map_values(|p: (i64, i64)| (p.0 as int, p.1 as int))
}

/// The lifted view of exec moves.
pub open spec fn lift_moves(s: Seq<(u8, u64)>) -> Seq<(u8, int)> {
    s.map_values(|m: (u8, u64)| (m.0, m.1 as int))
}

/// Reads the move list of the input.
fn parse_moves(input: &str) -> (r: Vec<(u8, u64)>)
    requires
        forall|i: int|
            0 <= i < spec_lines(input.spec_bytes()).len() ==> move_line_ok(
                #[trigger] spec_lines(input.spec_bytes())[i],
            ),
    ensures
        lift_moves(r@) == moves_of(spec_lines(input.spec_bytes())),
        forall|i: int| 0 <= i < r@.len() ==> dir_ok((#[trigger] r@[i]).0),
{
    let ghost s = input.spec_bytes();
    let ghost ls = spec_lines(s);
    let lines = split_lines(input.as_bytes());
    let n = lines.len();
    let mut r: Vec<(u8, u64)> = Vec::new();
    let mut i: usize = 0;
    proof {
        assert(ls.skip(0) =~= ls);
        assert(lift_moves(r@) =~= Seq::<(u8, int)>::empty());
    }
    while i < n
        invariant
            s == input.spec_bytes(),
            ls == spec_lines(s),
            views_of(lines@) == ls,
            n == ls.len(),
            n == lines@.len(),
            0 <= i <= n,
            forall|k: int| 0 <= k < ls.len() ==> move_line_ok(#[trigger] ls[k]),
            lift_moves(r@) + moves_of(ls.skip(i as int)) == moves_of(ls),
            forall|k: int| 0 <= k < r@.len() ==> dir_ok((#[trigger] r@[k]).0),
        decreases n - i,
    {
        proof {
            assert(ls[i as int] == lines@[i as int]@);
            assert(ls.skip(i as int)[0] == ls[i as int]);
            assert(ls.skip(i as int).skip(1) =~= ls.skip(i + 1));
        }
        let t = trim_bytes(lines[i].as_slice());
        if t.len() > 0 {
            let d = t[0];
            let num = vstd::slice::slice_subrange(t.as_slice(), 2, t.len());
            proof {
                assert(num@ =~= spec_trim(ls[i as int]).skip(2));
            }
            let v = match parse_u64(num) {
                Some(v) => v,
                None => vstd::pervasive::unreached(),
            };
            r.push((d, v));
            proof {
                assert(lift_moves(r@) =~= lift_moves(r@.drop_last()) + seq![
                    (d, v as int),
                ]);
            }
        }
        i += 1;
    }
    proof {
        assert(ls.skip(n as int) =~= Seq::<Seq<u8>>::empty());
        assert(lift_moves(r@) + moves_of(ls.skip(n as int)) =~= lift_moves(r@));
    }
    r
}

/// One unit head step: the head moves by (sx, sy) and every knot
/// trails the one before it.
fn rope_step(knots: &mut Vec<(i64, i64)>, sx: i64, sy: i64, Ghost(bound): Ghost<int>)
    requires
        old(knots)@.len() >= 1,
        -1 <= sx <= 1,
        -1 <= sy <= 1,
        0 <= bound <= 0x1000_0000_0000_0000,
        forall|k: int|
            0 <= k < old(knots)@.len() ==> -bound <= (#[trigger] old(knots)@[k]).0 <= bound
                && -bound <= old(knots)@[k].1 <= bound,
    ensures
        final(knots)@.len() == old(knots)@.len(),
        lift(final(knots)@) == step_rope(lift(old(knots)@), (sx as int, sy as int)),
        forall|k: int|
            0 <= k < final(knots)@.len() ==> -bound - 1 <= (#[trigger] final(knots)@[k]).0 <= bound
                + 1 && -bound - 1 <= final(knots)@[k].1 <= bound + 1,
{
    let ghost old_l = lift(old(knots)@);
    let n = knots.len();
    let h0 = knots[0];
    proof {
        assert(old_l[0] == (h0.0 as int, h0.1 as int));
    }
    let head = (h0.0 + sx, h0.1 + sy);
    knots.set(0, head);
    let ghost expected = step_rope(old_l, (sx as int, sy as int));
    proof {
        lemma_chain_upd((head.0 as int, head.1 as int), old_l.skip(1));
        assert(expected.len() == n);
        assert(expected[0] == (head.0 as int, head.1 as int));
        assert forall|jj: int| 0 < jj < n implies #[trigger] expected[jj] == follow(
            expected[jj - 1],
            old_l[jj],
        ) by {
            let ch = chain_upd((head.0 as int, head.1 as int), old_l.skip(1));
            assert(expected[jj] == ch[jj - 1]);
            assert(old_l.skip(1)[jj - 1] == old_l[jj]);
            if jj > 1 {
                assert(expected[jj - 1] == ch[jj - 2]);
            }
        }
        assert forall|k: int| 0 <= k < n implies lift(knots@)[k] == (
        if k == 0 {
            expected[0]
        } else {
            old_l[k]
        }) by {}
    }
    let mut ki: usize = 1;
    while ki < n
        invariant
            1 <= ki <= n,
            knots@.len() == n,
            old_l.len() == n,
            expected.len() == n,
            expected[0] == (head.0 as int, head.1 as int),
            forall|jj: int|
                0 < jj < n ==> #[trigger] expected[jj] == follow(expected[jj - 1], old_l[jj]),
            forall|k: int|
                0 <= k < n ==> -bound <= (#[trigger] old_l[k]).0 <= bound && -bound <= old_l[k].1
                    <= bound,
            -bound - 1 <= expected[0].0 <= bound + 1,
            -bound - 1 <= expected[0].1 <= bound + 1,
            0 <= bound <= 0x1000_0000_0000_0000,
            forall|k: int|
                0 <= k < n ==> lift(knots@)[k] == (if k < ki {
                    expected[k]
                } else {
                    old_l[k]
                }),
        decreases n - ki,
    {
        let prev = knots[ki - 1];
        let cur = knots[ki];
        proof {
            assert(lift(knots@)[ki - 1] == expected[ki - 1]);
            assert(lift(knots@)[ki as int] == old_l[ki as int]);
            assert(expected[ki as int] == follow(expected[ki - 1], old_l[ki as int]));
            assert(-bound - 1 <= expected[ki - 1].0 <= bound + 1) by {
                if ki > 1 {
                    assert(expected[ki - 1] == follow(expected[ki - 2], old_l[ki - 1]));
                }
            }
            assert(-bound - 1 <= expected[ki - 1].1 <= bound + 1) by {
                if ki > 1 {
                    assert(expected[ki - 1] == follow(expected[ki - 2], old_l[ki - 1]));
                }
            }
        }
        let dx = prev.0 - cur.0;
        let dy = prev.1 - cur.1;
        let nk = if -1 <= dx && dx <= 1 && -1 <= dy && dy <= 1 {
            cur
        } else {
            let gx: i64 = if dx > 0 {
                1
            } else if dx < 0 {
                -1
            } else {
                0
            };
            let gy: i64 = if dy > 0 {
                1
            } else if dy < 0 {
                -1
            } else {
                0
            };
            (cur.0 + gx, cur.1 + gy)
        };
        let ghost before = knots@;
        knots.set(ki, nk);
        proof {
            assert((nk.0 as int, nk.1 as int) == expected[ki as int]);
            assert forall|k: int| 0 <= k < n implies lift(knots@)[k] == (if k < ki + 1 {
                expected[k]
            } else {
                old_l[k]
            }) by {
                if k == ki {
                    assert(knots@[k] == nk);
                } else {
                    assert(knots@[k] == before[k]);
                    assert(lift(before)[k] == (before[k].0 as int, before[k].1 as int));
                }
            }
        }
        ki += 1;
    }
    proof {
        assert(lift(knots@) =~= expected);
        assert forall|k: int| 0 <= k < n implies -bound - 1 <= (#[trigger] knots@[k]).0 <= bound
            + 1 && -bound - 1 <= knots@[k].1 <= bound + 1 by {
            assert(lift(knots@)[k] == expected[k]);
            if k > 0 {
                assert(expected[k] == follow(expected[k - 1], old_l[k]));
            }
        }
    }
}

/// Has this cell been recorded?
fn seen_point(v: &Vec<(i64, i64)>, p: (i64, i64)) -> (r: bool)
    ensures
        r == lift(v@).contains((p.0 as int, p.1 as int)),
{
    let n = v.len();
    let mut i: usize = 0;
    while i < n
        invariant
            n == v@.len(),
            0 <= i <= n,
            forall|t: int| 0 <= t < i ==> lift(v@)[t] != (p.0 as int, p.1 as int),
        decreases n - i,
    {
        if v[i].0 == p.0 && v[i].1 == p.1 {
            proof {
                assert(lift(v@)[i as int] == (p.0 as int, p.1 as int));
            }
            return true;
        }
        proof {
            assert(lift(v@)[i as int] == (v@[i as int].0 as int, v@[i as int].1 as int));
        }
        i += 1;
    }
    proof {
        assert forall|t: int| 0 <= t < lift(v@).len() implies lift(v@)[t] != (
        p.0 as int,
        p.1 as int,
        ) by {}
    }
    false
}

/// Runs the rope and counts the distinct cells its last knot visits.
#[verifier::rlimit(60)]
fn simulate(moves: &Vec<(u8, u64)>, knot_count: usize) -> (r: usize)
    requires
        knot_count >= 1,
        forall|i: int| 0 <= i < moves@.len() ==> dir_ok((#[trigger] moves@[i]).0),
        total_steps(lift_moves(moves@)) <= 0x1000_0000_0000_0000,
        total_steps(lift_moves(moves@)) + 1 <= usize::MAX,
    ensures
        r == visited_count(lift_moves(moves@), knot_count as int),
{
    let ghost ms = lift_moves(moves@);
    let ghost origin_set = Set::empty().insert((0int, 0int));
    let ghost goal = run_moves(rope_init(knot_count as int), ms, origin_set);
    let mut knots: Vec<(i64, i64)> = Vec::new();
    let mut j: usize = 0;
    while j < knot_count
        invariant
            0 <= j <= knot_count,
            knots@.len() == j,
            forall|k: int| 0 <= k < j ==> knots@[k] == (0i64, 0i64),
        decreases knot_count - j,
    {
        knots.push((0, 0));
        j += 1;
    }
    proof {
        assert(lift(knots@) =~= rope_init(knot_count as int));
    }
    let mut visited: Vec<(i64, i64)> = Vec::new();
    visited.push((0, 0));
    let ghost vis = origin_set;
    proof {
        assert(vis.finite());
        assert(vis.len() == 1);
        assert(lift(visited@)[0] == (0int, 0int));
        assert forall|p: (int, int)| vis.contains(p) implies lift(visited@).contains(p) by {
            assert(lift(visited@)[0] == (0int, 0int));
        }
        assert forall|p: (int, int)| lift(visited@).contains(p) implies vis.contains(p) by {
            let t = choose|t: int| 0 <= t < lift(visited@).len() && lift(visited@)[t] == p;
            assert(t == 0);
        }
        lemma_moves_nonneg_from_dirs(moves@);
        assert(ms.skip(0) =~= ms);
        lemma_total_steps_tail_nonneg(ms, 0);
    }
    let ghost total = total_steps(ms);
    let mut steps_done: u64 = 0;
    let mut m: usize = 0;
    while m < moves.len()
        invariant
            ms == lift_moves(moves@),
            origin_set == Set::empty().insert((0int, 0int)),
            goal == run_moves(rope_init(knot_count as int), ms, origin_set),
            total == total_steps(ms),
            total <= 0x1000_0000_0000_0000,
            total + 1 <= usize::MAX,
            forall|i: int| 0 <= i < ms.len() ==> (#[trigger] ms[i]).1 >= 0,
            forall|i: int| 0 <= i < moves@.len() ==> dir_ok((#[trigger] moves@[i]).0),
            ms.len() == moves@.len(),
            0 <= m <= moves@.len(),
            knots@.len() == knot_count >= 1,
            steps_done + total_steps(ms.skip(m as int)) == total,
            total_steps(ms.skip(m as int)) >= 0,
            forall|k: int|
                0 <= k < knot_count ==> -(steps_done as int) <= (#[trigger] knots@[k]).0
                    <= steps_done as int && -(steps_done as int) <= knots@[k].1
                    <= steps_done as int,
            vis.finite(),
            visited@.len() == vis.len(),
            forall|p: (int, int)| #[trigger] vis.contains(p) <==> lift(visited@).contains(p),
            run_moves(lift(knots@), ms.skip(m as int), vis) == goal,
        decreases moves@.len() - m,
    {
        let (d, cnt) = moves[m];
        let ghost dv = dir_vec(d);
        proof {
            assert(ms[m as int] == (d, cnt as int));
            assert(ms.skip(m as int)[0] == ms[m as int]);
            assert(ms.skip(m as int).skip(1) =~= ms.skip(m + 1));
            assert(total_steps(ms.skip(m as int)) == cnt + total_steps(ms.skip(m + 1)));
            lemma_total_steps_tail_nonneg(ms, m + 1);
        }
        let sx: i64 = if d == 82 {
            1
        } else if d == 76 {
            -1
        } else {
            0
        };
        let sy: i64 = if d == 85 {
            1
        } else if d == 68 {
            -1
        } else {
            0
        };
        proof {
            assert(dir_ok(d));
            assert(dv == (sx as int, sy as int));
        }
        let mut t: u64 = 0;
        while t < cnt
            invariant
                ms == lift_moves(moves@),
                origin_set == Set::empty().insert((0int, 0int)),
                goal == run_moves(rope_init(knot_count as int), ms, origin_set),
                total == total_steps(ms),
                total <= 0x1000_0000_0000_0000,
                total + 1 <= usize::MAX,
                0 <= m < ms.len(),
                ms[m as int] == (d, cnt as int),
                dv == dir_vec(d),
                dv == (sx as int, sy as int),
                -1 <= sx <= 1,
                -1 <= sy <= 1,
                0 <= t <= cnt,
                knots@.len() == knot_count >= 1,
                steps_done + (cnt - t) + total_steps(ms.skip(m + 1)) == total,
                total_steps(ms.skip(m + 1)) >= 0,
                forall|k: int|
                    0 <= k < knot_count ==> -(steps_done as int) <= (#[trigger] knots@[k]).0
                        <= steps_done as int && -(steps_done as int) <= knots@[k].1
                        <= steps_done as int,
                vis.finite(),
                visited@.len() == vis.len(),
                forall|p: (int, int)| #[trigger] vis.contains(p) <==> lift(visited@).contains(p),
                run_moves(run_steps(lift(knots@), dv, cnt - t, vis).0, ms.skip(m + 1), run_steps(
                    lift(knots@),
                    dv,
                    cnt - t,
                    vis,
                ).1) == goal,
            decreases cnt - t,
        {
            let ghost old_l = lift(knots@);
            rope_step(&mut knots, sx, sy, Ghost(steps_done as int));
            let tail = knots[knot_count - 1];
            let ghost tp = (tail.0 as int, tail.1 as int);
            proof {
                assert(lift(knots@)[knot_count - 1] == tp);
                assert(tp == lift(knots@).last());
                assert(run_steps(old_l, dv, cnt - t, vis) == run_steps(
                    lift(knots@),
                    dv,
                    cnt - t - 1,
                    vis.insert(tp),
                ));
            }
            let seen = seen_point(&visited, tail);
            let ghost vv = visited@;
            if !seen {
                visited.push(tail);
            }
            proof {
                let vis2 = vis.insert(tp);
                assert(vis2.finite());
                if seen {
                    assert(vis.contains(tp));
                    assert(vis2 =~= vis);
                } else {
                    assert(!vis.contains(tp));
                    assert(vis2.len() == vis.len() + 1);
                    assert(visited@ =~= vv.push(tail));
                    assert forall|p: (int, int)| #[trigger] vis2.contains(p) implies lift(
                        visited@,
                    ).contains(p) by {
                        if p == tp {
                            assert(lift(visited@)[visited@.len() - 1] == tp);
                        } else {
                            let tt = choose|tt: int|
                                0 <= tt < lift(vv).len() && lift(vv)[tt] == p;
                            assert(lift(visited@)[tt] == p);
                        }
                    }
                    assert forall|p: (int, int)| lift(visited@).contains(p) implies #[trigger] vis2.contains(
                        p,
                    ) by {
                        let tt = choose|tt: int|
                            0 <= tt < lift(visited@).len() && lift(visited@)[tt] == p;
                        if tt < vv.len() {
                            assert(lift(vv)[tt] == p);
                            assert(lift(vv).contains(p));
                        } else {
                            assert(lift(visited@)[tt] == tp);
                        }
                    }
                }
                vis = vis2;
            }
            steps_done = steps_done + 1;
            t += 1;
        }
        proof {
            assert(run_steps(lift(knots@), dv, 0, vis) == (lift(knots@), vis));
        }
        m += 1;
    }
    proof {
        assert(ms.skip(moves@.len() as int) =~= Seq::<(u8, int)>::empty());
        assert(run_moves(lift(knots@), ms.skip(moves@.len() as int), vis) == (
            lift(knots@),
            vis,
        ));
        assert(vis == goal.1);
    }
    visited.len()
}

proof fn lemma_moves_nonneg_from_dirs(moves: Seq<(u8, u64)>)
    ensures
        forall|i: int|
            0 <= i < lift_moves(moves).len() ==> (#[trigger] lift_moves(moves)[i]).1 >= 0,
{
}

proof fn lemma_total_steps_tail_nonneg(ms: Seq<(u8, int)>, from: int)
    requires
        forall|i: int| 0 <= i < ms.len() ==> (#[trigger] ms[i]).1 >= 0,
        0 <= from <= ms.len(),
    ensures
        total_steps(ms.skip(from)) >= 0,
{
    assert forall|i: int| 0 <= i < ms.skip(from).len() implies (#[trigger] ms.skip(from)[i]).1
        >= 0 by {
        assert(ms.skip(from)[i] == ms[from + i]);
    }
    lemma_total_steps_nonneg(ms.skip(from));
}

/// Distinct cells visited by the tail of a two-knot rope.
pub fn part1(input: &str) -> (r: usize)
    requires
        forall|i: int|
            0 <= i < spec_lines(input.spec_bytes()).len() ==> move_line_ok(
                #[trigger] spec_lines(input.spec_bytes())[i],
            ),
        total_steps(moves_of(spec_lines(input.spec_bytes()))) <= 0x1000_0000_0000_0000,
        total_steps(moves_of(spec_lines(input.spec_bytes()))) + 1 <= usize::MAX,
    ensures
        r == visited_count(moves_of(spec_lines(input.spec_bytes())), 2),
{
    let moves = parse_moves(input);
    simulate(&moves, 2)
}

/// Distinct cells visited by the last knot of a ten-knot rope.
pub fn part2(input: &str) -> (r: usize)
    requires
        forall|i: int|
            0 <= i < spec_lines(input.spec_bytes()).len() ==> move_line_ok(
                #[trigger] spec_lines(input.spec_bytes())[i],
            ),
        total_steps(moves_of(spec_lines(input.spec_bytes()))) <= 0x1000_0000_0000_0000,
        total_steps(moves_of(spec_lines(input.spec_bytes()))) + 1 <= usize::MAX,
    ensures
        r == visited_count(moves_of(spec_lines(input.spec_bytes())), 10),
{
    let moves = parse_moves(input);
    simulate(&moves, 10)
}

} // verus!
