//! Calorie counting.
//!
//! The input lists numbers, one per line; blank lines separate the
//! groups. One query finds the largest group total, the other the sum
//! of the three largest group totals.
use vstd::prelude::*;
use vstd::string::StringSliceAdditionalSpecFns;

use crate::text::all_digits;
use crate::text::dec_value;
use crate::text::parse_u32;
use crate::text::spec_lines;
use crate::text::split_lines;
use crate::text::views_of;

verus! {

/// Every line is blank or a decimal numeral that fits in `u32`.
pub open spec fn calorie_lines_ok(ls: Seq<Seq<u8>>) -> bool {
    forall|i: int|
        0 <= i < ls.len() ==> (#[trigger] ls[i]).len() == 0 || (all_digits(ls[i]) && dec_value(
            ls[i],
        ) <= u32::MAX)
}

/// The group totals of the lines, the group open so far summing to
/// `acc`; the still-open last group counts as well.
pub open spec fn group_sums(ls: Seq<Seq<u8>>, acc: int) -> Seq<int>
    decreases ls.len(),
{
    if ls.len() == 0 {
        seq![acc]
    } else if ls[0].len() == 0 {
        seq![acc] + group_sums(ls.skip(1), 0)
    } else {
        group_sums(ls.skip(1), acc + dec_value(ls[0]))
    }
}

/// The larger of two values.
pub open spec fn max2(a: int, b: int) -> int {
    if a >= b {
        a
    } else {
        b
    }
}

/// The largest element of a non-empty sequence.
pub open spec fn seq_max(s: Seq<int>) -> int
    decreases s.len(),
{
    if s.len() <= 1 {
        s[0]
    } else if s[0] >= seq_max(s.skip(1)) {
        s[0]
    } else {
        seq_max(s.skip(1))
    }
}

proof fn lemma_group_sums_first(ls: Seq<Seq<u8>>, acc: int)
    requires
        calorie_lines_ok(ls),
    ensures
        group_sums(ls, acc).len() >= 1,
        group_sums(ls, acc)[0] >= acc,
        seq_max(group_sums(ls, acc)) >= group_sums(ls, acc)[0],
    decreases ls.len(),
{
    if ls.len() == 0 {
    } else if ls[0].len() == 0 {
        assert forall|i: int| 0 <= i < ls.skip(1).len() implies (#[trigger] ls.skip(1)[i]).len()
            == 0 || (all_digits(ls.skip(1)[i]) && dec_value(ls.skip(1)[i]) <= u32::MAX) by {
            assert(ls.skip(1)[i] == ls[i + 1]);
        }
        lemma_group_sums_first(ls.skip(1), 0);
        let g = group_sums(ls, acc);
        assert(g[0] == acc);
        if g.len() > 1 {
            assert(g.skip(1) =~= group_sums(ls.skip(1), 0));
        }
    } else {
        assert forall|i: int| 0 <= i < ls.skip(1).len() implies (#[trigger] ls.skip(1)[i]).len()
            == 0 || (all_digits(ls.skip(1)[i]) && dec_value(ls.skip(1)[i]) <= u32::MAX) by {
            assert(ls.skip(1)[i] == ls[i + 1]);
        }
        crate::text::lemma_dec_value_nonneg(ls[0]);
        lemma_group_sums_first(ls.skip(1), acc + dec_value(ls[0]));
    }
}

proof fn lemma_calorie_tail(ls: Seq<Seq<u8>>)
    requires
        calorie_lines_ok(ls),
        ls.len() > 0,
    ensures
        calorie_lines_ok(ls.skip(1)),
{
    assert forall|i: int| 0 <= i < ls.skip(1).len() implies (#[trigger] ls.skip(1)[i]).len() == 0
        || (all_digits(ls.skip(1)[i]) && dec_value(ls.skip(1)[i]) <= u32::MAX) by {
        assert(ls.skip(1)[i] == ls[i + 1]);
    }
}

/// The largest group total of the list.
pub fn most_calories(input: &str) -> (r: u32)
    requires
        calorie_lines_ok(spec_lines(input.spec_bytes())),
        seq_max(group_sums(spec_lines(input.spec_bytes()), 0)) <= u32::MAX,
    ensures
        r == seq_max(group_sums(spec_lines(input.spec_bytes()), 0)),
{
    let ghost s = input.spec_bytes();
    let ghost ls = spec_lines(s);
    let lines = split_lines(input.as_bytes());
    let n = lines.len();
    let mut result: u32 = 0;
    let mut sum: u32 = 0;
    let mut i: usize = 0;
    proof {
        assert(ls.skip(0) =~= ls);
        lemma_group_sums_first(ls, 0);
    }
    while i < n
        invariant
            s == input.spec_bytes(),
            ls == spec_lines(s),
            views_of(lines@) == ls,
            n == ls.len(),
            n == lines@.len(),
            0 <= i <= n,
            calorie_lines_ok(ls),
            sum <= result,
            seq_max(group_sums(ls, 0)) <= u32::MAX,
            seq_max(group_sums(ls.skip(i as int), sum as int)) <= seq_max(group_sums(ls, 0)),
            max2(result as int, seq_max(group_sums(ls.skip(i as int), sum as int))) == seq_max(
                group_sums(ls, 0),
            ),
        decreases n - i,
    {
        let ghost rest = ls.skip(i as int);
        proof {
            assert(ls[i as int] == lines@[i as int]@);
            assert(rest[0] == ls[i as int]);
            assert(rest.skip(1) =~= ls.skip(i + 1));
            assert forall|t: int| 0 <= t < rest.len() implies (#[trigger] rest[t]).len() == 0 || (
            all_digits(rest[t]) && dec_value(rest[t]) <= u32::MAX) by {
                assert(rest[t] == ls[i + t]);
            }
        }
        let line = &lines[i];
        if line.len() == 0 {
            proof {
                lemma_calorie_tail(rest);
                lemma_group_sums_first(rest.skip(1), 0);
                assert(group_sums(rest, sum as int) == seq![sum as int] + group_sums(
                    rest.skip(1),
                    0,
                ));
                assert((seq![sum as int] + group_sums(rest.skip(1), 0)).skip(1)
                    =~= group_sums(rest.skip(1), 0));
            }
            sum = 0;
        } else {
            let v = match parse_u32(line) {
                Some(v) => v,
                None => vstd::pervasive::unreached(),
            };
            proof {
                lemma_calorie_tail(rest);
                lemma_group_sums_first(rest.skip(1), sum + v);
                assert(group_sums(rest, sum as int) == group_sums(rest.skip(1), sum + v));
                assert(sum + v <= seq_max(group_sums(rest.skip(1), sum + v)));
            }
            sum = sum + v;
        }
        if sum > result {
            result = sum;
        }
        i += 1;
    }
    proof {
        assert(ls.skip(n as int) =~= Seq::<Seq<u8>>::empty());
        assert(group_sums(ls.skip(n as int), sum as int) == seq![sum as int]);
        assert(seq_max(seq![sum as int]) == sum);
    }
    result
}

/// The three largest values seen, kept ascending, after `v` arrives.
pub open spec fn top3_insert(t: (int, int, int), v: int) -> (int, int, int) {
    if v <= t.0 {
        t
    } else if v <= t.1 {
        (v, t.1, t.2)
    } else if v <= t.2 {
        (t.1, v, t.2)
    } else {
        (t.1, t.2, v)
    }
}

/// Folds the group totals of the lines into the three largest, the
/// open group summing to `acc`; the still-open last group counts too.
pub open spec fn top3_fold(ls: Seq<Seq<u8>>, acc: int, t: (int, int, int)) -> (int, int, int)
    decreases ls.len(),
{
    if ls.len() == 0 {
        top3_insert(t, acc)
    } else if ls[0].len() == 0 {
        top3_fold(ls.skip(1), 0, top3_insert(t, acc))
    } else {
        top3_fold(ls.skip(1), acc + dec_value(ls[0]), t)
    }
}

/// Offers `sum` to the three largest values kept in `result`
/// (ascending); the smallest of the four leaves.
pub fn consider_elve_calories(result: &mut [u32; 3], sum: &u32)
    requires
        old(result)[0] <= old(result)[1] <= old(result)[2],
    ensures
        ({
            let t = top3_insert(
                (old(result)[0] as int, old(result)[1] as int, old(result)[2] as int),
                *sum as int,
            );
            final(result)@ == seq![t.0 as u32, t.1 as u32, t.2 as u32]
        }),
{
    let a = result[0];
    let b = result[1];
    let c = result[2];
    let v = *sum;
    let updated: [u32; 3] = if v <= a {
        [a, b, c]
    } else if v <= b {
        [v, b, c]
    } else if v <= c {
        [b, v, c]
    } else {
        [b, c, v]
    };
    *result = updated;
    proof {
        let t = top3_insert((a as int, b as int, c as int), v as int);
        assert(result@ =~= seq![t.0 as u32, t.1 as u32, t.2 as u32]);
    }
}

/// Sum of the three largest group totals of the list.
pub fn top3_calories(input: &str) -> (r: u32)
    requires
        calorie_lines_ok(spec_lines(input.spec_bytes())),
        seq_max(group_sums(spec_lines(input.spec_bytes()), 0)) <= u32::MAX,
        ({
            let t = top3_fold(spec_lines(input.spec_bytes()), 0, (0, 0, 0));
            t.0 + t.1 + t.2 <= u32::MAX
        }),
    ensures
        ({
            let t = top3_fold(spec_lines(input.spec_bytes()), 0, (0, 0, 0));
            r == t.0 + t.1 + t.2
        }),
{
    let ghost s = input.spec_bytes();
    let ghost ls = spec_lines(s);
    let lines = split_lines(input.as_bytes());
    let n = lines.len();
    let mut result: [u32; 3] = [0, 0, 0];
    let mut sum: u32 = 0;
    let mut i: usize = 0;
    proof {
        assert(ls.skip(0) =~= ls);
        lemma_group_sums_first(ls, 0);
    }
    while i < n
        invariant
            s == input.spec_bytes(),
            ls == spec_lines(s),
            views_of(lines@) == ls,
            n == ls.len(),
            n == lines@.len(),
            0 <= i <= n,
            calorie_lines_ok(ls),
            result[0] <= result[1] <= result[2],
            seq_max(group_sums(ls.skip(i as int), sum as int)) <= seq_max(group_sums(ls, 0)),
            seq_max(group_sums(ls, 0)) <= u32::MAX,
            sum <= seq_max(group_sums(ls.skip(i as int), sum as int)),
            top3_fold(ls.skip(i as int), sum as int, (
                result[0] as int,
                result[1] as int,
                result[2] as int,
            )) == top3_fold(ls, 0, (0, 0, 0)),
        decreases n - i,
    {
        let ghost rest = ls.skip(i as int);
        proof {
            assert(ls[i as int] == lines@[i as int]@);
            assert(rest[0] == ls[i as int]);
            assert(rest.skip(1) =~= ls.skip(i + 1));
            lemma_calorie_tail_any(ls, i as int);
            lemma_calorie_tail(rest);
        }
        let line = &lines[i];
        if line.len() == 0 {
            consider_elve_calories(&mut result, &sum);
            proof {
                lemma_group_sums_first(rest.skip(1), 0);
                assert(group_sums(rest, sum as int) == seq![sum as int] + group_sums(
                    rest.skip(1),
                    0,
                ));
                assert((seq![sum as int] + group_sums(rest.skip(1), 0)).skip(1)
                    =~= group_sums(rest.skip(1), 0));
            }
            sum = 0;
        } else {
            let v = match parse_u32(line) {
                Some(v) => v,
                None => vstd::pervasive::unreached(),
            };
            proof {
                lemma_group_sums_first(rest.skip(1), sum + v);
                assert(group_sums(rest, sum as int) == group_sums(rest.skip(1), sum + v));
                assert(sum + v <= seq_max(group_sums(rest.skip(1), sum + v)));
            }
            sum = sum + v;
        }
        i += 1;
    }
    consider_elve_calories(&mut result, &sum);
    proof {
        assert(ls.skip(n as int) =~= Seq::<Seq<u8>>::empty());
        let t = top3_fold(ls, 0, (0, 0, 0));
        assert(result@ == seq![t.0 as u32, t.1 as u32, t.2 as u32]);
        lemma_top3_fold_bounds(ls, 0, (0, 0, 0));
    }
    result[0] + result[1] + result[2]
}

proof fn lemma_calorie_tail_any(ls: Seq<Seq<u8>>, i: int)
    requires
        calorie_lines_ok(ls),
        0 <= i <= ls.len(),
    ensures
        calorie_lines_ok(ls.skip(i)),
{
    assert forall|t: int| 0 <= t < ls.skip(i).len() implies (#[trigger] ls.skip(i)[t]).len() == 0
        || (all_digits(ls.skip(i)[t]) && dec_value(ls.skip(i)[t]) <= u32::MAX) by {
        assert(ls.skip(i)[t] == ls[i + t]);
    }
}

proof fn lemma_top3_fold_bounds(ls: Seq<Seq<u8>>, acc: int, t: (int, int, int))
    requires
        calorie_lines_ok(ls),
        0 <= acc,
        0 <= t.0 <= t.1 <= t.2,
    ensures
        ({
            let u = top3_fold(ls, acc, t);
            0 <= u.0 <= u.1 <= u.2
        }),
    decreases ls.len(),
{
    if ls.len() == 0 {
    } else if ls[0].len() == 0 {
        lemma_calorie_tail(ls);
        let u = top3_insert(t, acc);
        lemma_top3_fold_bounds(ls.skip(1), 0, u);
    } else {
        lemma_calorie_tail(ls);
        crate::text::lemma_dec_value_nonneg(ls[0]);
        lemma_top3_fold_bounds(ls.skip(1), acc + dec_value(ls[0]), t);
    }
}

} // verus!
