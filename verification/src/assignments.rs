//! Overlapping section assignments.
//!
//! Each line holds two inclusive ranges, "2-4,6-8". One query counts
//! the lines where one range fully contains the other, the other the
//! lines where the two ranges overlap at all.
use std::ops::RangeInclusive;

use vstd::prelude::*;
use vstd::slice::slice_subrange;
use vstd::string::StrSliceExecFns;
use vstd::string::StringSliceAdditionalSpecFns;
use vstd::utf8::is_ascii_chars;

use crate::text::all_digits;
use crate::text::dec_value;
use crate::text::find_byte;
use crate::text::find_byte_from;
use crate::text::lemma_find_byte_bounds;
use crate::text::parse_u32;
use crate::text::spec_lines;
use crate::text::split_lines;
use crate::text::views_of;

verus! {

/// Position of the dash of a range numeral.
pub open spec fn dash_at(p: Seq<u8>) -> int {
    find_byte_from(p, 0, 45)
}

/// `p` spells "lo-hi" with two decimal numerals that fit in `u32`.
pub open spec fn range_ok(p: Seq<u8>) -> bool {
    let d = dash_at(p);
    &&& 0 < d < p.len()
    &&& all_digits(p.take(d))
    &&& dec_value(p.take(d)) <= u32::MAX
    &&& p.skip(d + 1).len() > 0
    &&& all_digits(p.skip(d + 1))
    &&& dec_value(p.skip(d + 1)) <= u32::MAX
}

/// The lower bound of the range `p` spells.
pub open spec fn range_lo(p: Seq<u8>) -> int {
    dec_value(p.take(dash_at(p)))
}

/// The upper bound of the range `p` spells.
pub open spec fn range_hi(p: Seq<u8>) -> int {
    dec_value(p.skip(dash_at(p) + 1))
}

/// Position of the comma between the two ranges of a line.
pub open spec fn comma_at(l: Seq<u8>) -> int {
    find_byte_from(l, 0, 44)
}

/// The first range of a line.
pub open spec fn left_range(l: Seq<u8>) -> Seq<u8> {
    l.take(comma_at(l))
}

/// The second range of a line.
pub open spec fn right_range(l: Seq<u8>) -> Seq<u8> {
    l.skip(comma_at(l) + 1)
}

/// The line spells a pair of ranges.
pub open spec fn pair_ok(l: Seq<u8>) -> bool {
    comma_at(l) < l.len() && range_ok(left_range(l)) && range_ok(right_range(l))
}

/// One of the line's ranges contains the other.
pub open spec fn contained_spec(l: Seq<u8>) -> bool {
    let a = left_range(l);
    let b = right_range(l);
    (range_lo(a) >= range_lo(b) && range_hi(a) <= range_hi(b)) || (range_lo(a) <= range_lo(b)
        && range_hi(a) >= range_hi(b))
}

/// The line's ranges share at least one section.
pub open spec fn overlap_spec(l: Seq<u8>) -> bool {
    let a = left_range(l);
    let b = right_range(l);
    !(range_hi(a) < range_lo(b) || range_lo(a) > range_hi(b))
}

/// How many lines satisfy `contained_spec`.
pub open spec fn count_contained(ls: Seq<Seq<u8>>) -> int
    decreases ls.len(),
{
    if ls.len() == 0 {
        0
    } else {
        (if contained_spec(ls[0]) {
            1int
        } else {
            0int
        }) + count_contained(ls.skip(1))
    }
}

/// How many lines satisfy `overlap_spec`.
pub open spec fn count_overlap(ls: Seq<Seq<u8>>) -> int
    decreases ls.len(),
{
    if ls.len() == 0 {
        0
    } else {
        (if overlap_spec(ls[0]) {
            1int
        } else {
            0int
        }) + count_overlap(ls.skip(1))
    }
}

/// Reads "lo-hi" as a pair of bounds.
fn parse_range_bytes(p: &[u8]) -> (r: (u32, u32))
    requires
        range_ok(p@),
    ensures
        r.0 == range_lo(p@),
        r.1 == range_hi(p@),
{
    proof {
        lemma_find_byte_bounds(p@, 0, 45);
    }
    let n = p.len();
    let d = find_byte(p, 0, 45);
    proof {
        assert(d == dash_at(p@));
        assert(0 < d < p@.len());
    }
    let left = slice_subrange(p, 0, d);
    let right = slice_subrange(p, d + 1, n);
    proof {
        assert(left@ =~= p@.take(d as int));
        assert(right@ =~= p@.skip(d + 1));
    }
    let lo = match parse_u32(left) {
        Some(v) => v,
        None => vstd::pervasive::unreached(),
    };
    let hi = match parse_u32(right) {
        Some(v) => v,
        None => vstd::pervasive::unreached(),
    };
    (lo, hi)
}

/// Reads "lo-hi" as an inclusive range.
pub fn parse_range(range: &str) -> (r: RangeInclusive<u32>)
    requires
        range_ok(range.spec_bytes()),
    ensures
        r@.start == range_lo(range.spec_bytes()),
        r@.end == range_hi(range.spec_bytes()),
{
    let (lo, hi) = parse_range_bytes(range.as_bytes());
    RangeInclusive::new(lo, hi)
}

/// One of the two ranges contains the other.
pub fn is_fully_contained(first: &str, second: &str) -> (r: bool)
    requires
        range_ok(first.spec_bytes()),
        range_ok(second.spec_bytes()),
    ensures
        r == ({
            let a = first.spec_bytes();
            let b = second.spec_bytes();
            (range_lo(a) >= range_lo(b) && range_hi(a) <= range_hi(b)) || (range_lo(a)
                <= range_lo(b) && range_hi(a) >= range_hi(b))
        }),
{
    let (alo, ahi) = parse_range_bytes(first.as_bytes());
    let (blo, bhi) = parse_range_bytes(second.as_bytes());
    (alo >= blo && ahi <= bhi) || (alo <= blo && ahi >= bhi)
}

/// The two ranges share at least one section.
pub fn overlaps(first: &str, second: &str) -> (r: bool)
    requires
        range_ok(first.spec_bytes()),
        range_ok(second.spec_bytes()),
    ensures
        r == ({
            let a = first.spec_bytes();
            let b = second.spec_bytes();
            !(range_hi(a) < range_lo(b) || range_lo(a) > range_hi(b))
        }),
{
    let (alo, ahi) = parse_range_bytes(first.as_bytes());
    let (blo, bhi) = parse_range_bytes(second.as_bytes());
    !(ahi < blo || alo > bhi)
}

/// Counts the lines whose one range contains the other.
pub fn fully_contained_pairs(input: &str) -> (r: u32)
    requires
        ({
            let ls = spec_lines(input.spec_bytes());
            &&& forall|i: int| 0 <= i < ls.len() ==> pair_ok(#[trigger] ls[i])
            &&& ls.len() <= u32::MAX
        }),
    ensures
        r == count_contained(spec_lines(input.spec_bytes())),
{
    let ghost s = input.spec_bytes();
    let ghost ls = spec_lines(s);
    let lines = split_lines(input.as_bytes());
    let n = lines.len();
    let mut count: u32 = 0;
    let mut i: usize = 0;
    proof {
        assert(ls.skip(0) =~= ls);
    }
    while i < n
        invariant
            s == input.spec_bytes(),
            ls == spec_lines(s),
            views_of(lines@) == ls,
            n == ls.len(),
            n == lines@.len(),
            n <= u32::MAX,
            0 <= i <= n,
            count <= i,
            forall|k: int| 0 <= k < ls.len() ==> pair_ok(#[trigger] ls[k]),
            count + count_contained(ls.skip(i as int)) == count_contained(ls),
        decreases n - i,
    {
        proof {
            assert(ls[i as int] == lines@[i as int]@);
            assert(ls.skip(i as int)[0] == ls[i as int]);
            assert(ls.skip(i as int).skip(1) =~= ls.skip(i + 1));
        }
        let line = &lines[i];
        let ghost l = ls[i as int];
        proof {
            lemma_find_byte_bounds(l, 0, 44);
        }
        let m = line.len();
        let c = find_byte(line.as_slice(), 0, 44);
        proof {
            assert(c == comma_at(l));
            assert(c < m);
        }
        let a = slice_subrange(line.as_slice(), 0, c);
        let b = slice_subrange(line.as_slice(), c + 1, m);
        proof {
            assert(a@ =~= left_range(l));
            assert(b@ =~= right_range(l));
        }
        let (alo, ahi) = parse_range_bytes(a);
        let (blo, bhi) = parse_range_bytes(b);
        if (alo >= blo && ahi <= bhi) || (alo <= blo && ahi >= bhi) {
            count += 1;
        }
        i += 1;
    }
    proof {
        assert(ls.skip(n as int) =~= Seq::<Seq<u8>>::empty());
    }
    count
}

/// Counts the lines whose ranges overlap.
pub fn overlapping_pairs(input: &str) -> (r: u32)
    requires
        ({
            let ls = spec_lines(input.spec_bytes());
            &&& forall|i: int| 0 <= i < ls.len() ==> pair_ok(#[trigger] ls[i])
            &&& ls.len() <= u32::MAX
        }),
    ensures
        r == count_overlap(spec_lines(input.spec_bytes())),
{
    let ghost s = input.spec_bytes();
    let ghost ls = spec_lines(s);
    let lines = split_lines(input.as_bytes());
    let n = lines.len();
    let mut count: u32 = 0;
    let mut i: usize = 0;
    proof {
        assert(ls.skip(0) =~= ls);
    }
    while i < n
        invariant
            s == input.spec_bytes(),
            ls == spec_lines(s),
            views_of(lines@) == ls,
            n == ls.len(),
            n == lines@.len(),
            n <= u32::MAX,
            0 <= i <= n,
            count <= i,
            forall|k: int| 0 <= k < ls.len() ==> pair_ok(#[trigger] ls[k]),
            count + count_overlap(ls.skip(i as int)) == count_overlap(ls),
        decreases n - i,
    {
        proof {
            assert(ls[i as int] == lines@[i as int]@);
            assert(ls.skip(i as int)[0] == ls[i as int]);
            assert(ls.skip(i as int).skip(1) =~= ls.skip(i + 1));
        }
        let line = &lines[i];
        let ghost l = ls[i as int];
        proof {
            lemma_find_byte_bounds(l, 0, 44);
        }
        let m = line.len();
        let c = find_byte(line.as_slice(), 0, 44);
        proof {
            assert(c == comma_at(l));
            assert(c < m);
        }
        let a = slice_subrange(line.as_slice(), 0, c);
        let b = slice_subrange(line.as_slice(), c + 1, m);
        proof {
            assert(a@ =~= left_range(l));
            assert(b@ =~= right_range(l));
        }
        let (alo, ahi) = parse_range_bytes(a);
        let (blo, bhi) = parse_range_bytes(b);
        if !(ahi < blo || alo > bhi) {
            count += 1;
        }
        i += 1;
    }
    proof {
        assert(ls.skip(n as int) =~= Seq::<Seq<u8>>::empty());
    }
    count
}

/// How many lines `p` accepts, applied to the halves before and after
/// the line's first comma.
pub open spec fn count_pred(ls: Seq<Seq<u8>>, p: spec_fn(Seq<u8>, Seq<u8>) -> bool) -> int
    decreases ls.len(),
{
    if ls.len() == 0 {
        0
    } else {
        (if p(left_range(ls[0]), right_range(ls[0])) {
            1int
        } else {
            0int
        }) + count_pred(ls.skip(1), p)
    }
}

proof fn lemma_count_pred_bounds(ls: Seq<Seq<u8>>, p: spec_fn(Seq<u8>, Seq<u8>) -> bool)
    ensures
        0 <= count_pred(ls, p) <= ls.len(),
    decreases ls.len(),
{
    if ls.len() > 0 {
        lemma_count_pred_bounds(ls.skip(1), p);
    }
}

/// Counts the lines where the predicate holds of the two halves of
/// the line. The ghost argument names what the predicate computes.
#[verifier::loop_isolation(false)]
#[verifier::rlimit(60)]
pub fn map_count_assignments<F: Fn(&str, &str) -> bool>(
    input: &str,
    predicate: F,
    Ghost(p): Ghost<spec_fn(Seq<u8>, Seq<u8>) -> bool>,
) -> (r: u32)
    requires
        input.is_ascii(),
        forall|a: &str, b: &str| #[trigger] predicate.requires((a, b)),
        forall|a: &str, b: &str, o: bool| #[trigger]
            predicate.ensures((a, b), o) ==> o == p(a.spec_bytes(), b.spec_bytes()),
        forall|i: int|
            0 <= i < spec_lines(input.spec_bytes()).len() ==> comma_at(
                #[trigger] spec_lines(input.spec_bytes())[i],
            ) < spec_lines(input.spec_bytes())[i].len(),
        spec_lines(input.spec_bytes()).len() <= u32::MAX,
    ensures
        r == count_pred(spec_lines(input.spec_bytes()), p),
{
    broadcast use vstd::string::is_ascii_spec_bytes;

    let ghost sb = input.spec_bytes();
    let ghost ls = spec_lines(sb);
    let bytes = input.as_bytes();
    let n = bytes.len();
    proof {
        assert(is_ascii_chars(input@));
        assert(sb =~= Seq::new(input@.len(), |i: int| input@[i] as u8));
        lemma_count_pred_bounds(ls, p);
        assert(sb.skip(0) =~= sb);
    }
    let mut count: u32 = 0;
    let mut pos: usize = 0;
    let ghost mut li: int = 0;
    while pos < n
        invariant
            0 <= pos <= n,
            n == sb.len(),
            n == input@.len(),
            0 <= li <= ls.len(),
            spec_lines(sb.skip(pos as int)) == ls.skip(li),
            count + count_pred(spec_lines(sb.skip(pos as int)), p) == count_pred(ls, p),
        decreases n - pos,
    {
        let mut j: usize = pos;
        while j < n && bytes[j] != 10
            invariant
                pos <= j <= n,
                forall|k: int| pos <= k < j ==> sb[k] != 10,
            decreases n - j,
        {
            j += 1;
        }
        let ghost rest = sb.skip(pos as int);
        proof {
            crate::text::lemma_first_nl(rest);
            assert forall|k: int| 0 <= k < j - pos implies rest[k] != 10 by {
                assert(rest[k] == sb[pos + k]);
            }
            if j < n {
                assert(rest[j - pos] == sb[j as int]);
            }
            assert(crate::text::first_nl(rest) == j - pos);
        }
        let e = if j < n && j > pos && bytes[j - 1] == 13 {
            j - 1
        } else {
            j
        };
        let ghost l = sb.subrange(pos as int, e as int);
        proof {
            if j < n {
                assert(crate::text::chop_cr(rest.take(j - pos)) =~= l);
                assert(spec_lines(rest) == seq![l] + spec_lines(rest.skip(j - pos + 1)));
                assert((seq![l] + spec_lines(rest.skip(j - pos + 1))).skip(1) =~= spec_lines(
                    rest.skip(j - pos + 1),
                ));
                assert(rest.skip(j - pos + 1) =~= sb.skip(j + 1));
            } else {
                assert(rest =~= l);
                assert(spec_lines(rest) == seq![l]);
                assert(seq![l].skip(1) =~= Seq::<Seq<u8>>::empty());
            }
            assert(spec_lines(rest)[0] == l);
            assert(ls.skip(li)[0] == ls[li]);
            assert(l == ls[li]);
            assert(comma_at(l) < l.len());
            assert(ls.skip(li).skip(1) =~= ls.skip(li + 1));
            assert(ls == spec_lines(sb));
            lemma_count_pred_bounds(spec_lines(sb.skip(if j < n {
                j + 1
            } else {
                n as int
            })), p);
            lemma_find_byte_bounds(l, 0, 44);
        }
        let mut c: usize = pos;
        while c < e && bytes[c] != 44
            invariant
                pos <= c <= e,
                e <= n,
                forall|k: int| pos <= k < c ==> sb[k] != 44,
            decreases e - c,
        {
            c += 1;
        }
        proof {
            assert forall|k: int| 0 <= k < c - pos implies l[k] != 44 by {
                assert(l[k] == sb[pos + k]);
            }
            if c < e {
                assert(l[c - pos] == sb[c as int]);
                assert(comma_at(l) == c - pos);
            } else {
                assert(comma_at(l) >= e - pos);
                assert(comma_at(l) < l.len());
                assert(false);
            }
        }
        let a = input.substring_char(pos, c);
        let b = input.substring_char(c + 1, e);
        proof {
            assert(a@ =~= input@.subrange(pos as int, c as int));
            assert(b@ =~= input@.subrange(c + 1, e as int));
            assert(is_ascii_chars(a@)) by {
                assert forall|i| 0 <= i < a@.len() implies '\0' <= #[trigger] a@[i]
                    <= '\u{7f}' by {
                    assert(a@[i] == input@[pos + i]);
                }
            }
            assert(is_ascii_chars(b@)) by {
                assert forall|i| 0 <= i < b@.len() implies '\0' <= #[trigger] b@[i]
                    <= '\u{7f}' by {
                    assert(b@[i] == input@[c + 1 + i]);
                }
            }
            assert(a.is_ascii());
            assert(b.is_ascii());
            assert(a.spec_bytes() =~= left_range(l)) by {
                assert(a.spec_bytes() =~= Seq::new(a@.len(), |i: int| a@[i] as u8));
                assert forall|i: int| 0 <= i < left_range(l).len() implies Seq::new(
                    a@.len(),
                    |i2: int| a@[i2] as u8,
                )[i] == left_range(l)[i] by {
                    assert(a@[i] == input@[pos + i]);
                    assert(left_range(l)[i] == l[i]);
                    assert(l[i] == sb[pos + i]);
                    assert(sb[pos + i] == input@[pos + i] as u8);
                }
            }
            assert(b.spec_bytes() =~= right_range(l)) by {
                assert(b.spec_bytes() =~= Seq::new(b@.len(), |i: int| b@[i] as u8));
                assert forall|i: int| 0 <= i < right_range(l).len() implies Seq::new(
                    b@.len(),
                    |i2: int| b@[i2] as u8,
                )[i] == right_range(l)[i] by {
                    assert(b@[i] == input@[c + 1 + i]);
                    assert(right_range(l)[i] == l[comma_at(l) + 1 + i]);
                    assert(l[comma_at(l) + 1 + i] == sb[c + 1 + i]);
                    assert(sb[c + 1 + i] == input@[c + 1 + i] as u8);
                }
            }
        }
        let hit = predicate(a, b);
        proof {
            assert(hit == p(a.spec_bytes(), b.spec_bytes()));
            assert(p(a.spec_bytes(), b.spec_bytes()) == p(left_range(l), right_range(l)));
        }
        if hit {
            proof {
                assert(count < count_pred(ls, p));
            }
            count = count + 1;
        }
        pos = if j < n {
            j + 1
        } else {
            n
        };
        proof {
            li = li + 1;
        }
    }
    proof {
        assert(sb.skip(n as int) =~= Seq::<u8>::empty());
    }
    count
}

} // verus!
