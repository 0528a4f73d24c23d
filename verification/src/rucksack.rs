//! Rucksack priorities.
//!
//! Each line is a rucksack; its two halves share exactly one item type,
//! and every group of three lines shares one badge item. An item's
//! priority is 1-26 for 'a'-'z' and 27-52 for 'A'-'Z'.
use vstd::prelude::*;
use vstd::string::StrSliceExecFns;
use vstd::string::StringSliceAdditionalSpecFns;

use crate::text::spec_lines;
use crate::text::split_lines;
use crate::text::views_of;

verus! {

/// An ASCII letter.
pub open spec fn is_letter(b: u8) -> bool {
    (65 <= b <= 90) || (97 <= b <= 122)
}

/// The priority of an item byte.
pub open spec fn priority_of(b: u8) -> int {
    if 97 <= b {
        b - 96
    } else {
        b - 38
    }
}

/// `b` occurs in `l` at or after position `from`.
pub open spec fn occurs_from(l: Seq<u8>, from: int, b: u8) -> bool {
    exists|k: int| from <= k < l.len() && l[k] == b
}

/// The first position in the left half of `l` whose byte occurs in the
/// right half; `l.len() / 2` when there is none.
pub open spec fn common_idx(l: Seq<u8>, i: int) -> int
    decreases l.len() / 2 - i,
{
    if i < 0 || i >= l.len() / 2 {
        l.len() as int / 2
    } else if occurs_from(l, l.len() as int / 2, l[i]) {
        i
    } else {
        common_idx(l, i + 1)
    }
}

pub proof fn lemma_common_idx_bounds(l: Seq<u8>, i: int)
    requires
        0 <= i <= l.len() / 2,
    ensures
        i <= common_idx(l, i) <= l.len() / 2,
    decreases l.len() / 2 - i,
{
    if i < l.len() / 2 && !occurs_from(l, l.len() as int / 2, l[i]) {
        lemma_common_idx_bounds(l, i + 1);
    }
}

/// The two halves of `l` share an item.
pub open spec fn has_common(l: Seq<u8>) -> bool {
    common_idx(l, 0) < l.len() / 2
}

/// Priority of the shared item of line `l`.
pub open spec fn line_priority(l: Seq<u8>) -> int {
    priority_of(l[common_idx(l, 0)])
}

/// Sum of the shared-item priorities over the lines.
pub open spec fn priority_sum_spec(ls: Seq<Seq<u8>>) -> int
    decreases ls.len(),
{
    if ls.len() == 0 {
        0
    } else {
        line_priority(ls[0]) + priority_sum_spec(ls.skip(1))
    }
}

/// All bytes of `l` are letters.
pub open spec fn all_letters(l: Seq<u8>) -> bool {
    forall|k: int| 0 <= k < l.len() ==> is_letter(#[trigger] l[k])
}

proof fn lemma_priority_sum_nonneg(ls: Seq<Seq<u8>>)
    requires
        forall|i: int| 0 <= i < ls.len() ==> all_letters(#[trigger] ls[i]),
        forall|i: int| 0 <= i < ls.len() ==> has_common(#[trigger] ls[i]),
    ensures
        priority_sum_spec(ls) >= 0,
    decreases ls.len(),
{
    if ls.len() > 0 {
        assert forall|i: int| 0 <= i < ls.skip(1).len() implies all_letters(
            #[trigger] ls.skip(1)[i],
        ) && has_common(#[trigger] ls.skip(1)[i]) by {
            assert(ls.skip(1)[i] == ls[i + 1]);
        }
        lemma_priority_sum_nonneg(ls.skip(1));
        let l = ls[0];
        lemma_common_idx_bounds(l, 0);
        let c = common_idx(l, 0);
        assert(is_letter(l[c]));
    }
}

/// The priority of an item character.
pub fn char_to_priority(c: char) -> (r: u32)
    requires
        is_letter(c as u8),
        c as u32 <= 122,
    ensures
        r == priority_of(c as u8),
{
    let v = c as u32;
    if v >= 97 {
        v - 96
    } else {
        v - 38
    }
}

/// The first item of the left half of `line` that the right half also
/// holds.
pub fn find_priority_char(line: &str) -> (r: char)
    requires
        line.is_ascii(),
        has_common(line.spec_bytes()),
    ensures
        r == (line.spec_bytes()[common_idx(line.spec_bytes(), 0)] as char),
{
    let bytes = line.as_bytes();
    let ghost l = line.spec_bytes();
    let n = bytes.len();
    let half = n / 2;
    let mut i: usize = 0;
    while i < half
        invariant
            l == line.spec_bytes(),
            n == l.len(),
            n == bytes@.len(),
            bytes@ == l,
            half == n / 2,
            0 <= i <= half,
            common_idx(l, 0) == common_idx(l, i as int),
            has_common(l),
        decreases half - i,
    {
        let b = bytes[i];
        let mut k: usize = half;
        while k < n
            invariant
                l == line.spec_bytes(),
                n == l.len(),
                n == bytes@.len(),
                bytes@ == l,
                half == n / 2,
                0 <= i < half,
                b == l[i as int],
                common_idx(l, 0) == common_idx(l, i as int),
                half <= k <= n,
                forall|t: int| half <= t < k ==> l[t] != b,
            decreases n - k,
        {
            if bytes[k] == b {
                proof {
                    assert(occurs_from(l, half as int, b));
                    assert(common_idx(l, i as int) == i);
                }
                return b as char;
            }
            k += 1;
        }
        proof {
            assert(!occurs_from(l, half as int, b));
            assert(common_idx(l, i as int) == common_idx(l, i + 1));
        }
        i += 1;
    }
    proof {
        assert(common_idx(l, half as int) == half);
        assert(false);
    }
    vstd::pervasive::unreached()
}

/// Sum of the shared-item priorities of all lines.
pub fn priority_sum(input: &str) -> (r: u32)
    requires
        ({
            let ls = spec_lines(input.spec_bytes());
            &&& forall|i: int| 0 <= i < ls.len() ==> all_letters(#[trigger] ls[i])
            &&& forall|i: int| 0 <= i < ls.len() ==> has_common(#[trigger] ls[i])
            &&& priority_sum_spec(ls) <= u32::MAX
        }),
    ensures
        r == priority_sum_spec(spec_lines(input.spec_bytes())),
{
    let ghost s = input.spec_bytes();
    let ghost ls = spec_lines(s);
    let lines = split_lines(input.as_bytes());
    let n = lines.len();
    let mut sum: u32 = 0;
    let mut i: usize = 0;
    proof {
        assert(ls.skip(0) =~= ls);
    }
    while i < n
        invariant
            s == input.spec_bytes(),
            ls == spec_lines(s),
            views_of(lines@) == ls,
            n == ls.len(),
            n == lines@.len(),
            0 <= i <= n,
            forall|k: int| 0 <= k < ls.len() ==> all_letters(#[trigger] ls[k]),
            forall|k: int| 0 <= k < ls.len() ==> has_common(#[trigger] ls[k]),
            priority_sum_spec(ls) <= u32::MAX,
            sum + priority_sum_spec(ls.skip(i as int)) == priority_sum_spec(ls),
        decreases n - i,
    {
        proof {
            assert(ls[i as int] == lines@[i as int]@);
            assert(ls.skip(i as int)[0] == ls[i as int]);
            assert(ls.skip(i as int).skip(1) =~= ls.skip(i + 1));
            assert forall|t: int| 0 <= t < ls.skip(i + 1).len() implies all_letters(
                #[trigger] ls.skip(i + 1)[t],
            ) && has_common(#[trigger] ls.skip(i + 1)[t]) by {
                assert(ls.skip(i + 1)[t] == ls[i + 1 + t]);
            }
            lemma_priority_sum_nonneg(ls.skip(i + 1));
        }
        let line = &lines[i];
        let ghost l = ls[i as int];
        let m = line.len();
        let half = m / 2;
        let mut j: usize = 0;
        let mut found: u32 = 0;
        let mut done = false;
        while j < half && !done
            invariant
                l == ls[i as int],
                m == l.len(),
                line@ == l,
                half == m / 2,
                0 <= j <= half,
                has_common(l),
                all_letters(l),
                !done ==> common_idx(l, 0) == common_idx(l, j as int),
                done ==> common_idx(l, 0) < half && found == priority_of(
                    l[common_idx(l, 0)],
                ),
            decreases half - j + (if done {
                0int
            } else {
                1int
            }),
        {
            let b = line[j];
            let mut k: usize = half;
            let mut hit = false;
            while k < m && !hit
                invariant
                    l == ls[i as int],
                    m == l.len(),
                    line@ == l,
                    half == m / 2,
                    0 <= j < half,
                    b == l[j as int],
                    half <= k <= m,
                    !hit ==> forall|t: int| half <= t < k ==> l[t] != b,
                    hit ==> occurs_from(l, half as int, b),
                decreases m - k + (if hit {
                    0int
                } else {
                    1int
                }),
            {
                if line[k] == b {
                    hit = true;
                } else {
                    k += 1;
                }
            }
            if hit {
                proof {
                    assert(common_idx(l, j as int) == j);
                    assert(is_letter(b));
                }
                found = if b >= 97 {
                    (b - 96) as u32
                } else {
                    (b - 38) as u32
                };
                done = true;
            } else {
                proof {
                    assert(!occurs_from(l, half as int, b));
                    assert(common_idx(l, j as int) == common_idx(l, j + 1));
                }
                j += 1;
            }
        }
        proof {
            if !done {
                assert(common_idx(l, half as int) == half);
                assert(false);
            }
        }
        sum = sum + found;
        i += 1;
    }
    proof {
        assert(ls.skip(n as int) =~= Seq::<Seq<u8>>::empty());
    }
    sum
}

/// `b` occurs somewhere in `l`.
pub open spec fn occurs(l: Seq<u8>, b: u8) -> bool {
    occurs_from(l, 0, b)
}

/// The first position in `g0` whose byte occurs in `g1` and `g2`;
/// `g0.len()` when there is none.
pub open spec fn badge_idx(g0: Seq<u8>, g1: Seq<u8>, g2: Seq<u8>, i: int) -> int
    decreases g0.len() - i,
{
    if i < 0 || i >= g0.len() {
        g0.len() as int
    } else if occurs(g1, g0[i]) && occurs(g2, g0[i]) {
        i
    } else {
        badge_idx(g0, g1, g2, i + 1)
    }
}

pub proof fn lemma_badge_idx_bounds(g0: Seq<u8>, g1: Seq<u8>, g2: Seq<u8>, i: int)
    requires
        0 <= i <= g0.len(),
    ensures
        i <= badge_idx(g0, g1, g2, i) <= g0.len(),
    decreases g0.len() - i,
{
    if i < g0.len() && !(occurs(g1, g0[i]) && occurs(g2, g0[i])) {
        lemma_badge_idx_bounds(g0, g1, g2, i + 1);
    }
}

/// Priority of the badge of a group of three lines; 0 when the first
/// line shares no item with both others.
pub open spec fn badge_val(g0: Seq<u8>, g1: Seq<u8>, g2: Seq<u8>) -> int {
    let c = badge_idx(g0, g1, g2, 0);
    if c < g0.len() {
        priority_of(g0[c])
    } else {
        0
    }
}

/// Sum of the badge priorities over groups of three lines.
pub open spec fn badge_sum_spec(ls: Seq<Seq<u8>>) -> int
    decreases ls.len(),
{
    if ls.len() < 3 {
        0
    } else {
        badge_val(ls[0], ls[1], ls[2]) + badge_sum_spec(ls.skip(3))
    }
}

proof fn lemma_badge_sum_nonneg(ls: Seq<Seq<u8>>)
    requires
        forall|i: int| 0 <= i < ls.len() ==> all_letters(#[trigger] ls[i]),
    ensures
        badge_sum_spec(ls) >= 0,
    decreases ls.len(),
{
    if ls.len() >= 3 {
        assert forall|i: int| 0 <= i < ls.skip(3).len() implies all_letters(
            #[trigger] ls.skip(3)[i],
        ) by {
            assert(ls.skip(3)[i] == ls[i + 3]);
        }
        lemma_badge_sum_nonneg(ls.skip(3));
        lemma_badge_idx_bounds(ls[0], ls[1], ls[2], 0);
        let c = badge_idx(ls[0], ls[1], ls[2], 0);
        if c < ls[0].len() {
            assert(is_letter(ls[0][c]));
        }
    }
}

/// Membership scan: does `b` occur in `hay`?
fn occurs_in(hay: &[u8], b: u8) -> (r: bool)
    ensures
        r == occurs(hay@, b),
{
    let n = hay.len();
    let mut k: usize = 0;
    while k < n
        invariant
            n == hay@.len(),
            0 <= k <= n,
            forall|t: int| 0 <= t < k ==> hay@[t] != b,
        decreases n - k,
    {
        if hay[k] == b {
            return true;
        }
        k += 1;
    }
    false
}

/// Sum of the badge priorities of all groups of three lines.
pub fn badge_priority_sum(input: &str) -> (r: u32)
    requires
        ({
            let ls = spec_lines(input.spec_bytes());
            &&& ls.len() % 3 == 0
            &&& forall|i: int| 0 <= i < ls.len() ==> all_letters(#[trigger] ls[i])
            &&& badge_sum_spec(ls) <= u32::MAX
        }),
    ensures
        r == badge_sum_spec(spec_lines(input.spec_bytes())),
{
    let ghost s = input.spec_bytes();
    let ghost ls = spec_lines(s);
    let lines = split_lines(input.as_bytes());
    let n = lines.len();
    let mut sum: u32 = 0;
    let mut i: usize = 0;
    proof {
        assert(ls.skip(0) =~= ls);
    }
    while i < n
        invariant
            s == input.spec_bytes(),
            ls == spec_lines(s),
            views_of(lines@) == ls,
            n == ls.len(),
            n == lines@.len(),
            n % 3 == 0,
            0 <= i <= n,
            i % 3 == 0,
            forall|k: int| 0 <= k < ls.len() ==> all_letters(#[trigger] ls[k]),
            badge_sum_spec(ls) <= u32::MAX,
            sum + badge_sum_spec(ls.skip(i as int)) == badge_sum_spec(ls),
        decreases n - i,
    {
        proof {
            assert(ls[i as int] == lines@[i as int]@);
            assert(ls[i + 1] == lines@[i + 1]@);
            assert(ls[i + 2] == lines@[i + 2]@);
            assert(ls.skip(i as int)[0] == ls[i as int]);
            assert(ls.skip(i as int)[1] == ls[i + 1]);
            assert(ls.skip(i as int)[2] == ls[i + 2]);
            assert(ls.skip(i as int).skip(3) =~= ls.skip(i + 3));
            assert forall|t: int| 0 <= t < ls.skip(i + 3).len() implies all_letters(
                #[trigger] ls.skip(i + 3)[t],
            ) by {
                assert(ls.skip(i + 3)[t] == ls[i + 3 + t]);
            }
            lemma_badge_sum_nonneg(ls.skip(i + 3));
        }
        let g0 = &lines[i];
        let g1 = &lines[i + 1];
        let g2 = &lines[i + 2];
        let ghost l0 = ls[i as int];
        let m = g0.len();
        let mut j: usize = 0;
        let mut found: u32 = 0;
        let mut done = false;
        while j < m && !done
            invariant
                l0 == ls[i as int],
                m == l0.len(),
                g0@ == l0,
                g1@ == ls[i + 1],
                g2@ == ls[i + 2],
                all_letters(l0),
                0 <= j <= m,
                !done ==> found == 0,
                !done ==> badge_idx(l0, g1@, g2@, 0) == badge_idx(l0, g1@, g2@, j as int),
                done ==> badge_idx(l0, g1@, g2@, 0) < m && found == priority_of(
                    l0[badge_idx(l0, g1@, g2@, 0)],
                ),
            decreases m - j + (if done {
                0int
            } else {
                1int
            }),
        {
            let b = g0[j];
            if occurs_in(g1.as_slice(), b) && occurs_in(g2.as_slice(), b) {
                proof {
                    assert(badge_idx(l0, g1@, g2@, j as int) == j);
                    assert(is_letter(b));
                }
                found = if b >= 97 {
                    (b - 96) as u32
                } else {
                    (b - 38) as u32
                };
                done = true;
            } else {
                proof {
                    assert(badge_idx(l0, g1@, g2@, j as int) == badge_idx(
                        l0,
                        g1@,
                        g2@,
                        j + 1,
                    ));
                }
                j += 1;
            }
        }
        proof {
            lemma_badge_idx_bounds(l0, g1@, g2@, 0);
            if !done {
                assert(badge_idx(l0, g1@, g2@, m as int) == m);
                assert(found == badge_val(l0, g1@, g2@));
            } else {
                assert(is_letter(l0[badge_idx(l0, g1@, g2@, 0)]));
                assert(found == badge_val(l0, g1@, g2@));
            }
            assert(sum + badge_val(l0, g1@, g2@) + badge_sum_spec(ls.skip(i + 3))
                == badge_sum_spec(ls));
        }
        sum = sum + found;
        i += 3;
    }
    proof {
        assert(ls.skip(n as int) =~= Seq::<Seq<u8>>::empty());
    }
    sum
}

} // verus!
