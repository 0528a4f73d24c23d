//! Byte-level text utilities shared by the puzzle modules: splitting input
//! into lines and reading decimal numbers, with exact specifications.
use vstd::prelude::*;
use vstd::slice::{slice_subrange, slice_to_vec};

verus! {

/// Line feed.
pub const NL: u8 = 10;
/// Carriage return.
pub const CR: u8 = 13;

/// Index of the first line feed in `s`, or `s.len()` if there is none.
pub open spec fn first_nl(s: Seq<u8>) -> int
    decreases s.len(),
{
    if s.len() == 0 {
        0
    } else if s[0] == NL {
        0
    } else {
        1 + first_nl(s.skip(1))
    }
}

pub proof fn lemma_first_nl(s: Seq<u8>)
    ensures
        0 <= first_nl(s) <= s.len(),
        first_nl(s) < s.len() ==> s[first_nl(s)] == NL,
        forall|k: int| 0 <= k < first_nl(s) ==> s[k] != NL,
    decreases s.len(),
{
    if s.len() == 0 {
    } else if s[0] == NL {
    } else {
        lemma_first_nl(s.skip(1));
        assert forall|k: int| 0 <= k < first_nl(s) implies s[k] != NL by {
            if k > 0 {
                assert(s.skip(1)[k - 1] == s[k]);
            }
        }
    }
}

/// A line feed preceded by a carriage return marks a line end as well:
/// the carriage return is not part of the line.
pub open spec fn chop_cr(s: Seq<u8>) -> Seq<u8> {
    if s.len() > 0 && s.last() == CR {
        s.drop_last()
    } else {
        s
    }
}

/// The lines of `s`: pieces between line feeds, each stripped of one
/// trailing carriage return; a trailing line feed opens no empty last line.
pub open spec fn spec_lines(s: Seq<u8>) -> Seq<Seq<u8>>
    decreases s.len(),
    via spec_lines_decreases
{
    if s.len() == 0 {
        Seq::empty()
    } else {
        let i = first_nl(s);
        if i == s.len() {
            seq![s]
        } else {
            seq![chop_cr(s.take(i))] + spec_lines(s.skip(i + 1))
        }
    }
}

#[via_fn]
proof fn spec_lines_decreases(s: Seq<u8>) {
    lemma_first_nl(s);
}

/// The views of a vector of byte vectors.
pub open spec fn views_of(v: Seq<Vec<u8>>) -> Seq<Seq<u8>> {
    v.map_values(|x: Vec<u8>| x@)
}

/// Splits `input` at line feeds, as `spec_lines` describes.
pub fn split_lines(input: &[u8]) -> (r: Vec<Vec<u8>>)
    ensures
        views_of(r@) == spec_lines(input@),
{
    let n = input.len();
    let mut r: Vec<Vec<u8>> = Vec::new();
    let mut pos: usize = 0;
    proof {
        assert(input@.skip(0) =~= input@);
        assert(views_of(r@) + spec_lines(input@) =~= spec_lines(input@));
    }
    while pos < n
        invariant
            0 <= pos <= n,
            n == input@.len(),
            spec_lines(input@) == views_of(r@) + spec_lines(input@.skip(pos as int)),
        decreases n - pos,
    {
        let mut j: usize = pos;
        while j < n && input[j] != NL
            invariant
                pos <= j <= n,
                n == input@.len(),
                forall|k: int| pos <= k < j ==> input@[k] != NL,
            decreases n - j,
        {
            j += 1;
        }
        let ghost rest = input@.skip(pos as int);
        proof {
            lemma_first_nl(rest);
            assert forall|k: int| 0 <= k < j - pos implies rest[k] != NL by {
                assert(rest[k] == input@[pos + k]);
            }
            if j < n {
                assert(rest[j - pos] == input@[j as int]);
            }
            assert(first_nl(rest) == j - pos);
        }
        if j < n {
            let line = if j > pos && input[j - 1] == CR {
                slice_to_vec(slice_subrange(input, pos, j - 1))
            } else {
                slice_to_vec(slice_subrange(input, pos, j))
            };
            proof {
                assert(rest.take(j - pos) =~= input@.subrange(pos as int, j as int));
                if j > pos && input@[j - 1] == CR {
                    assert(chop_cr(rest.take(j - pos)) =~= input@.subrange(
                        pos as int,
                        j - 1,
                    ));
                } else {
                    assert(chop_cr(rest.take(j - pos)) =~= input@.subrange(
                        pos as int,
                        j as int,
                    ));
                }
                assert(rest.skip(j - pos + 1) =~= input@.skip(j + 1));
                assert(views_of(r@.push(line)) =~= views_of(r@) + seq![line@]);
            }
            r.push(line);
            pos = j + 1;
        } else {
            let line = slice_to_vec(slice_subrange(input, pos, n));
            proof {
                assert(rest =~= input@.subrange(pos as int, n as int));
                assert(spec_lines(rest) =~= seq![rest]);
                assert(views_of(r@.push(line)) =~= views_of(r@) + seq![line@]);
                assert(input@.skip(n as int) =~= Seq::<u8>::empty());
            }
            r.push(line);
            pos = n;
        }
    }
    proof {
        assert(input@.skip(n as int) =~= Seq::<u8>::empty());
        assert(views_of(r@) + spec_lines(input@.skip(n as int)) =~= views_of(r@));
    }
    r
}

/// An ASCII decimal digit.
pub open spec fn is_digit(b: u8) -> bool {
    48 <= b <= 57
}

/// All bytes of `s` are decimal digits.
pub open spec fn all_digits(s: Seq<u8>) -> bool {
    forall|k: int| 0 <= k < s.len() ==> is_digit(#[trigger] s[k])
}

/// The value of `s` read as a decimal numeral.
pub open spec fn dec_value(s: Seq<u8>) -> int
    decreases s.len(),
{
    if s.len() == 0 {
        0
    } else {
        dec_value(s.drop_last()) * 10 + s.last() - 48
    }
}

pub proof fn lemma_dec_value_nonneg(s: Seq<u8>)
    requires
        all_digits(s),
    ensures
        dec_value(s) >= 0,
    decreases s.len(),
{
    if s.len() > 0 {
        lemma_dec_value_nonneg(s.drop_last());
    }
}

pub proof fn lemma_dec_value_prefix_le(s: Seq<u8>, i: int)
    requires
        all_digits(s),
        0 <= i <= s.len(),
    ensures
        dec_value(s.take(i)) <= dec_value(s),
    decreases s.len() - i,
{
    if i < s.len() {
        lemma_dec_value_prefix_le(s, i + 1);
        assert(s.take(i + 1).drop_last() =~= s.take(i));
        assert(all_digits(s.take(i)));
        lemma_dec_value_nonneg(s.take(i));
        assert(dec_value(s.take(i + 1)) == dec_value(s.take(i)) * 10 + s[i] - 48);
    } else {
        assert(s.take(i) =~= s);
    }
}

/// Reads `b` as an unsigned decimal numeral; `None` when a byte is no
/// digit, the slice is empty, or the value does not fit.
pub fn parse_u32(b: &[u8]) -> (r: Option<u32>)
    ensures
        r is Some <==> b@.len() > 0 && all_digits(b@) && dec_value(b@) <= u32::MAX,
        r is Some ==> r->0 == dec_value(b@),
{
    if b.len() == 0 {
        return None;
    }
    let n = b.len();
    let mut acc: u64 = 0;
    let mut i: usize = 0;
    while i < n
        invariant
            0 <= i <= n,
            n == b@.len(),
            all_digits(b@.take(i as int)),
            acc == dec_value(b@.take(i as int)),
            acc <= u32::MAX,
        decreases n - i,
    {
        let c = b[i];
        if c < 48 || c > 57 {
            return None;
        }
        acc = acc * 10 + (c - 48) as u64;
        proof {
            assert(b@.take(i + 1).drop_last() =~= b@.take(i as int));
            assert(b@.take(i + 1).last() == b@[i as int]);
        }
        i += 1;
        if acc > u32::MAX as u64 {
            proof {
                if all_digits(b@) {
                    lemma_dec_value_prefix_le(b@, i as int);
                }
            }
            return None;
        }
    }
    proof {
        assert(b@.take(n as int) =~= b@);
    }
    Some(acc as u32)
}

/// Reads `b` as an unsigned decimal numeral into a `u64`.
pub fn parse_u64(b: &[u8]) -> (r: Option<u64>)
    ensures
        r is Some <==> b@.len() > 0 && all_digits(b@) && dec_value(b@) <= u64::MAX,
        r is Some ==> r->0 == dec_value(b@),
{
    if b.len() == 0 {
        return None;
    }
    let n = b.len();
    let mut acc: u64 = 0;
    let mut i: usize = 0;
    while i < n
        invariant
            0 <= i <= n,
            n == b@.len(),
            all_digits(b@.take(i as int)),
            acc == dec_value(b@.take(i as int)),
        decreases n - i,
    {
        let c = b[i];
        if c < 48 || c > 57 {
            return None;
        }
        let d = (c - 48) as u64;
        if acc > (u64::MAX - d) / 10 {
            proof {
                if all_digits(b@) {
                    lemma_dec_value_prefix_le(b@, i + 1);
                    assert(b@.take(i + 1).drop_last() =~= b@.take(i as int));
                    assert(dec_value(b@.take(i + 1)) == acc * 10 + d);
                }
            }
            return None;
        }
        acc = acc * 10 + d;
        proof {
            assert(b@.take(i + 1).drop_last() =~= b@.take(i as int));
            assert(b@.take(i + 1).last() == b@[i as int]);
        }
        i += 1;
    }
    proof {
        assert(b@.take(n as int) =~= b@);
    }
    Some(acc)
}

/// The value of `s` as a signed decimal numeral: an optional minus sign,
/// then digits.
pub open spec fn int_value(s: Seq<u8>) -> int {
    if s.len() > 0 && s[0] == 45 {
        -dec_value(s.skip(1))
    } else {
        dec_value(s)
    }
}

/// A well-formed signed decimal numeral.
pub open spec fn is_int_numeral(s: Seq<u8>) -> bool {
    if s.len() > 0 && s[0] == 45 {
        s.len() > 1 && all_digits(s.skip(1))
    } else {
        s.len() > 0 && all_digits(s)
    }
}

/// Reads `b` as a signed decimal numeral; `None` when malformed or out of
/// the `i64` range.
pub fn parse_i64(b: &[u8]) -> (r: Option<i64>)
    ensures
        r is Some ==> is_int_numeral(b@) && r->0 == int_value(b@),
        r is None ==> !is_int_numeral(b@) || int_value(b@) > i64::MAX || int_value(b@)
            < i64::MIN,
{
    if b.len() == 0 {
        return None;
    }
    if b[0] == 45 {
        let rest = slice_subrange(b, 1, b.len());
        match parse_u64(rest) {
            Some(v) => {
                if v > 0x8000_0000_0000_0000u64 {
                    return None;
                }
                if v == 0x8000_0000_0000_0000u64 {
                    return Some(i64::MIN);
                }
                Some(-(v as i64))
            },
            None => {
                proof {
                    if is_int_numeral(b@) {
                        assert(rest@ == b@.skip(1));
                    }
                }
                None
            },
        }
    } else {
        match parse_u64(b) {
            Some(v) => {
                if v > i64::MAX as u64 {
                    return None;
                }
                Some(v as i64)
            },
            None => None,
        }
    }
}

/// An ASCII whitespace byte.
pub open spec fn is_ws(b: u8) -> bool {
    b == 32 || b == 9 || b == 10 || b == 13
}

/// How many whitespace bytes `s` begins with.
pub open spec fn lead_ws(s: Seq<u8>) -> int
    decreases s.len(),
{
    if s.len() > 0 && is_ws(s[0]) {
        1 + lead_ws(s.skip(1))
    } else {
        0
    }
}

/// How many whitespace bytes `s` ends with.
pub open spec fn trail_ws(s: Seq<u8>) -> int
    decreases s.len(),
{
    if s.len() > 0 && is_ws(s.last()) {
        1 + trail_ws(s.drop_last())
    } else {
        0
    }
}

/// `s` without leading and trailing whitespace.
pub open spec fn spec_trim(s: Seq<u8>) -> Seq<u8> {
    if lead_ws(s) == s.len() {
        Seq::empty()
    } else {
        s.subrange(lead_ws(s), s.len() - trail_ws(s))
    }
}

pub proof fn lemma_lead_ws(s: Seq<u8>)
    ensures
        0 <= lead_ws(s) <= s.len(),
        forall|k: int| 0 <= k < lead_ws(s) ==> is_ws(s[k]),
        lead_ws(s) < s.len() ==> !is_ws(s[lead_ws(s)]),
    decreases s.len(),
{
    if s.len() > 0 && is_ws(s[0]) {
        lemma_lead_ws(s.skip(1));
        assert forall|k: int| 0 <= k < lead_ws(s) implies is_ws(s[k]) by {
            if k > 0 {
                assert(s.skip(1)[k - 1] == s[k]);
            }
        }
        if lead_ws(s) < s.len() {
            assert(s.skip(1)[lead_ws(s) - 1] == s[lead_ws(s)]);
        }
    }
}

pub proof fn lemma_trail_ws(s: Seq<u8>)
    ensures
        0 <= trail_ws(s) <= s.len(),
        forall|k: int| s.len() - trail_ws(s) <= k < s.len() ==> is_ws(s[k]),
        trail_ws(s) < s.len() ==> !is_ws(s[s.len() - trail_ws(s) - 1]),
    decreases s.len(),
{
    if s.len() > 0 && is_ws(s.last()) {
        lemma_trail_ws(s.drop_last());
        assert forall|k: int| s.len() - trail_ws(s) <= k < s.len() implies is_ws(s[k]) by {
            if k < s.len() - 1 {
                assert(s.drop_last()[k] == s[k]);
            }
        }
        if trail_ws(s) < s.len() {
            assert(s.drop_last()[s.len() - trail_ws(s) - 1 - 1 + 1] == s[s.len() - trail_ws(s)
                - 1]);
        }
    }
}

/// Strips leading and trailing ASCII whitespace.
pub fn trim_bytes(b: &[u8]) -> (r: Vec<u8>)
    ensures
        r@ == spec_trim(b@),
{
    proof {
        lemma_lead_ws(b@);
        lemma_trail_ws(b@);
    }
    let n = b.len();
    let mut lo: usize = 0;
    while lo < n && (b[lo] == 32 || b[lo] == 9 || b[lo] == 10 || b[lo] == 13)
        invariant
            n == b@.len(),
            0 <= lo <= n,
            forall|k: int| 0 <= k < lo ==> is_ws(b@[k]),
        decreases n - lo,
    {
        lo += 1;
    }
    if lo == n {
        proof {
            assert(lead_ws(b@) == n);
            assert(spec_trim(b@) =~= Seq::<u8>::empty());
        }
        return Vec::new();
    }
    proof {
        assert(lead_ws(b@) == lo);
    }
    let mut hi: usize = n;
    while hi > lo + 1 && (b[hi - 1] == 32 || b[hi - 1] == 9 || b[hi - 1] == 10 || b[hi - 1]
        == 13)
        invariant
            n == b@.len(),
            0 <= lo < hi <= n,
            !is_ws(b@[lo as int]),
            forall|k: int| hi <= k < n ==> is_ws(b@[k]),
        decreases hi,
    {
        hi -= 1;
    }
    proof {
        assert(!is_ws(b@[hi - 1]));
        assert(trail_ws(b@) == n - hi);
        assert(spec_trim(b@) =~= b@.subrange(lo as int, hi as int));
    }
    slice_to_vec(slice_subrange(b, lo, hi))
}

/// Index of the first `target` in `s` at or after `from`, or `s.len()`
/// if there is none.
pub open spec fn find_byte_from(s: Seq<u8>, from: int, target: u8) -> int
    decreases s.len() - from,
{
    if from < 0 || from >= s.len() {
        s.len() as int
    } else if s[from] == target {
        from
    } else {
        find_byte_from(s, from + 1, target)
    }
}

pub proof fn lemma_find_byte_bounds(s: Seq<u8>, from: int, target: u8)
    requires
        0 <= from <= s.len(),
    ensures
        from <= find_byte_from(s, from, target) <= s.len(),
        find_byte_from(s, from, target) < s.len() ==> s[find_byte_from(s, from, target)]
            == target,
        forall|k: int| from <= k < find_byte_from(s, from, target) ==> s[k] != target,
    decreases s.len() - from,
{
    if from < s.len() && s[from] != target {
        lemma_find_byte_bounds(s, from + 1, target);
    }
}

/// Scans for the first `target` at or after `from`.
pub fn find_byte(b: &[u8], from: usize, target: u8) -> (r: usize)
    requires
        from <= b@.len(),
    ensures
        r == find_byte_from(b@, from as int, target),
{
    let n = b.len();
    let mut j: usize = from;
    while j < n
        invariant
            from <= j <= n,
            n == b@.len(),
            find_byte_from(b@, from as int, target) == find_byte_from(b@, j as int, target),
        decreases n - j,
    {
        if b[j] == target {
            return j;
        }
        j += 1;
    }
    n
}


/// Relies on `String::from_utf8`: bytes below 128 are valid UTF-8 and
/// decode to the characters of the same code points.
#[verifier::external_body]
pub fn ascii_string(v: Vec<u8>) -> (r: String)
    requires
        forall|k: int| 0 <= k < v@.len() ==> #[trigger] v@[k] < 128,
    ensures
        r@ == v@.map_values(|b: u8| b as char),
{
    match String::from_utf8(v) {
        Ok(s) => s,
        Err(_) => String::new(),
    }
}


/// Compares two byte strings.
pub fn bytes_eq(a: &[u8], b: &[u8]) -> (r: bool)
    ensures
        r == (a@ == b@),
{
    let n = a.len();
    if n != b.len() {
        proof {
            assert(a@.len() != b@.len());
        }
        return false;
    }
    let mut i: usize = 0;
    while i < n
        invariant
            0 <= i <= n,
            n == a@.len(),
            n == b@.len(),
            forall|k: int| 0 <= k < i ==> a@[k] == b@[k],
        decreases n - i,
    {
        if a[i] != b[i] {
            return false;
        }
        i += 1;
    }
    proof {
        assert(a@ =~= b@);
    }
    true
}

/// Copies `b[from..to]` into a fresh vector.
pub fn bytes_of(b: &[u8], from: usize, to: usize) -> (r: Vec<u8>)
    requires
        0 <= from <= to <= b@.len(),
    ensures
        r@ == b@.subrange(from as int, to as int),
{
    slice_to_vec(slice_subrange(b, from, to))
}

/// Sum of the line lengths.
pub open spec fn lines_total_len(ls: Seq<Seq<u8>>) -> int
    decreases ls.len(),
{
    if ls.len() == 0 {
        0
    } else {
        ls[0].len() + lines_total_len(ls.skip(1))
    }
}

pub proof fn lemma_lines_len_bound(s: Seq<u8>)
    ensures
        lines_total_len(spec_lines(s)) <= s.len(),
    decreases s.len(),
{
    if s.len() > 0 {
        lemma_first_nl(s);
        let i = first_nl(s);
        let ls = spec_lines(s);
        if i == s.len() {
            assert(ls == seq![s]);
            assert(ls.skip(1) =~= Seq::<Seq<u8>>::empty());
            assert(lines_total_len(ls.skip(1)) == 0);
            assert(ls[0] == s);
            assert(lines_total_len(ls) == s.len() + lines_total_len(ls.skip(1)));
        } else {
            lemma_lines_len_bound(s.skip(i + 1));
            let chop = chop_cr(s.take(i));
            let rest = spec_lines(s.skip(i + 1));
            assert(ls == seq![chop] + rest);
            assert(ls.skip(1) =~= rest);
            assert(ls[0] == chop);
            assert(s.take(i).len() == i);
            assert(chop.len() <= i);
            assert(lines_total_len(ls) == chop.len() + lines_total_len(rest));
            assert(s.skip(i + 1).len() == s.len() - i - 1);
        }
    }
}

pub proof fn lemma_uniform_lines_total(ls: Seq<Seq<u8>>, w: int)
    requires
        forall|k: int| 0 <= k < ls.len() ==> #[trigger] ls[k].len() == w,
    ensures
        lines_total_len(ls) == ls.len() * w,
    decreases ls.len(),
{
    if ls.len() == 0 {
        assert(ls.len() * w == 0) by (nonlinear_arith)
            requires
                ls.len() == 0,
        ;
    } else {
        assert forall|k: int| 0 <= k < ls.skip(1).len() implies #[trigger] ls.skip(1)[k].len()
            == w by {
            assert(ls.skip(1)[k] == ls[k + 1]);
        }
        lemma_uniform_lines_total(ls.skip(1), w);
        assert(ls.len() * w == (ls.len() - 1) * w + w) by (nonlinear_arith);
    }
}


} // verus!
