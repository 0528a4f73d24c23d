//! Start-of-message detection in a character stream.
//!
//! The marker ends at the first position where the last `unique_chars`
//! characters are pairwise distinct; the answer is that position,
//! counted from 1.
use vstd::prelude::*;
use vstd::string::StrSliceExecFns;

verus! {

/// The `k` characters of `s` ending just before `endpos` are pairwise
/// distinct.
pub open spec fn window_distinct(s: Seq<char>, endpos: int, k: int) -> bool {
    forall|a: int, b: int| endpos - k <= a < b < endpos ==> s[a] != s[b]
}

/// Some window of `k` distinct characters ends at or before `s.len()`.
pub open spec fn has_marker(s: Seq<char>, k: int) -> bool {
    exists|j: int| k <= j <= s.len() && window_distinct(s, j, k)
}

/// The characters of `s`, one by one.
fn chars_of(s: &str) -> (v: Vec<char>)
    ensures
        v@ == s@,
{
    let n = s.unicode_len();
    let mut v: Vec<char> = Vec::new();
    let mut i: usize = 0;
    while i < n
        invariant
            n == s@.len(),
            0 <= i <= n,
            v@ =~= s@.take(i as int),
        decreases n - i,
    {
        v.push(s.get_char(i));
        proof {
            assert(v@ =~= s@.take(i + 1));
        }
        i += 1;
    }
    proof {
        assert(s@.take(n as int) =~= s@);
    }
    v
}

/// Are the characters of `v` in `[from, to)` pairwise distinct?
fn is_window_distinct(v: &Vec<char>, from: usize, to: usize) -> (r: bool)
    requires
        from <= to <= v@.len(),
    ensures
        r == (forall|a: int, b: int| from <= a < b < to ==> v@[a] != v@[b]),
{
    let mut a = from;
    while a < to
        invariant
            from <= a <= to <= v@.len(),
            forall|x: int, y: int| from <= x < y < to && x < a ==> v@[x] != v@[y],
        decreases to - a,
    {
        let mut b = a + 1;
        while b < to
            invariant
                from <= a < b <= to <= v@.len(),
                forall|y: int| a < y < b ==> v@[a as int] != v@[y],
            decreases to - b,
        {
            if v[a] == v[b] {
                return false;
            }
            b += 1;
        }
        a += 1;
    }
    true
}

/// One past the end of the first window of `unique_chars` pairwise
/// distinct characters.
pub fn unique_characters_offset(input: &str, unique_chars: usize) -> (r: usize)
    requires
        unique_chars >= 1,
        has_marker(input@, unique_chars as int),
    ensures
        unique_chars <= r <= input@.len(),
        window_distinct(input@, r as int, unique_chars as int),
        forall|j: int|
            unique_chars <= j < r ==> !window_distinct(input@, j, unique_chars as int),
{
    let v = chars_of(input);
    let n = v.len();
    let k = unique_chars;
    proof {
        let j = choose|j: int|
            k <= j <= input@.len() && window_distinct(input@, j, k as int);
        assert(k <= n);
    }
    let mut endpos = k;
    while endpos <= n
        invariant
            v@ == input@,
            n == v@.len(),
            k == unique_chars,
            1 <= k <= endpos <= n + 1,
            has_marker(input@, k as int),
            forall|j: int| k <= j < endpos ==> !window_distinct(input@, j, k as int),
        decreases n + 1 - endpos,
    {
        if is_window_distinct(&v, endpos - k, endpos) {
            proof {
                assert(window_distinct(input@, endpos as int, k as int));
            }
            return endpos;
        }
        proof {
            assert(!window_distinct(input@, endpos as int, k as int));
        }
        endpos += 1;
    }
    proof {
        let j = choose|j: int|
            k <= j <= input@.len() && window_distinct(input@, j, k as int);
        assert(!window_distinct(input@, j, k as int));
        assert(false);
    }
    vstd::pervasive::unreached()
}

} // verus!
