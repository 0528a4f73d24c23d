//! Crates moved between stacks.
//!
//! The drawing at the top of the input shows stacks of lettered
//! crates, one letter every four columns; the lines from the first
//! "move" on give instructions "move N from A to B". One crane moves
//! crates one at a time (reversing them), the other moves the whole
//! block at once. The answer reads the top crate of every stack.
use vstd::prelude::*;
use vstd::slice::slice_subrange;
use vstd::string::StringSliceAdditionalSpecFns;

use crate::rucksack::occurs;
use crate::text::all_digits;
use crate::text::ascii_string;
use crate::text::dec_value;
use crate::text::find_byte;
use crate::text::find_byte_from;
use crate::text::lemma_find_byte_bounds;
use crate::text::parse_u64;
use crate::text::spec_lines;
use crate::text::split_lines;
use crate::text::views_of;

verus! {

/// "move" stands at position `i`.
pub open spec fn has_move_at(s: Seq<u8>, i: int) -> bool {
    &&& 0 <= i
    &&& i + 4 <= s.len()
    &&& s[i] == 109
    &&& s[i + 1] == 111
    &&& s[i + 2] == 118
    &&& s[i + 3] == 101
}

/// Position of the first "move" at or after `i`; the length if none.
pub open spec fn move_from(s: Seq<u8>, i: int) -> int
    decreases s.len() - i,
{
    if i < 0 || i >= s.len() {
        s.len() as int
    } else if has_move_at(s, i) {
        i
    } else {
        move_from(s, i + 1)
    }
}

pub proof fn lemma_move_from(s: Seq<u8>, i: int)
    requires
        0 <= i <= s.len(),
    ensures
        i <= move_from(s, i) <= s.len(),
        move_from(s, i) < s.len() ==> has_move_at(s, move_from(s, i)),
        forall|k: int| i <= k < move_from(s, i) ==> !has_move_at(s, k),
    decreases s.len() - i,
{
    if i < s.len() && !has_move_at(s, i) {
        lemma_move_from(s, i + 1);
    }
}

/// The crate letter of slot `k` of one drawing line, if the slot
/// holds a bracket.
pub open spec fn slot(l: Seq<u8>, k: int) -> Seq<u8> {
    if 0 <= k && 4 * k + 3 <= l.len() && (l[4 * k] == 91 || l[4 * k + 1] == 91 || l[4 * k + 2]
        == 91) {
        seq![l[4 * k + 1]]
    } else {
        Seq::empty()
    }
}

/// Stack `k` of the drawing, bottom crate first.
pub open spec fn stack_of(ls: Seq<Seq<u8>>, k: int) -> Seq<u8>
    decreases ls.len(),
{
    if ls.len() == 0 {
        Seq::empty()
    } else {
        stack_of(ls.skip(1), k) + slot(ls[0], k)
    }
}

proof fn lemma_stack_of_push(ls: Seq<Seq<u8>>, l: Seq<u8>, k: int)
    ensures
        stack_of(ls.push(l), k) == slot(l, k) + stack_of(ls, k),
    decreases ls.len(),
{
    if ls.len() == 0 {
        assert(ls.push(l).skip(1) =~= Seq::<Seq<u8>>::empty());
        assert(ls.push(l)[0] == l);
        assert(stack_of(ls.push(l), k) == stack_of(ls.push(l).skip(1), k) + slot(l, k));
        assert(stack_of(Seq::<Seq<u8>>::empty(), k) == Seq::<u8>::empty());
        assert(stack_of(ls.push(l), k) =~= slot(l, k) + stack_of(ls, k));
    } else {
        assert(ls.push(l).skip(1) =~= ls.skip(1).push(l));
        assert(ls.push(l)[0] == ls[0]);
        lemma_stack_of_push(ls.skip(1), l, k);
        assert(stack_of(ls.push(l), k) == stack_of(ls.skip(1).push(l), k) + slot(ls[0], k));
        assert(stack_of(ls.skip(1).push(l), k) == slot(l, k) + stack_of(ls.skip(1), k));
        assert(stack_of(ls, k) == stack_of(ls.skip(1), k) + slot(ls[0], k));
        assert((slot(l, k) + stack_of(ls.skip(1), k)) + slot(ls[0], k) =~= slot(l, k) + (
        stack_of(ls.skip(1), k) + slot(ls[0], k)));
    }
}

/// Longest line of the drawing.
pub open spec fn max_line_len(ls: Seq<Seq<u8>>) -> int
    decreases ls.len(),
{
    if ls.len() == 0 {
        0
    } else {
        let rest = max_line_len(ls.skip(1));
        if ls[0].len() >= rest {
            ls[0].len() as int
        } else {
            rest
        }
    }
}

/// Every line with a bracket has the drawing's shape: three columns
/// per slot plus a separator, the letters plain ASCII.
pub open spec fn drawing_ok(ls: Seq<Seq<u8>>) -> bool {
    &&& ls.len() > 0
    &&& forall|i: int|
        0 <= i < ls.len() && occurs(#[trigger] ls[i], 91) ==> (ls[i].len() % 4 == 3 && forall|
            k: int,
        |
            slot(ls[i], k).len() == 1 ==> (#[trigger] slot(ls[i], k))[0] < 128)
}

/// Reads the drawing into stacks, bottom crate first; the number of
/// stacks comes from the longest line.
#[verifier::loop_isolation(false)]
#[verifier::rlimit(60)]
pub fn parse_stacks(raw_stacks: &str) -> (r: Vec<Vec<u8>>)
    requires
        drawing_ok(spec_lines(raw_stacks.spec_bytes())),
        max_line_len(spec_lines(raw_stacks.spec_bytes())) / 4 + 1 <= usize::MAX,
    ensures
        ({
            let ls = spec_lines(raw_stacks.spec_bytes());
            &&& r@.len() == max_line_len(ls) / 4 + 1
            &&& forall|k: int| 0 <= k < r@.len() ==> (#[trigger] r@[k])@ == stack_of(ls, k)
        }),
{
    parse_stacks_bytes(raw_stacks.as_bytes())
}

#[verifier::loop_isolation(false)]
#[verifier::rlimit(60)]
fn parse_stacks_bytes(raw: &[u8]) -> (r: Vec<Vec<u8>>)
    requires
        drawing_ok(spec_lines(raw@)),
        max_line_len(spec_lines(raw@)) / 4 + 1 <= usize::MAX,
    ensures
        ({
            let ls = spec_lines(raw@);
            &&& r@.len() == max_line_len(ls) / 4 + 1
            &&& forall|k: int| 0 <= k < r@.len() ==> (#[trigger] r@[k])@ == stack_of(ls, k)
        }),
{
    let ghost lsg = spec_lines(raw@);
    let lines = split_lines(raw);
    let n = lines.len();
    let mut maxlen: usize = 0;
    let mut i: usize = 0;
    while i < n
        invariant
            0 <= i <= n,
            maxlen == max_line_len(lsg.take(i as int)),
        decreases n - i,
    {
        proof {
            assert(lsg[i as int] == lines@[i as int]@);
            lemma_maxlen_push(lsg.take(i as int), lsg[i as int]);
            assert(lsg.take(i + 1) =~= lsg.take(i as int).push(lsg[i as int]));
        }
        if lines[i].len() > maxlen {
            maxlen = lines[i].len();
        }
        i += 1;
    }
    proof {
        assert(lsg.take(n as int) =~= lsg);
    }
    let stack_count = maxlen / 4 + 1;
    let mut stacks: Vec<Vec<u8>> = Vec::new();
    let mut k: usize = 0;
    while k < stack_count
        invariant
            0 <= k <= stack_count,
            stacks@.len() == k,
            forall|j: int| 0 <= j < k ==> (#[trigger] stacks@[j])@ == Seq::<u8>::empty(),
        decreases stack_count - k,
    {
        stacks.push(Vec::new());
        k += 1;
    }
    let mut i: usize = 0;
    proof {
        assert forall|j: int| 0 <= j < stack_count implies (#[trigger] stacks@[j])@ == stack_of(
            lsg.take(0),
            j,
        ) by {
            assert(lsg.take(0) =~= Seq::<Seq<u8>>::empty());
        }
    }
    while i < n
        invariant
            0 <= i <= n,
            maxlen == max_line_len(lsg),
            stack_count == maxlen / 4 + 1,
            stacks@.len() == stack_count,
            forall|j: int|
                0 <= j < stack_count ==> (#[trigger] stacks@[j])@ == stack_of(lsg.take(i as int), j),
        decreases n - i,
    {
        proof {
            assert(lsg[i as int] == lines@[i as int]@);
            assert(lsg.take(i + 1) =~= lsg.take(i as int).push(lsg[i as int]));
            lemma_maxlen_ge(lsg, i as int);
        }
        let ghost l = lsg[i as int];
        let line = &lines[i];
        let mut has_bracket = false;
        let mut t: usize = 0;
        let m = line.len();
        while t < m
            invariant
                0 <= t <= m,
                m == l.len(),
                line@ == l,
                has_bracket ==> occurs(l, 91),
                !has_bracket ==> forall|x: int| 0 <= x < t ==> l[x] != 91,
            decreases m - t,
        {
            if line[t] == 91 {
                has_bracket = true;
            }
            t += 1;
        }
        if m > 0 && has_bracket {
            let layer_count = m / 4 + 1;
            let mut si: usize = 0;
            while si < layer_count
                invariant
                    0 <= si <= layer_count,
                    m == l.len(),
                    line@ == l,
                    occurs(l, 91),
                    m % 4 == 3,
                    layer_count == m / 4 + 1,
                    layer_count <= stack_count,
                    stacks@.len() == stack_count,
                    forall|j: int|
                        0 <= j < stack_count ==> (#[trigger] stacks@[j])@ == (if j < si {
                            slot(l, j) + stack_of(lsg.take(i as int), j)
                        } else {
                            stack_of(lsg.take(i as int), j)
                        }),
                decreases layer_count - si,
            {
                proof {
                    assert(4 * si + 3 <= m) by {
                        assert(m % 4 == 3);
                        assert(si <= m / 4);
                    }
                }
                let a = line[4 * si];
                let b = line[4 * si + 1];
                let c = line[4 * si + 2];
                if a == 91 || b == 91 || c == 91 {
                    proof {
                        assert(slot(l, si as int) =~= seq![l[4 * si + 1]]);
                    }
                    let ghost before = stacks@;
                    let mut st = stacks.remove(si);
                    st.insert(0, b);
                    stacks.insert(si, st);
                    proof {
                        assert forall|j: int|
                            0 <= j < stack_count implies (#[trigger] stacks@[j])@ == (if j < si
                            + 1 {
                            slot(l, j) + stack_of(lsg.take(i as int), j)
                        } else {
                            stack_of(lsg.take(i as int), j)
                        }) by {
                            if j == si {
                                assert(stacks@[j]@ =~= slot(l, j) + stack_of(
                                    lsg.take(i as int),
                                    j,
                                ));
                            } else {
                                assert(stacks@[j] == before[j]);
                            }
                        }
                    }
                } else {
                    proof {
                        assert(slot(l, si as int) =~= Seq::<u8>::empty());
                        assert forall|j: int|
                            0 <= j < stack_count implies (#[trigger] stacks@[j])@ == (if j < si
                            + 1 {
                            slot(l, j) + stack_of(lsg.take(i as int), j)
                        } else {
                            stack_of(lsg.take(i as int), j)
                        }) by {
                            if j == si {
                                assert(slot(l, j) + stack_of(lsg.take(i as int), j)
                                    =~= stack_of(lsg.take(i as int), j));
                            }
                        }
                    }
                }
                si += 1;
            }
            proof {
                lemma_stack_of_push(lsg.take(i as int), l, 0);
                assert forall|j: int|
                    0 <= j < stack_count implies (#[trigger] stacks@[j])@ == stack_of(
                    lsg.take(i + 1),
                    j,
                ) by {
                    lemma_stack_of_push(lsg.take(i as int), l, j);
                    if j >= layer_count {
                        assert(slot(l, j) =~= Seq::<u8>::empty());
                        assert(slot(l, j) + stack_of(lsg.take(i as int), j) =~= stack_of(
                            lsg.take(i as int),
                            j,
                        ));
                    }
                }
            }
        } else {
            proof {
                assert forall|j: int|
                    0 <= j < stack_count implies (#[trigger] stacks@[j])@ == stack_of(
                    lsg.take(i + 1),
                    j,
                ) by {
                    lemma_stack_of_push(lsg.take(i as int), l, j);
                    assert(slot(l, j) =~= Seq::<u8>::empty()) by {
                        if m == 0 {
                        } else {
                            assert(forall|x: int| 0 <= x < l.len() ==> l[x] != 91);
                        }
                    }
                    assert(slot(l, j) + stack_of(lsg.take(i as int), j) =~= stack_of(
                        lsg.take(i as int),
                        j,
                    ));
                }
            }
        }
        i += 1;
    }
    proof {
        assert(lsg.take(n as int) =~= lsg);
    }
    stacks
}

proof fn lemma_maxlen_push(ls: Seq<Seq<u8>>, l: Seq<u8>)
    ensures
        max_line_len(ls.push(l)) == (if l.len() >= max_line_len(ls) {
            l.len() as int
        } else {
            max_line_len(ls)
        }),
    decreases ls.len(),
{
    if ls.len() == 0 {
        assert(ls.push(l).skip(1) =~= Seq::<Seq<u8>>::empty());
        assert(max_line_len(Seq::<Seq<u8>>::empty()) == 0);
    } else {
        assert(ls.push(l).skip(1) =~= ls.skip(1).push(l));
        assert(ls.push(l)[0] == ls[0]);
        lemma_maxlen_push(ls.skip(1), l);
        assert(max_line_len(ls.push(l)) == (if ls[0].len() >= max_line_len(ls.skip(1).push(l)) {
            ls[0].len() as int
        } else {
            max_line_len(ls.skip(1).push(l))
        }));
        assert(max_line_len(ls) == (if ls[0].len() >= max_line_len(ls.skip(1)) {
            ls[0].len() as int
        } else {
            max_line_len(ls.skip(1))
        }));
    }
}

proof fn lemma_maxlen_ge(ls: Seq<Seq<u8>>, i: int)
    requires
        0 <= i < ls.len(),
    ensures
        max_line_len(ls) >= ls[i].len(),
    decreases ls.len(),
{
    if i > 0 {
        assert(ls.skip(1)[i - 1] == ls[i]);
        lemma_maxlen_ge(ls.skip(1), i - 1);
    }
}

/// The line holds a "move" somewhere.
pub open spec fn has_move_line(l: Seq<u8>) -> bool {
    move_from(l, 0) < l.len()
}

/// The line is exactly "move N from A to B".
pub open spec fn move_line_ok(l: Seq<u8>) -> bool {
    &&& l.len() >= 5
    &&& has_move_at(l, 0)
    &&& l[4] == 32
    &&& ({
        let d1 = find_byte_from(l, 5, 32);
        &&& 5 < d1 < l.len()
        &&& all_digits(l.subrange(5, d1))
        &&& dec_value(l.subrange(5, d1)) <= u64::MAX
        &&& d1 + 6 <= l.len()
        &&& l[d1 + 1] == 102 && l[d1 + 2] == 114 && l[d1 + 3] == 111 && l[d1 + 4] == 109 && l[d1
            + 5] == 32
        &&& ({
            let d2 = find_byte_from(l, d1 + 6, 32);
            &&& d1 + 6 < d2 < l.len()
            &&& all_digits(l.subrange(d1 + 6, d2))
            &&& dec_value(l.subrange(d1 + 6, d2)) <= u64::MAX
            &&& d2 + 4 <= l.len()
            &&& l[d2 + 1] == 116 && l[d2 + 2] == 111 && l[d2 + 3] == 32
            &&& l.skip(d2 + 4).len() > 0
            &&& all_digits(l.skip(d2 + 4))
            &&& dec_value(l.skip(d2 + 4)) <= u64::MAX
        })
    })
}

/// How many crates the instruction moves.
pub open spec fn move_count(l: Seq<u8>) -> int {
    dec_value(l.subrange(5, find_byte_from(l, 5, 32)))
}

/// The 1-based source stack.
pub open spec fn move_src(l: Seq<u8>) -> int {
    let d1 = find_byte_from(l, 5, 32);
    dec_value(l.subrange(d1 + 6, find_byte_from(l, d1 + 6, 32)))
}

/// The 1-based target stack.
pub open spec fn move_dst(l: Seq<u8>) -> int {
    let d1 = find_byte_from(l, 5, 32);
    let d2 = find_byte_from(l, d1 + 6, 32);
    dec_value(l.skip(d2 + 4))
}

/// Moves `count` crates one at a time from stack `f` to stack `t`;
/// `None` when the source runs dry.
pub open spec fn pop_push(st: Seq<Seq<u8>>, f: int, t: int, count: int) -> Option<Seq<Seq<u8>>>
    decreases count,
{
    if count <= 0 {
        Some(st)
    } else if st[f].len() == 0 {
        None
    } else {
        let x = st[f].last();
        let st1 = st.update(f, st[f].drop_last());
        pop_push(st1.update(t, st1[t].push(x)), f, t, count - 1)
    }
}

/// One instruction, crates moved one at a time.
pub open spec fn step1(st: Seq<Seq<u8>>, l: Seq<u8>) -> Option<Seq<Seq<u8>>> {
    if !move_line_ok(l) {
        None
    } else if !(1 <= move_src(l) <= st.len() && 1 <= move_dst(l) <= st.len()) {
        None
    } else {
        pop_push(st, move_src(l) - 1, move_dst(l) - 1, move_count(l))
    }
}

/// One instruction, the whole block moved at once.
pub open spec fn step2(st: Seq<Seq<u8>>, l: Seq<u8>) -> Option<Seq<Seq<u8>>> {
    if !move_line_ok(l) {
        None
    } else if !(1 <= move_src(l) <= st.len() && 1 <= move_dst(l) <= st.len()) {
        None
    } else {
        let f = move_src(l) - 1;
        let t = move_dst(l) - 1;
        let count = move_count(l);
        if count > st[f].len() {
            None
        } else {
            let keep = st[f].len() - count;
            let st1 = st.update(f, st[f].take(keep as int));
            Some(st1.update(t, st1[t] + st[f].skip(keep as int)))
        }
    }
}

/// Runs the instruction lines from index `i` on; lines without a
/// "move" are skipped.
pub open spec fn run_moves(
    st: Seq<Seq<u8>>,
    ls: Seq<Seq<u8>>,
    i: int,
    one_at_a_time: bool,
) -> Option<Seq<Seq<u8>>>
    decreases ls.len() - i,
{
    if i < 0 || i >= ls.len() {
        Some(st)
    } else if !has_move_line(ls[i]) {
        run_moves(st, ls, i + 1, one_at_a_time)
    } else {
        let step = if one_at_a_time {
            step1(st, ls[i])
        } else {
            step2(st, ls[i])
        };
        match step {
            None => None,
            Some(st2) => run_moves(st2, ls, i + 1, one_at_a_time),
        }
    }
}

/// The stacks the drawing spells.
pub open spec fn initial_stacks(st_text: Seq<u8>) -> Seq<Seq<u8>> {
    Seq::new(
        (max_line_len(spec_lines(st_text)) / 4 + 1) as nat,
        |k: int| stack_of(spec_lines(st_text), k),
    )
}

/// The top crate of every stack, left to right.
pub open spec fn message_of(st: Seq<Seq<u8>>) -> Seq<u8> {
    Seq::new(st.len(), |k: int| st[k].last())
}

/// The final stacks of the whole input under the chosen crane.
pub open spec fn final_stacks(s: Seq<u8>, one_at_a_time: bool) -> Option<Seq<Seq<u8>>> {
    let m = move_from(s, 0);
    run_moves(initial_stacks(s.take(m)), spec_lines(s.skip(m)), 0, one_at_a_time)
}

/// The whole input is well-formed for a crane run and leaves no
/// stack empty.
pub open spec fn crane_input_ok(s: Seq<u8>, one_at_a_time: bool) -> bool {
    &&& move_from(s, 0) < s.len()
    &&& drawing_ok(spec_lines(s.take(move_from(s, 0))))
    &&& max_line_len(spec_lines(s.take(move_from(s, 0)))) / 4 + 1 <= usize::MAX
    &&& final_stacks(s, one_at_a_time) is Some
    &&& forall|k: int|
        0 <= k < final_stacks(s, one_at_a_time)->0.len() ==> (#[trigger] final_stacks(
            s,
            one_at_a_time,
        )->0[k]).len() > 0 && final_stacks(s, one_at_a_time)->0[k].last() < 128
}

/// Reads one instruction's three numbers.
fn parse_instruction_line(l: &[u8]) -> (r: (u64, u64, u64))
    requires
        move_line_ok(l@),
    ensures
        r.0 == move_count(l@),
        r.1 == move_src(l@),
        r.2 == move_dst(l@),
{
    proof {
        lemma_find_byte_bounds(l@, 5, 32);
    }
    let ln = l.len();
    let d1 = find_byte(l, 5, 32);
    let cb = slice_subrange(l, 5, d1);
    proof {
        assert(cb@ =~= l@.subrange(5, d1 as int));
        lemma_find_byte_bounds(l@, d1 + 6, 32);
    }
    let count = match parse_u64(cb) {
        Some(v) => v,
        None => vstd::pervasive::unreached(),
    };
    let d2 = find_byte(l, d1 + 6, 32);
    let fb = slice_subrange(l, d1 + 6, d2);
    proof {
        assert(fb@ =~= l@.subrange(d1 + 6, d2 as int));
    }
    let from = match parse_u64(fb) {
        Some(v) => v,
        None => vstd::pervasive::unreached(),
    };
    let tb = slice_subrange(l, d2 + 4, ln);
    proof {
        assert(tb@ =~= l@.skip(d2 + 4));
    }
    let to = match parse_u64(tb) {
        Some(v) => v,
        None => vstd::pervasive::unreached(),
    };
    (count, from, to)
}

proof fn lemma_pop_push_self(st: Seq<Seq<u8>>, f: int, count: int)
    requires
        count <= 0 || st[f].len() > 0,
        0 <= f < st.len(),
    ensures
        pop_push(st, f, f, count) == Some(st),
    decreases count,
{
    if count > 0 {
        let x = st[f].last();
        let st1 = st.update(f, st[f].drop_last());
        let st2 = st1.update(f, st1[f].push(x));
        assert(st1[f].push(x) =~= st[f]);
        assert(st2 =~= st);
        lemma_pop_push_self(st2, f, count - 1);
    }
}

/// Runs one crane over the whole input and reads the top crates.
#[verifier::loop_isolation(false)]
#[verifier::rlimit(100)]
fn crane_run(input: &str, one_at_a_time: bool) -> (r: String)
    requires
        crane_input_ok(input.spec_bytes(), one_at_a_time),
    ensures
        r@ == message_of(final_stacks(input.spec_bytes(), one_at_a_time)->0).map_values(
            |b: u8| b as char,
        ),
{
    let ghost sg = input.spec_bytes();
    let bytes = input.as_bytes();
    let n = bytes.len();
    let mut m: usize = 0;
    proof {
        lemma_move_from(sg, 0);
    }
    while m < n
        invariant
            0 <= m <= n,
            move_from(sg, 0) == move_from(sg, m as int),
            m < move_from(sg, 0) + 1,
        decreases n - m,
    {
        if n - m >= 4 && bytes[m] == 109 && bytes[m + 1] == 111 && bytes[m + 2] == 118 && bytes[m
            + 3] == 101 {
            proof {
                assert(has_move_at(sg, m as int));
                assert(move_from(sg, m as int) == m);
            }
            break ;
        }
        proof {
            assert(!has_move_at(sg, m as int));
            assert(move_from(sg, m as int) == move_from(sg, m + 1));
            lemma_move_from(sg, m + 1);
        }
        m += 1;
    }
    proof {
        if m == n {
            lemma_move_from(sg, 0);
            assert(false);
        }
        assert(m == move_from(sg, 0));
    }
    let st_text = slice_subrange(bytes, 0, m);
    proof {
        assert(st_text@ =~= sg.take(m as int));
    }
    let mut stacks = parse_stacks_bytes(st_text);
    proof {
        assert(views_of(stacks@) =~= initial_stacks(sg.take(m as int)));
    }
    let instr = slice_subrange(bytes, m, n);
    proof {
        assert(instr@ =~= sg.skip(m as int));
    }
    let lines = split_lines(instr);
    let ghost lsq = spec_lines(sg.skip(m as int));
    let ghost goal = final_stacks(sg, one_at_a_time);
    let ln = lines.len();
    let mut i: usize = 0;
    proof {
        assert(run_moves(views_of(stacks@), lsq, 0, one_at_a_time) == goal);
    }
    while i < ln
        invariant
            0 <= i <= ln,
            ln == lsq.len(),
            views_of(lines@) == lsq,
            ln == lines@.len(),
            run_moves(views_of(stacks@), lsq, i as int, one_at_a_time) == goal,
        decreases ln - i,
    {
        proof {
            assert(lsq[i as int] == lines@[i as int]@);
        }
        let ghost l = lsq[i as int];
        let line = &lines[i];
        let lm = line.len();
        let mut p: usize = 0;
        let mut found = false;
        while p < lm && !found
            invariant
                0 <= p <= lm,
                lm == l.len(),
                line@ == l,
                !found ==> move_from(l, 0) == move_from(l, p as int),
                found ==> has_move_line(l),
            decreases lm - p + (if found {
                0int
            } else {
                1int
            }),
        {
            if lm - p >= 4 && line[p] == 109 && line[p + 1] == 111 && line[p + 2] == 118 && line[p
                + 3] == 101 {
                proof {
                    assert(has_move_at(l, p as int));
                    lemma_move_from(l, 0);
                    assert(move_from(l, 0) <= p);
                    lemma_move_from(l, 0);
                }
                found = true;
            } else {
                proof {
                    assert(!has_move_at(l, p as int));
                    assert(move_from(l, p as int) == move_from(l, p + 1));
                }
                p += 1;
            }
        }
        if found {
            let ghost st_entry = views_of(stacks@);
            let scn = stacks.len();
            proof {
                assert(st_entry.len() == scn);
                lemma_move_from(l, 0);
                if !move_line_ok(l) {
                    assert(run_moves(st_entry, lsq, i as int, one_at_a_time) is None);
                    assert(false);
                }
            }
            let (count, from, to) = parse_instruction_line(line.as_slice());
            proof {
                if !(1 <= from && from as int <= st_entry.len() && 1 <= to && to as int
                    <= st_entry.len()) {
                    if one_at_a_time {
                        assert(step1(st_entry, l) is None);
                    } else {
                        assert(step2(st_entry, l) is None);
                    }
                    assert(run_moves(st_entry, lsq, i as int, one_at_a_time) is None);
                    assert(false);
                }
            }
            let f = (from - 1) as usize;
            let t = (to - 1) as usize;
            proof {
                assert(count as int == move_count(l));
                assert(f as int == move_src(l) - 1);
                assert(t as int == move_dst(l) - 1);
            }
            if one_at_a_time {
                if f == t {
                    proof {
                        if count > 0 && st_entry[f as int].len() == 0 {
                            assert(pop_push(st_entry, f as int, f as int, count as int) is None);
                            assert(false);
                        }
                        lemma_pop_push_self(st_entry, f as int, count as int);
                    }
                } else {
                    let (mut sf, mut sd) = if f < t {
                        let b = stacks.remove(t);
                        let a = stacks.remove(f);
                        (a, b)
                    } else {
                        let a = stacks.remove(f);
                        let b = stacks.remove(t);
                        (a, b)
                    };
                    proof {
                        assert(sf@ == st_entry[f as int]);
                        assert(sd@ == st_entry[t as int]);
                        assert(st_entry.update(f as int, sf@).update(t as int, sd@)
                            =~= st_entry);
                    }
                    let mut done: u64 = 0;
                    while done < count
                        invariant
                            0 <= done <= count,
                            f != t,
                            0 <= f < st_entry.len(),
                            0 <= t < st_entry.len(),
                            pop_push(st_entry, f as int, t as int, count as int) == pop_push(
                                st_entry.update(f as int, sf@).update(t as int, sd@),
                                f as int,
                                t as int,
                                count - done,
                            ),
                            pop_push(st_entry, f as int, t as int, count as int) is Some,
                        decreases count - done,
                    {
                        let ghost held = st_entry.update(f as int, sf@).update(t as int, sd@);
                        proof {
                            assert(held[f as int] == sf@);
                            assert(held[t as int] == sd@);
                            if sf@.len() == 0 {
                                assert(pop_push(held, f as int, t as int, count - done) is None);
                                assert(false);
                            }
                        }
                        let x = match sf.pop() {
                            Some(x) => x,
                            None => vstd::pervasive::unreached(),
                        };
                        sd.push(x);
                        proof {
                            let held1 = held.update(f as int, held[f as int].drop_last());
                            let held2 = held1.update(
                                t as int,
                                held1[t as int].push(held[f as int].last()),
                            );
                            assert(st_entry.update(f as int, sf@).update(t as int, sd@) =~= held2);
                        }
                        done += 1;
                    }
                    if f < t {
                        stacks.insert(f, sf);
                        stacks.insert(t, sd);
                    } else {
                        stacks.insert(t, sd);
                        stacks.insert(f, sf);
                    }
                    proof {
                        assert(views_of(stacks@) =~= st_entry.update(f as int, sf@).update(
                            t as int,
                            sd@,
                        ));
                    }
                }
            } else {
                proof {
                    if count as int > st_entry[f as int].len() {
                        assert(step2(st_entry, l) is None);
                        assert(false);
                    }
                }
                if f == t {
                    proof {
                        let keep = st_entry[f as int].len() - count;
                        let st1 = st_entry.update(
                            f as int,
                            st_entry[f as int].take(keep as int),
                        );
                        assert(st1[f as int] + st_entry[f as int].skip(keep as int)
                            =~= st_entry[f as int]);
                        assert(st1.update(
                            f as int,
                            st1[f as int] + st_entry[f as int].skip(keep as int),
                        ) =~= st_entry);
                    }
                } else {
                    let (mut sf, mut sd) = if f < t {
                        let b = stacks.remove(t);
                        let a = stacks.remove(f);
                        (a, b)
                    } else {
                        let a = stacks.remove(f);
                        let b = stacks.remove(t);
                        (a, b)
                    };
                    proof {
                        assert(sf@ == st_entry[f as int]);
                        assert(sd@ == st_entry[t as int]);
                    }
                    let keep = sf.len() - (count as usize);
                    let mut moved = sf.split_off(keep);
                    sd.append(&mut moved);
                    if f < t {
                        stacks.insert(f, sf);
                        stacks.insert(t, sd);
                    } else {
                        stacks.insert(t, sd);
                        stacks.insert(f, sf);
                    }
                    proof {
                        let keepg = st_entry[f as int].len() - count;
                        let st1 = st_entry.update(
                            f as int,
                            st_entry[f as int].take(keepg as int),
                        );
                        assert(sf@ =~= st_entry[f as int].take(keepg as int));
                        assert(sd@ =~= st1[t as int] + st_entry[f as int].skip(keepg as int));
                        assert(views_of(stacks@) =~= st1.update(
                            t as int,
                            st1[t as int] + st_entry[f as int].skip(keepg as int),
                        ));
                    }
                }
            }
        } else {
            proof {
                assert(!has_move_line(l));
            }
        }
        i += 1;
    }
    proof {
        assert(run_moves(views_of(stacks@), lsq, ln as int, one_at_a_time) == Some(
            views_of(stacks@),
        ));
        assert(goal->0 == views_of(stacks@));
    }
    let sc = stacks.len();
    let mut out: Vec<u8> = Vec::new();
    let mut k: usize = 0;
    while k < sc
        invariant
            0 <= k <= sc,
            sc == stacks@.len(),
            views_of(stacks@) == goal->0,
            crane_input_ok(sg, one_at_a_time),
            goal == final_stacks(sg, one_at_a_time),
            out@ == message_of(goal->0).take(k as int),
            forall|j: int| 0 <= j < out@.len() ==> #[trigger] out@[j] < 128,
        decreases sc - k,
    {
        let sk = &stacks[k];
        proof {
            assert(sk@ == goal->0[k as int]);
            assert(goal->0[k as int].len() > 0);
        }
        if sk.len() == 0 {
            return vstd::pervasive::unreached();
        }
        out.push(sk[sk.len() - 1]);
        proof {
            assert(out@ =~= message_of(goal->0).take(k + 1));
        }
        k += 1;
    }
    proof {
        assert(message_of(goal->0).take(sc as int) =~= message_of(goal->0));
    }
    ascii_string(out)
}

/// Reads the top crates after the one-at-a-time crane has run.
pub fn crate_message(input: &str) -> (r: String)
    requires
        crane_input_ok(input.spec_bytes(), true),
    ensures
        r@ == message_of(final_stacks(input.spec_bytes(), true)->0).map_values(|b: u8| b as char),
{
    crane_run(input, true)
}

/// Reads the top crates after the block-moving crane has run.
pub fn crate_message2(input: &str) -> (r: String)
    requires
        crane_input_ok(input.spec_bytes(), false),
    ensures
        r@ == message_of(final_stacks(input.spec_bytes(), false)->0).map_values(|b: u8| b as char),
{
    crane_run(input, false)
}

} // verus!
