//! Nested packet comparison.
//!
//! A packet is an integer or a list of packets, written "[1,[2,3]]".
//! Packets compare lexicographically; an integer against a list
//! compares as a singleton list. One query sums the 1-based indices of
//! the pairs already in order, the other sorts all packets with two
//! divider packets and multiplies the dividers' positions.
use core::cmp::Ordering;

use vstd::prelude::*;
use vstd::string::StringSliceAdditionalSpecFns;

use crate::text::all_digits;
use crate::text::dec_value;
use crate::text::is_digit;
use crate::text::spec_lines;
use crate::text::split_lines;
use crate::text::views_of;

verus! {

#[derive(Debug)]
pub enum Packet {
    List(Vec<Packet>),
    Int(u32),
}

/// A token of the packet notation; any other byte is skipped.
#[derive(PartialEq, Eq, Structural)]
pub enum Token {
    Open,
    Close,
    Num(u32),
}

/// End of the digit run starting at `i`.
pub open spec fn digit_run(s: Seq<u8>, i: int) -> int
    decreases s.len() - i,
{
    if i < 0 || i >= s.len() || !is_digit(s[i]) {
        i
    } else {
        digit_run(s, i + 1)
    }
}

/// The token stream of `s` from position `i`; a digit run whose value
/// does not fit `u32` has no token stream (the scan sticks on it).
pub open spec fn lex_ok(s: Seq<u8>, i: int) -> bool
    decreases s.len() - i,
    via lex_ok_decreases
{
    if i < 0 || i >= s.len() {
        true
    } else if s[i] == 91 || s[i] == 93 {
        lex_ok(s, i + 1)
    } else if is_digit(s[i]) {
        dec_value(s.subrange(i, digit_run(s, i))) <= u32::MAX && lex_ok(s, digit_run(s, i))
    } else {
        lex_ok(s, i + 1)
    }
}

#[via_fn]
proof fn lex_ok_decreases(s: Seq<u8>, i: int) {
    lemma_digit_run(s, i);
}

pub proof fn lemma_digit_run(s: Seq<u8>, i: int)
    ensures
        i <= digit_run(s, i) || i < 0,
        0 <= i < s.len() && is_digit(s[i]) ==> i < digit_run(s, i) <= s.len(),
    decreases s.len() - i,
{
    if 0 <= i < s.len() && is_digit(s[i]) {
        lemma_digit_run(s, i + 1);
    }
}

/// The tokens of `s` from position `i`.
pub open spec fn lex(s: Seq<u8>, i: int) -> Seq<Token>
    decreases s.len() - i,
    via lex_decreases
{
    if i < 0 || i >= s.len() {
        Seq::empty()
    } else if s[i] == 91 {
        seq![Token::Open] + lex(s, i + 1)
    } else if s[i] == 93 {
        seq![Token::Close] + lex(s, i + 1)
    } else if is_digit(s[i]) {
        seq![Token::Num(dec_value(s.subrange(i, digit_run(s, i))) as u32)] + lex(
            s,
            digit_run(s, i),
        )
    } else {
        lex(s, i + 1)
    }
}

#[via_fn]
proof fn lex_decreases(s: Seq<u8>, i: int) {
    lemma_digit_run(s, i);
}

/// The tokens a packet prints as.
pub open spec fn tokens_of(p: Packet) -> Seq<Token>
    decreases p, 0int, 0int,
{
    match p {
        Packet::Int(n) => seq![Token::Num(n)],
        Packet::List(v) => seq![Token::Open] + tokens_of_list(v@, 0) + seq![Token::Close],
    }
}

/// The tokens of the packets of `s` from index `i` on.
pub open spec fn tokens_of_list(s: Seq<Packet>, i: int) -> Seq<Token>
    decreases s, 1int, s.len() - i,
{
    if i < 0 || i >= s.len() {
        Seq::empty()
    } else {
        tokens_of(s[i]) + tokens_of_list(s, i + 1)
    }
}

/// The comparison of two packets: integers numerically, lists
/// lexicographically, an integer against a list as a singleton list.
pub open spec fn cmp_spec(a: Packet, b: Packet) -> Ordering
    decreases a, b, 0int,
{
    match (a, b) {
        (Packet::Int(x), Packet::Int(y)) => {
            if x < y {
                Ordering::Less
            } else if x == y {
                Ordering::Equal
            } else {
                Ordering::Greater
            }
        },
        (Packet::List(x), Packet::List(y)) => cmp_lists(x@, y@, 0),
        (Packet::Int(x), Packet::List(y)) => {
            if y@.len() == 0 {
                Ordering::Greater
            } else {
                let c = cmp_spec(Packet::Int(x), y@[0]);
                if c != Ordering::Equal {
                    c
                } else if y@.len() == 1 {
                    Ordering::Equal
                } else {
                    Ordering::Less
                }
            }
        },
        (Packet::List(x), Packet::Int(y)) => {
            if x@.len() == 0 {
                Ordering::Less
            } else {
                let c = cmp_spec(x@[0], Packet::Int(y));
                if c != Ordering::Equal {
                    c
                } else if x@.len() == 1 {
                    Ordering::Equal
                } else {
                    Ordering::Greater
                }
            }
        },
    }
}

/// Lexicographic comparison of two packet sequences from index `i`.
pub open spec fn cmp_lists(x: Seq<Packet>, y: Seq<Packet>, i: int) -> Ordering
    decreases x, y, x.len() - i,
{
    if i < 0 {
        Ordering::Equal
    } else if i >= x.len() && i >= y.len() {
        Ordering::Equal
    } else if i >= x.len() {
        Ordering::Less
    } else if i >= y.len() {
        Ordering::Greater
    } else {
        let c = cmp_spec(x[i], y[i]);
        if c != Ordering::Equal {
            c
        } else {
            cmp_lists(x, y, i + 1)
        }
    }
}

/// The reversed ordering.
pub open spec fn flip_ord(o: Ordering) -> Ordering {
    match o {
        Ordering::Less => Ordering::Greater,
        Ordering::Equal => Ordering::Equal,
        Ordering::Greater => Ordering::Less,
    }
}

/// Law: comparing in the other direction reverses the outcome.
pub proof fn lemma_cmp_flip(a: Packet, b: Packet)
    ensures
        cmp_spec(b, a) == flip_ord(cmp_spec(a, b)),
    decreases a, b, 0int,
{
    match (a, b) {
        (Packet::Int(x), Packet::Int(y)) => {},
        (Packet::List(x), Packet::List(y)) => {
            lemma_cmp_lists_flip(x@, y@, 0);
        },
        (Packet::Int(x), Packet::List(y)) => {
            if y@.len() > 0 {
                lemma_cmp_flip(Packet::Int(x), y@[0]);
            }
        },
        (Packet::List(x), Packet::Int(y)) => {
            if x@.len() > 0 {
                lemma_cmp_flip(x@[0], Packet::Int(y));
            }
        },
    }
}

proof fn lemma_cmp_lists_flip(x: Seq<Packet>, y: Seq<Packet>, i: int)
    ensures
        cmp_lists(y, x, i) == flip_ord(cmp_lists(x, y, i)),
    decreases x, y, x.len() - i,
{
    if i >= 0 && i < x.len() && i < y.len() {
        lemma_cmp_flip(x[i], y[i]);
        if cmp_spec(x[i], y[i]) == Ordering::Equal {
            lemma_cmp_lists_flip(x, y, i + 1);
        }
    }
}

/// Compares two packets.
#[verifier::loop_isolation(false)]
pub fn cmp_packets(a: &Packet, b: &Packet) -> (r: Ordering)
    ensures
        r == cmp_spec(*a, *b),
    decreases *a, *b, 0int,
{
    match (a, b) {
        (Packet::Int(x), Packet::Int(y)) => {
            if x < y {
                Ordering::Less
            } else if x == y {
                Ordering::Equal
            } else {
                Ordering::Greater
            }
        },
        (Packet::List(x), Packet::List(y)) => {
            let xn = x.len();
            let yn = y.len();
            let mut i: usize = 0;
            let mut res = Ordering::Equal;
            let mut decided = false;
            while i < xn && i < yn && !decided
                invariant
                    0 <= i <= xn,
                    0 <= i <= yn,
                    xn == x@.len(),
                    yn == y@.len(),
                    !decided ==> cmp_lists(x@, y@, 0) == cmp_lists(x@, y@, i as int),
                    decided ==> res == cmp_lists(x@, y@, 0),
                decreases xn - i + (if decided {
                    0int
                } else {
                    1int
                }),
            {
                let c = cmp_packets(&x[i], &y[i]);
                if !(matches!(c, Ordering::Equal)) {
                    proof {
                        assert(cmp_lists(x@, y@, i as int) == cmp_spec(x@[i as int], y@[i as int]));
                    }
                    res = c;
                    decided = true;
                } else {
                    proof {
                        assert(cmp_lists(x@, y@, i as int) == cmp_lists(x@, y@, i + 1));
                    }
                    i += 1;
                }
            }
            if !decided {
                res = if i >= xn && i >= yn {
                    Ordering::Equal
                } else if i >= xn {
                    Ordering::Less
                } else {
                    Ordering::Greater
                };
            }
            res
        },
        (Packet::Int(x), Packet::List(y)) => {
            if y.len() == 0 {
                Ordering::Greater
            } else {
                let c = cmp_packets(a, &y[0]);
                if !(matches!(c, Ordering::Equal)) {
                    c
                } else if y.len() == 1 {
                    Ordering::Equal
                } else {
                    Ordering::Less
                }
            }
        },
        (Packet::List(x), Packet::Int(y)) => {
            if x.len() == 0 {
                Ordering::Less
            } else {
                let c = cmp_packets(&x[0], b);
                if !(matches!(c, Ordering::Equal)) {
                    c
                } else if x.len() == 1 {
                    Ordering::Equal
                } else {
                    Ordering::Greater
                }
            }
        },
    }
}

/// Structural equality of packets.
pub open spec fn peq_spec(a: Packet, b: Packet) -> bool
    decreases a, b, 0int,
{
    match (a, b) {
        (Packet::Int(x), Packet::Int(y)) => x == y,
        (Packet::List(x), Packet::List(y)) => peq_seq(x@, y@, 0),
        _ => false,
    }
}

/// Structural equality of packet sequences from index `i`.
pub open spec fn peq_seq(x: Seq<Packet>, y: Seq<Packet>, i: int) -> bool
    decreases x, y, x.len() - i,
{
    if i < 0 {
        x.len() == y.len()
    } else if i >= x.len() || i >= y.len() {
        x.len() == y.len()
    } else {
        peq_spec(x[i], y[i]) && peq_seq(x, y, i + 1)
    }
}

/// Tests two packets for structural equality.
#[verifier::loop_isolation(false)]
pub fn packet_eq(a: &Packet, b: &Packet) -> (r: bool)
    ensures
        r == peq_spec(*a, *b),
    decreases *a, *b, 0int,
{
    match (a, b) {
        (Packet::Int(x), Packet::Int(y)) => x == y,
        (Packet::List(x), Packet::List(y)) => {
            if x.len() != y.len() {
                proof {
                    if peq_seq(x@, y@, 0) {
                        lemma_peq_seq_len(x@, y@, 0);
                    }
                }
                return false;
            }
            let n = x.len();
            let mut i: usize = 0;
            while i < n
                invariant
                    0 <= i <= n,
                    peq_seq(x@, y@, 0) == peq_seq(x@, y@, i as int),
                decreases n - i,
            {
                if !packet_eq(&x[i], &y[i]) {
                    proof {
                        assert(!peq_seq(x@, y@, i as int));
                    }
                    return false;
                }
                proof {
                    assert(peq_seq(x@, y@, i as int) == peq_seq(x@, y@, i + 1));
                }
                i += 1;
            }
            true
        },
        _ => false,
    }
}

proof fn lemma_peq_seq_len(x: Seq<Packet>, y: Seq<Packet>, i: int)
    requires
        peq_seq(x, y, i),
    ensures
        x.len() == y.len(),
    decreases x, y, x.len() - i,
{
    if 0 <= i && i < x.len() && i < y.len() {
        lemma_peq_seq_len(x, y, i + 1);
    }
}

impl PartialEq for Packet {
    fn eq(&self, other: &Packet) -> (r: bool) {
        packet_eq(self, other)
    }
}

impl vstd::std_specs::cmp::PartialEqSpecImpl for Packet {
    open spec fn obeys_eq_spec() -> bool {
        true
    }

    open spec fn eq_spec(&self, other: &Packet) -> bool {
        peq_spec(*self, *other)
    }
}

impl PartialOrd for Packet {
    fn partial_cmp(&self, other: &Packet) -> (r: Option<Ordering>) {
        Some(cmp_packets(self, other))
    }
}

impl vstd::std_specs::cmp::PartialOrdSpecImpl for Packet {
    open spec fn obeys_partial_cmp_spec() -> bool {
        true
    }

    open spec fn partial_cmp_spec(&self, other: &Packet) -> Option<Ordering> {
        Some(cmp_spec(*self, *other))
    }
}

/// Scans the byte text into tokens.
#[verifier::loop_isolation(false)]
fn lex_bytes(b: &[u8]) -> (r: Vec<Token>)
    requires
        lex_ok(b@, 0),
    ensures
        r@ == lex(b@, 0),
{
    let n = b.len();
    let mut r: Vec<Token> = Vec::new();
    let mut i: usize = 0;
    proof {
        assert(r@ + lex(b@, 0) =~= lex(b@, 0));
    }
    while i < n
        invariant
            0 <= i <= n,
            lex_ok(b@, i as int),
            r@ + lex(b@, i as int) == lex(b@, 0),
        decreases n - i,
    {
        let c = b[i];
        if c == 91 {
            r.push(Token::Open);
            proof {
                assert(r@ + lex(b@, i + 1) =~= r@.drop_last() + lex(b@, i as int));
            }
            i += 1;
        } else if c == 93 {
            r.push(Token::Close);
            proof {
                assert(r@ + lex(b@, i + 1) =~= r@.drop_last() + lex(b@, i as int));
            }
            i += 1;
        } else if 48 <= c && c <= 57 {
            let mut j: usize = i + 1;
            while j < n && 48 <= b[j] && b[j] <= 57
                invariant
                    i < j <= n,
                    forall|k: int| i <= k < j ==> is_digit(b@[k]),
                decreases n - j,
            {
                j += 1;
            }
            proof {
                lemma_digit_run_is(b@, i as int, j as int);
            }
            let num = vstd::slice::slice_subrange(b, i, j);
            proof {
                assert(num@ =~= b@.subrange(i as int, j as int));
            }
            let v = match crate::text::parse_u32(num) {
                Some(v) => v,
                None => vstd::pervasive::unreached(),
            };
            r.push(Token::Num(v));
            proof {
                assert(r@ + lex(b@, j as int) =~= r@.drop_last() + lex(b@, i as int));
            }
            i = j;
        } else {
            i += 1;
        }
    }
    proof {
        assert(lex(b@, n as int) =~= Seq::<Token>::empty());
        assert(r@ + lex(b@, n as int) =~= r@);
    }
    r
}

proof fn lemma_digit_run_is(s: Seq<u8>, i: int, j: int)
    requires
        0 <= i < j <= s.len(),
        forall|k: int| i <= k < j ==> is_digit(s[k]),
        j < s.len() ==> !is_digit(s[j]),
    ensures
        digit_run(s, i) == j,
    decreases j - i,
{
    if i + 1 < j {
        lemma_digit_run_is(s, i + 1, j);
    } else {
        assert(digit_run(s, j) == j);
    }
}

/// One past the token that closes the packet, scanning from `i` at
/// nesting depth `depth`; `None` when the text is unbalanced or a
/// value stands outside any list.
pub open spec fn balanced_end(toks: Seq<Token>, i: int, depth: int) -> Option<int>
    decreases toks.len() - i,
{
    if i < 0 || i >= toks.len() {
        None
    } else {
        match toks[i] {
            Token::Open => balanced_end(toks, i + 1, depth + 1),
            Token::Close => if depth <= 0 {
                None
            } else if depth == 1 {
                Some(i + 1)
            } else {
                balanced_end(toks, i + 1, depth - 1)
            },
            Token::Num(_) => if depth <= 0 {
                None
            } else {
                balanced_end(toks, i + 1, depth)
            },
        }
    }
}

/// The tokens spell one packet (possibly with trailing tokens).
pub open spec fn parse_ok(toks: Seq<Token>) -> bool {
    balanced_end(toks, 0, 0) is Some
}

/// The items of a list packet.
pub open spec fn list_items(p: Packet) -> Seq<Packet> {
    match p {
        Packet::List(v) => v@,
        Packet::Int(_) => Seq::empty(),
    }
}

/// The tokens spelled by an unclosed stack of open lists, outermost
/// first.
pub open spec fn stack_tokens(st: Seq<Packet>) -> Seq<Token>
    decreases st.len(),
{
    if st.len() == 0 {
        Seq::empty()
    } else {
        stack_tokens(st.drop_last()) + seq![Token::Open] + tokens_of_list(list_items(st.last()), 0)
    }
}

proof fn lemma_tokens_list_snoc(s: Seq<Packet>, p: Packet, j: int)
    requires
        0 <= j <= s.len(),
    ensures
        tokens_of_list(s.push(p), j) == tokens_of_list(s, j) + tokens_of(p),
    decreases s.len() - j,
{
    if j < s.len() {
        lemma_tokens_list_snoc(s, p, j + 1);
        assert(s.push(p)[j] == s[j]);
        assert(tokens_of_list(s.push(p), j) =~= tokens_of_list(s, j) + tokens_of(p));
    } else {
        assert(s.push(p)[j] == p);
        assert(tokens_of_list(s.push(p), j + 1) =~= Seq::<Token>::empty());
        assert(tokens_of_list(s, j) =~= Seq::<Token>::empty());
        assert(tokens_of_list(s.push(p), j) =~= tokens_of(p));
    }
}

impl Packet {
    /// Reads the first packet the text spells: brackets open and close
    /// lists, digit runs are values, anything else is skipped.
    #[verifier::loop_isolation(false)]
    pub fn new(input: &str) -> (r: Packet)
        requires
            lex_ok(input.spec_bytes(), 0),
            parse_ok(lex(input.spec_bytes(), 0)),
        ensures
            tokens_of(r) == lex(input.spec_bytes(), 0).take(
                balanced_end(lex(input.spec_bytes(), 0), 0, 0)->0,
            ),
    {
        let toks = lex_bytes(input.as_bytes());
        parse_tokens(&toks)
    }
}

/// Runs the stack machine over the tokens.
#[verifier::loop_isolation(false)]
fn parse_tokens(toks: &Vec<Token>) -> (r: Packet)
    requires
        parse_ok(toks@),
    ensures
        tokens_of(r) == toks@.take(balanced_end(toks@, 0, 0)->0),
{
    let n = toks.len();
    let mut stack: Vec<Packet> = Vec::new();
    let mut i: usize = 0;
    proof {
        assert(stack_tokens(stack@) =~= Seq::<Token>::empty());
        assert(toks@.take(0) =~= Seq::<Token>::empty());
    }
    while i < n
        invariant
            0 <= i <= n,
            forall|k: int| 0 <= k < stack@.len() ==> (#[trigger] stack@[k]) is List,
            toks@.take(i as int) == stack_tokens(stack@),
            balanced_end(toks@, i as int, stack@.len() as int) == balanced_end(toks@, 0, 0),
        decreases n - i,
    {
        let ghost st0 = stack@;
        proof {
            assert(toks@.take(i + 1) =~= toks@.take(i as int) + seq![toks@[i as int]]);
        }
        match toks[i] {
            Token::Open => {
                stack.push(Packet::List(Vec::new()));
                proof {
                    assert(stack@.drop_last() =~= st0);
                    assert(tokens_of_list(list_items(stack@.last()), 0) =~= Seq::<Token>::empty());
                    assert(stack_tokens(stack@) =~= toks@.take(i + 1));
                }
            },
            Token::Num(v) => {
                if stack.len() == 0 {
                    proof {
                        assert(balanced_end(toks@, i as int, 0) is None);
                        assert(false);
                    }
                    return vstd::pervasive::unreached();
                }
                let top = stack.pop();
                match top {
                    Some(Packet::List(mut items)) => {
                        let ghost old_items = items@;
                        items.push(Packet::Int(v));
                        stack.push(Packet::List(items));
                        proof {
                            assert(stack@.drop_last() =~= st0.drop_last());
                            assert(list_items(stack@.last()) =~= old_items.push(Packet::Int(v)));
                            lemma_tokens_list_snoc(old_items, Packet::Int(v), 0);
                            assert(list_items(st0.last()) == old_items);
                            assert(tokens_of(Packet::Int(v)) == seq![Token::Num(v)]);
                            assert(stack_tokens(stack@) == stack_tokens(stack@.drop_last()) + seq![
                                Token::Open,
                            ] + tokens_of_list(list_items(stack@.last()), 0));
                            assert(stack_tokens(st0) == stack_tokens(st0.drop_last()) + seq![
                                Token::Open,
                            ] + tokens_of_list(old_items, 0));
                            assert(tokens_of_list(list_items(stack@.last()), 0)
                                == tokens_of_list(old_items, 0) + seq![Token::Num(v)]);
                            assert(stack_tokens(stack@) =~= stack_tokens(st0) + seq![
                                Token::Num(v),
                            ]);
                            assert(toks@.take(i + 1) =~= stack_tokens(st0) + seq![Token::Num(v)]);
                            assert(stack_tokens(stack@) == toks@.take(i + 1));
                        }
                    },
                    _ => {
                        proof {
                            assert(st0.last() is List);
                            assert(false);
                        }
                        return vstd::pervasive::unreached();
                    },
                }
            },
            Token::Close => {
                if stack.len() == 0 {
                    proof {
                        assert(balanced_end(toks@, i as int, 0) is None);
                        assert(false);
                    }
                    return vstd::pervasive::unreached();
                }
                let sub = match stack.pop() {
                    Some(p) => p,
                    None => vstd::pervasive::unreached(),
                };
                proof {
                    assert(sub == st0.last());
                    assert(stack@ =~= st0.drop_last());
                }
                if stack.len() == 0 {
                    proof {
                        assert(stack_tokens(st0) == stack_tokens(st0.drop_last()) + seq![
                            Token::Open,
                        ] + tokens_of_list(list_items(sub), 0));
                        assert(stack_tokens(st0.drop_last()) =~= Seq::<Token>::empty());
                        assert(tokens_of(sub) =~= seq![Token::Open] + tokens_of_list(
                            list_items(sub),
                            0,
                        ) + seq![Token::Close]);
                        assert(tokens_of(sub) =~= toks@.take(i + 1));
                        assert(balanced_end(toks@, i as int, 1) == Some(i + 1));
                    }
                    return sub;
                }
                let top = stack.pop();
                match top {
                    Some(Packet::List(mut items)) => {
                        let ghost old_items = items@;
                        items.push(sub);
                        let ghost subg = sub;
                        stack.push(Packet::List(items));
                        proof {
                            assert(stack@.drop_last() =~= st0.drop_last().drop_last());
                            assert(list_items(stack@.last()) =~= old_items.push(subg));
                            lemma_tokens_list_snoc(old_items, subg, 0);
                            assert(list_items(st0.drop_last().last()) == old_items);
                            assert(tokens_of(subg) =~= seq![Token::Open] + tokens_of_list(
                                list_items(subg),
                                0,
                            ) + seq![Token::Close]);
                            assert(stack_tokens(stack@) == stack_tokens(stack@.drop_last())
                                + seq![Token::Open] + tokens_of_list(
                                list_items(stack@.last()),
                                0,
                            ));
                            assert(stack_tokens(st0) == stack_tokens(st0.drop_last()) + seq![
                                Token::Open,
                            ] + tokens_of_list(list_items(subg), 0));
                            assert(stack_tokens(st0.drop_last()) == stack_tokens(
                                st0.drop_last().drop_last(),
                            ) + seq![Token::Open] + tokens_of_list(old_items, 0));
                            assert(tokens_of_list(list_items(stack@.last()), 0)
                                == tokens_of_list(old_items, 0) + tokens_of(subg));
                            assert(stack_tokens(stack@) =~= stack_tokens(st0.drop_last())
                                + tokens_of(subg));
                            assert(toks@.take(i + 1) =~= stack_tokens(st0.drop_last())
                                + tokens_of(subg));
                            assert(stack_tokens(stack@) == toks@.take(i + 1));
                        }
                    },
                    _ => {
                        proof {
                            assert(st0.drop_last().last() is List);
                            assert(false);
                        }
                        return vstd::pervasive::unreached();
                    },
                }
            },
        }
        i += 1;
    }
    proof {
        assert(balanced_end(toks@, n as int, stack@.len() as int) is None);
        assert(false);
    }
    vstd::pervasive::unreached()
}

/// The lines that are not blank.
pub open spec fn nonblank(ls: Seq<Seq<u8>>) -> Seq<Seq<u8>>
    decreases ls.len(),
{
    if ls.len() == 0 {
        Seq::empty()
    } else if ls[0].len() == 0 {
        nonblank(ls.skip(1))
    } else {
        seq![ls[0]] + nonblank(ls.skip(1))
    }
}

/// The tokens of the packet a line spells.
pub open spec fn line_packet_tokens(l: Seq<u8>) -> Seq<Token> {
    lex(l, 0).take(balanced_end(lex(l, 0), 0, 0)->0)
}

/// A line spells a packet.
pub open spec fn line_parses(l: Seq<u8>) -> bool {
    lex_ok(l, 0) && parse_ok(lex(l, 0))
}

/// Reads one packet from every non-blank line.
#[verifier::loop_isolation(false)]
pub fn parse(input: &str) -> (r: Vec<Packet>)
    requires
        forall|i: int|
            0 <= i < nonblank(spec_lines(input.spec_bytes())).len() ==> line_parses(
                #[trigger] nonblank(spec_lines(input.spec_bytes()))[i],
            ),
    ensures
        r@.len() == nonblank(spec_lines(input.spec_bytes())).len(),
        forall|i: int|
            0 <= i < r@.len() ==> tokens_of(#[trigger] r@[i]) == line_packet_tokens(
                nonblank(spec_lines(input.spec_bytes()))[i],
            ),
{
    let ghost s = input.spec_bytes();
    let ghost ls = spec_lines(s);
    let lines = split_lines(input.as_bytes());
    let n = lines.len();
    let mut r: Vec<Packet> = Vec::new();
    let ghost done: Seq<Seq<u8>> = Seq::empty();
    let mut i: usize = 0;
    proof {
        assert(ls.skip(0) =~= ls);
        assert(done + nonblank(ls) =~= nonblank(ls));
    }
    while i < n
        invariant
            0 <= i <= n,
            n == ls.len(),
            views_of(lines@) == ls,
            n == lines@.len(),
            nonblank(ls) == done + nonblank(ls.skip(i as int)),
            done.len() == r@.len(),
            forall|k: int|
                0 <= k < r@.len() ==> tokens_of(#[trigger] r@[k]) == line_packet_tokens(done[k]),
        decreases n - i,
    {
        proof {
            assert(ls[i as int] == lines@[i as int]@);
            assert(ls.skip(i as int)[0] == ls[i as int]);
            assert(ls.skip(i as int).skip(1) =~= ls.skip(i + 1));
        }
        let line = &lines[i];
        if line.len() > 0 {
            let ghost l = ls[i as int];
            proof {
                assert(nonblank(ls)[done.len() as int] == l) by {
                    assert(nonblank(ls.skip(i as int))[0] == l);
                }
                assert(line_parses(l));
            }
            let toks = lex_bytes(line.as_slice());
            let p = parse_tokens(&toks);
            r.push(p);
            proof {
                done = done.push(l);
                assert(nonblank(ls) =~= done + nonblank(ls.skip(i + 1)));
            }
        } else {
            proof {
                assert(nonblank(ls.skip(i as int)) == nonblank(ls.skip(i + 1)));
            }
        }
        i += 1;
    }
    proof {
        assert(nonblank(ls.skip(n as int)) =~= Seq::<Seq<u8>>::empty());
        assert(nonblank(ls) =~= done);
    }
    r
}

/// Sum of the 1-based pair indices whose packets are in order.
pub open spec fn pairs_sum(ps: Seq<Packet>, i: int) -> int
    decreases ps.len() - i,
{
    if i < 0 || i + 1 >= ps.len() {
        0
    } else {
        (if cmp_spec(ps[i], ps[i + 1]) == Ordering::Less {
            i / 2 + 1
        } else {
            0int
        }) + pairs_sum(ps, i + 2)
    }
}

/// Sums the indices (counting pairs from 1) of the line pairs whose
/// first packet compares below the second.
#[verifier::loop_isolation(false)]
pub fn part1(input: &str) -> (r: usize)
    requires
        forall|i: int|
            0 <= i < nonblank(spec_lines(input.spec_bytes())).len() ==> line_parses(
                #[trigger] nonblank(spec_lines(input.spec_bytes()))[i],
            ),
        nonblank(spec_lines(input.spec_bytes())).len() % 2 == 0,
        nonblank(spec_lines(input.spec_bytes())).len() <= 0xffff,
    ensures
        exists|ps: Seq<Packet>|
            {
                &&& ps.len() == nonblank(spec_lines(input.spec_bytes())).len()
                &&& (forall|i: int|
                    0 <= i < ps.len() ==> tokens_of(#[trigger] ps[i]) == line_packet_tokens(
                        nonblank(spec_lines(input.spec_bytes()))[i],
                    ))
                &&& r == pairs_sum(ps, 0)
            },
{
    let packets = parse(input);
    let n = packets.len();
    let mut sum: usize = 0;
    let mut i: usize = 0;
    while i + 1 < n
        invariant
            0 <= i <= n,
            i % 2 == 0,
            n % 2 == 0,
            n <= 0xffff,
            n == packets@.len(),
            sum <= i * 0x8001,
            sum + pairs_sum(packets@, i as int) == pairs_sum(packets@, 0),
        decreases n - i,
    {
        let c = cmp_packets(&packets[i], &packets[i + 1]);
        if matches!(c, Ordering::Less) {
            sum = sum + i / 2 + 1;
        }
        i += 2;
    }
    proof {
        assert(pairs_sum(packets@, i as int) == 0);
    }
    sum
}

/// The sequence is sorted: no element compares above its successor.
pub open spec fn sorted_adj(t: Seq<Packet>) -> bool {
    forall|i: int|
        0 <= i < t.len() - 1 ==> #[trigger] cmp_spec(t[i], t[i + 1]) != Ordering::Greater
}

#[verifier::rlimit(100)]
proof fn lemma_insert_sorted(out0: Seq<Packet>, j: int, x: Packet)
    requires
        sorted_adj(out0),
        0 <= j <= out0.len(),
        forall|k: int|
            j <= k < out0.len() ==> #[trigger] cmp_spec(out0[k], x) == Ordering::Greater,
        j > 0 ==> cmp_spec(out0[j - 1], x) != Ordering::Greater,
    ensures
        sorted_adj(out0.insert(j, x)),
{
    let out2 = out0.insert(j, x);
    assert(out2.len() == out0.len() + 1);
    assert forall|t: int| 0 <= t < j implies out2[t] == out0[t] by {}
    assert(out2[j] == x);
    assert forall|t: int| j < t < out2.len() implies out2[t] == out0[t - 1] by {}
    assert forall|k: int|
        0 <= k < out2.len() - 1 implies #[trigger] cmp_spec(out2[k], out2[k + 1])
        != Ordering::Greater by {
        if k < j - 1 {
            assert(out2[k] == out0[k] && out2[k + 1] == out0[k + 1]);
            assert(cmp_spec(out0[k], out0[k + 1]) != Ordering::Greater);
        } else if k == j - 1 {
            assert(out2[k] == out0[k] && out2[k + 1] == x);
            assert(cmp_spec(out0[j - 1], x) != Ordering::Greater);
        } else if k == j {
            if j < out0.len() {
                assert(out2[k] == x && out2[k + 1] == out0[j]);
                assert(cmp_spec(out0[j], x) == Ordering::Greater);
                lemma_cmp_flip(out0[j], x);
            }
        } else {
            assert(out2[k] == out0[k - 1] && out2[k + 1] == out0[k]);
            let i0 = k - 1;
            assert(cmp_spec(out0[i0], out0[i0 + 1]) != Ordering::Greater);
        }
    }
}

proof fn lemma_to_multiset_insert(s: Seq<Packet>, j: int, x: Packet)
    requires
        0 <= j <= s.len(),
    ensures
        s.insert(j, x).to_multiset() == s.to_multiset().insert(x),
{
    let big = s.insert(j, x);
    big.to_multiset_ensures();
    s.to_multiset_ensures();
    assert(big.remove(j) =~= s);
    assert(big[j] == x);
    assert(big.remove(j).to_multiset() =~= big.to_multiset().remove(x));
    assert(big.contains(x)) by {
        assert(big[j] == x);
    }
    assert(big.to_multiset().count(x) > 0);
    assert(big.to_multiset() =~= s.to_multiset().insert(x));
}

/// Sorts packets by their comparison, keeping the same collection.
#[verifier::rlimit(60)]
pub fn sort_packets(v: Vec<Packet>) -> (r: Vec<Packet>)
    ensures
        r@.to_multiset() == v@.to_multiset(),
        r@.len() == v@.len(),
        sorted_adj(r@),
        div_count(r@) == div_count(v@),
{
    let mut src = v;
    let mut out: Vec<Packet> = Vec::new();
    proof {
        v@.to_multiset_ensures();
        out@.to_multiset_ensures();
        assert(out@.to_multiset().add(src@.to_multiset()) =~= v@.to_multiset());
        assert(div_count(out@) == 0);
    }
    while src.len() > 0
        invariant
            out@.to_multiset().add(src@.to_multiset()) == v@.to_multiset(),
            out@.len() + src@.len() == v@.len(),
            sorted_adj(out@),
            div_count(out@) + div_count(src@) == div_count(v@),
        decreases src@.len(),
    {
        let ghost src0 = src@;
        let x = match src.pop() {
            Some(x) => x,
            None => vstd::pervasive::unreached(),
        };
        proof {
            src@.to_multiset_ensures();
            assert(src@.push(x) =~= src0);
            assert(src0.to_multiset() =~= src@.to_multiset().insert(x));
            assert(src@.insert(src@.len() as int, x) =~= src0);
            lemma_div_count_insert(src@, src@.len() as int, x);
        }
        let mut j: usize = out.len();
        while j > 0
            invariant_except_break
                0 <= j <= out@.len(),
                forall|k: int|
                    j <= k < out@.len() ==> #[trigger] cmp_spec(out@[k], x) == Ordering::Greater,
            ensures
                0 <= j <= out@.len(),
                forall|k: int|
                    j <= k < out@.len() ==> #[trigger] cmp_spec(out@[k], x) == Ordering::Greater,
                j > 0 ==> cmp_spec(out@[j - 1], x) != Ordering::Greater,
            decreases j,
        {
            let c = cmp_packets(&out[j - 1], &x);
            if matches!(c, Ordering::Greater) {
                j -= 1;
            } else {
                break ;
            }
        }
        let ghost out0 = out@;
        let ghost jg = j as int;
        out.insert(j, x);
        proof {
            assert(out@ == out0.insert(jg, x));
            lemma_to_multiset_insert(out0, jg, x);
            assert(out@.to_multiset().add(src@.to_multiset()) =~= v@.to_multiset());
            lemma_insert_sorted(out0, jg, x);
            lemma_div_count_insert(out0, jg, x);
        }
    }
    proof {
        src@.to_multiset_ensures();
        assert(src@.to_multiset().len() == 0);
        assert(out@.to_multiset().add(src@.to_multiset()) =~= out@.to_multiset());
        out@.to_multiset_ensures();
        v@.to_multiset_ensures();
    }
    out
}

/// `p` is the divider packet [[n]].
pub open spec fn is_div(p: Packet, n: u32) -> bool {
    &&& p matches Packet::List(x)
    &&& list_items(p).len() == 1
    &&& list_items(p)[0] matches Packet::List(y)
    &&& list_items(list_items(p)[0]).len() == 1
    &&& list_items(list_items(p)[0])[0] == Packet::Int(n)
}

/// The decoder key of a sorted sequence: the product of the 1-based
/// positions of the dividers (any other position contributes 1).
pub open spec fn key_spec(t: Seq<Packet>, i: int) -> int
    decreases t.len() - i,
{
    if i < 0 || i >= t.len() {
        1
    } else {
        (if is_div(t[i], 2) || is_div(t[i], 6) {
            i + 1
        } else {
            1int
        }) * key_spec(t, i + 1)
    }
}

proof fn lemma_key_pos(t: Seq<Packet>, i: int)
    ensures
        key_spec(t, i) >= 1,
    decreases t.len() - i,
{
    if 0 <= i && i < t.len() {
        lemma_key_pos(t, i + 1);
        assert(key_spec(t, i) >= 1) by (nonlinear_arith)
            requires
                key_spec(t, i) == (if is_div(t[i], 2) || is_div(t[i], 6) {
                    i + 1
                } else {
                    1int
                }) * key_spec(t, i + 1),
                key_spec(t, i + 1) >= 1,
                i + 1 >= 1,
        ;
    }
}

/// The token stream of the divider packet [[n]].
pub open spec fn divider_tokens(n: u32) -> Seq<Token> {
    seq![Token::Open, Token::Open, Token::Num(n), Token::Close, Token::Close]
}

/// The line spells one of the two divider packets.
pub open spec fn line_is_divider(l: Seq<u8>) -> bool {
    line_packet_tokens(l) == divider_tokens(2) || line_packet_tokens(l) == divider_tokens(6)
}

/// The packet is one of the two dividers.
pub open spec fn is_any_div(p: Packet) -> bool {
    is_div(p, 2) || is_div(p, 6)
}

/// How many dividers the sequence holds.
pub open spec fn div_count(t: Seq<Packet>) -> int
    decreases t.len(),
{
    if t.len() == 0 {
        0
    } else {
        (if is_any_div(t[0]) {
            1int
        } else {
            0int
        }) + div_count(t.skip(1))
    }
}

proof fn lemma_div_count_nonneg(t: Seq<Packet>)
    ensures
        div_count(t) >= 0,
    decreases t.len(),
{
    if t.len() > 0 {
        lemma_div_count_nonneg(t.skip(1));
    }
}

proof fn lemma_div_count_insert(s: Seq<Packet>, j: int, x: Packet)
    requires
        0 <= j <= s.len(),
    ensures
        div_count(s.insert(j, x)) == div_count(s) + (if is_any_div(x) {
            1int
        } else {
            0int
        }),
    decreases j,
{
    let ins = s.insert(j, x);
    if j == 0 {
        assert(ins[0] == x);
        assert(ins.skip(1) =~= s);
    } else {
        assert(ins[0] == s[0]);
        assert(ins.skip(1) =~= s.skip(1).insert(j - 1, x));
        lemma_div_count_insert(s.skip(1), j - 1, x);
    }
}

proof fn lemma_div_count_zero(t: Seq<Packet>)
    requires
        forall|i: int| 0 <= i < t.len() ==> !is_any_div(#[trigger] t[i]),
    ensures
        div_count(t) == 0,
    decreases t.len(),
{
    if t.len() > 0 {
        assert forall|i: int| 0 <= i < t.skip(1).len() implies !is_any_div(
            #[trigger] t.skip(1)[i],
        ) by {
            assert(t.skip(1)[i] == t[i + 1]);
        }
        lemma_div_count_zero(t.skip(1));
    }
}

/// A divider prints as its five tokens.
proof fn lemma_div_tokens(p: Packet, n: u32)
    requires
        is_div(p, n),
    ensures
        tokens_of(p) == divider_tokens(n),
{
    match p {
        Packet::List(v) => {
            let inner = v@[0];
            match inner {
                Packet::List(w) => {
                    assert(w@[0] == Packet::Int(n));
                    assert(tokens_of(w@[0]) == seq![Token::Num(n)]);
                    assert(tokens_of_list(w@, 1) =~= Seq::<Token>::empty());
                    assert(tokens_of_list(w@, 0) =~= seq![Token::Num(n)]);
                    assert(tokens_of(inner) =~= seq![Token::Open, Token::Num(n), Token::Close]);
                    assert(tokens_of_list(v@, 1) =~= Seq::<Token>::empty());
                    assert(tokens_of_list(v@, 0) =~= tokens_of(inner));
                    assert(tokens_of(p) =~= divider_tokens(n));
                },
                _ => {},
            }
        },
        _ => {},
    }
}

/// The decoder key is 1 without dividers, at most the length with one,
/// at most the length squared with two.
proof fn lemma_key_le(t: Seq<Packet>, i: int)
    requires
        0 <= i <= t.len(),
    ensures
        div_count(t.skip(i)) == 0 ==> key_spec(t, i) == 1,
        div_count(t.skip(i)) == 1 ==> key_spec(t, i) <= t.len(),
        div_count(t.skip(i)) == 2 ==> key_spec(t, i) <= t.len() * t.len(),
    decreases t.len() - i,
{
    if i < t.len() {
        lemma_key_le(t, i + 1);
        lemma_key_pos(t, i + 1);
        lemma_div_count_nonneg(t.skip(i + 1));
        assert(t.skip(i)[0] == t[i]);
        assert(t.skip(i).skip(1) =~= t.skip(i + 1));
        assert(div_count(t.skip(i)) == (if is_any_div(t[i]) {
            1int
        } else {
            0int
        }) + div_count(t.skip(i + 1)));
        let knext = key_spec(t, i + 1);
        if is_any_div(t[i]) {
            assert(key_spec(t, i) == (i + 1) * knext);
            if div_count(t.skip(i)) == 1 {
                assert(knext == 1);
                assert((i + 1) * 1 == i + 1) by (nonlinear_arith);
            }
            if div_count(t.skip(i)) == 2 {
                assert(knext <= t.len());
                assert((i + 1) * knext <= t.len() * t.len()) by (nonlinear_arith)
                    requires
                        1 <= knext <= t.len(),
                        0 <= i < t.len(),
                ;
            }
        } else {
            assert(key_spec(t, i) == 1 * knext);
            assert(1 * knext == knext) by (nonlinear_arith);
        }
    } else {
        assert(t.skip(i) =~= Seq::<Packet>::empty());
    }
}

proof fn lemma_peq_is_div(p: Packet, d: Packet, n: u32)
    requires
        is_div(d, n),
    ensures
        peq_spec(p, d) == is_div(p, n),
{
    match (p, d) {
        (Packet::List(x), Packet::List(y)) => {
            if peq_spec(p, d) {
                lemma_peq_seq_len(x@, y@, 0);
                assert(peq_spec(x@[0], y@[0]));
                match (x@[0], y@[0]) {
                    (Packet::List(xi), Packet::List(yi)) => {
                        lemma_peq_seq_len(xi@, yi@, 0);
                        assert(peq_spec(xi@[0], yi@[0]));
                    },
                    _ => {},
                }
            }
            if is_div(p, n) {
                assert(peq_seq(x@, y@, 1));
                match (x@[0], y@[0]) {
                    (Packet::List(xi), Packet::List(yi)) => {
                        assert(peq_seq(xi@, yi@, 1));
                        assert(peq_spec(xi@[0], yi@[0]));
                        assert(peq_seq(xi@, yi@, 0));
                        assert(peq_spec(x@[0], y@[0]));
                        assert(peq_seq(x@, y@, 0));
                    },
                    _ => {},
                }
            }
        },
        _ => {},
    }
}

/// Sorts all packets with the two dividers [[2]] and [[6]] and
/// multiplies the dividers' 1-based positions.
#[verifier::loop_isolation(false)]
#[verifier::rlimit(60)]
pub fn part2(input: &str) -> (r: u32)
    requires
        forall|i: int|
            0 <= i < nonblank(spec_lines(input.spec_bytes())).len() ==> line_parses(
                #[trigger] nonblank(spec_lines(input.spec_bytes()))[i],
            ),
        forall|i: int|
            0 <= i < nonblank(spec_lines(input.spec_bytes())).len() ==> !line_is_divider(
                #[trigger] nonblank(spec_lines(input.spec_bytes()))[i],
            ),
        (nonblank(spec_lines(input.spec_bytes())).len() + 2) * (nonblank(
            spec_lines(input.spec_bytes()),
        ).len() + 2) <= u32::MAX,
    ensures
        exists|ps: Seq<Packet>, t: Seq<Packet>, d1: Packet, d2: Packet|
            {
                &&& ps.len() == nonblank(spec_lines(input.spec_bytes())).len()
                &&& (forall|i: int|
                    0 <= i < ps.len() ==> tokens_of(#[trigger] ps[i]) == line_packet_tokens(
                        nonblank(spec_lines(input.spec_bytes()))[i],
                    ))
                &&& is_div(d1, 2)
                &&& is_div(d2, 6)
                &&& t.to_multiset() == ps.push(d1).push(d2).to_multiset()
                &&& sorted_adj(t)
                &&& r == key_spec(t, 0)
            },
{
    let mut packets = parse(input);
    let ghost ps = packets@;
    let mut w1: Vec<Packet> = Vec::new();
    w1.push(Packet::Int(2));
    let mut v1: Vec<Packet> = Vec::new();
    v1.push(Packet::List(w1));
    let div1 = Packet::List(v1);
    let mut w2: Vec<Packet> = Vec::new();
    w2.push(Packet::Int(6));
    let mut v2: Vec<Packet> = Vec::new();
    v2.push(Packet::List(w2));
    let div2 = Packet::List(v2);
    proof {
        assert(is_div(div1, 2));
        assert(is_div(div2, 6));
    }
    let ghost d1g = div1;
    let ghost d2g = div2;
    let sorted = {
        packets.push(div1);
        packets.push(div2);
        sort_packets(packets)
    };
    let ghost t = sorted@;
    let n = sorted.len();
    let mut result: u32 = 1;
    let mut i: usize = 0;
    proof {
        lemma_key_pos(t, 0);
        let nb = nonblank(spec_lines(input.spec_bytes()));
        assert forall|k: int| 0 <= k < ps.len() implies !is_any_div(#[trigger] ps[k]) by {
            if is_div(ps[k], 2) {
                lemma_div_tokens(ps[k], 2);
                assert(line_is_divider(nb[k]));
            }
            if is_div(ps[k], 6) {
                lemma_div_tokens(ps[k], 6);
                assert(line_is_divider(nb[k]));
            }
        }
        lemma_div_count_zero(ps);
        assert(ps.insert(ps.len() as int, d1g) =~= ps.push(d1g));
        lemma_div_count_insert(ps, ps.len() as int, d1g);
        assert(ps.push(d1g).insert(ps.push(d1g).len() as int, d2g) =~= ps.push(d1g).push(d2g));
        lemma_div_count_insert(ps.push(d1g), ps.push(d1g).len() as int, d2g);
        assert(div_count(ps.push(d1g).push(d2g)) == 2);
        assert(div_count(t) == 2);
        assert(t.skip(0) =~= t);
        lemma_key_le(t, 0);
        assert(key_spec(t, 0) <= t.len() * t.len());
        assert(t.len() == nb.len() + 2);
        assert(key_spec(t, 0) <= u32::MAX);
    }
    while i < n
        invariant
            0 <= i <= n,
            n == t.len(),
            t == sorted@,
            result >= 1,
            key_spec(t, 0) <= u32::MAX,
            result * key_spec(t, i as int) == key_spec(t, 0),
            is_div(d1g, 2),
            is_div(d2g, 6),
        decreases n - i,
    {
        let here_div = {
            let mut e1: Vec<Packet> = Vec::new();
            e1.push(Packet::Int(2));
            let mut f1: Vec<Packet> = Vec::new();
            f1.push(Packet::List(e1));
            let dd1 = Packet::List(f1);
            let mut e2: Vec<Packet> = Vec::new();
            e2.push(Packet::Int(6));
            let mut f2: Vec<Packet> = Vec::new();
            f2.push(Packet::List(e2));
            let dd2 = Packet::List(f2);
            proof {
                assert(is_div(dd1, 2));
                assert(is_div(dd2, 6));
                lemma_peq_is_div(t[i as int], dd1, 2);
                lemma_peq_is_div(t[i as int], dd2, 6);
            }
            packet_eq(&sorted[i], &dd1) || packet_eq(&sorted[i], &dd2)
        };
        let ghost ki = key_spec(t, i as int);
        let ghost knext = key_spec(t, i + 1);
        proof {
            lemma_key_pos(t, i + 1);
            assert(ki == (if is_div(t[i as int], 2) || is_div(t[i as int], 6) {
                i + 1
            } else {
                1int
            }) * knext);
        }
        if here_div {
            proof {
                assert(result * ((i + 1) * knext) == key_spec(t, 0));
                assert((result * (i + 1)) * knext == key_spec(t, 0)) by (nonlinear_arith)
                    requires
                        result * ((i + 1) * knext) == key_spec(t, 0),
                ;
                assert(result * (i + 1) <= key_spec(t, 0)) by (nonlinear_arith)
                    requires
                        (result * (i + 1)) * knext == key_spec(t, 0),
                        knext >= 1,
                        result >= 1,
                        i + 1 >= 1,
                ;
                assert(i + 1 <= result * (i + 1)) by (nonlinear_arith)
                    requires
                        result >= 1,
                        i + 1 >= 1,
                ;
                assert(i + 1 <= u32::MAX);
                assert(result * (i + 1) >= 1) by (nonlinear_arith)
                    requires
                        result >= 1,
                        i + 1 >= 1,
                ;
            }
            result = result * ((i + 1) as u32);
        } else {
            proof {
                assert(result * (1 * knext) == key_spec(t, 0));
                assert((result * 1) * knext == key_spec(t, 0)) by (nonlinear_arith)
                    requires
                        result * (1 * knext) == key_spec(t, 0),
                ;
            }
        }
        i += 1;
    }
    proof {
        assert(key_spec(t, n as int) == 1);
        assert(t.to_multiset() == ps.push(d1g).push(d2g).to_multiset());
    }
    result
}

} // verus!
