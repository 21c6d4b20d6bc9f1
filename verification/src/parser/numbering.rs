//! How the parser numbers capture groups: each group takes the next number
//! of a counter that starts at 1, so the groups of a parsed pattern carry
//! the numbers 1 to n, each once.
use crate::parser::ast::Flags;
use crate::parser::lexer::{lemma_ident_end_after, lemma_lex_step_moves_on, TokV, TokenKind};
use crate::parser::syntax::{
    advance, at, p_alt, p_alt_rest, p_atom, p_behind, p_body, p_class, p_class_end, p_class_item,
    p_class_items, p_class_step, p_concat, p_concat_items, p_digits, p_flags, p_greedy, p_group,
    p_group_name, p_letter, p_named, p_pattern, p_quant, p_range, p_range_max, p_repeat,
    p_special, parse_result, rem, start_state, take_index, then, ErrV, GroupV, Node, Step, PV,
};
use vstd::prelude::*;

verus! {

// ---------------------------------------------------------------------------
// The numbers of a tree
// ---------------------------------------------------------------------------

/// The capture numbers of a tree: those inside each group, then its own.
pub open spec fn captures(n: Node) -> Seq<int>
    decreases n, 1nat,
{
    match n {
        Node::Concat(ns) => captures_all(ns),
        Node::Alt(ns) => captures_all(ns),
        Node::Repeat(b, _, _, _) => captures(*b),
        Node::Group(b, g) => match g {
            GroupV::Capturing(i) => captures(*b).push(i as int),
            GroupV::Named(_, i) => captures(*b).push(i as int),
            GroupV::NonCapturing => captures(*b),
        },
        Node::Lookaround(b, _) => captures(*b),
        _ => Seq::empty(),
    }
}

/// The capture numbers of a sequence of trees, in order.
pub open spec fn captures_all(ns: Seq<Node>) -> Seq<int>
    decreases ns, 0nat,
{
    if ns.len() == 0 {
        Seq::empty()
    } else {
        captures_all(ns.drop_last()) + captures(ns.last())
    }
}

/// Whether `xs` holds each of the numbers `a` to `b - 1` once, and no other.
pub open spec fn numbers_once(xs: Seq<int>, a: int, b: int) -> bool {
    &&& xs.len() == b - a
    &&& forall|i: int| 0 <= i < xs.len() ==> a <= #[trigger] xs[i] < b
    &&& forall|i: int, j: int| 0 <= i < j < xs.len() ==> xs[i] != xs[j]
}

/// Whether the capture groups of `n` are numbered 1 to n, each number once.
pub open spec fn captures_numbered(n: Node) -> bool {
    numbers_once(captures(n), 1, captures(n).len() as int + 1)
}

#[verifier::spinoff_prover]
#[verifier::rlimit(30)]
proof fn lemma_numbers_concat(xs: Seq<int>, ys: Seq<int>, a: int, b: int, c: int)
    requires
        numbers_once(xs, a, b),
        numbers_once(ys, b, c),
    ensures
        numbers_once(xs + ys, a, c),
{
    let zs = xs + ys;
    assert forall|i: int, j: int| 0 <= i < j < zs.len() implies zs[i] != zs[j] by {
        if j < xs.len() {
            assert(zs[i] == xs[i] && zs[j] == xs[j]);
        } else if i >= xs.len() {
            assert(zs[i] == ys[i - xs.len()] && zs[j] == ys[j - xs.len()]);
        } else {
            assert(zs[i] == xs[i] && zs[j] == ys[j - xs.len()]);
        }
    }
    assert forall|i: int| 0 <= i < zs.len() implies a <= #[trigger] zs[i] < c by {
        if i < xs.len() {
            assert(zs[i] == xs[i]);
        } else {
            assert(zs[i] == ys[i - xs.len()]);
        }
    }
}

#[verifier::spinoff_prover]
#[verifier::rlimit(30)]
proof fn lemma_numbers_push_last(xs: Seq<int>, a: int, b: int)
    requires
        numbers_once(xs, a, b),
    ensures
        numbers_once(xs.push(b), a, b + 1),
{
    let zs = xs.push(b);
    assert forall|i: int| 0 <= i < zs.len() implies a <= #[trigger] zs[i] < b + 1 by {
        if i < xs.len() {
            assert(zs[i] == xs[i]);
        }
    }
    assert forall|i: int, j: int| 0 <= i < j < zs.len() implies zs[i] != zs[j] by {
        assert(zs[i] == xs[i]);
        if j < xs.len() {
            assert(zs[j] == xs[j]);
        }
    }
}

#[verifier::spinoff_prover]
#[verifier::rlimit(30)]
proof fn lemma_numbers_push_first(xs: Seq<int>, a: int, b: int)
    requires
        numbers_once(xs, a + 1, b),
    ensures
        numbers_once(xs.push(a), a, b),
{
    let zs = xs.push(a);
    assert forall|i: int| 0 <= i < zs.len() implies a <= #[trigger] zs[i] < b by {
        if i < xs.len() {
            assert(zs[i] == xs[i]);
        }
    }
    assert forall|i: int, j: int| 0 <= i < j < zs.len() implies zs[i] != zs[j] by {
        assert(zs[i] == xs[i]);
        if j < xs.len() {
            assert(zs[j] == xs[j]);
        }
    }
}

#[verifier::spinoff_prover]
#[verifier::rlimit(30)]
proof fn lemma_captures_all_push(ns: Seq<Node>, n: Node)
    ensures
        captures_all(ns.push(n)) == captures_all(ns) + captures(n),
{
    assert(ns.push(n).drop_last() =~= ns);
}

// ---------------------------------------------------------------------------
// The counter against what is left
// ---------------------------------------------------------------------------

/// The next capture number plus the characters left: it never grows, as
/// each group is paid for by its `(`.
pub open spec fn budget(cs: Seq<char>, s: PV) -> int {
    s.next_capture as int + rem(cs, s) as int
}

/// A step that takes no number and reads on.
pub open spec fn keeps_count<T>(cs: Seq<char>, s: PV, r: Step<T>) -> bool {
    r.0 is Ok ==> r.1.next_capture == s.next_capture && rem(cs, r.1) <= rem(cs, s)
}

/// A step that numbers the groups of its tree from `s`'s counter on.
pub open spec fn numbers_from(cs: Seq<char>, s: PV, r: Step<Node>, extra: int) -> bool {
    r.0 matches Ok(n) ==> {
        &&& s.next_capture <= r.1.next_capture
        &&& budget(cs, r.1) <= budget(cs, s) + extra
        &&& numbers_once(captures(n), s.next_capture as int, r.1.next_capture as int)
    }
}

/// A step of a sequence of trees that numbers from `s`'s counter on,
/// after the numbers `a` to `s`'s counter that `acc` holds.
pub open spec fn numbers_all_from(cs: Seq<char>, s: PV, r: Step<Seq<Node>>, a: int) -> bool {
    r.0 matches Ok(ns) ==> {
        &&& s.next_capture <= r.1.next_capture
        &&& budget(cs, r.1) <= budget(cs, s)
        &&& numbers_once(captures_all(ns), a, r.1.next_capture as int)
    }
}

#[verifier::spinoff_prover]
#[verifier::rlimit(30)]
proof fn lemma_advance(cs: Seq<char>, s: PV)
    requires
        0 <= s.idx,
    ensures
        advance(cs, s) matches Ok(s1) ==> {
            &&& s1.next_capture == s.next_capture
            &&& s1.flags == s.flags
            &&& s1.in_class == s.in_class
            &&& 0 <= s1.idx
            &&& rem(cs, s1) <= rem(cs, s)
            &&& !at(s, TokenKind::Eof) ==> rem(cs, s1) < rem(cs, s)
        },
{
    lemma_lex_step_moves_on(cs, s.idx, s.in_class);
    if let Ok(s1) = advance(cs, s) {
        let n = crate::parser::lexer::lex_step(cs, s.idx, s.in_class).1;
        assert(s1.idx == n);
        if s.idx < cs.len() {
            assert((cs.len() - n) as nat + 1 <= (cs.len() - s.idx) as nat);
        } else {
            assert(at(s1, TokenKind::Eof));
            assert(n == s.idx);
        }
    }
}

// ---------------------------------------------------------------------------
// Steps that take no number
// ---------------------------------------------------------------------------

#[verifier::spinoff_prover]
#[verifier::rlimit(30)]
proof fn lemma_digits(cs: Seq<char>, s: PV, acc: u32, any: bool)
    requires
        0 <= s.idx,
    ensures
        keeps_count(cs, s, p_digits(cs, s, acc, any)),
        p_digits(cs, s, acc, any).0 is Ok ==> 0 <= p_digits(cs, s, acc, any).1.idx,
    decreases rem(cs, s),
{
    lemma_advance(cs, s);
    if let Ok(s1) = advance(cs, s) {
        if let TokV::Plain(TokenKind::Digit(d)) = s.cur {
            if rem(cs, s1) < rem(cs, s) {
                lemma_digits(cs, s1, crate::parser::syntax::saturated(acc, d), true);
            }
        }
    }
}

#[verifier::spinoff_prover]
#[verifier::rlimit(30)]
proof fn lemma_range(cs: Seq<char>, s: PV)
    requires
        0 <= s.idx,
    ensures
        keeps_count(cs, s, p_range(cs, s)),
        p_range(cs, s).0 is Ok ==> 0 <= p_range(cs, s).1.idx,
{
    lemma_digits(cs, s, 0, false);
    let s1 = p_digits(cs, s, 0, false).1;
    if p_digits(cs, s, 0, false).0 is Ok {
        lemma_advance(cs, s1);
        if let Ok(s2) = advance(cs, s1) {
            lemma_digits(cs, s2, 0, false);
        }
    }
}

#[verifier::spinoff_prover]
#[verifier::rlimit(30)]
proof fn lemma_quant(cs: Seq<char>, s: PV, n: Node)
    requires
        0 <= s.idx,
    ensures
        keeps_count(cs, s, p_quant(cs, s, n)),
        p_quant(cs, s, n) matches (Ok(m), s1) ==> captures(m) == captures(n) && 0 <= s1.idx,
{
    lemma_advance(cs, s);
    if let Ok(s1) = advance(cs, s) {
        lemma_advance(cs, s1);
        lemma_range(cs, s1);
        let s2 = p_range(cs, s1).1;
        if p_range(cs, s1).0 is Ok {
            lemma_advance(cs, s2);
            if let Ok(s3) = advance(cs, s2) {
                lemma_advance(cs, s3);
            }
        }
    }
}

#[verifier::spinoff_prover]
#[verifier::rlimit(30)]
proof fn lemma_group_name(cs: Seq<char>, s: PV)
    requires
        0 <= s.idx,
    ensures
        keeps_count(cs, s, p_group_name(cs, s)),
        p_group_name(cs, s).0 is Ok ==> 0 <= p_group_name(cs, s).1.idx,
{
    lemma_ident_end_after(cs, s.idx);
    let e = crate::parser::lexer::ident_end(cs, s.idx);
    lemma_lex_step_moves_on(cs, e, s.in_class);
    let (t, n) = crate::parser::lexer::lex_step(cs, e, s.in_class);
    if let Ok(tok) = t {
        lemma_advance(cs, PV { idx: n, cur: tok, ..s });
    }
}

#[verifier::spinoff_prover]
#[verifier::rlimit(30)]
proof fn lemma_flags(cs: Seq<char>, s: PV, negating: bool)
    requires
        0 <= s.idx,
    ensures
        keeps_count(cs, s, p_flags(cs, s, negating)),
        p_flags(cs, s, negating).0 is Ok ==> 0 <= p_flags(cs, s, negating).1.idx,
    decreases rem(cs, s),
{
    lemma_advance(cs, s);
    match s.cur {
        TokV::Plain(TokenKind::Literal(c)) => {
            let s0 = PV { flags: crate::parser::syntax::set_flag(s.flags, c, !negating), ..s };
            lemma_advance(cs, s0);
            if let Ok(s1) = advance(cs, s0) {
                if rem(cs, s1) < rem(cs, s) {
                    lemma_flags(cs, s1, negating);
                }
            }
        },
        TokV::Plain(TokenKind::Hyphen) => {
            if let Ok(s1) = advance(cs, s) {
                if rem(cs, s1) < rem(cs, s) {
                    lemma_flags(cs, s1, true);
                }
            }
        },
        _ => {},
    }
}

#[verifier::spinoff_prover]
#[verifier::rlimit(30)]
proof fn lemma_class_item(cs: Seq<char>, s: PV)
    requires
        0 <= s.idx,
    ensures
        keeps_count(cs, s, p_class_item(cs, s)),
        p_class_item(cs, s).0 is Ok ==> 0 <= p_class_item(cs, s).1.idx,
{
    lemma_advance(cs, s);
}

#[verifier::spinoff_prover]
#[verifier::rlimit(30)]
proof fn lemma_class_step(cs: Seq<char>, s: PV, acc: Seq<crate::parser::ast::ClassRange>)
    requires
        0 <= s.idx,
    ensures
        keeps_count(cs, s, p_class_step(cs, s, acc)),
        p_class_step(cs, s, acc).0 is Ok ==> 0 <= p_class_step(cs, s, acc).1.idx,
{
    lemma_class_item(cs, s);
    let s1 = p_class_item(cs, s).1;
    lemma_advance(cs, s1);
    if let Ok(s2) = advance(cs, s1) {
        lemma_class_item(cs, s2);
    }
}

#[verifier::spinoff_prover]
#[verifier::rlimit(30)]
proof fn lemma_class_items(cs: Seq<char>, s: PV, acc: Seq<crate::parser::ast::ClassRange>)
    requires
        0 <= s.idx,
    ensures
        keeps_count(cs, s, p_class_items(cs, s, acc)),
        p_class_items(cs, s, acc).0 is Ok ==> 0 <= p_class_items(cs, s, acc).1.idx,
    decreases rem(cs, s),
{
    lemma_class_step(cs, s, acc);
    if let (Ok(acc1), s1) = p_class_step(cs, s, acc) {
        if rem(cs, s1) < rem(cs, s) {
            lemma_class_items(cs, s1, acc1);
        }
    }
}

#[verifier::spinoff_prover]
#[verifier::rlimit(30)]
proof fn lemma_class(cs: Seq<char>, s: PV)
    requires
        0 <= s.idx,
    ensures
        keeps_count(cs, s, p_class(cs, s)),
        p_class(cs, s) matches (Ok(n), s1) ==> captures(n) == Seq::<int>::empty() && 0 <= s1.idx,
{
    let s0 = PV { in_class: true, ..s };
    lemma_advance(cs, s0);
    if let Ok(s1) = advance(cs, s0) {
        lemma_advance(cs, s1);
        let s2 = if at(s1, TokenKind::Caret) {
            advance(cs, s1)
        } else {
            Ok(s1)
        };
        if let Ok(s2) = s2 {
            lemma_advance(cs, s2);
            let first = if at(s2, TokenKind::CloseBracket) {
                seq![crate::parser::syntax::single(']')]
            } else if at(s2, TokenKind::Hyphen) {
                seq![crate::parser::syntax::single('-')]
            } else {
                Seq::empty()
            };
            let s3 = if at(s2, TokenKind::CloseBracket) || at(s2, TokenKind::Hyphen) {
                advance(cs, s2)
            } else {
                Ok(s2)
            };
            if let Ok(s3) = s3 {
                lemma_class_items(cs, s3, first);
                let s4 = p_class_items(cs, s3, first).1;
                if p_class_items(cs, s3, first).0 is Ok {
                    lemma_advance(cs, PV { in_class: false, ..s4 });
                }
            }
        }
    }
}

// ---------------------------------------------------------------------------
// The recursive descent numbers its groups in turn
// ---------------------------------------------------------------------------

#[verifier::spinoff_prover]
#[verifier::rlimit(30)]
proof fn lemma_alt(cs: Seq<char>, s: PV)
    requires
        0 <= s.idx,
        budget(cs, s) <= u32::MAX,
    ensures
        numbers_from(cs, s, p_alt(cs, s), 0),
        p_alt(cs, s).0 is Ok ==> 0 <= p_alt(cs, s).1.idx,
    decreases rem(cs, s), 10nat,
{
    lemma_concat(cs, s);
    if let (Ok(left), s1) = p_concat(cs, s) {
        if at(s1, TokenKind::Pipe) && rem(cs, s1) <= rem(cs, s) {
            lemma_captures_all_push(Seq::empty(), left);
            assert(Seq::<Node>::empty().push(left) =~= seq![left]);
            assert(captures_all(Seq::<Node>::empty()) =~= Seq::<int>::empty());
            assert(Seq::<int>::empty() + captures(left) =~= captures(left));
            lemma_alt_rest(cs, s1, seq![left], s.next_capture as int);
        }
    }
}

#[verifier::spinoff_prover]
#[verifier::rlimit(30)]
proof fn lemma_alt_rest(cs: Seq<char>, s: PV, acc: Seq<Node>, a: int)
    requires
        0 <= s.idx,
        budget(cs, s) <= u32::MAX,
        a <= s.next_capture,
        numbers_once(captures_all(acc), a, s.next_capture as int),
    ensures
        numbers_all_from(cs, s, p_alt_rest(cs, s, acc), a),
        p_alt_rest(cs, s, acc).0 is Ok ==> 0 <= p_alt_rest(cs, s, acc).1.idx,
    decreases rem(cs, s), 9nat,
{
    if at(s, TokenKind::Pipe) {
        lemma_advance(cs, s);
        if let Ok(s1) = advance(cs, s) {
            if rem(cs, s1) < rem(cs, s) {
                lemma_concat(cs, s1);
                if let (Ok(n), s2) = p_concat(cs, s1) {
                    lemma_captures_all_push(acc, n);
                    lemma_numbers_concat(
                        captures_all(acc),
                        captures(n),
                        a,
                        s.next_capture as int,
                        s2.next_capture as int,
                    );
                    if rem(cs, s2) < rem(cs, s) {
                        lemma_alt_rest(cs, s2, acc.push(n), a);
                    }
                }
            }
        }
    }
}

#[verifier::spinoff_prover]
#[verifier::rlimit(30)]
proof fn lemma_concat(cs: Seq<char>, s: PV)
    requires
        0 <= s.idx,
        budget(cs, s) <= u32::MAX,
    ensures
        numbers_from(cs, s, p_concat(cs, s), 0),
        p_concat(cs, s).0 is Ok ==> 0 <= p_concat(cs, s).1.idx,
    decreases rem(cs, s), 8nat,
{
    assert(captures_all(Seq::<Node>::empty()) =~= Seq::<int>::empty());
    lemma_concat_items(cs, s, Seq::empty(), s.next_capture as int);
    if let (Ok(ns), s1) = p_concat_items(cs, s, Seq::empty()) {
        if ns.len() == 1 {
            assert(ns.drop_last() =~= Seq::<Node>::empty());
            assert(captures_all(ns) =~= captures(ns[0]));
        }
    }
}

#[verifier::spinoff_prover]
#[verifier::rlimit(30)]
proof fn lemma_concat_items(cs: Seq<char>, s: PV, acc: Seq<Node>, a: int)
    requires
        0 <= s.idx,
        budget(cs, s) <= u32::MAX,
        a <= s.next_capture,
        numbers_once(captures_all(acc), a, s.next_capture as int),
    ensures
        numbers_all_from(cs, s, p_concat_items(cs, s, acc), a),
        p_concat_items(cs, s, acc).0 is Ok ==> 0 <= p_concat_items(cs, s, acc).1.idx,
    decreases rem(cs, s), 7nat,
{
    if !(at(s, TokenKind::Eof) || at(s, TokenKind::Pipe) || at(s, TokenKind::CloseParen)) {
        lemma_repeat(cs, s);
        if let (Ok(n), s1) = p_repeat(cs, s) {
            lemma_captures_all_push(acc, n);
            lemma_numbers_concat(
                captures_all(acc),
                captures(n),
                a,
                s.next_capture as int,
                s1.next_capture as int,
            );
            if rem(cs, s1) < rem(cs, s) {
                lemma_concat_items(cs, s1, acc.push(n), a);
            }
        }
    }
}

#[verifier::spinoff_prover]
#[verifier::rlimit(30)]
proof fn lemma_repeat(cs: Seq<char>, s: PV)
    requires
        0 <= s.idx,
        budget(cs, s) <= u32::MAX,
    ensures
        numbers_from(cs, s, p_repeat(cs, s), 0),
        p_repeat(cs, s).0 is Ok ==> 0 <= p_repeat(cs, s).1.idx,
    decreases rem(cs, s), 6nat,
{
    lemma_atom(cs, s);
    if let (Ok(n), s1) = p_atom(cs, s) {
        lemma_quant(cs, s1, n);
    }
}

#[verifier::spinoff_prover]
#[verifier::rlimit(30)]
proof fn lemma_atom(cs: Seq<char>, s: PV)
    requires
        0 <= s.idx,
        budget(cs, s) <= u32::MAX,
    ensures
        numbers_from(cs, s, p_atom(cs, s), 0),
        p_atom(cs, s).0 is Ok ==> 0 <= p_atom(cs, s).1.idx,
    decreases rem(cs, s), 5nat,
{
    lemma_advance(cs, s);
    match s.cur {
        TokV::Plain(TokenKind::OpenParen) => {
            lemma_group(cs, s);
        },
        TokV::Plain(TokenKind::OpenBracket) => {
            lemma_class(cs, s);
        },
        _ => {
            let r = p_atom(cs, s);
            if let (Ok(n), _) = r {
                assert(captures(n) =~= Seq::<int>::empty());
            }
        },
    }
}

#[verifier::spinoff_prover]
#[verifier::rlimit(30)]
proof fn lemma_group(cs: Seq<char>, s: PV)
    requires
        0 <= s.idx,
        budget(cs, s) <= u32::MAX,
        at(s, TokenKind::OpenParen),
    ensures
        numbers_from(cs, s, p_group(cs, s), 0),
        p_group(cs, s).0 is Ok ==> 0 <= p_group(cs, s).1.idx,
    decreases rem(cs, s), 4nat,
{
    lemma_advance(cs, s);
    if let Ok(s1) = advance(cs, s) {
        if !at(s1, TokenKind::Question) {
            let t = take_index(s1);
            assert(t.next_capture == s.next_capture + 1);
            lemma_body(cs, s, t);
            if let (Ok(n), s2) = p_body(cs, s, t) {
                lemma_numbers_push_first(
                    captures(n),
                    s.next_capture as int,
                    s2.next_capture as int,
                );
            }
        } else {
            lemma_advance(cs, s1);
            if let Ok(s2) = advance(cs, s1) {
                lemma_special(cs, s, s2);
            }
        }
    }
}

#[verifier::spinoff_prover]
#[verifier::rlimit(30)]
proof fn lemma_special(cs: Seq<char>, s: PV, s2: PV)
    requires
        0 <= s2.idx,
        budget(cs, s2) < u32::MAX,
    ensures
        numbers_from(cs, s2, p_special(cs, s, s2), 1),
        p_special(cs, s, s2).0 is Ok ==> 0 <= p_special(cs, s, s2).1.idx,
    decreases rem(cs, s), 3nat,
{
    lemma_advance(cs, s2);
    match s2.cur {
        TokV::Plain(TokenKind::LessThan) => {
            if let Ok(s3) = advance(cs, s2) {
                lemma_behind(cs, s, s3);
            }
        },
        TokV::Plain(TokenKind::Literal(c)) => {
            lemma_letter(cs, s, s2, c);
        },
        _ => {
            if let Ok(s3) = advance(cs, s2) {
                lemma_body(cs, s, s3);
            }
        },
    }
}

#[verifier::spinoff_prover]
#[verifier::rlimit(30)]
proof fn lemma_behind(cs: Seq<char>, s: PV, s3: PV)
    requires
        0 <= s3.idx,
        budget(cs, s3) < u32::MAX,
    ensures
        numbers_from(cs, s3, p_behind(cs, s, s3), 1),
        p_behind(cs, s, s3).0 is Ok ==> 0 <= p_behind(cs, s, s3).1.idx,
    decreases rem(cs, s), 2nat,
{
    if at(s3, TokenKind::Equals) || at(s3, TokenKind::Exclamation) {
        lemma_advance(cs, s3);
        if let Ok(s4) = advance(cs, s3) {
            lemma_body(cs, s, s4);
        }
    } else {
        lemma_named(cs, s, s3);
    }
}

#[verifier::spinoff_prover]
#[verifier::rlimit(30)]
proof fn lemma_letter(cs: Seq<char>, s: PV, s2: PV, c: char)
    requires
        0 <= s2.idx,
        budget(cs, s2) < u32::MAX,
    ensures
        numbers_from(cs, s2, p_letter(cs, s, s2, c), 1),
        p_letter(cs, s, s2, c).0 is Ok ==> 0 <= p_letter(cs, s, s2, c).1.idx,
    decreases rem(cs, s), 2nat,
{
    lemma_advance(cs, s2);
    if c == 'P' {
        if let Ok(s3) = advance(cs, s2) {
            lemma_advance(cs, s3);
            if at(s3, TokenKind::LessThan) {
                if let Ok(s4) = advance(cs, s3) {
                    lemma_named(cs, s, s4);
                }
            }
        }
    } else if crate::parser::syntax::flag_letter(c) {
        lemma_flags(cs, s2, false);
        if let (Ok(_), s3) = p_flags(cs, s2, false) {
            lemma_advance(cs, s3);
            if at(s3, TokenKind::Colon) {
                if let Ok(s4) = advance(cs, s3) {
                    lemma_body(cs, s, s4);
                }
            }
        }
    }
}

#[verifier::spinoff_prover]
#[verifier::rlimit(30)]
proof fn lemma_named(cs: Seq<char>, s: PV, s1: PV)
    requires
        0 <= s1.idx,
        budget(cs, s1) < u32::MAX,
    ensures
        numbers_from(cs, s1, p_named(cs, s, s1), 1),
        p_named(cs, s, s1).0 is Ok ==> 0 <= p_named(cs, s, s1).1.idx,
    decreases rem(cs, s), 1nat,
{
    lemma_group_name(cs, s1);
    if let (Ok(name), s2) = p_group_name(cs, s1) {
        lemma_body(cs, s, s2);
        if let (Ok(n), s3) = p_body(cs, s, s2) {
            assert(take_index(s3).next_capture == s3.next_capture + 1);
            lemma_numbers_push_last(
                captures(n),
                s1.next_capture as int,
                s3.next_capture as int,
            );
        }
    }
}

#[verifier::spinoff_prover]
#[verifier::rlimit(30)]
proof fn lemma_body(cs: Seq<char>, s: PV, s1: PV)
    requires
        0 <= s1.idx,
        budget(cs, s1) <= u32::MAX,
    ensures
        numbers_from(cs, s1, p_body(cs, s, s1), 0),
        p_body(cs, s, s1).0 is Ok ==> 0 <= p_body(cs, s, s1).1.idx,
    decreases rem(cs, s), 0nat,
{
    if rem(cs, s1) < rem(cs, s) {
        lemma_alt(cs, s1);
        if let (Ok(_), s2) = p_alt(cs, s1) {
            lemma_advance(cs, s2);
        }
    }
}

/// The capture groups of a parsed pattern are numbered 1 to n, each number
/// once (for patterns shorter than `u32::MAX - 1` characters, below which
/// the counter cannot wrap).
#[verifier::spinoff_prover]
#[verifier::rlimit(30)]
pub proof fn lemma_parse_numbers_captures(cs: Seq<char>)
    requires
        cs.len() + 2 <= u32::MAX,
    ensures
        parse_result(cs) matches Ok((n, _)) ==> captures_numbered(n),
{
    let s = start_state(cs);
    lemma_lex_step_moves_on(cs, 0, false);
    if crate::parser::lexer::lex_step(cs, 0, false).0 is Err {
        crate::parser::syntax::lemma_pattern_at_end(cs, s);
        assert(captures(Node::Empty) =~= Seq::<int>::empty());
    } else {
        assert(budget(cs, s) <= u32::MAX);
        lemma_alt(cs, s);
    }
}

} // verus!
