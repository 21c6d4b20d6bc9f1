//! Writing syntax trees back as pattern text.
use crate::parser::ast::{
    Anchor, Class, ClassRange, Expr, GroupKind, LookaroundKind, PerlClassKind,
};
use crate::parser::lexer::{lex_step, plain_kind, push_char, TokV, TokenKind};
use crate::parser::syntax::{
    advance, node_of, p_atom, p_behind, p_body, p_group, p_special, then, wrap, ErrV, Node, PV,
};
use vstd::prelude::*;
use vstd::string::StringExecFns;

verus! {

// ---------------------------------------------------------------------------
// The text of each construct
// ---------------------------------------------------------------------------

/// The hexadecimal digit of `d` (upper case), for `d < 16`.
pub open spec fn hex_digit(d: nat) -> char {
    if d < 10 {
        ('0' as nat + d) as char
    } else {
        ('A' as nat + (d - 10)) as char
    }
}

/// `n` in decimal, without leading zeros.
pub open spec fn dec_text(n: nat) -> Seq<char>
    decreases n,
{
    if n < 10 {
        seq![hex_digit(n)]
    } else {
        dec_text(n / 10) + seq![hex_digit(n % 10)]
    }
}

/// `n` in upper-case hexadecimal, without leading zeros.
pub open spec fn hex_text(n: nat) -> Seq<char>
    decreases n,
{
    if n < 16 {
        seq![hex_digit(n)]
    } else {
        hex_text(n / 16) + seq![hex_digit(n % 16)]
    }
}

/// Whether a character has a meaning of its own in a pattern.
pub open spec fn is_meta(c: char) -> bool {
    c == '\\' || c == '.' || c == '*' || c == '+' || c == '?' || c == '(' || c == ')' || c == '['
        || c == ']' || c == '{' || c == '}' || c == '|' || c == '^' || c == '$'
}

/// How a character is written in a pattern: escaped when it is a
/// metacharacter or a line break or tab, as itself when it is printable
/// ASCII or a space, and as `\u{HEX}` otherwise.
pub open spec fn escaped(c: char) -> Seq<char> {
    if is_meta(c) {
        seq!['\\', c]
    } else if c == '\n' {
        seq!['\\', 'n']
    } else if c == '\r' {
        seq!['\\', 'r']
    } else if c == '\t' {
        seq!['\\', 't']
    } else if ('!' <= c && c <= '~') || c == ' ' {
        seq![c]
    } else {
        seq!['\\', 'u', '{'] + hex_text(c as nat) + seq!['}']
    }
}

/// The text of an anchor.
pub open spec fn anchor_text(a: Anchor) -> Seq<char> {
    match a {
        Anchor::StartOfString => seq!['^'],
        Anchor::StartOfLine => seq!['^'],
        Anchor::EndOfString => seq!['$'],
        Anchor::EndOfLine => seq!['$'],
        Anchor::WordBoundary => seq!['\\', 'b'],
        Anchor::NotWordBoundary => seq!['\\', 'B'],
        Anchor::StartOfInput => seq!['\\', 'A'],
        Anchor::EndOfInput => seq!['\\', 'z'],
        Anchor::EndOfInputBeforeNewline => seq!['\\', 'Z'],
    }
}

/// The text of a Perl class.
pub open spec fn perl_text(k: PerlClassKind) -> Seq<char> {
    match k {
        PerlClassKind::Digit => seq!['\\', 'd'],
        PerlClassKind::NotDigit => seq!['\\', 'D'],
        PerlClassKind::Word => seq!['\\', 'w'],
        PerlClassKind::NotWord => seq!['\\', 'W'],
        PerlClassKind::Whitespace => seq!['\\', 's'],
        PerlClassKind::NotWhitespace => seq!['\\', 'S'],
    }
}

/// The opening of a lookaround after its `(`.
pub open spec fn lookaround_prefix(k: LookaroundKind) -> Seq<char> {
    match k {
        LookaroundKind::PositiveLookahead => seq!['?', '='],
        LookaroundKind::NegativeLookahead => seq!['?', '!'],
        LookaroundKind::PositiveLookbehind => seq!['?', '<', '='],
        LookaroundKind::NegativeLookbehind => seq!['?', '<', '!'],
    }
}

/// Reading a lookaround back: where the parser stands at a `(` that is
/// followed by the opening that a lookaround of kind `k` is written with, it
/// reads a lookaround of that same kind around the group's body, as it reads
/// the body after that opening, or fails as reading the body fails.
#[verifier::spinoff_prover]
#[verifier::rlimit(40)]
pub proof fn lemma_lookaround_prefix_reads_back(cs: Seq<char>, s: PV, k: LookaroundKind)
    requires
        s.cur == TokV::Plain(TokenKind::OpenParen),
        !s.in_class,
        0 <= s.idx,
        s.idx + lookaround_prefix(k).len() <= cs.len(),
        cs.subrange(s.idx, s.idx + lookaround_prefix(k).len()) == lookaround_prefix(k),
    ensures
        ({
            let opened = PV { idx: s.idx + lookaround_prefix(k).len(), ..s };
            match advance(cs, opened) {
                Ok(s1) => p_group(cs, s) == wrap(
                    p_body(cs, s, s1),
                    |n: Node| Node::Lookaround(Box::new(n), k),
                ),
                Err(e) => p_group(cs, s).0 == Err::<Node, _>(e),
            }
        }),
{
    let pre = lookaround_prefix(k);
    let i = s.idx;
    let opened = PV { idx: i + pre.len(), ..s };
    assert(cs[i] == pre[0]);
    assert(cs[i + 1] == pre[1]);
    lemma_advance_plain(cs, s);
    let s1 = PV { idx: i + 1, cur: TokV::Plain(TokenKind::Question), ..s };
    lemma_advance_plain(cs, s1);
    let s2 = PV { idx: i + 2, cur: TokV::Plain(plain_kind(pre[1])), ..s };
    lemma_group_special(cs, s, s1, s2);
    if pre.len() == 3 {
        assert(cs[i + 2] == pre[2]);
        lemma_advance_plain(cs, s2);
        let s3 = PV { idx: i + 3, cur: TokV::Plain(plain_kind(pre[2])), ..s };
        lemma_special_behind(cs, s, s2, s3);
        lemma_behind_kind(cs, s, s3, k);
        assert(s3 == PV { cur: s3.cur, ..opened });
        lemma_advance_cur(cs, opened, s3.cur);
    } else {
        lemma_special_ahead(cs, s, s2, k);
        assert(s2 == PV { cur: s2.cur, ..opened });
        lemma_advance_cur(cs, opened, s2.cur);
    }
}

proof fn lemma_advance_cur(cs: Seq<char>, a: PV, c: TokV)
    ensures
        advance(cs, PV { cur: c, ..a }) == advance(cs, a),
{
}

proof fn lemma_special_ahead(cs: Seq<char>, s: PV, s2: PV, k: LookaroundKind)
    requires
        k == LookaroundKind::PositiveLookahead ==> s2.cur == TokV::Plain(TokenKind::Equals),
        k == LookaroundKind::NegativeLookahead ==> s2.cur == TokV::Plain(TokenKind::Exclamation),
        k == LookaroundKind::PositiveLookahead || k == LookaroundKind::NegativeLookahead,
    ensures
        match advance(cs, s2) {
            Ok(s3) => p_special(cs, s, s2) == wrap(p_body(cs, s, s3), |n: Node| Node::Lookaround(Box::new(n), k)),
            Err(e) => p_special(cs, s, s2).0 == Err::<Node, _>(e),
        },
{
}

proof fn lemma_special_behind(cs: Seq<char>, s: PV, s2: PV, s3: PV)
    requires
        s2.cur == TokV::Plain(TokenKind::LessThan),
        advance(cs, s2) == Ok::<PV, ErrV>(s3),
    ensures
        p_special(cs, s, s2) == p_behind(cs, s, s3),
{
}

proof fn lemma_behind_kind(cs: Seq<char>, s: PV, s3: PV, k: LookaroundKind)
    requires
        k == LookaroundKind::PositiveLookbehind ==> s3.cur == TokV::Plain(TokenKind::Equals),
        k == LookaroundKind::NegativeLookbehind ==> s3.cur == TokV::Plain(TokenKind::Exclamation),
        k == LookaroundKind::PositiveLookbehind || k == LookaroundKind::NegativeLookbehind,
    ensures
        match advance(cs, s3) {
            Ok(s4) => p_behind(cs, s, s3) == wrap(p_body(cs, s, s4), |n: Node| Node::Lookaround(Box::new(n), k)),
            Err(e) => p_behind(cs, s, s3).0 == Err::<Node, _>(e),
        },
{
}

proof fn lemma_group_special(cs: Seq<char>, s: PV, s1: PV, s2: PV)
    requires
        advance(cs, s) == Ok::<PV, ErrV>(s1),
        s1.cur == TokV::Plain(TokenKind::Question),
        advance(cs, s1) == Ok::<PV, ErrV>(s2),
    ensures
        p_group(cs, s) == p_special(cs, s, s2),
{
}

proof fn lemma_advance_plain(cs: Seq<char>, s: PV)
    requires
        0 <= s.idx < cs.len(),
        !s.in_class,
        cs[s.idx] != '\\',
    ensures
        advance(cs, s) == Ok::<PV, ErrV>(PV { idx: s.idx + 1, cur: TokV::Plain(plain_kind(cs[s.idx])), ..s }),
{
}

/// Whether `e` is written as one token: `.`, a Perl class, an anchor, or a
/// character that is written as itself or with one escaping `\`.
pub open spec fn one_token(e: Expr) -> bool {
    match e {
        Expr::Dot => true,
        Expr::PerlClass(_) => true,
        Expr::Anchor(_) => true,
        Expr::Literal(c) => is_meta(c) || c == '\n' || c == '\r' || c == '\t' || ('!' <= c && c <= '~')
            || c == ' ',
        _ => false,
    }
}

/// Whether an anchor, written as `^` or `$` where it is one of the line or
/// text anchors, reads back as itself under the multi-line flag `multi_line`.
pub open spec fn anchor_reads_as(a: Anchor, multi_line: bool) -> bool {
    match a {
        Anchor::StartOfLine => multi_line,
        Anchor::EndOfLine => multi_line,
        Anchor::StartOfString => !multi_line,
        Anchor::EndOfString => !multi_line,
        _ => true,
    }
}

/// Reading a one-token expression back: where its text stands at the
/// parser's position, the lexer reads the whole text as one token, and the
/// parser turns that token into the same expression and reads on.
pub proof fn lemma_token_reads_back(e: Expr, cs: Seq<char>, s: PV)
    requires
        one_token(e),
        e matches Expr::Anchor(a) ==> anchor_reads_as(a, s.flags.multi_line),
        !s.in_class,
        0 <= s.idx,
        s.idx + expr_text(e).len() <= cs.len(),
        cs.subrange(s.idx, s.idx + expr_text(e).len()) == expr_text(e),
    ensures
        ({
            let (t, n) = lex_step(cs, s.idx, false);
            &&& t is Ok
            &&& n == s.idx + expr_text(e).len()
            &&& p_atom(cs, PV { idx: n, cur: t->Ok_0, ..s }) == then(cs, PV { idx: n, cur: t->Ok_0, ..s }, node_of(e))
        }),
{
    let txt = expr_text(e);
    let i = s.idx;
    assert(cs[i] == txt[0]);
    if txt.len() == 2 {
        assert(cs[i + 1] == txt[1]);
    }
}

/// The text of a repetition count: `*`, `+`, `?`, `{n,}`, `{n}` or `{n,m}`.
pub open spec fn quantifier_text(min: u32, max: Option<u32>) -> Seq<char> {
    match max {
        None => if min == 0 {
            seq!['*']
        } else if min == 1 {
            seq!['+']
        } else {
            seq!['{'] + dec_text(min as nat) + seq![',', '}']
        },
        Some(m) => if min == 0 && m == 1 {
            seq!['?']
        } else if min == m {
            seq!['{'] + dec_text(min as nat) + seq!['}']
        } else {
            seq!['{'] + dec_text(min as nat) + seq![','] + dec_text(m as nat) + seq!['}']
        },
    }
}

/// The text of a class range: one character, or `a-b`.
pub open spec fn range_text(r: ClassRange) -> Seq<char> {
    if r.start == r.end {
        escaped(r.start)
    } else {
        escaped(r.start) + seq!['-'] + escaped(r.end)
    }
}

/// The text of the ranges of a class, one after another.
pub open spec fn ranges_text(rs: Seq<ClassRange>) -> Seq<char>
    decreases rs.len(),
{
    if rs.len() == 0 {
        Seq::empty()
    } else {
        ranges_text(rs.drop_last()) + range_text(rs.last())
    }
}

/// The text of an expression.
pub open spec fn expr_text(e: Expr) -> Seq<char>
    decreases e, 1nat,
{
    match e {
        Expr::Empty => Seq::empty(),
        Expr::Literal(c) => escaped(c),
        Expr::Concat(es) => concat_text(es@),
        Expr::Alt(es) => alt_text(es@),
        Expr::Repeat(r) => {
            let body = if r.expr is Concat || r.expr is Alt {
                seq!['(', '?', ':'] + expr_text(r.expr) + seq![')']
            } else {
                expr_text(r.expr)
            };
            body + quantifier_text(r.min, r.max) + if r.greedy {
                Seq::empty()
            } else {
                seq!['?']
            }
        },
        Expr::Group(g) => match g.kind {
            GroupKind::Capturing(_) => seq!['('] + expr_text(g.expr) + seq![')'],
            GroupKind::NamedCapturing { name, .. } => seq!['(', '?', '<'] + name@ + seq!['>']
                + expr_text(g.expr) + seq![')'],
            GroupKind::NonCapturing => seq!['(', '?', ':'] + expr_text(g.expr) + seq![')'],
        },
        Expr::Class(c) => seq!['['] + (if c.negated {
            seq!['^']
        } else {
            Seq::empty()
        }) + ranges_text(c.ranges@) + seq![']'],
        Expr::Anchor(a) => anchor_text(a),
        Expr::Lookaround(la) => seq!['('] + lookaround_prefix(la.kind) + expr_text(la.expr) + seq![
            ')',
        ],
        Expr::Backref(n) => seq!['\\'] + dec_text(n as nat),
        Expr::Dot => seq!['.'],
        Expr::UnicodeProperty { name, negated } => seq![
            '\\',
            if negated {
                'P'
            } else {
                'p'
            },
            '{',
        ] + name@ + seq!['}'],
        Expr::PerlClass(k) => perl_text(k),
    }
}

/// The texts of expressions one after another.
pub open spec fn concat_text(es: Seq<Expr>) -> Seq<char>
    decreases es, 0nat,
{
    if es.len() == 0 {
        Seq::empty()
    } else {
        concat_text(es.drop_last()) + expr_text(es.last())
    }
}

/// The texts of expressions separated by `|`.
pub open spec fn alt_text(es: Seq<Expr>) -> Seq<char>
    decreases es, 0nat,
{
    if es.len() == 0 {
        Seq::empty()
    } else if es.len() == 1 {
        expr_text(es[0])
    } else {
        alt_text(es.drop_last()) + seq!['|'] + expr_text(es.last())
    }
}

// ---------------------------------------------------------------------------
// Writing the text
// ---------------------------------------------------------------------------

/// The hexadecimal digit of `d` (upper case).
fn hex_digit_char(d: u32) -> (c: char)
    requires
        d < 16,
    ensures
        c == hex_digit(d as nat),
{
    match d {
        0 => '0',
        1 => '1',
        2 => '2',
        3 => '3',
        4 => '4',
        5 => '5',
        6 => '6',
        7 => '7',
        8 => '8',
        9 => '9',
        10 => 'A',
        11 => 'B',
        12 => 'C',
        13 => 'D',
        14 => 'E',
        _ => 'F',
    }
}

/// Appends `n` in decimal.
fn push_decimal(out: &mut String, n: u32)
    ensures
        final(out)@ == old(out)@ + dec_text(n as nat),
    decreases n,
{
    if n >= 10 {
        push_decimal(out, n / 10);
    }
    push_char(out, hex_digit_char(n % 10));
    proof {
        if n < 10 {
            assert(old(out)@.push(hex_digit(n as nat)) =~= old(out)@ + seq![hex_digit(n as nat)]);
        } else {
            assert(final(out)@ =~= old(out)@ + (dec_text((n / 10) as nat) + seq![
                hex_digit((n % 10) as nat),
            ]));
        }
    }
}

/// Appends `n` in upper-case hexadecimal.
fn push_hex(out: &mut String, n: u32)
    ensures
        final(out)@ == old(out)@ + hex_text(n as nat),
    decreases n,
{
    if n >= 16 {
        push_hex(out, n / 16);
    }
    push_char(out, hex_digit_char(n % 16));
    proof {
        if n < 16 {
            assert(old(out)@.push(hex_digit(n as nat)) =~= old(out)@ + seq![hex_digit(n as nat)]);
        } else {
            assert(final(out)@ =~= old(out)@ + (hex_text((n / 16) as nat) + seq![
                hex_digit((n % 16) as nat),
            ]));
        }
    }
}

/// Appends two characters.
fn push_two(out: &mut String, a: char, b: char)
    ensures
        final(out)@ == old(out)@ + seq![a, b],
{
    push_char(out, a);
    push_char(out, b);
    proof {
        assert(final(out)@ =~= old(out)@ + seq![a, b]);
    }
}

/// Appends three characters.
fn push_three(out: &mut String, a: char, b: char, c: char)
    ensures
        final(out)@ == old(out)@ + seq![a, b, c],
{
    push_char(out, a);
    push_char(out, b);
    push_char(out, c);
    proof {
        assert(final(out)@ =~= old(out)@ + seq![a, b, c]);
    }
}

/// Appends one character.
fn push_one(out: &mut String, a: char)
    ensures
        final(out)@ == old(out)@ + seq![a],
{
    push_char(out, a);
    proof {
        assert(final(out)@ =~= old(out)@ + seq![a]);
    }
}

/// Appends a character as a pattern writes it.
fn push_escaped(out: &mut String, c: char)
    ensures
        final(out)@ == old(out)@ + escaped(c),
{
    if c == '\\' || c == '.' || c == '*' || c == '+' || c == '?' || c == '(' || c == ')' || c
        == '[' || c == ']' || c == '{' || c == '}' || c == '|' || c == '^' || c == '$' {
        push_two(out, '\\', c);
    } else if c == '\n' {
        push_two(out, '\\', 'n');
    } else if c == '\r' {
        push_two(out, '\\', 'r');
    } else if c == '\t' {
        push_two(out, '\\', 't');
    } else if (c >= '!' && c <= '~') || c == ' ' {
        push_one(out, c);
    } else {
        let ghost before = out@;
        push_three(out, '\\', 'u', '{');
        push_hex(out, c as u32);
        push_one(out, '}');
        proof {
            assert(out@ =~= before + (seq!['\\', 'u', '{'] + hex_text(c as nat) + seq!['}']));
        }
    }
}

/// Appends the text of a class range.
fn push_range(out: &mut String, r: &ClassRange)
    ensures
        final(out)@ == old(out)@ + range_text(*r),
{
    if r.start == r.end {
        push_escaped(out, r.start);
    } else {
        let ghost before = out@;
        push_escaped(out, r.start);
        push_one(out, '-');
        push_escaped(out, r.end);
        proof {
            assert(out@ =~= before + (escaped(r.start) + seq!['-'] + escaped(r.end)));
        }
    }
}

/// Appends the text of a class.
fn push_class(out: &mut String, cls: &Class)
    ensures
        final(out)@ == old(out)@ + (seq!['['] + (if cls.negated {
            seq!['^']
        } else {
            Seq::empty()
        }) + ranges_text(cls.ranges@) + seq![']']),
{
    let ghost before = out@;
    push_one(out, '[');
    if cls.negated {
        push_one(out, '^');
    }
    let ghost head = out@;
    let mut k: usize = 0;
    while k < cls.ranges.len()
        invariant
            k <= cls.ranges@.len(),
            out@ == head + ranges_text(cls.ranges@.take(k as int)),
        decreases cls.ranges@.len() - k,
    {
        proof {
            assert(cls.ranges@.take(k as int + 1).drop_last() =~= cls.ranges@.take(k as int));
        }
        push_range(out, &cls.ranges[k]);
        proof {
            assert(out@ =~= head + ranges_text(cls.ranges@.take(k as int + 1)));
        }
        k = k + 1;
    }
    push_one(out, ']');
    proof {
        assert(cls.ranges@.take(k as int) =~= cls.ranges@);
        assert(out@ =~= before + (seq!['['] + (if cls.negated {
            seq!['^']
        } else {
            Seq::empty()
        }) + ranges_text(cls.ranges@) + seq![']']));
    }
}

/// Appends the text of a repetition count.
fn push_quantifier(out: &mut String, min: u32, max: Option<u32>)
    ensures
        final(out)@ == old(out)@ + quantifier_text(min, max),
{
    let ghost before = out@;
    match max {
        None => {
            if min == 0 {
                push_one(out, '*');
            } else if min == 1 {
                push_one(out, '+');
            } else {
                push_one(out, '{');
                push_decimal(out, min);
                push_two(out, ',', '}');
                proof {
                    assert(out@ =~= before + (seq!['{'] + dec_text(min as nat) + seq![',', '}']));
                }
            }
        },
        Some(m) => {
            if min == 0 && m == 1 {
                push_one(out, '?');
            } else if min == m {
                push_one(out, '{');
                push_decimal(out, min);
                push_one(out, '}');
                proof {
                    assert(out@ =~= before + (seq!['{'] + dec_text(min as nat) + seq!['}']));
                }
            } else {
                push_one(out, '{');
                push_decimal(out, min);
                push_one(out, ',');
                push_decimal(out, m);
                push_one(out, '}');
                proof {
                    assert(out@ =~= before + (seq!['{'] + dec_text(min as nat) + seq![',']
                        + dec_text(m as nat) + seq!['}']));
                }
            }
        },
    }
}

impl Anchor {
    /// Appends the text of the anchor.
    fn write_to(&self, out: &mut String)
        ensures
            final(out)@ == old(out)@ + anchor_text(*self),
    {
        match self {
            Anchor::StartOfString => push_one(out, '^'),
            Anchor::StartOfLine => push_one(out, '^'),
            Anchor::EndOfString => push_one(out, '$'),
            Anchor::EndOfLine => push_one(out, '$'),
            Anchor::WordBoundary => push_two(out, '\\', 'b'),
            Anchor::NotWordBoundary => push_two(out, '\\', 'B'),
            Anchor::StartOfInput => push_two(out, '\\', 'A'),
            Anchor::EndOfInput => push_two(out, '\\', 'z'),
            Anchor::EndOfInputBeforeNewline => push_two(out, '\\', 'Z'),
        }
    }

    /// The anchor as pattern text.
    pub fn to_string(&self) -> (s: String)
        ensures
            s@ == anchor_text(*self),
    {
        let mut out = String::new();
        self.write_to(&mut out);
        proof {
            assert(out@ =~= anchor_text(*self));
        }
        out
    }
}

impl Expr {
    /// Appends the text of the expression.
    fn write_to(&self, out: &mut String)
        ensures
            final(out)@ == old(out)@ + expr_text(*self),
        decreases self,
    {
        let ghost before = out@;
        match self {
            Expr::Empty => {
                proof {
                    assert(out@ =~= before + Seq::<char>::empty());
                }
            },
            Expr::Literal(c) => push_escaped(out, *c),
            Expr::Concat(exprs) => {
                let mut k: usize = 0;
                while k < exprs.len()
                    invariant
                        k <= exprs@.len(),
                        *self == Expr::Concat(*exprs),
                        out@ == before + concat_text(exprs@.take(k as int)),
                    decreases exprs@.len() - k,
                {
                    proof {
                        assert(exprs@.take(k as int + 1).drop_last() =~= exprs@.take(k as int));
                        assert(decreases_to!(*self => self->Concat_0));
                        assert(decreases_to!(self->Concat_0 => self->Concat_0@));
                        assert(decreases_to!(self->Concat_0@ => self->Concat_0@[k as int]));
                    }
                    exprs[k].write_to(out);
                    proof {
                        assert(out@ =~= before + concat_text(exprs@.take(k as int + 1)));
                    }
                    k = k + 1;
                }
                proof {
                    assert(exprs@.take(k as int) =~= exprs@);
                }
            },
            Expr::Alt(exprs) => {
                let mut k: usize = 0;
                while k < exprs.len()
                    invariant
                        k <= exprs@.len(),
                        *self == Expr::Alt(*exprs),
                        out@ == before + alt_text(exprs@.take(k as int)),
                    decreases exprs@.len() - k,
                {
                    proof {
                        assert(exprs@.take(k as int + 1).drop_last() =~= exprs@.take(k as int));
                        assert(decreases_to!(*self => self->Alt_0));
                        assert(decreases_to!(self->Alt_0 => self->Alt_0@));
                        assert(decreases_to!(self->Alt_0@ => self->Alt_0@[k as int]));
                    }
                    if k > 0 {
                        push_one(out, '|');
                    }
                    exprs[k].write_to(out);
                    proof {
                        if k == 0 {
                            assert(exprs@.take(1)[0] == exprs@[0]);
                        }
                        assert(out@ =~= before + alt_text(exprs@.take(k as int + 1)));
                    }
                    k = k + 1;
                }
                proof {
                    assert(exprs@.take(k as int) =~= exprs@);
                }
            },
            Expr::Repeat(rep) => {
                proof {
                    assert(decreases_to!(*self => self->Repeat_0));
                }
                let needs_group = match &rep.expr {
                    Expr::Concat(_) => true,
                    Expr::Alt(_) => true,
                    _ => false,
                };
                if needs_group {
                    push_three(out, '(', '?', ':');
                    rep.expr.write_to(out);
                    push_one(out, ')');
                } else {
                    rep.expr.write_to(out);
                }
                let ghost body_end = out@;
                push_quantifier(out, rep.min, rep.max);
                if !rep.greedy {
                    push_one(out, '?');
                }
                proof {
                    let body = if rep.expr is Concat || rep.expr is Alt {
                        seq!['(', '?', ':'] + expr_text(rep.expr) + seq![')']
                    } else {
                        expr_text(rep.expr)
                    };
                    assert(body_end =~= before + body);
                    assert(out@ =~= before + (body + quantifier_text(rep.min, rep.max) + if rep.greedy {
                        Seq::empty()
                    } else {
                        seq!['?']
                    }));
                }
            },
            Expr::Group(g) => {
                proof {
                    assert(decreases_to!(*self => self->Group_0));
                }
                match &g.kind {
                    GroupKind::Capturing(_) => {
                        push_one(out, '(');
                        g.expr.write_to(out);
                        push_one(out, ')');
                        proof {
                            assert(out@ =~= before + (seq!['('] + expr_text(g.expr) + seq![')']));
                        }
                    },
                    GroupKind::NamedCapturing { name, .. } => {
                        push_three(out, '(', '?', '<');
                        out.append(name.as_str());
                        push_one(out, '>');
                        g.expr.write_to(out);
                        push_one(out, ')');
                        proof {
                            assert(out@ =~= before + (seq!['(', '?', '<'] + name@ + seq!['>']
                                + expr_text(g.expr) + seq![')']));
                        }
                    },
                    GroupKind::NonCapturing => {
                        push_three(out, '(', '?', ':');
                        g.expr.write_to(out);
                        push_one(out, ')');
                        proof {
                            assert(out@ =~= before + (seq!['(', '?', ':'] + expr_text(g.expr)
                                + seq![')']));
                        }
                    },
                }
            },
            Expr::Class(cls) => push_class(out, cls),
            Expr::Anchor(a) => a.write_to(out),
            Expr::Lookaround(la) => {
                proof {
                    assert(decreases_to!(*self => self->Lookaround_0));
                }
                push_one(out, '(');
                match la.kind {
                    LookaroundKind::PositiveLookahead => push_two(out, '?', '='),
                    LookaroundKind::NegativeLookahead => push_two(out, '?', '!'),
                    LookaroundKind::PositiveLookbehind => push_three(out, '?', '<', '='),
                    LookaroundKind::NegativeLookbehind => push_three(out, '?', '<', '!'),
                }
                la.expr.write_to(out);
                push_one(out, ')');
                proof {
                    assert(out@ =~= before + (seq!['('] + lookaround_prefix(la.kind) + expr_text(
                        la.expr,
                    ) + seq![')']));
                }
            },
            Expr::Backref(n) => {
                push_one(out, '\\');
                push_decimal(out, *n);
                proof {
                    assert(out@ =~= before + (seq!['\\'] + dec_text(*n as nat)));
                }
            },
            Expr::Dot => push_one(out, '.'),
            Expr::UnicodeProperty { name, negated } => {
                if *negated {
                    push_three(out, '\\', 'P', '{');
                } else {
                    push_three(out, '\\', 'p', '{');
                }
                out.append(name.as_str());
                push_one(out, '}');
                proof {
                    assert(out@ =~= before + (seq![
                        '\\',
                        if *negated {
                            'P'
                        } else {
                            'p'
                        },
                        '{',
                    ] + name@ + seq!['}']));
                }
            },
            Expr::PerlClass(kind) => match kind {
                PerlClassKind::Digit => push_two(out, '\\', 'd'),
                PerlClassKind::NotDigit => push_two(out, '\\', 'D'),
                PerlClassKind::Word => push_two(out, '\\', 'w'),
                PerlClassKind::NotWord => push_two(out, '\\', 'W'),
                PerlClassKind::Whitespace => push_two(out, '\\', 's'),
                PerlClassKind::NotWhitespace => push_two(out, '\\', 'S'),
            },
        }
    }

    /// The expression as pattern text.
    pub fn to_string(&self) -> (s: String)
        ensures
            s@ == expr_text(*self),
    {
        let mut out = String::new();
        self.write_to(&mut out);
        proof {
            assert(out@ =~= expr_text(*self));
        }
        out
    }
}

} // verus!
