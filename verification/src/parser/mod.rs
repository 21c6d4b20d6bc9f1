//! Reading patterns: a recursive-descent parser over the lexer's tokens.
pub mod ast;
pub mod display;
pub mod lexer;
pub mod numbering;
pub mod syntax;

use crate::error::{located, Error, ErrorKind, Result, Span};
use crate::parser::ast::{
    Anchor, Ast, Class, ClassRange, Expr, Flags, Group, GroupKind, Lookaround, LookaroundKind,
    PerlClassKind, Repeat,
};
use crate::parser::lexer::{
    dec_digit, lemma_offset_mono, push_char, tok_view, within, EscapeKind, Lexer, Token, TokenKind,
};
use crate::parser::numbering::{captures_numbered, lemma_parse_numbers_captures};
use crate::parser::syntax::{
    advance as step_advance, agrees, at, cur_char_or, unexpected, close_paren, err_view, node_of, nodes_of, p_alt, p_alt_rest, p_atom,
    p_body, p_class, p_class_end, p_class_item, p_class_items, p_class_step, p_concat, p_concat_items, p_digits, p_flags, p_group,
    p_group_name, p_named, p_pattern, p_behind, p_letter, p_special, lemma_pattern_at_end, set_flag, perl_ranges, digit_char_of, lemma_nodes_of_push, lemma_nodes_of_index, then, escape_node, p_quant, p_range, p_range_max, p_repeat, parse_result, rem, start_state, ErrV,
    ItemV, Node, PV,
};
use vstd::prelude::*;
use vstd::string::StringExecFns;

verus! {

// ---------------------------------------------------------------------------
// What a parse gives
// ---------------------------------------------------------------------------

/// Whether a class holds at least one range, each in order.
pub open spec fn class_wf(c: Class) -> bool {
    &&& c.ranges@.len() > 0
    &&& forall|i: int| 0 <= i < c.ranges@.len() ==> (#[trigger] c.ranges@[i]).start <= c.ranges@[i].end
}

/// Whether every repetition of `e` has its minimum at most its maximum and
/// every class of `e` is well formed.
pub open spec fn expr_wf(e: Expr) -> bool
    decreases e, 1nat,
{
    match e {
        Expr::Concat(es) => exprs_wf(es@),
        Expr::Alt(es) => exprs_wf(es@),
        Expr::Repeat(r) => (r.max matches Some(m) ==> r.min <= m) && expr_wf(r.expr),
        Expr::Group(g) => expr_wf(g.expr),
        Expr::Class(c) => class_wf(*c),
        Expr::Lookaround(la) => expr_wf(la.expr),
        _ => true,
    }
}

/// Whether every expression of the sequence satisfies `expr_wf`.
pub open spec fn exprs_wf(es: Seq<Expr>) -> bool
    decreases es, 0nat,
{
    if es.len() == 0 {
        true
    } else {
        exprs_wf(es.drop_last()) && expr_wf(es.last())
    }
}

proof fn lemma_exprs_wf_push(es: Seq<Expr>, e: Expr)
    requires
        exprs_wf(es),
        expr_wf(e),
    ensures
        exprs_wf(es.push(e)),
{
    assert(es.push(e).drop_last() =~= es);
}

/// Parses a pattern.
pub fn parse(pattern: &str) -> (r: Result<Ast>)
    ensures
        r matches Ok(ast) ==> expr_wf(ast.expr),
        match r {
            Ok(ast) => parse_result(pattern@) == Ok::<(Node, Flags), ErrV>(
                (node_of(ast.expr), ast.flags),
            ),
            Err(e) => parse_result(pattern@) == Err::<(Node, Flags), ErrV>(err_view(e.kind)),
        },
        r matches Err(e) ==> located(e, pattern@) && within(e, pattern@),
        pattern@.len() + 2 <= u32::MAX ==> (r matches Ok(ast) ==> captures_numbered(
            node_of(ast.expr),
        )),
{
    proof {
        if pattern@.len() + 2 <= u32::MAX {
            lemma_parse_numbers_captures(pattern@);
        }
    }
    let mut parser = Parser::new(pattern);
    parser.parse()
}

/// An item of a class.
enum ClassItem {
    /// One character.
    Char(char),
    /// Several ranges (from `\d`, `\w`, `\s` and their negations).
    Ranges(Vec<ClassRange>),
    /// A Unicode property.
    UnicodeProperty { name: String, negated: bool },
}

/// Whether the ranges are each in order.
pub open spec fn ranges_wf(rs: Seq<ClassRange>) -> bool {
    forall|i: int| 0 <= i < rs.len() ==> (#[trigger] rs[i]).start <= rs[i].end
}

/// The value of a class item.
spec fn item_view(item: ClassItem) -> ItemV {
    match item {
        ClassItem::Char(c) => ItemV::Char(c),
        ClassItem::Ranges(r) => ItemV::Ranges(r@),
        ClassItem::UnicodeProperty { name, negated } => ItemV::Property(name@, negated),
    }
}

/// Whether a class item is well formed.
spec fn item_wf(item: ClassItem) -> bool {
    item matches ClassItem::Ranges(r) ==> ranges_wf(r@) && r@.len() > 0
}

/// Whether a flag letter.
fn is_flag_char(c: char) -> (b: bool)
    ensures
        b == (c == 'i' || c == 'm' || c == 's' || c == 'x' || c == 'u'),
{
    c == 'i' || c == 'm' || c == 's' || c == 'x' || c == 'u'
}

/// A recursive-descent parser.
pub struct Parser<'a> {
    lexer: Lexer<'a>,
    /// The current token.
    current: Token,
    /// The pattern.
    pattern: &'a str,
    /// Index of the next capturing group.
    next_capture: u32,
    /// Number of capturing groups so far.
    capture_count: u32,
    /// The flags in force.
    flags: Flags,
}

impl<'a> Parser<'a> {
    /// The internal consistency of the parser.
    pub closed spec fn wf(&self) -> bool {
        &&& self.lexer.wf()
        &&& self.pattern@ == self.lexer.text()
        &&& self.current.span.start <= self.current.span.end <= self.lexer.offset()
    }

    /// Byte offset up to which the pattern has been read.
    pub closed spec fn read_to(&self) -> int {
        self.lexer.offset()
    }

    /// Whether `sp` is the place of text already read.
    pub open spec fn read_span(&self, sp: Span) -> bool {
        sp.start <= sp.end <= self.read_to()
    }

    /// Characters left to read, counting the current token as one.
    pub closed spec fn remaining(&self) -> nat {
        (self.lexer.text().len() - self.lexer.index()) as nat + if self.current.kind is Eof {
            0nat
        } else {
            1nat
        }
    }

    /// The pattern.
    pub closed spec fn text(&self) -> Seq<char> {
        self.pattern@
    }

    /// The parser's state as a value.
    pub closed spec fn state(&self) -> PV {
        PV {
            idx: self.lexer.index(),
            in_class: self.lexer.class_mode(),
            cur: tok_view(self.current.kind),
            next_capture: self.next_capture,
            flags: self.flags,
        }
    }

    /// `remaining` is the measure `rem` of the state.
    proof fn lemma_rem(&self)
        requires
            self.wf(),
        ensures
            self.remaining() == rem(self.text(), self.state()),
    {
    }

    /// Whether `new` is `old` after reading on.
    pub open spec fn moved(old: &Self, new: &Self) -> bool {
        &&& new.wf()
        &&& new.text() == old.text()
        &&& new.remaining() <= old.remaining()
        &&& old.read_to() <= new.read_to()
    }

    /// Creates a parser, with the first token read (an error there reads as the end).
    pub fn new(pattern: &'a str) -> (p: Self)
        ensures
            p.wf(),
            p.text() == pattern@,
            p_pattern(pattern@, p.state()) == parse_result(pattern@),
    {
        let mut lexer = Lexer::new(pattern);
        proof {
            lexer.lemma_offset();
        }
        let ghost i0 = lexer.index();
        let first = lexer.next_token();
        proof {
            lexer.lemma_offset();
            lemma_offset_mono(lexer.text(), 0, i0);
            lemma_offset_mono(lexer.text(), i0, lexer.index());
        }
        let current = match first {
            Ok(t) => t,
            Err(_) => Token { kind: TokenKind::Eof, span: Span::point(0) },
        };
        let p = Parser {
            lexer,
            current,
            pattern,
            next_capture: 1,
            capture_count: 0,
            flags: Flags::new(),
        };
        proof {
            let start = start_state(pattern@);
            if p.state() != start {
                lemma_pattern_at_end(pattern@, p.state());
                lemma_pattern_at_end(pattern@, start);
            }
        }
        p
    }

    /// Parses the whole pattern.
    pub fn parse(&mut self) -> (r: Result<Ast>)
        requires
            old(self).wf(),
        ensures
            r matches Err(e) ==> located(e, old(self).text()) && within(e, old(self).text()),
            Self::moved(old(self), final(self)),
            r matches Ok(ast) ==> expr_wf(ast.expr),
            match r {
                Ok(ast) => p_pattern(old(self).text(), old(self).state()) == Ok::<
                    (Node, Flags),
                    ErrV,
                >((node_of(ast.expr), ast.flags)),
                Err(e) => p_pattern(old(self).text(), old(self).state()) == Err::<
                    (Node, Flags),
                    ErrV,
                >(err_view(e.kind)),
            },
    {
        let expr = self.parse_alternation()?;
        proof {
            self.lexer.lemma_offset();
        }
        if !self.is_at_end() {
            return Err(
                Error::with_span(
                    ErrorKind::UnexpectedChar(self.current_char_or('?')),
                    self.pattern,
                    self.current.span,
                ),
            );
        }
        Ok(Ast { expr, flags: self.flags })
    }

    /// Reads the next token; returns the one it replaces.
    fn advance(&mut self) -> (r: Result<Token>)
        requires
            old(self).wf(),
        ensures
            r matches Err(e) ==> located(e, old(self).text()) && within(e, old(self).text()),
            Self::moved(old(self), final(self)),
            !(old(self).current.kind is Eof) ==> final(self).remaining() < old(self).remaining(),
            r is Ok ==> final(self).lexer.class_mode() == old(self).lexer.class_mode(),
            final(self).lexer.class_mode() == old(self).lexer.class_mode(),
            final(self).flags == old(self).flags,
            final(self).next_capture == old(self).next_capture,
            r matches Ok(t) ==> t == old(self).current,
            match r {
                Ok(_) => step_advance(old(self).text(), old(self).state()) == Ok::<PV, ErrV>(
                    final(self).state(),
                ),
                Err(e) => step_advance(old(self).text(), old(self).state()) == Err::<PV, ErrV>(
                    err_view(e.kind),
                ),
            },
    {
        proof {
            self.lexer.lemma_offset();
        }
        let ghost l0 = self.lexer;
        let next = self.lexer.next_token();
        proof {
            self.lexer.lemma_offset();
            lemma_offset_mono(self.lexer.text(), l0.index(), self.lexer.index());
        }
        match next {
            Ok(t) => {
                let mut prev = t;
                std::mem::swap(&mut self.current, &mut prev);
                Ok(prev)
            },
            Err(e) => Err(e),
        }
    }

    /// Whether the current token is the end.
    fn is_at_end(&self) -> (b: bool)
        ensures
            b == (self.current.kind is Eof),
    {
        matches!(self.current.kind, TokenKind::Eof)
    }

    /// The current literal character, or `default`.
    fn current_char_or(&self, default: char) -> (c: char)
        ensures
            c == cur_char_or(self.state(), default),
    {
        match &self.current.kind {
            TokenKind::Literal(c) => *c,
            _ => default,
        }
    }

    /// Whether the current token ends a concatenation.
    fn is_concat_terminator(&self) -> (b: bool)
        ensures
            b == (self.current.kind is Pipe || self.current.kind is CloseParen
                || self.current.kind is Eof),
    {
        matches!(self.current.kind, TokenKind::Pipe | TokenKind::CloseParen | TokenKind::Eof)
    }

    /// An error at the current token.
    fn error_here(&self, kind: ErrorKind) -> (e: Error)
        requires
            self.wf(),
        ensures
            e.kind == kind,
            located(e, self.text()),
            within(e, self.text()),
    {
        proof {
            self.lexer.lemma_offset();
        }
        Error::with_span(kind, self.pattern, self.current.span)
    }

    /// Parses an alternation: `a|b|c`.
    fn parse_alternation(&mut self) -> (r: Result<Expr>)
        requires
            old(self).wf(),
        ensures
            r matches Err(e) ==> located(e, old(self).text()) && within(e, old(self).text()),
            Self::moved(old(self), final(self)),
            r matches Ok(e) ==> expr_wf(e),
            agrees(
                p_alt(old(self).text(), old(self).state()),
                r,
                |e: Expr| node_of(e),
                final(self).state(),
            ),
        decreases old(self).remaining(), 4nat,
    {
        let ghost cs = self.text();
        let left = self.parse_concat()?;
        if matches!(self.current.kind, TokenKind::Pipe) {
            let ghost s1 = self.state();
            proof {
                old(self).lemma_rem();
                self.lemma_rem();
            }
            let mut alternatives: Vec<Expr> = Vec::new();
            alternatives.push(left);
            proof {
                lemma_exprs_wf_push(Seq::empty(), left);
                lemma_nodes_of_push(Seq::empty(), left);
                assert(Seq::<Expr>::empty().push(left) =~= alternatives@);
                assert(nodes_of(Seq::<Expr>::empty()) =~= Seq::<Node>::empty());
                assert(seq![node_of(left)] =~= Seq::<Node>::empty().push(node_of(left)));
            }
            while matches!(self.current.kind, TokenKind::Pipe)
                invariant
                    Self::moved(old(self), self),
                    exprs_wf(alternatives@),
                    self.text() == cs,
                    cs == old(self).text(),
                    p_alt(cs, old(self).state()) == (match p_alt_rest(cs, s1, seq![node_of(left)]) {
                        (Ok(alts), s2) => (Ok(Node::Alt(alts)), s2),
                        (Err(e), s2) => (Err(e), s2),
                    }),
                    p_alt_rest(cs, s1, seq![node_of(left)]) == p_alt_rest(
                        cs,
                        self.state(),
                        nodes_of(alternatives@),
                    ),
                decreases self.remaining(),
            {
                let ghost before = self.state();
                proof {
                    self.lemma_rem();
                }
                self.advance()?;
                proof {
                    self.lemma_rem();
                }
                let e = self.parse_concat()?;
                proof {
                    self.lemma_rem();
                    lemma_exprs_wf_push(alternatives@, e);
                    lemma_nodes_of_push(alternatives@, e);
                }
                alternatives.push(e);
            }
            return Ok(Expr::Alt(alternatives));
        }
        Ok(left)
    }

    /// Parses a concatenation: `abc`.
    fn parse_concat(&mut self) -> (r: Result<Expr>)
        requires
            old(self).wf(),
        ensures
            r matches Err(e) ==> located(e, old(self).text()) && within(e, old(self).text()),
            Self::moved(old(self), final(self)),
            r matches Ok(e) ==> expr_wf(e),
            agrees(
                p_concat(old(self).text(), old(self).state()),
                r,
                |e: Expr| node_of(e),
                final(self).state(),
            ),
        decreases old(self).remaining(), 3nat,
    {
        let ghost cs = self.text();
        let ghost s0 = self.state();
        let mut exprs: Vec<Expr> = Vec::new();
        proof {
            assert(exprs_wf(exprs@));
            assert(nodes_of(exprs@) =~= Seq::<Node>::empty());
        }
        while !self.is_at_end() && !self.is_concat_terminator()
            invariant
                Self::moved(old(self), self),
                exprs_wf(exprs@),
                self.text() == cs,
                cs == old(self).text(),
                s0 == old(self).state(),
                p_concat_items(cs, s0, Seq::empty()) == p_concat_items(
                    cs,
                    self.state(),
                    nodes_of(exprs@),
                ),
            decreases self.remaining(),
        {
            proof {
                self.lemma_rem();
            }
            let e = self.parse_repeat()?;
            proof {
                self.lemma_rem();
                lemma_exprs_wf_push(exprs@, e);
                lemma_nodes_of_push(exprs@, e);
            }
            exprs.push(e);
        }
        proof {
            lemma_nodes_of_index(exprs@);
        }
        if exprs.len() == 0 {
            Ok(Expr::Empty)
        } else if exprs.len() == 1 {
            let ghost before = exprs@;
            let e = exprs.pop().unwrap();
            proof {
                assert(e == before.last());
            }
            Ok(e)
        } else {
            Ok(Expr::Concat(exprs))
        }
    }
}

impl<'a> Parser<'a> {
    /// Parses an atom with its quantifier, if any.
    fn parse_repeat(&mut self) -> (r: Result<Expr>)
        requires
            old(self).wf(),
        ensures
            r matches Err(e) ==> located(e, old(self).text()) && within(e, old(self).text()),
            Self::moved(old(self), final(self)),
            r matches Ok(e) ==> expr_wf(e),
            r is Ok ==> final(self).remaining() < old(self).remaining(),
            agrees(
                p_repeat(old(self).text(), old(self).state()),
                r,
                |e: Expr| node_of(e),
                final(self).state(),
            ),
        decreases old(self).remaining(), 2nat,
    {
        let expr = self.parse_atom()?;
        self.parse_quantifier(expr)
    }

    /// Parses a quantifier after `expr`, if one follows.
    fn parse_quantifier(&mut self, expr: Expr) -> (r: Result<Expr>)
        requires
            old(self).wf(),
            expr_wf(expr),
        ensures
            r matches Err(e) ==> located(e, old(self).text()) && within(e, old(self).text()),
            Self::moved(old(self), final(self)),
            r matches Ok(e) ==> expr_wf(e),
            !(old(self).current.kind is Star || old(self).current.kind is Plus || old(
                self,
            ).current.kind is Question || old(self).current.kind is OpenBrace) ==> r == Ok::<
                Expr,
                Error,
            >(expr),
            agrees(
                p_quant(old(self).text(), old(self).state(), node_of(expr)),
                r,
                |e: Expr| node_of(e),
                final(self).state(),
            ),
    {
        let (min, max): (u32, Option<u32>) = match &self.current.kind {
            TokenKind::Star => {
                self.advance()?;
                (0, None)
            },
            TokenKind::Plus => {
                self.advance()?;
                (1, None)
            },
            TokenKind::Question => {
                self.advance()?;
                (0, Some(1))
            },
            TokenKind::OpenBrace => {
                self.advance()?;
                let (min, max) = self.parse_repetition_range()?;
                self.expect_close_brace()?;
                (min, max)
            },
            _ => {
                return Ok(expr);
            },
        };
        let greedy = if matches!(self.current.kind, TokenKind::Question) {
            self.advance()?;
            false
        } else {
            true
        };
        if matches!(
            self.current.kind,
            TokenKind::Star | TokenKind::Plus | TokenKind::Question | TokenKind::OpenBrace
        ) {
            return Err(self.error_here(ErrorKind::NestedQuantifier));
        }
        Ok(Expr::Repeat(Box::new(Repeat::new(expr, min, max, greedy))))
    }

    /// Parses the inside of `{n}`, `{n,}` or `{n,m}`; numbers saturate at `u32::MAX`.
    fn parse_repetition_range(&mut self) -> (r: Result<(u32, Option<u32>)>)
        requires
            old(self).wf(),
        ensures
            r matches Err(e) ==> located(e, old(self).text()) && within(e, old(self).text()),
            Self::moved(old(self), final(self)),
            r matches Ok((min, max)) ==> (max matches Some(m) ==> min <= m),
            final(self).flags == old(self).flags,
            final(self).next_capture == old(self).next_capture,
            final(self).lexer.class_mode() == old(self).lexer.class_mode(),
            agrees(
                p_range(old(self).text(), old(self).state()),
                r,
                |x: (u32, Option<u32>)| x,
                final(self).state(),
            ),
    {
        let ghost cs = self.text();
        let ghost s0 = self.state();
        let mut min: u32 = 0;
        let ghost mut any = false;
        loop
            invariant
                Self::moved(old(self), self),
                self.text() == cs,
                cs == old(self).text(),
                s0 == old(self).state(),
                self.flags == old(self).flags,
                self.next_capture == old(self).next_capture,
                self.lexer.class_mode() == old(self).lexer.class_mode(),
                p_digits(cs, s0, 0, false) == p_digits(cs, self.state(), min, any),
            ensures
                Self::moved(old(self), self),
                !(self.current.kind is Digit),
                self.text() == cs,
                self.flags == old(self).flags,
                self.next_capture == old(self).next_capture,
                self.lexer.class_mode() == old(self).lexer.class_mode(),
                p_digits(cs, s0, 0, false) == (
                    Ok::<(u32, bool), ErrV>((min, any)),
                    self.state(),
                ),
            decreases self.remaining(),
        {
            match self.current.kind {
                TokenKind::Digit(d) => {
                    proof {
                        self.lemma_rem();
                    }
                    min = saturating_decimal(min, d);
                    self.advance()?;
                    proof {
                        self.lemma_rem();
                        any = true;
                    }
                },
                _ => {
                    break;
                },
            }
        }
        if matches!(self.current.kind, TokenKind::CloseBrace) {
            return Ok((min, Some(min)));
        }
        if !matches!(self.current.kind, TokenKind::Comma) {
            return Err(self.error_here(ErrorKind::InvalidRepetition));
        }
        self.advance()?;
        if matches!(self.current.kind, TokenKind::CloseBrace) {
            return Ok((min, None));
        }
        let ghost s2 = self.state();
        let mut max: u32 = 0;
        let mut has_max = false;
        loop
            invariant
                Self::moved(old(self), self),
                self.text() == cs,
                self.flags == old(self).flags,
                self.next_capture == old(self).next_capture,
                self.lexer.class_mode() == old(self).lexer.class_mode(),
                p_digits(cs, s2, 0, false) == p_digits(cs, self.state(), max, has_max),
                p_range(cs, s0) == p_range_max(cs, s2, min),
                s0 == old(self).state(),
                cs == old(self).text(),
            ensures
                Self::moved(old(self), self),
                !(self.current.kind is Digit),
                self.text() == cs,
                self.flags == old(self).flags,
                self.next_capture == old(self).next_capture,
                self.lexer.class_mode() == old(self).lexer.class_mode(),
                p_digits(cs, s2, 0, false) == (
                    Ok::<(u32, bool), ErrV>((max, has_max)),
                    self.state(),
                ),
                p_range(cs, s0) == p_range_max(cs, s2, min),
            decreases self.remaining(),
        {
            match self.current.kind {
                TokenKind::Digit(d) => {
                    proof {
                        self.lemma_rem();
                    }
                    has_max = true;
                    max = saturating_decimal(max, d);
                    self.advance()?;
                    proof {
                        self.lemma_rem();
                    }
                },
                _ => {
                    break;
                },
            }
        }
        if !has_max {
            return Err(self.error_here(ErrorKind::InvalidRepetition));
        }
        if max < min {
            return Err(self.error_here(ErrorKind::InvalidRepetition));
        }
        Ok((min, Some(max)))
    }

    /// Expects the `}` that closes a repetition range.
    fn expect_close_brace(&mut self) -> (r: Result<Token>)
        requires
            old(self).wf(),
        ensures
            r matches Err(e) ==> located(e, old(self).text()) && within(e, old(self).text()),
            Self::moved(old(self), final(self)),
            final(self).flags == old(self).flags,
            final(self).next_capture == old(self).next_capture,
            final(self).lexer.class_mode() == old(self).lexer.class_mode(),
            at(old(self).state(), TokenKind::CloseBrace) ==> match r {
                Ok(_) => step_advance(old(self).text(), old(self).state()) == Ok::<PV, ErrV>(
                    final(self).state(),
                ),
                Err(e) => step_advance(old(self).text(), old(self).state()) == Err::<PV, ErrV>(
                    err_view(e.kind),
                ),
            },
            !at(old(self).state(), TokenKind::CloseBrace) ==> (r matches Err(e) && err_view(e.kind)
                == unexpected(old(self).state())),
    {
        if matches!(self.current.kind, TokenKind::CloseBrace) {
            self.advance()
        } else {
            Err(self.error_here(ErrorKind::UnexpectedChar(self.current_char_or('?'))))
        }
    }

    /// Expects the `>` that closes a group name.
    fn expect_greater_than(&mut self) -> (r: Result<Token>)
        requires
            old(self).wf(),
        ensures
            r matches Err(e) ==> located(e, old(self).text()) && within(e, old(self).text()),
            Self::moved(old(self), final(self)),
            final(self).flags == old(self).flags,
            final(self).next_capture == old(self).next_capture,
            final(self).lexer.class_mode() == old(self).lexer.class_mode(),
            at(old(self).state(), TokenKind::GreaterThan) ==> match r {
                Ok(_) => step_advance(old(self).text(), old(self).state()) == Ok::<PV, ErrV>(
                    final(self).state(),
                ),
                Err(e) => step_advance(old(self).text(), old(self).state()) == Err::<PV, ErrV>(
                    err_view(e.kind),
                ),
            },
            !at(old(self).state(), TokenKind::GreaterThan) ==> (r matches Err(e) && err_view(e.kind)
                == unexpected(old(self).state())),
    {
        if matches!(self.current.kind, TokenKind::GreaterThan) {
            self.advance()
        } else {
            Err(self.error_here(ErrorKind::UnexpectedChar(self.current_char_or('?'))))
        }
    }

    /// Expects the `<` that opens a group name.
    fn expect_less_than(&mut self) -> (r: Result<Token>)
        requires
            old(self).wf(),
        ensures
            r matches Err(e) ==> located(e, old(self).text()) && within(e, old(self).text()),
            Self::moved(old(self), final(self)),
            final(self).flags == old(self).flags,
            r is Ok ==> final(self).remaining() < old(self).remaining(),
            final(self).next_capture == old(self).next_capture,
            final(self).lexer.class_mode() == old(self).lexer.class_mode(),
            at(old(self).state(), TokenKind::LessThan) ==> match r {
                Ok(_) => step_advance(old(self).text(), old(self).state()) == Ok::<PV, ErrV>(
                    final(self).state(),
                ),
                Err(e) => step_advance(old(self).text(), old(self).state()) == Err::<PV, ErrV>(
                    err_view(e.kind),
                ),
            },
            !at(old(self).state(), TokenKind::LessThan) ==> (r matches Err(e) && err_view(e.kind)
                == unexpected(old(self).state())),
    {
        if matches!(self.current.kind, TokenKind::LessThan) {
            self.advance()
        } else {
            Err(self.error_here(ErrorKind::UnexpectedChar(self.current_char_or('?'))))
        }
    }

    /// Parses an atom: a literal, `.`, an anchor, a group, a class or an escape.
    fn parse_atom(&mut self) -> (r: Result<Expr>)
        requires
            old(self).wf(),
        ensures
            r matches Err(e) ==> located(e, old(self).text()) && within(e, old(self).text()),
            Self::moved(old(self), final(self)),
            r matches Ok(e) ==> expr_wf(e),
            r is Ok ==> final(self).remaining() < old(self).remaining(),
            old(self).current.kind is CloseParen ==> (r matches Err(e) && e.kind
                == ErrorKind::UnmatchedCloseParen),
            (old(self).current.kind is Star || old(self).current.kind is Plus || old(
                self,
            ).current.kind is Question) ==> (r matches Err(e) && e.kind
                == ErrorKind::RepetitionOnNothing),
            agrees(
                p_atom(old(self).text(), old(self).state()),
                r,
                |e: Expr| node_of(e),
                final(self).state(),
            ),
        decreases old(self).remaining(), 1nat,
    {
        match &self.current.kind {
            TokenKind::Literal(c) => {
                let c = *c;
                self.advance()?;
                Ok(Expr::Literal(c))
            },
            TokenKind::Dot => {
                self.advance()?;
                Ok(Expr::Dot)
            },
            TokenKind::Caret => {
                self.advance()?;
                let anchor = if self.flags.multi_line {
                    Anchor::StartOfLine
                } else {
                    Anchor::StartOfString
                };
                Ok(Expr::Anchor(anchor))
            },
            TokenKind::Dollar => {
                self.advance()?;
                let anchor = if self.flags.multi_line {
                    Anchor::EndOfLine
                } else {
                    Anchor::EndOfString
                };
                Ok(Expr::Anchor(anchor))
            },
            TokenKind::OpenParen => self.parse_group(),
            TokenKind::OpenBracket => self.parse_class(),
            TokenKind::Escape(_) => self.parse_escape(),
            TokenKind::Digit(d) => {
                let c = digit_char(*d);
                self.advance()?;
                Ok(Expr::Literal(c))
            },
            TokenKind::Equals => {
                self.advance()?;
                Ok(Expr::Literal('='))
            },
            TokenKind::Exclamation => {
                self.advance()?;
                Ok(Expr::Literal('!'))
            },
            TokenKind::LessThan => {
                self.advance()?;
                Ok(Expr::Literal('<'))
            },
            TokenKind::GreaterThan => {
                self.advance()?;
                Ok(Expr::Literal('>'))
            },
            TokenKind::Colon => {
                self.advance()?;
                Ok(Expr::Literal(':'))
            },
            TokenKind::Comma => {
                self.advance()?;
                Ok(Expr::Literal(','))
            },
            TokenKind::CloseParen => Err(self.error_here(ErrorKind::UnmatchedCloseParen)),
            TokenKind::Star | TokenKind::Plus | TokenKind::Question => Err(
                self.error_here(ErrorKind::RepetitionOnNothing),
            ),
            _ => Err(self.error_here(ErrorKind::UnexpectedChar(self.current_char_or('?')))),
        }
    }

    /// Parses the escape sequence that is the current token.
    fn parse_escape(&mut self) -> (r: Result<Expr>)
        requires
            old(self).wf(),
            old(self).current.kind is Escape,
        ensures
            r matches Err(e) ==> located(e, old(self).text()) && within(e, old(self).text()),
            Self::moved(old(self), final(self)),
            r matches Ok(e) ==> expr_wf(e),
            r is Ok ==> final(self).remaining() < old(self).remaining(),
            agrees(
                then(old(self).text(), old(self).state(), escape_node(old(self).state().cur)),
                r,
                |e: Expr| node_of(e),
                final(self).state(),
            ),
    {
        let tok = self.advance()?;
        let esc = match tok.kind {
            TokenKind::Escape(e) => e,
            _ => EscapeKind::Null,
        };
        let e = match esc {
            EscapeKind::Literal(c) => Expr::Literal(c),
            EscapeKind::Newline => Expr::Literal('\n'),
            EscapeKind::CarriageReturn => Expr::Literal('\r'),
            EscapeKind::Tab => Expr::Literal('\t'),
            EscapeKind::FormFeed => Expr::Literal('\x0C'),
            EscapeKind::VerticalTab => Expr::Literal('\x0B'),
            EscapeKind::Null => Expr::Literal('\0'),
            EscapeKind::Hex(c) => Expr::Literal(c),
            EscapeKind::Unicode(c) => Expr::Literal(c),
            EscapeKind::Digit => Expr::PerlClass(PerlClassKind::Digit),
            EscapeKind::NotDigit => Expr::PerlClass(PerlClassKind::NotDigit),
            EscapeKind::Word => Expr::PerlClass(PerlClassKind::Word),
            EscapeKind::NotWord => Expr::PerlClass(PerlClassKind::NotWord),
            EscapeKind::Whitespace => Expr::PerlClass(PerlClassKind::Whitespace),
            EscapeKind::NotWhitespace => Expr::PerlClass(PerlClassKind::NotWhitespace),
            EscapeKind::WordBoundary => Expr::Anchor(Anchor::WordBoundary),
            EscapeKind::NotWordBoundary => Expr::Anchor(Anchor::NotWordBoundary),
            EscapeKind::StartOfInput => Expr::Anchor(Anchor::StartOfInput),
            EscapeKind::EndOfInput => Expr::Anchor(Anchor::EndOfInput),
            EscapeKind::EndOfInputBeforeNewline => Expr::Anchor(Anchor::EndOfInputBeforeNewline),
            EscapeKind::Backref(n) => Expr::Backref(n),
            EscapeKind::UnicodeProperty(name) => Expr::UnicodeProperty { name, negated: false },
            EscapeKind::NotUnicodeProperty(name) => Expr::UnicodeProperty { name, negated: true },
        };
        Ok(e)
    }

    /// Expects the `)` that closes a group opened at `open_span`.
    fn expect_close_paren(&mut self, open_span: Span) -> (r: Result<()>)
        requires
            old(self).wf(),
            old(self).read_span(open_span),
        ensures
            r matches Err(e) ==> located(e, old(self).text()) && within(e, old(self).text()),
            Self::moved(old(self), final(self)),
            final(self).flags == old(self).flags,
            r is Ok ==> final(self).remaining() < old(self).remaining(),
            !(old(self).current.kind is CloseParen) ==> (r matches Err(e) && e.kind
                == ErrorKind::UnmatchedOpenParen),
            final(self).next_capture == old(self).next_capture,
            final(self).lexer.class_mode() == old(self).lexer.class_mode(),
            match r {
                Ok(_) => close_paren(old(self).text(), old(self).state()) == Ok::<PV, ErrV>(
                    final(self).state(),
                ),
                Err(e) => close_paren(old(self).text(), old(self).state()) == Err::<PV, ErrV>(
                    err_view(e.kind),
                ),
            },
    {
        if matches!(self.current.kind, TokenKind::CloseParen) {
            self.advance()?;
            Ok(())
        } else {
            proof {
                self.lexer.lemma_offset();
            }
            Err(Error::with_span(ErrorKind::UnmatchedOpenParen, self.pattern, open_span))
        }
    }

    /// Reads the name of a named group; its first character is the current token.
    fn parse_group_name(&mut self) -> (r: Result<String>)
        requires
            old(self).wf(),
        ensures
            r matches Err(e) ==> located(e, old(self).text()) && within(e, old(self).text()),
            Self::moved(old(self), final(self)),
            final(self).flags == old(self).flags,
            agrees(
                p_group_name(old(self).text(), old(self).state()),
                r,
                |n: String| n@,
                final(self).state(),
            ),
    {
        let first_char = match &self.current.kind {
            TokenKind::Literal(c) => *c,
            _ => {
                return Err(self.error_here(ErrorKind::InvalidGroup));
            },
        };
        let ghost cs = self.text();
        let ghost s0 = self.state();
        proof {
            self.lexer.lemma_offset();
        }
        let ident = self.lexer.read_ident();
        let ghost e = self.lexer.index();
        proof {
            self.lexer.lemma_offset();
            lemma_offset_mono(cs, s0.idx, e);
        }
        let rest = match ident {
            Ok(s) => s,
            Err(_) => String::new(),
        };
        proof {
            assert(rest@ =~= cs.subrange(s0.idx, e));
        }
        let mut name = String::new();
        push_char(&mut name, first_char);
        name.append(rest.as_str());
        proof {
            assert(name@ =~= seq![first_char] + cs.subrange(s0.idx, e));
        }
        let next = self.lexer.next_token();
        proof {
            self.lexer.lemma_offset();
            lemma_offset_mono(cs, e, self.lexer.index());
        }
        match next {
            Ok(t) => {
                self.current = t;
            },
            Err(e) => {
                return Err(e);
            },
        }
        let ghost s1 = self.state();
        proof {
            assert(s1 == PV { idx: s1.idx, cur: s1.cur, ..s0 });
        }
        match self.expect_greater_than() {
            Ok(_) => Ok(name),
            Err(e) => Err(e),
        }
    }

    /// Parses the alternation inside a group and its `)`; `s_open` is the
    /// state at the group's `(`.
    fn parse_body(&mut self, open_span: Span, Ghost(s_open): Ghost<PV>) -> (r: Result<Expr>)
        requires
            old(self).wf(),
            old(self).read_span(open_span),
            rem(old(self).text(), old(self).state()) < rem(old(self).text(), s_open),
        ensures
            r matches Err(e) ==> located(e, old(self).text()) && within(e, old(self).text()),
            Self::moved(old(self), final(self)),
            r matches Ok(e) ==> expr_wf(e),
            r is Ok ==> final(self).remaining() < old(self).remaining(),
            agrees(
                p_body(old(self).text(), s_open, old(self).state()),
                r,
                |e: Expr| node_of(e),
                final(self).state(),
            ),
        decreases old(self).remaining(), 5nat,
    {
        let expr = self.parse_alternation()?;
        self.expect_close_paren(open_span)?;
        Ok(expr)
    }

    /// Parses a named group from its name on; `s_open` is the state at the
    /// group's `(`. The group's index is taken after its body.
    fn parse_named(&mut self, open_span: Span, Ghost(s_open): Ghost<PV>) -> (r: Result<Expr>)
        requires
            old(self).wf(),
            old(self).read_span(open_span),
            rem(old(self).text(), old(self).state()) < rem(old(self).text(), s_open),
        ensures
            r matches Err(e) ==> located(e, old(self).text()) && within(e, old(self).text()),
            Self::moved(old(self), final(self)),
            r matches Ok(e) ==> expr_wf(e),
            r is Ok ==> final(self).remaining() < old(self).remaining(),
            agrees(
                p_named(old(self).text(), s_open, old(self).state()),
                r,
                |e: Expr| node_of(e),
                final(self).state(),
            ),
        decreases old(self).remaining(), 6nat,
    {
        proof {
            old(self).lemma_rem();
        }
        let name = self.parse_group_name()?;
        proof {
            self.lemma_rem();
        }
        let expr = self.parse_body(open_span, Ghost(s_open))?;
        let index = self.next_capture;
        self.next_capture = self.next_capture.wrapping_add(1);
        self.capture_count = self.capture_count.wrapping_add(1);
        Ok(Expr::Group(Box::new(Group { expr, kind: GroupKind::NamedCapturing { name, index } })))
    }

    /// Parses a group after `(?<`: a lookbehind or a named group; `s_open`
    /// is the state at the group's `(`.
    fn parse_behind(&mut self, open_span: Span, Ghost(s_open): Ghost<PV>) -> (r: Result<Expr>)
        requires
            old(self).wf(),
            old(self).read_span(open_span),
            rem(old(self).text(), old(self).state()) < rem(old(self).text(), s_open),
        ensures
            r matches Err(e) ==> located(e, old(self).text()) && within(e, old(self).text()),
            Self::moved(old(self), final(self)),
            r matches Ok(e) ==> expr_wf(e),
            r is Ok ==> final(self).remaining() < old(self).remaining(),
            agrees(
                p_behind(old(self).text(), s_open, old(self).state()),
                r,
                |e: Expr| node_of(e),
                final(self).state(),
            ),
        decreases old(self).remaining(), 7nat,
    {
        match &self.current.kind {
            TokenKind::Equals => {
                self.advance()?;
                proof {
                    self.lemma_rem();
                }
                let expr = self.parse_body(open_span, Ghost(s_open))?;
                Ok(
                    Expr::Lookaround(
                        Box::new(Lookaround { expr, kind: LookaroundKind::PositiveLookbehind }),
                    ),
                )
            },
            TokenKind::Exclamation => {
                self.advance()?;
                proof {
                    self.lemma_rem();
                }
                let expr = self.parse_body(open_span, Ghost(s_open))?;
                Ok(
                    Expr::Lookaround(
                        Box::new(Lookaround { expr, kind: LookaroundKind::NegativeLookbehind }),
                    ),
                )
            },
            _ => self.parse_named(open_span, Ghost(s_open)),
        }
    }

    /// Parses a group after `(?` whose current token is the letter `c`:
    /// `(?P<name>...)` or inline flags; `s_open` is the state at the group's `(`.
    fn parse_letter_group(&mut self, c: char, open_span: Span, Ghost(s_open): Ghost<PV>) -> (r:
        Result<Expr>)
        requires
            old(self).wf(),
            old(self).read_span(open_span),
            old(self).current.kind == TokenKind::Literal(c),
            rem(old(self).text(), old(self).state()) < rem(old(self).text(), s_open),
        ensures
            r matches Err(e) ==> located(e, old(self).text()) && within(e, old(self).text()),
            Self::moved(old(self), final(self)),
            r matches Ok(e) ==> expr_wf(e),
            r is Ok ==> final(self).remaining() < old(self).remaining(),
            agrees(
                p_letter(old(self).text(), s_open, old(self).state(), c),
                r,
                |e: Expr| node_of(e),
                final(self).state(),
            ),
        decreases old(self).remaining(), 7nat,
    {
        proof {
            self.lemma_rem();
        }
        if c == 'P' {
            self.advance()?;
            self.expect_less_than()?;
            proof {
                self.lemma_rem();
            }
            self.parse_named(open_span, Ghost(s_open))
        } else if is_flag_char(c) {
            self.parse_flags()?;
            proof {
                self.lemma_rem();
            }
            if matches!(self.current.kind, TokenKind::Colon) {
                self.advance()?;
                proof {
                    self.lemma_rem();
                }
                let expr = self.parse_body(open_span, Ghost(s_open))?;
                Ok(Expr::Group(Box::new(Group { expr, kind: GroupKind::NonCapturing })))
            } else if matches!(self.current.kind, TokenKind::CloseParen) {
                self.advance()?;
                proof {
                    self.lemma_rem();
                }
                Ok(Expr::Empty)
            } else {
                Err(self.error_here(ErrorKind::InvalidGroup))
            }
        } else {
            Err(self.error_here(ErrorKind::InvalidGroup))
        }
    }

    /// Parses a group after `(?`; `s_open` is the state at the group's `(`.
    fn parse_special_group(&mut self, open_span: Span, Ghost(s_open): Ghost<PV>) -> (r: Result<
        Expr,
    >)
        requires
            old(self).wf(),
            old(self).read_span(open_span),
            rem(old(self).text(), old(self).state()) < rem(old(self).text(), s_open),
        ensures
            r matches Err(e) ==> located(e, old(self).text()) && within(e, old(self).text()),
            Self::moved(old(self), final(self)),
            r matches Ok(e) ==> expr_wf(e),
            r is Ok ==> final(self).remaining() < old(self).remaining(),
            agrees(
                p_special(old(self).text(), s_open, old(self).state()),
                r,
                |e: Expr| node_of(e),
                final(self).state(),
            ),
        decreases old(self).remaining(), 8nat,
    {
        proof {
            self.lemma_rem();
        }
        match &self.current.kind {
            TokenKind::Colon => {
                self.advance()?;
                proof {
                    self.lemma_rem();
                }
                let expr = self.parse_body(open_span, Ghost(s_open))?;
                Ok(Expr::Group(Box::new(Group { expr, kind: GroupKind::NonCapturing })))
            },
            TokenKind::LessThan => {
                self.advance()?;
                proof {
                    self.lemma_rem();
                }
                self.parse_behind(open_span, Ghost(s_open))
            },
            TokenKind::Equals => {
                self.advance()?;
                proof {
                    self.lemma_rem();
                }
                let expr = self.parse_body(open_span, Ghost(s_open))?;
                Ok(
                    Expr::Lookaround(
                        Box::new(Lookaround { expr, kind: LookaroundKind::PositiveLookahead }),
                    ),
                )
            },
            TokenKind::Exclamation => {
                self.advance()?;
                proof {
                    self.lemma_rem();
                }
                let expr = self.parse_body(open_span, Ghost(s_open))?;
                Ok(
                    Expr::Lookaround(
                        Box::new(Lookaround { expr, kind: LookaroundKind::NegativeLookahead }),
                    ),
                )
            },
            TokenKind::Literal(c) => {
                let c = *c;
                self.parse_letter_group(c, open_span, Ghost(s_open))
            },
            _ => Err(self.error_here(ErrorKind::InvalidGroup)),
        }
    }

    /// Parses a group: `(...)`, `(?:...)`, `(?<name>...)`, lookarounds and flag groups.
    fn parse_group(&mut self) -> (r: Result<Expr>)
        requires
            old(self).wf(),
            old(self).current.kind is OpenParen,
        ensures
            r matches Err(e) ==> located(e, old(self).text()) && within(e, old(self).text()),
            Self::moved(old(self), final(self)),
            r matches Ok(e) ==> expr_wf(e),
            r is Ok ==> final(self).remaining() < old(self).remaining(),
            agrees(
                p_group(old(self).text(), old(self).state()),
                r,
                |e: Expr| node_of(e),
                final(self).state(),
            ),
        decreases old(self).remaining(), 0nat,
    {
        let ghost s0 = self.state();
        proof {
            old(self).lemma_rem();
        }
        let start_span = self.current.span;
        self.advance()?;
        proof {
            self.lemma_rem();
        }
        if matches!(self.current.kind, TokenKind::Question) {
            self.advance()?;
            proof {
                self.lemma_rem();
            }
            self.parse_special_group(start_span, Ghost(s0))
        } else {
            let index = self.next_capture;
            self.next_capture = self.next_capture.wrapping_add(1);
            self.capture_count = self.capture_count.wrapping_add(1);
            proof {
                self.lemma_rem();
            }
            let expr = self.parse_body(start_span, Ghost(s0))?;
            Ok(Expr::Group(Box::new(Group { expr, kind: GroupKind::Capturing(index) })))
        }
    }

    /// Parses inline flags such as `ims-x`.
    fn parse_flags(&mut self) -> (r: Result<()>)
        requires
            old(self).wf(),
        ensures
            r matches Err(e) ==> located(e, old(self).text()) && within(e, old(self).text()),
            Self::moved(old(self), final(self)),
            final(self).next_capture == old(self).next_capture,
            final(self).lexer.class_mode() == old(self).lexer.class_mode(),
            agrees(
                p_flags(old(self).text(), old(self).state(), false),
                r,
                |u: ()| u,
                final(self).state(),
            ),
    {
        let ghost cs = self.text();
        let ghost s0 = self.state();
        let mut negating = false;
        loop
            invariant
                Self::moved(old(self), self),
                self.text() == cs,
                cs == old(self).text(),
                s0 == old(self).state(),
                self.next_capture == old(self).next_capture,
                self.lexer.class_mode() == old(self).lexer.class_mode(),
                p_flags(cs, s0, false) == p_flags(cs, self.state(), negating),
            ensures
                Self::moved(old(self), self),
                self.next_capture == old(self).next_capture,
                self.lexer.class_mode() == old(self).lexer.class_mode(),
                p_flags(cs, s0, false) == (Ok::<(), ErrV>(()), self.state()),
            decreases self.remaining(),
        {
            let ghost before = self.state();
            proof {
                self.lemma_rem();
            }
            match &self.current.kind {
                TokenKind::Literal(c) => {
                    let c = *c;
                    if !is_flag_char(c) {
                        break;
                    }
                    set_flag_exec(&mut self.flags, c, !negating);
                    let ghost set = self.state();
                    self.advance()?;
                    proof {
                        self.lemma_rem();
                        assert(set == PV { flags: set_flag(before.flags, c, !negating), ..before });
                    }
                },
                TokenKind::Hyphen => {
                    negating = true;
                    self.advance()?;
                    proof {
                        self.lemma_rem();
                    }
                },
                _ => {
                    break;
                },
            }
        }
        Ok(())
    }
}

/// Sets the flag of letter `c` to `on`.
fn set_flag_exec(flags: &mut Flags, c: char, on: bool)
    ensures
        *final(flags) == set_flag(*old(flags), c, on),
{
    if c == 'i' {
        flags.case_insensitive = on;
    } else if c == 'm' {
        flags.multi_line = on;
    } else if c == 's' {
        flags.dot_all = on;
    } else if c == 'x' {
        flags.extended = on;
    } else if c == 'u' {
        flags.unicode = on;
    }
}

/// The character of a decimal digit value.
fn digit_char(d: u32) -> (c: char)
    ensures
        d < 10 ==> c as u32 == '0' as u32 + d,
        c == digit_char_of(d),
{
    if d < 10 {
        ((d as u8) + 48u8) as char
    } else {
        '0'
    }
}

/// `n * 10 + d`, saturating at `u32::MAX`.
fn saturating_decimal(n: u32, d: u32) -> (r: u32)
    ensures
        r == if n * 10 + d > u32::MAX {
            u32::MAX as int
        } else {
            n * 10 + d
        },
{
    let m: u32 = if n > u32::MAX / 10 {
        u32::MAX
    } else {
        n * 10
    };
    if m > u32::MAX - d {
        u32::MAX
    } else {
        m + d
    }
}


impl<'a> Parser<'a> {
    /// Reports a Unicode property inside a class. The property tables are not
    /// part of this crate, so every property name is reported as unknown.
    fn class_property(&self, name: &String) -> (r: Result<()>)
        requires
            self.wf(),
        ensures
            r matches Err(e) && e.kind matches ErrorKind::UnknownUnicodeProperty(n) && n@ == name@,
            r matches Err(e) ==> located(e, self.text()) && within(e, self.text()),
    {
        Err(self.error_here(ErrorKind::UnknownUnicodeProperty(name.clone())))
    }

    /// Parses a class: `[abc]`, `[^abc]`, `[a-z]`, with Perl classes inside.
    fn parse_class(&mut self) -> (r: Result<Expr>)
        requires
            old(self).wf(),
            old(self).current.kind is OpenBracket,
        ensures
            r matches Err(e) ==> located(e, old(self).text()) && within(e, old(self).text()),
            Self::moved(old(self), final(self)),
            r matches Ok(e) ==> expr_wf(e),
            r is Ok ==> final(self).remaining() < old(self).remaining(),
            agrees(
                p_class(old(self).text(), old(self).state()),
                r,
                |e: Expr| node_of(e),
                final(self).state(),
            ),
    {
        let ghost cs = self.text();
        let start_span = self.current.span;
        self.lexer.set_in_class(true);
        self.advance()?;
        let negated = if matches!(self.current.kind, TokenKind::Caret) {
            self.advance()?;
            true
        } else {
            false
        };
        let mut ranges: Vec<ClassRange> = Vec::new();
        if matches!(self.current.kind, TokenKind::CloseBracket) {
            ranges.push(ClassRange::single(']'));
            self.advance()?;
        } else if matches!(self.current.kind, TokenKind::Hyphen) {
            ranges.push(ClassRange::single('-'));
            self.advance()?;
        }
        let ghost s3 = self.state();
        let ghost first = ranges@;
        let mut done = false;
        while !done && !matches!(self.current.kind, TokenKind::CloseBracket | TokenKind::Eof)
            invariant
                Self::moved(old(self), self),
                self.remaining() < old(self).remaining(),
                ranges_wf(ranges@),
                self.text() == cs,
                self.lexer.class_mode(),
                self.read_span(start_span),
                p_class_items(cs, s3, first) == p_class_items(cs, self.state(), ranges@),
                done ==> self.current.kind is CloseBracket,
                p_class(cs, old(self).state()) == p_class_end(
                    cs,
                    p_class_items(cs, s3, first),
                    negated,
                ),
            decreases self.remaining(), if done {
                0nat
            } else {
                1nat
            },
        {
            proof {
                self.lemma_rem();
            }
            done = self.parse_class_step(&mut ranges)?;
            proof {
                self.lemma_rem();
            }
        }
        self.lexer.set_in_class(false);
        proof {
            self.lexer.lemma_offset();
        }
        if matches!(self.current.kind, TokenKind::Eof) {
            return Err(Error::with_span(ErrorKind::UnmatchedOpenBracket, self.pattern, start_span));
        }
        self.advance()?;
        proof {
            self.lexer.lemma_offset();
        }
        if ranges.len() == 0 {
            return Err(Error::with_span(ErrorKind::EmptyClass, self.pattern, start_span));
        }
        Ok(Expr::Class(Box::new(Class::new(ranges, negated))))
    }

    /// Parses one item of a class, or a range `a-b`, into `ranges`; gives
    /// whether the class ended in `-]`.
    fn parse_class_step(&mut self, ranges: &mut Vec<ClassRange>) -> (r: Result<bool>)
        requires
            old(self).wf(),
            ranges_wf(old(ranges)@),
        ensures
            r matches Err(e) ==> located(e, old(self).text()) && within(e, old(self).text()),
            Self::moved(old(self), final(self)),
            ranges_wf(final(ranges)@),
            final(self).lexer.class_mode() == old(self).lexer.class_mode(),
            r is Ok ==> final(self).remaining() < old(self).remaining(),
            r matches Ok(done) ==> (done ==> final(self).current.kind is CloseBracket),
            match r {
                Ok(_) => p_class_step(old(self).text(), old(self).state(), old(ranges)@) == (
                    Ok::<Seq<ClassRange>, ErrV>(final(ranges)@),
                    final(self).state(),
                ),
                Err(e) => p_class_step(old(self).text(), old(self).state(), old(ranges)@).0
                    == Err::<Seq<ClassRange>, ErrV>(err_view(e.kind)),
            },
    {
        let item = self.parse_class_item()?;
        match item {
            ClassItem::Char(start_char) => {
                if matches!(self.current.kind, TokenKind::Hyphen) {
                    self.advance()?;
                    if matches!(self.current.kind, TokenKind::CloseBracket) {
                        ranges.push(ClassRange::single(start_char));
                        ranges.push(ClassRange::single('-'));
                        return Ok(true);
                    } else {
                        let end_item = self.parse_class_item()?;
                        match end_item {
                            ClassItem::Char(end_char) => {
                                if start_char > end_char {
                                    return Err(
                                        self.error_here(
                                            ErrorKind::InvalidClassRange {
                                                start: start_char,
                                                end: end_char,
                                            },
                                        ),
                                    );
                                }
                                ranges.push(ClassRange::new(start_char, end_char));
                            },
                            ClassItem::Ranges(r) => {
                                ranges.push(ClassRange::single(start_char));
                                ranges.push(ClassRange::single('-'));
                                push_ranges(ranges, &r);
                            },
                            ClassItem::UnicodeProperty { name, negated: _ } => {
                                ranges.push(ClassRange::single(start_char));
                                ranges.push(ClassRange::single('-'));
                                self.class_property(&name)?;
                            },
                        }
                    }
                } else {
                    ranges.push(ClassRange::single(start_char));
                }
            },
            ClassItem::Ranges(r) => {
                push_ranges(ranges, &r);
            },
            ClassItem::UnicodeProperty { name, negated: _ } => {
                self.class_property(&name)?;
            },
        }
        Ok(false)
    }

    /// Parses an item of a class: a character, a Perl class, or a Unicode property.
    fn parse_class_item(&mut self) -> (r: Result<ClassItem>)
        requires
            old(self).wf(),
        ensures
            r matches Err(e) ==> located(e, old(self).text()) && within(e, old(self).text()),
            Self::moved(old(self), final(self)),
            r matches Ok(item) ==> item_wf(item),
            r is Ok ==> final(self).remaining() < old(self).remaining(),
            final(self).next_capture == old(self).next_capture,
            final(self).flags == old(self).flags,
            final(self).lexer.class_mode() == old(self).lexer.class_mode(),
            agrees(
                p_class_item(old(self).text(), old(self).state()),
                r,
                |i: ClassItem| item_view(i),
                final(self).state(),
            ),
    {
        match &self.current.kind {
            TokenKind::Escape(esc) => {
                let item = match esc {
                    EscapeKind::Digit | EscapeKind::NotDigit | EscapeKind::Word
                    | EscapeKind::NotWord | EscapeKind::Whitespace | EscapeKind::NotWhitespace => {
                        ClassItem::Ranges(perl_class_ranges(esc))
                    },
                    EscapeKind::Literal(c) => ClassItem::Char(*c),
                    EscapeKind::Newline => ClassItem::Char('\n'),
                    EscapeKind::CarriageReturn => ClassItem::Char('\r'),
                    EscapeKind::Tab => ClassItem::Char('\t'),
                    EscapeKind::FormFeed => ClassItem::Char('\x0C'),
                    EscapeKind::VerticalTab => ClassItem::Char('\x0B'),
                    EscapeKind::Null => ClassItem::Char('\0'),
                    EscapeKind::Hex(c) => ClassItem::Char(*c),
                    EscapeKind::Unicode(c) => ClassItem::Char(*c),
                    EscapeKind::UnicodeProperty(name) => ClassItem::UnicodeProperty {
                        name: name.clone(),
                        negated: false,
                    },
                    EscapeKind::NotUnicodeProperty(name) => ClassItem::UnicodeProperty {
                        name: name.clone(),
                        negated: true,
                    },
                    _ => {
                        return Err(self.error_here(ErrorKind::InvalidEscape('?')));
                    },
                };
                self.advance()?;
                Ok(item)
            },
            TokenKind::Literal(c) => {
                let c = *c;
                self.advance()?;
                Ok(ClassItem::Char(c))
            },
            TokenKind::Caret => {
                self.advance()?;
                Ok(ClassItem::Char('^'))
            },
            _ => Err(self.error_here(ErrorKind::UnexpectedChar(self.current_char_or('?')))),
        }
    }
}

/// The ranges that a Perl class stands for inside a class.
fn perl_class_ranges(esc: &EscapeKind) -> (r: Vec<ClassRange>)
    ensures
        r@ == perl_ranges(*esc),
{
    let r = match esc {
        EscapeKind::Digit => vec![ClassRange::new('0', '9')],
        EscapeKind::NotDigit => vec![ClassRange::new('\x00', '/'), ClassRange::new(':', '\u{10FFFF}')],
        EscapeKind::Word => vec![
            ClassRange::new('a', 'z'),
            ClassRange::new('A', 'Z'),
            ClassRange::new('0', '9'),
            ClassRange::single('_'),
        ],
        EscapeKind::NotWord => vec![
            ClassRange::new('\x00', '/'),
            ClassRange::new(':', '@'),
            ClassRange::new('[', '^'),
            ClassRange::single('`'),
            ClassRange::new('{', '\u{10FFFF}'),
        ],
        EscapeKind::Whitespace => vec![
            ClassRange::single(' '),
            ClassRange::single('\t'),
            ClassRange::single('\n'),
            ClassRange::single('\r'),
            ClassRange::single('\x0C'),
            ClassRange::single('\x0B'),
        ],
        _ => vec![
            ClassRange::new('\x00', '\x08'),
            ClassRange::new('\x0E', '\x1F'),
            ClassRange::new('!', '\u{10FFFF}'),
        ],
    };
    proof {
        assert(r@ =~= perl_ranges(*esc));
    }
    r
}

/// Appends ranges to a list.
fn push_ranges(ranges: &mut Vec<ClassRange>, more: &Vec<ClassRange>)
    ensures
        final(ranges)@ == old(ranges)@ + more@,
{
    let mut i: usize = 0;
    while i < more.len()
        invariant
            i <= more@.len(),
            ranges@ == old(ranges)@ + more@.take(i as int),
        decreases more@.len() - i,
    {
        ranges.push(more[i]);
        i = i + 1;
        proof {
            assert(ranges@ =~= old(ranges)@ + more@.take(i as int));
        }
    }
    proof {
        assert(more@.take(more@.len() as int) =~= more@);
    }
}

} // verus!
