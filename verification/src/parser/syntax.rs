//! What parsing gives, stated over mathematical values: the syntax tree as
//! a `Node`, and the parser as spec functions over the characters of the
//! pattern, in the grammar's own recursive-descent order.
use crate::error::ErrorKind;
use crate::parser::ast::{Anchor, ClassRange, Expr, Flags, GroupKind, LookaroundKind, PerlClassKind};
use crate::parser::lexer::{ident_end, lex_step, EscapeKind, TokV, TokenKind};
use vstd::prelude::*;

verus! {

// ---------------------------------------------------------------------------
// Syntax trees as values
// ---------------------------------------------------------------------------

/// A group's kind, with the name as characters.
pub enum GroupV {
    /// A capturing group with its index.
    Capturing(u32),
    /// A named capturing group with its name and index.
    Named(Seq<char>, u32),
    /// A group that does not capture.
    NonCapturing,
}

/// A syntax tree as a value.
pub enum Node {
    /// Matches the empty string.
    Empty,
    /// A literal character.
    Literal(char),
    /// Concatenation.
    Concat(Seq<Node>),
    /// Alternation.
    Alt(Seq<Node>),
    /// Repetition: expression, minimum, maximum, greediness.
    Repeat(Box<Node>, u32, Option<u32>, bool),
    /// A group.
    Group(Box<Node>, GroupV),
    /// A class: its ranges, and whether it is negated.
    Class(Seq<ClassRange>, bool),
    /// An anchor.
    Anchor(Anchor),
    /// A lookaround assertion.
    Lookaround(Box<Node>, LookaroundKind),
    /// A backreference.
    Backref(u32),
    /// `.`
    Dot,
    /// A Unicode property: its name, and whether it is negated.
    UnicodeProperty(Seq<char>, bool),
    /// A Perl shorthand class.
    PerlClass(PerlClassKind),
}

/// The value of a group kind.
pub open spec fn group_view(k: GroupKind) -> GroupV {
    match k {
        GroupKind::Capturing(i) => GroupV::Capturing(i),
        GroupKind::NamedCapturing { name, index } => GroupV::Named(name@, index),
        GroupKind::NonCapturing => GroupV::NonCapturing,
    }
}

/// The value of an expression.
pub open spec fn node_of(e: Expr) -> Node
    decreases e, 1nat,
{
    match e {
        Expr::Empty => Node::Empty,
        Expr::Literal(c) => Node::Literal(c),
        Expr::Concat(es) => Node::Concat(nodes_of(es@)),
        Expr::Alt(es) => Node::Alt(nodes_of(es@)),
        Expr::Repeat(r) => Node::Repeat(Box::new(node_of(r.expr)), r.min, r.max, r.greedy),
        Expr::Group(g) => Node::Group(Box::new(node_of(g.expr)), group_view(g.kind)),
        Expr::Class(c) => Node::Class(c.ranges@, c.negated),
        Expr::Anchor(a) => Node::Anchor(a),
        Expr::Lookaround(la) => Node::Lookaround(Box::new(node_of(la.expr)), la.kind),
        Expr::Backref(n) => Node::Backref(n),
        Expr::Dot => Node::Dot,
        Expr::UnicodeProperty { name, negated } => Node::UnicodeProperty(name@, negated),
        Expr::PerlClass(k) => Node::PerlClass(k),
    }
}

/// The values of a sequence of expressions.
pub open spec fn nodes_of(es: Seq<Expr>) -> Seq<Node>
    decreases es, 0nat,
{
    if es.len() == 0 {
        Seq::empty()
    } else {
        nodes_of(es.drop_last()).push(node_of(es.last()))
    }
}

/// `nodes_of` takes one more expression to one more node.
pub proof fn lemma_nodes_of_push(es: Seq<Expr>, e: Expr)
    ensures
        nodes_of(es.push(e)) == nodes_of(es).push(node_of(e)),
{
    assert(es.push(e).drop_last() =~= es);
}

/// `nodes_of` keeps the length and maps each expression by `node_of`.
pub proof fn lemma_nodes_of_index(es: Seq<Expr>)
    ensures
        nodes_of(es).len() == es.len(),
        forall|i: int| 0 <= i < es.len() ==> #[trigger] nodes_of(es)[i] == node_of(es[i]),
    decreases es.len(),
{
    if es.len() > 0 {
        lemma_nodes_of_index(es.drop_last());
    }
}

/// An error kind as a value, with the name of a Unicode property as characters.
pub enum ErrV {
    /// Any error but an unknown property.
    Plain(ErrorKind),
    /// A Unicode property that is not known.
    UnknownProperty(Seq<char>),
}

/// The value of an error kind.
pub open spec fn err_view(k: ErrorKind) -> ErrV {
    match k {
        ErrorKind::UnknownUnicodeProperty(name) => ErrV::UnknownProperty(name@),
        _ => ErrV::Plain(k),
    }
}

/// A class item as a value.
pub enum ItemV {
    /// One character.
    Char(char),
    /// Ranges of a Perl class.
    Ranges(Seq<ClassRange>),
    /// A Unicode property: its name, and whether it is negated.
    Property(Seq<char>, bool),
}

// ---------------------------------------------------------------------------
// The parser's state
// ---------------------------------------------------------------------------

/// What the parser holds between steps.
pub struct PV {
    /// Index of the next character of the pattern.
    pub idx: int,
    /// Whether tokens are read as inside a class.
    pub in_class: bool,
    /// The current token.
    pub cur: TokV,
    /// Index of the next capturing group.
    pub next_capture: u32,
    /// The flags in force.
    pub flags: Flags,
}

/// The outcome of a step: a value or an error, and the state after it
/// (which matters only with a value).
pub type Step<T> = (core::result::Result<T, ErrV>, PV);

/// Whether an executable result `r`, with the state `after` it left,
/// agrees with the step `step`: the same value (by `v`) and state, or the
/// same error.
pub open spec fn agrees<T, U>(
    step: Step<U>,
    r: core::result::Result<T, crate::error::Error>,
    v: spec_fn(T) -> U,
    after: PV,
) -> bool {
    match r {
        Ok(x) => step == (Ok::<U, ErrV>(v(x)), after),
        Err(e) => step.0 == Err::<U, ErrV>(err_view(e.kind)),
    }
}

/// Whether the current token is `k`.
pub open spec fn at(s: PV, k: TokenKind) -> bool {
    s.cur == TokV::Plain(k)
}

/// Characters left, counting the current token as one.
pub open spec fn rem(cs: Seq<char>, s: PV) -> nat {
    (cs.len() - s.idx) as nat + if at(s, TokenKind::Eof) {
        0nat
    } else {
        1nat
    }
}

/// The state after reading the next token.
pub open spec fn advance(cs: Seq<char>, s: PV) -> core::result::Result<PV, ErrV> {
    let (t, n) = lex_step(cs, s.idx, s.in_class);
    match t {
        Ok(tok) => Ok(PV { idx: n, cur: tok, ..s }),
        Err(k) => Err(err_view(k)),
    }
}

/// Reads the next token and gives `v`.
pub open spec fn then<T>(cs: Seq<char>, s: PV, v: T) -> Step<T> {
    match advance(cs, s) {
        Ok(s1) => (Ok(v), s1),
        Err(e) => (Err(e), s),
    }
}

/// The current token's character where it is a literal, else `d`.
pub open spec fn cur_char_or(s: PV, d: char) -> char {
    match s.cur {
        TokV::Plain(TokenKind::Literal(c)) => c,
        _ => d,
    }
}

/// The error of an unexpected current token.
pub open spec fn unexpected(s: PV) -> ErrV {
    ErrV::Plain(ErrorKind::UnexpectedChar(cur_char_or(s, '?')))
}

/// The state at the start: the first token read, with no flags set and
/// the first capture numbered 1. A first token that cannot be read reads
/// as the end.
pub open spec fn start_state(cs: Seq<char>) -> PV {
    let (t, n) = lex_step(cs, 0, false);
    PV {
        idx: n,
        in_class: false,
        cur: match t {
            Ok(tok) => tok,
            Err(_) => TokV::Plain(TokenKind::Eof),
        },
        next_capture: 1,
        flags: Flags {
            case_insensitive: false,
            multi_line: false,
            dot_all: false,
            extended: false,
            unicode: false,
        },
    }
}

// ---------------------------------------------------------------------------
// Pieces without recursion
// ---------------------------------------------------------------------------

/// `n * 10 + d`, saturating at `u32::MAX`.
pub open spec fn saturated(n: u32, d: u32) -> u32 {
    if n * 10 + d > u32::MAX {
        u32::MAX
    } else {
        (n * 10 + d) as u32
    }
}

/// The character of a decimal digit value (`0` past nine).
pub open spec fn digit_char_of(d: u32) -> char {
    if d < 10 {
        ((48 + d) as u32) as char
    } else {
        '0'
    }
}

/// Reads digit tokens into `acc`; gives the number and whether a digit was
/// read. A token that cannot be read gives the lexer's error.
pub open spec fn p_digits(cs: Seq<char>, s: PV, acc: u32, any: bool) -> Step<(u32, bool)>
    decreases rem(cs, s),
{
    match s.cur {
        TokV::Plain(TokenKind::Digit(d)) => match advance(cs, s) {
            Ok(s1) => if rem(cs, s1) < rem(cs, s) {
                p_digits(cs, s1, saturated(acc, d), true)
            } else {
                (Ok((saturated(acc, d), true)), s1)
            },
            Err(e) => (Err(e), s),
        },
        _ => (Ok((acc, any)), s),
    }
}

/// The maximum of a range `{min,max}`.
pub open spec fn p_range_max(cs: Seq<char>, s: PV, min: u32) -> Step<(u32, Option<u32>)> {
    match p_digits(cs, s, 0, false) {
        (Err(e), s1) => (Err(e), s1),
        (Ok((max, some_digit)), s1) => if !some_digit || max < min {
            (Err(ErrV::Plain(ErrorKind::InvalidRepetition)), s1)
        } else {
            (Ok((min, Some(max))), s1)
        },
    }
}

/// The inside of `{n}`, `{n,}` or `{n,m}`, up to where its `}` should be.
pub open spec fn p_range(cs: Seq<char>, s: PV) -> Step<(u32, Option<u32>)> {
    let bad = ErrV::Plain(ErrorKind::InvalidRepetition);
    match p_digits(cs, s, 0, false) {
        (Err(e), s1) => (Err(e), s1),
        (Ok((min, _)), s1) => if at(s1, TokenKind::CloseBrace) {
            (Ok((min, Some(min))), s1)
        } else if !at(s1, TokenKind::Comma) {
            (Err(bad), s1)
        } else {
            match advance(cs, s1) {
                Err(e) => (Err(e), s1),
                Ok(s2) => if at(s2, TokenKind::CloseBrace) {
                    (Ok((min, None)), s2)
                } else {
                    p_range_max(cs, s2, min)
                },
            }
        },
    }
}

/// Whether the current token is a quantifier.
pub open spec fn at_quantifier(s: PV) -> bool {
    at(s, TokenKind::Star) || at(s, TokenKind::Plus) || at(s, TokenKind::Question) || at(
        s,
        TokenKind::OpenBrace,
    )
}

/// After the bounds of a repetition of `n`: an optional `?` (lazy), and no
/// second quantifier.
pub open spec fn p_greedy(cs: Seq<char>, s: PV, n: Node, min: u32, max: Option<u32>) -> Step<
    Node,
> {
    let lazy = at(s, TokenKind::Question);
    let next = if lazy {
        advance(cs, s)
    } else {
        Ok(s)
    };
    match next {
        Ok(s1) => if at_quantifier(s1) {
            (Err(ErrV::Plain(ErrorKind::NestedQuantifier)), s1)
        } else {
            (Ok(Node::Repeat(Box::new(n), min, max, !lazy)), s1)
        },
        Err(e) => (Err(e), s),
    }
}

/// A quantifier after `n`, if one follows.
pub open spec fn p_quant(cs: Seq<char>, s: PV, n: Node) -> Step<Node> {
    if at(s, TokenKind::Star) || at(s, TokenKind::Plus) || at(s, TokenKind::Question) {
        let (min, max) = if at(s, TokenKind::Star) {
            (0u32, None)
        } else if at(s, TokenKind::Plus) {
            (1u32, None)
        } else {
            (0u32, Some(1u32))
        };
        match advance(cs, s) {
            Ok(s1) => p_greedy(cs, s1, n, min, max),
            Err(e) => (Err(e), s),
        }
    } else if at(s, TokenKind::OpenBrace) {
        match advance(cs, s) {
            Err(e) => (Err(e), s),
            Ok(s1) => match p_range(cs, s1) {
                (Err(e), s2) => (Err(e), s2),
                (Ok((min, max)), s2) => if at(s2, TokenKind::CloseBrace) {
                    match advance(cs, s2) {
                        Ok(s3) => p_greedy(cs, s3, n, min, max),
                        Err(e) => (Err(e), s2),
                    }
                } else {
                    (Err(unexpected(s2)), s2)
                },
            },
        }
    } else {
        (Ok(n), s)
    }
}

/// The expression of an escape token.
pub open spec fn escape_node(t: TokV) -> Node {
    match t {
        TokV::Property(name, negated) => Node::UnicodeProperty(name, negated),
        TokV::Plain(TokenKind::Escape(k)) => match k {
            EscapeKind::Literal(c) => Node::Literal(c),
            EscapeKind::Newline => Node::Literal('\n'),
            EscapeKind::CarriageReturn => Node::Literal('\r'),
            EscapeKind::Tab => Node::Literal('\t'),
            EscapeKind::FormFeed => Node::Literal('\x0C'),
            EscapeKind::VerticalTab => Node::Literal('\x0B'),
            EscapeKind::Null => Node::Literal('\0'),
            EscapeKind::Hex(c) => Node::Literal(c),
            EscapeKind::Unicode(c) => Node::Literal(c),
            EscapeKind::Digit => Node::PerlClass(PerlClassKind::Digit),
            EscapeKind::NotDigit => Node::PerlClass(PerlClassKind::NotDigit),
            EscapeKind::Word => Node::PerlClass(PerlClassKind::Word),
            EscapeKind::NotWord => Node::PerlClass(PerlClassKind::NotWord),
            EscapeKind::Whitespace => Node::PerlClass(PerlClassKind::Whitespace),
            EscapeKind::NotWhitespace => Node::PerlClass(PerlClassKind::NotWhitespace),
            EscapeKind::WordBoundary => Node::Anchor(Anchor::WordBoundary),
            EscapeKind::NotWordBoundary => Node::Anchor(Anchor::NotWordBoundary),
            EscapeKind::StartOfInput => Node::Anchor(Anchor::StartOfInput),
            EscapeKind::EndOfInput => Node::Anchor(Anchor::EndOfInput),
            EscapeKind::EndOfInputBeforeNewline => Node::Anchor(Anchor::EndOfInputBeforeNewline),
            EscapeKind::Backref(n) => Node::Backref(n),
            EscapeKind::UnicodeProperty(name) => Node::UnicodeProperty(name@, false),
            EscapeKind::NotUnicodeProperty(name) => Node::UnicodeProperty(name@, true),
        },
        _ => Node::Literal('\0'),
    }
}

/// The name of a named group, up to and past its `>`; the current token is
/// its first character.
pub open spec fn p_group_name(cs: Seq<char>, s: PV) -> Step<Seq<char>> {
    match s.cur {
        TokV::Plain(TokenKind::Literal(c)) => {
            let e = ident_end(cs, s.idx);
            let name = seq![c] + cs.subrange(s.idx, e);
            let (t, n) = lex_step(cs, e, s.in_class);
            match t {
                Err(k) => (Err(err_view(k)), s),
                Ok(tok) => {
                    let s1 = PV { idx: n, cur: tok, ..s };
                    if at(s1, TokenKind::GreaterThan) {
                        then(cs, s1, name)
                    } else {
                        (Err(unexpected(s1)), s1)
                    }
                },
            }
        },
        _ => (Err(ErrV::Plain(ErrorKind::InvalidGroup)), s),
    }
}

/// The `)` that closes a group.
pub open spec fn close_paren(cs: Seq<char>, s: PV) -> core::result::Result<PV, ErrV> {
    if at(s, TokenKind::CloseParen) {
        advance(cs, s)
    } else {
        Err(ErrV::Plain(ErrorKind::UnmatchedOpenParen))
    }
}

/// Whether a character is a flag letter.
pub open spec fn flag_letter(c: char) -> bool {
    c == 'i' || c == 'm' || c == 's' || c == 'x' || c == 'u'
}

/// `f` with the flag of letter `c` set to `on`.
pub open spec fn set_flag(f: Flags, c: char, on: bool) -> Flags {
    if c == 'i' {
        Flags { case_insensitive: on, ..f }
    } else if c == 'm' {
        Flags { multi_line: on, ..f }
    } else if c == 's' {
        Flags { dot_all: on, ..f }
    } else if c == 'x' {
        Flags { extended: on, ..f }
    } else if c == 'u' {
        Flags { unicode: on, ..f }
    } else {
        f
    }
}

/// Inline flags such as `ims-x`; after `-` they are cleared.
pub open spec fn p_flags(cs: Seq<char>, s: PV, negating: bool) -> Step<()>
    decreases rem(cs, s),
{
    match s.cur {
        TokV::Plain(TokenKind::Literal(c)) => if flag_letter(c) {
            let s0 = PV { flags: set_flag(s.flags, c, !negating), ..s };
            match advance(cs, s0) {
                Ok(s1) => if rem(cs, s1) < rem(cs, s) {
                    p_flags(cs, s1, negating)
                } else {
                    (Ok(()), s1)
                },
                Err(e) => (Err(e), s0),
            }
        } else {
            (Ok(()), s)
        },
        TokV::Plain(TokenKind::Hyphen) => match advance(cs, s) {
            Ok(s1) => if rem(cs, s1) < rem(cs, s) {
                p_flags(cs, s1, true)
            } else {
                (Ok(()), s1)
            },
            Err(e) => (Err(e), s),
        },
        _ => (Ok(()), s),
    }
}

/// The ranges that a Perl class stands for inside a class.
pub open spec fn perl_ranges(k: EscapeKind) -> Seq<ClassRange> {
    let r = |a: char, b: char| ClassRange { start: a, end: b };
    match k {
        EscapeKind::Digit => seq![r('0', '9')],
        EscapeKind::NotDigit => seq![r('\x00', '/'), r(':', '\u{10FFFF}')],
        EscapeKind::Word => seq![r('a', 'z'), r('A', 'Z'), r('0', '9'), r('_', '_')],
        EscapeKind::NotWord => seq![
            r('\x00', '/'),
            r(':', '@'),
            r('[', '^'),
            r('`', '`'),
            r('{', '\u{10FFFF}'),
        ],
        EscapeKind::Whitespace => seq![
            r(' ', ' '),
            r('\t', '\t'),
            r('\n', '\n'),
            r('\r', '\r'),
            r('\x0C', '\x0C'),
            r('\x0B', '\x0B'),
        ],
        _ => seq![r('\x00', '\x08'), r('\x0E', '\x1F'), r('!', '\u{10FFFF}')],
    }
}

/// The class item of an escape token, where it may stand in a class.
pub open spec fn escape_item(t: TokV) -> Option<ItemV> {
    match t {
        TokV::Property(name, negated) => Some(ItemV::Property(name, negated)),
        TokV::Plain(TokenKind::Escape(k)) => match k {
            EscapeKind::Digit | EscapeKind::NotDigit | EscapeKind::Word | EscapeKind::NotWord
            | EscapeKind::Whitespace | EscapeKind::NotWhitespace => Some(
                ItemV::Ranges(perl_ranges(k)),
            ),
            EscapeKind::Literal(c) => Some(ItemV::Char(c)),
            EscapeKind::Newline => Some(ItemV::Char('\n')),
            EscapeKind::CarriageReturn => Some(ItemV::Char('\r')),
            EscapeKind::Tab => Some(ItemV::Char('\t')),
            EscapeKind::FormFeed => Some(ItemV::Char('\x0C')),
            EscapeKind::VerticalTab => Some(ItemV::Char('\x0B')),
            EscapeKind::Null => Some(ItemV::Char('\0')),
            EscapeKind::Hex(c) => Some(ItemV::Char(c)),
            EscapeKind::Unicode(c) => Some(ItemV::Char(c)),
            EscapeKind::UnicodeProperty(name) => Some(ItemV::Property(name@, false)),
            EscapeKind::NotUnicodeProperty(name) => Some(ItemV::Property(name@, true)),
            _ => None,
        },
        _ => None,
    }
}

/// An item of a class: a character, a Perl class, or a Unicode property.
pub open spec fn p_class_item(cs: Seq<char>, s: PV) -> Step<ItemV> {
    match s.cur {
        TokV::Property(..) | TokV::Plain(TokenKind::Escape(_)) => match escape_item(s.cur) {
            Some(item) => then(cs, s, item),
            None => (Err(ErrV::Plain(ErrorKind::InvalidEscape('?'))), s),
        },
        TokV::Plain(TokenKind::Literal(c)) => then(cs, s, ItemV::Char(c)),
        TokV::Plain(TokenKind::Caret) => then(cs, s, ItemV::Char('^')),
        _ => (Err(unexpected(s)), s),
    }
}

/// The range of one character.
pub open spec fn single(c: char) -> ClassRange {
    ClassRange { start: c, end: c }
}

/// One item of a class, or a range `a-b`, added to `acc`.
pub open spec fn p_class_step(cs: Seq<char>, s: PV, acc: Seq<ClassRange>) -> Step<
    Seq<ClassRange>,
> {
    match p_class_item(cs, s) {
        (Err(e), s1) => (Err(e), s1),
        (Ok(item), s1) => match item {
            ItemV::Char(c) => if at(s1, TokenKind::Hyphen) {
                match advance(cs, s1) {
                    Err(e) => (Err(e), s1),
                    Ok(s2) => if at(s2, TokenKind::CloseBracket) {
                        (Ok(acc.push(single(c)).push(single('-'))), s2)
                    } else {
                        match p_class_item(cs, s2) {
                            (Err(e), s3) => (Err(e), s3),
                            (Ok(ItemV::Char(e)), s3) => if c > e {
                                (
                                    Err(ErrV::Plain(ErrorKind::InvalidClassRange { start: c, end: e })),
                                    s3,
                                )
                            } else {
                                (Ok(acc.push(ClassRange { start: c, end: e })), s3)
                            },
                            (Ok(ItemV::Ranges(rs)), s3) => (
                                Ok(acc.push(single(c)).push(single('-')) + rs),
                                s3,
                            ),
                            (Ok(ItemV::Property(name, _)), s3) => (
                                Err(ErrV::UnknownProperty(name)),
                                s3,
                            ),
                        }
                    },
                }
            } else {
                (Ok(acc.push(single(c))), s1)
            },
            ItemV::Ranges(rs) => (Ok(acc + rs), s1),
            ItemV::Property(name, _) => (Err(ErrV::UnknownProperty(name)), s1),
        },
    }
}

/// The items of a class up to its `]` (or the end), added to `acc`.
pub open spec fn p_class_items(cs: Seq<char>, s: PV, acc: Seq<ClassRange>) -> Step<
    Seq<ClassRange>,
>
    decreases rem(cs, s),
{
    if at(s, TokenKind::CloseBracket) || at(s, TokenKind::Eof) {
        (Ok(acc), s)
    } else {
        match p_class_step(cs, s, acc) {
            (Err(e), s1) => (Err(e), s1),
            (Ok(acc1), s1) => if rem(cs, s1) < rem(cs, s) {
                p_class_items(cs, s1, acc1)
            } else {
                (Ok(acc1), s1)
            },
        }
    }
}

/// A class after its items: the `]` and the class, or the error.
pub open spec fn p_class_end(cs: Seq<char>, items: Step<Seq<ClassRange>>, negated: bool) -> Step<
    Node,
> {
    match items {
        (Err(e), s4) => (Err(e), s4),
        (Ok(ranges), s4) => {
            let s5 = PV { in_class: false, ..s4 };
            if at(s5, TokenKind::Eof) {
                (Err(ErrV::Plain(ErrorKind::UnmatchedOpenBracket)), s5)
            } else {
                match advance(cs, s5) {
                    Err(e) => (Err(e), s5),
                    Ok(s6) => if ranges.len() == 0 {
                        (Err(ErrV::Plain(ErrorKind::EmptyClass)), s6)
                    } else {
                        (Ok(Node::Class(ranges, negated)), s6)
                    },
                }
            }
        },
    }
}

/// A class `[...]`; the current token is its `[`.
pub open spec fn p_class(cs: Seq<char>, s: PV) -> Step<Node> {
    match advance(cs, PV { in_class: true, ..s }) {
        Err(e) => (Err(e), s),
        Ok(s1) => {
            let negated = at(s1, TokenKind::Caret);
            let s2r = if negated {
                advance(cs, s1)
            } else {
                Ok(s1)
            };
            match s2r {
                Err(e) => (Err(e), s1),
                Ok(s2) => {
                    let (first, s3r) = if at(s2, TokenKind::CloseBracket) {
                        (seq![single(']')], advance(cs, s2))
                    } else if at(s2, TokenKind::Hyphen) {
                        (seq![single('-')], advance(cs, s2))
                    } else {
                        (Seq::empty(), Ok(s2))
                    };
                    match s3r {
                        Err(e) => (Err(e), s2),
                        Ok(s3) => p_class_end(cs, p_class_items(cs, s3, first), negated),
                    }
                },
            }
        },
    }
}

// ---------------------------------------------------------------------------
// The recursive descent
// ---------------------------------------------------------------------------

/// An alternation `a|b|c`.
pub open spec fn p_alt(cs: Seq<char>, s: PV) -> Step<Node>
    decreases rem(cs, s), 10nat,
{
    match p_concat(cs, s) {
        (Err(e), s1) => (Err(e), s1),
        (Ok(left), s1) => if at(s1, TokenKind::Pipe) && rem(cs, s1) <= rem(cs, s) {
            match p_alt_rest(cs, s1, seq![left]) {
                (Ok(alts), s2) => (Ok(Node::Alt(alts)), s2),
                (Err(e), s2) => (Err(e), s2),
            }
        } else {
            (Ok(left), s1)
        },
    }
}

/// The alternatives after the first, each after its `|`, added to `acc`.
pub open spec fn p_alt_rest(cs: Seq<char>, s: PV, acc: Seq<Node>) -> Step<Seq<Node>>
    decreases rem(cs, s), 9nat,
{
    if at(s, TokenKind::Pipe) {
        match advance(cs, s) {
            Err(e) => (Err(e), s),
            Ok(s1) => if rem(cs, s1) < rem(cs, s) {
                match p_concat(cs, s1) {
                    (Err(e), s2) => (Err(e), s2),
                    (Ok(n), s2) => if rem(cs, s2) < rem(cs, s) {
                        p_alt_rest(cs, s2, acc.push(n))
                    } else {
                        (Ok(acc.push(n)), s2)
                    },
                }
            } else {
                (Ok(acc), s1)
            },
        }
    } else {
        (Ok(acc), s)
    }
}

/// A concatenation: the empty expression, one expression, or several.
pub open spec fn p_concat(cs: Seq<char>, s: PV) -> Step<Node>
    decreases rem(cs, s), 8nat,
{
    match p_concat_items(cs, s, Seq::empty()) {
        (Err(e), s1) => (Err(e), s1),
        (Ok(ns), s1) => (
            Ok(
                if ns.len() == 0 {
                    Node::Empty
                } else if ns.len() == 1 {
                    ns[0]
                } else {
                    Node::Concat(ns)
                },
            ),
            s1,
        ),
    }
}

/// The items of a concatenation up to `|`, `)` or the end, added to `acc`.
pub open spec fn p_concat_items(cs: Seq<char>, s: PV, acc: Seq<Node>) -> Step<Seq<Node>>
    decreases rem(cs, s), 7nat,
{
    if at(s, TokenKind::Eof) || at(s, TokenKind::Pipe) || at(s, TokenKind::CloseParen) {
        (Ok(acc), s)
    } else {
        match p_repeat(cs, s) {
            (Err(e), s1) => (Err(e), s1),
            (Ok(n), s1) => if rem(cs, s1) < rem(cs, s) {
                p_concat_items(cs, s1, acc.push(n))
            } else {
                (Ok(acc.push(n)), s1)
            },
        }
    }
}

/// An atom with its quantifier, if any.
pub open spec fn p_repeat(cs: Seq<char>, s: PV) -> Step<Node>
    decreases rem(cs, s), 6nat,
{
    match p_atom(cs, s) {
        (Err(e), s1) => (Err(e), s1),
        (Ok(n), s1) => p_quant(cs, s1, n),
    }
}

/// An atom: a literal, `.`, an anchor, a group, a class or an escape.
pub open spec fn p_atom(cs: Seq<char>, s: PV) -> Step<Node>
    decreases rem(cs, s), 5nat,
{
    match s.cur {
        TokV::Plain(TokenKind::Literal(c)) => then(cs, s, Node::Literal(c)),
        TokV::Plain(TokenKind::Dot) => then(cs, s, Node::Dot),
        TokV::Plain(TokenKind::Caret) => then(
            cs,
            s,
            Node::Anchor(
                if s.flags.multi_line {
                    Anchor::StartOfLine
                } else {
                    Anchor::StartOfString
                },
            ),
        ),
        TokV::Plain(TokenKind::Dollar) => then(
            cs,
            s,
            Node::Anchor(
                if s.flags.multi_line {
                    Anchor::EndOfLine
                } else {
                    Anchor::EndOfString
                },
            ),
        ),
        TokV::Plain(TokenKind::OpenParen) => p_group(cs, s),
        TokV::Plain(TokenKind::OpenBracket) => p_class(cs, s),
        TokV::Property(..) | TokV::Plain(TokenKind::Escape(_)) => then(cs, s, escape_node(s.cur)),
        TokV::Plain(TokenKind::Digit(d)) => then(cs, s, Node::Literal(digit_char_of(d))),
        TokV::Plain(TokenKind::Equals) => then(cs, s, Node::Literal('=')),
        TokV::Plain(TokenKind::Exclamation) => then(cs, s, Node::Literal('!')),
        TokV::Plain(TokenKind::LessThan) => then(cs, s, Node::Literal('<')),
        TokV::Plain(TokenKind::GreaterThan) => then(cs, s, Node::Literal('>')),
        TokV::Plain(TokenKind::Colon) => then(cs, s, Node::Literal(':')),
        TokV::Plain(TokenKind::Comma) => then(cs, s, Node::Literal(',')),
        TokV::Plain(TokenKind::CloseParen) => (
            Err(ErrV::Plain(ErrorKind::UnmatchedCloseParen)),
            s,
        ),
        TokV::Plain(TokenKind::Star) | TokV::Plain(TokenKind::Plus) | TokV::Plain(
            TokenKind::Question,
        ) => (Err(ErrV::Plain(ErrorKind::RepetitionOnNothing)), s),
        _ => (Err(unexpected(s)), s),
    }
}

/// The alternation inside a group, from state `s1`, and the group's `)`;
/// `s` is the state at the group's `(`.
pub open spec fn p_body(cs: Seq<char>, s: PV, s1: PV) -> Step<Node>
    decreases rem(cs, s), 0nat,
{
    if rem(cs, s1) < rem(cs, s) {
        match p_alt(cs, s1) {
            (Err(e), s2) => (Err(e), s2),
            (Ok(n), s2) => match close_paren(cs, s2) {
                Ok(s3) => (Ok(n), s3),
                Err(e) => (Err(e), s2),
            },
        }
    } else {
        (Err(ErrV::Plain(ErrorKind::InvalidGroup)), s1)
    }
}

/// A node wrapped in a group or lookaround, keeping errors.
pub open spec fn wrap(r: Step<Node>, f: spec_fn(Node) -> Node) -> Step<Node> {
    match r {
        (Ok(n), s) => (Ok(f(n)), s),
        (Err(e), s) => (Err(e), s),
    }
}

/// `s` with the next capture index taken.
pub open spec fn take_index(s: PV) -> PV {
    PV { next_capture: vstd::wrapping::u32_specs::wrapping_add(s.next_capture, 1), ..s }
}

/// A named group, from its name on; `s` is the state at the group's `(`.
/// Its index is taken after its body.
pub open spec fn p_named(cs: Seq<char>, s: PV, s1: PV) -> Step<Node>
    decreases rem(cs, s), 1nat,
{
    match p_group_name(cs, s1) {
        (Err(e), s2) => (Err(e), s2),
        (Ok(name), s2) => match p_body(cs, s, s2) {
            (Err(e), s3) => (Err(e), s3),
            (Ok(n), s3) => (
                Ok(Node::Group(Box::new(n), GroupV::Named(name, s3.next_capture))),
                take_index(s3),
            ),
        },
    }
}

/// A group after `(?<`, from state `s3`: a lookbehind, or a named group;
/// `s` is the state at the group's `(`.
pub open spec fn p_behind(cs: Seq<char>, s: PV, s3: PV) -> Step<Node>
    decreases rem(cs, s), 2nat,
{
    if at(s3, TokenKind::Equals) || at(s3, TokenKind::Exclamation) {
        let kind = if at(s3, TokenKind::Equals) {
            LookaroundKind::PositiveLookbehind
        } else {
            LookaroundKind::NegativeLookbehind
        };
        match advance(cs, s3) {
            Err(e) => (Err(e), s3),
            Ok(s4) => wrap(p_body(cs, s, s4), |n: Node| Node::Lookaround(Box::new(n), kind)),
        }
    } else {
        p_named(cs, s, s3)
    }
}

/// A group after `(?` whose next token is the letter `c`, from state `s2`:
/// `(?P<name>...)`, or inline flags with or without a body; `s` is the state
/// at the group's `(`.
pub open spec fn p_letter(cs: Seq<char>, s: PV, s2: PV, c: char) -> Step<Node>
    decreases rem(cs, s), 2nat,
{
    let invalid = ErrV::Plain(ErrorKind::InvalidGroup);
    if c == 'P' {
        match advance(cs, s2) {
            Err(e) => (Err(e), s2),
            Ok(s3) => if at(s3, TokenKind::LessThan) {
                match advance(cs, s3) {
                    Err(e) => (Err(e), s3),
                    Ok(s4) => p_named(cs, s, s4),
                }
            } else {
                (Err(unexpected(s3)), s3)
            },
        }
    } else if flag_letter(c) {
        match p_flags(cs, s2, false) {
            (Err(e), s3) => (Err(e), s3),
            (Ok(_), s3) => if at(s3, TokenKind::Colon) {
                match advance(cs, s3) {
                    Err(e) => (Err(e), s3),
                    Ok(s4) => wrap(
                        p_body(cs, s, s4),
                        |n: Node| Node::Group(Box::new(n), GroupV::NonCapturing),
                    ),
                }
            } else if at(s3, TokenKind::CloseParen) {
                then(cs, s3, Node::Empty)
            } else {
                (Err(invalid), s3)
            },
        }
    } else {
        (Err(invalid), s2)
    }
}

/// A group after `(?`, from state `s2`; `s` is the state at the group's `(`.
pub open spec fn p_special(cs: Seq<char>, s: PV, s2: PV) -> Step<Node>
    decreases rem(cs, s), 3nat,
{
    match s2.cur {
        TokV::Plain(TokenKind::Colon) => match advance(cs, s2) {
            Err(e) => (Err(e), s2),
            Ok(s3) => wrap(
                p_body(cs, s, s3),
                |n: Node| Node::Group(Box::new(n), GroupV::NonCapturing),
            ),
        },
        TokV::Plain(TokenKind::LessThan) => match advance(cs, s2) {
            Err(e) => (Err(e), s2),
            Ok(s3) => p_behind(cs, s, s3),
        },
        TokV::Plain(TokenKind::Equals) | TokV::Plain(TokenKind::Exclamation) => {
            let kind = if at(s2, TokenKind::Equals) {
                LookaroundKind::PositiveLookahead
            } else {
                LookaroundKind::NegativeLookahead
            };
            match advance(cs, s2) {
                Err(e) => (Err(e), s2),
                Ok(s3) => wrap(p_body(cs, s, s3), |n: Node| Node::Lookaround(Box::new(n), kind)),
            }
        },
        TokV::Plain(TokenKind::Literal(c)) => p_letter(cs, s, s2, c),
        _ => (Err(ErrV::Plain(ErrorKind::InvalidGroup)), s2),
    }
}

/// A group: `(...)`, `(?:...)`, `(?<name>...)`, `(?P<name>...)`,
/// lookarounds and flag groups; the current token is its `(`.
pub open spec fn p_group(cs: Seq<char>, s: PV) -> Step<Node>
    decreases rem(cs, s), 4nat,
{
    match advance(cs, s) {
        Err(e) => (Err(e), s),
        Ok(s1) => if !at(s1, TokenKind::Question) {
            let index = s1.next_capture;
            wrap(
                p_body(cs, s, take_index(s1)),
                |n: Node| Node::Group(Box::new(n), GroupV::Capturing(index)),
            )
        } else {
            match advance(cs, s1) {
                Err(e) => (Err(e), s1),
                Ok(s2) => p_special(cs, s, s2),
            }
        },
    }
}

/// A whole pattern from state `s`: an alternation that reaches the end,
/// with the flags in force there.
pub open spec fn p_pattern(cs: Seq<char>, s: PV) -> core::result::Result<(Node, Flags), ErrV> {
    match p_alt(cs, s) {
        (Err(e), _) => Err(e),
        (Ok(n), s1) => if at(s1, TokenKind::Eof) {
            Ok((n, s1.flags))
        } else {
            Err(unexpected(s1))
        },
    }
}

/// What parsing the pattern `cs` gives.
pub open spec fn parse_result(cs: Seq<char>) -> core::result::Result<(Node, Flags), ErrV> {
    p_pattern(cs, start_state(cs))
}

} // verus!

verus! {

/// A pattern whose current token is the end gives the empty expression
/// and the flags in force.
pub proof fn lemma_pattern_at_end(cs: Seq<char>, s: PV)
    requires
        at(s, TokenKind::Eof),
    ensures
        p_pattern(cs, s) == Ok::<(Node, Flags), ErrV>((Node::Empty, s.flags)),
{
    assert(p_concat_items(cs, s, Seq::empty()) == (Ok::<Seq<Node>, ErrV>(Seq::empty()), s));
    assert(p_concat(cs, s) == (Ok::<Node, ErrV>(Node::Empty), s));
    assert(p_alt(cs, s) == (Ok::<Node, ErrV>(Node::Empty), s));
}

} // verus!
