//! Syntax trees of patterns.
use vstd::prelude::*;

verus! {

/// A parsed pattern.
#[derive(Debug, PartialEq, Eq)]
pub struct Ast {
    /// The root expression.
    pub expr: Expr,
    /// The flags in force at the end of the pattern.
    pub flags: Flags,
}

/// An expression of a pattern.
#[derive(Debug, PartialEq, Eq)]
pub enum Expr {
    /// Matches the empty string.
    Empty,
    /// A literal character.
    Literal(char),
    /// Concatenation.
    Concat(Vec<Expr>),
    /// Alternation.
    Alt(Vec<Expr>),
    /// Repetition.
    Repeat(Box<Repeat>),
    /// A group, capturing or not.
    Group(Box<Group>),
    /// A character class.
    Class(Box<Class>),
    /// An anchor.
    Anchor(Anchor),
    /// A lookaround assertion.
    Lookaround(Box<Lookaround>),
    /// A backreference.
    Backref(u32),
    /// `.`
    Dot,
    /// `\p{Name}` or `\P{Name}`.
    UnicodeProperty {
        /// The property name.
        name: String,
        /// Whether it is negated (`\P`).
        negated: bool,
    },
    /// `\d`, `\w`, `\s` and their negations.
    PerlClass(PerlClassKind),
}

/// Perl shorthand classes.
#[derive(Debug, Clone, Copy, PartialEq, Eq)]
pub enum PerlClassKind {
    /// `\d`
    Digit,
    /// `\D`
    NotDigit,
    /// `\w`
    Word,
    /// `\W`
    NotWord,
    /// `\s`
    Whitespace,
    /// `\S`
    NotWhitespace,
}

/// Whether an expression can match the empty string (backreferences are
/// counted as not, conservatively).
pub open spec fn nullable(e: Expr) -> bool
    decreases e, 1nat,
{
    match e {
        Expr::Empty => true,
        Expr::Concat(es) => all_nullable(es@),
        Expr::Alt(es) => any_nullable(es@),
        Expr::Repeat(r) => r.min == 0 || nullable(r.expr),
        Expr::Group(g) => nullable(g.expr),
        Expr::Anchor(_) => true,
        Expr::Lookaround(_) => true,
        _ => false,
    }
}

/// Whether every expression of the sequence is nullable.
pub open spec fn all_nullable(es: Seq<Expr>) -> bool
    decreases es, 0nat,
{
    if es.len() == 0 {
        true
    } else {
        all_nullable(es.drop_last()) && nullable(es.last())
    }
}

/// Whether some expression of the sequence is nullable.
pub open spec fn any_nullable(es: Seq<Expr>) -> bool
    decreases es, 0nat,
{
    if es.len() == 0 {
        false
    } else {
        any_nullable(es.drop_last()) || nullable(es.last())
    }
}

proof fn lemma_nullable_prefix(es: Seq<Expr>, k: int)
    requires
        0 <= k < es.len(),
    ensures
        all_nullable(es.take(k + 1)) == (all_nullable(es.take(k)) && nullable(es[k])),
        any_nullable(es.take(k + 1)) == (any_nullable(es.take(k)) || nullable(es[k])),
{
    assert(es.take(k + 1).drop_last() =~= es.take(k));
}

impl Expr {
    /// Whether the expression can match the empty string.
    pub fn is_nullable(&self) -> (b: bool)
        ensures
            b == nullable(*self),
        decreases self, 0nat,
    {
        match self {
            Expr::Empty => true,
            Expr::Literal(_) => false,
            Expr::Concat(exprs) => {
                let mut k: usize = 0;
                let mut all = true;
                while k < exprs.len()
                    invariant
                        k <= exprs@.len(),
                        all == all_nullable(exprs@.take(k as int)),
                        *self == Expr::Concat(*exprs),
                    decreases exprs@.len() - k,
                {
                    proof {
                        lemma_nullable_prefix(exprs@, k as int);
                        assert(decreases_to!(*self => self->Concat_0));
                        assert(decreases_to!(self->Concat_0 => self->Concat_0@));
                        assert(decreases_to!(self->Concat_0@ => self->Concat_0@[k as int]));
                    }
                    let n = exprs[k].is_nullable();
                    all = all && n;
                    k = k + 1;
                }
                proof {
                    assert(exprs@.take(exprs@.len() as int) =~= exprs@);
                }
                all
            },
            Expr::Alt(exprs) => {
                let mut k: usize = 0;
                let mut any = false;
                while k < exprs.len()
                    invariant
                        k <= exprs@.len(),
                        any == any_nullable(exprs@.take(k as int)),
                        *self == Expr::Alt(*exprs),
                    decreases exprs@.len() - k,
                {
                    proof {
                        lemma_nullable_prefix(exprs@, k as int);
                        assert(decreases_to!(*self => self->Alt_0));
                        assert(decreases_to!(self->Alt_0 => self->Alt_0@));
                        assert(decreases_to!(self->Alt_0@ => self->Alt_0@[k as int]));
                    }
                    let n = exprs[k].is_nullable();
                    any = any || n;
                    k = k + 1;
                }
                proof {
                    assert(exprs@.take(exprs@.len() as int) =~= exprs@);
                }
                any
            },
            Expr::Repeat(rep) => {
                proof {
                    assert(decreases_to!(*self => self->Repeat_0));
                }
                rep.min == 0 || rep.expr.is_nullable()
            },
            Expr::Group(g) => {
                proof {
                    assert(decreases_to!(*self => self->Group_0));
                }
                g.expr.is_nullable()
            },
            Expr::Class(_) => false,
            Expr::Anchor(_) => true,
            Expr::Lookaround(_) => true,
            Expr::Backref(_) => false,
            Expr::Dot => false,
            Expr::UnicodeProperty { .. } => false,
            Expr::PerlClass(_) => false,
        }
    }
}

/// A repetition.
#[derive(Debug, PartialEq, Eq)]
pub struct Repeat {
    /// The repeated expression.
    pub expr: Expr,
    /// Minimum count.
    pub min: u32,
    /// Maximum count (`None` = unbounded).
    pub max: Option<u32>,
    /// Whether the repetition prefers more.
    pub greedy: bool,
}

impl Repeat {
    /// Creates a repetition.
    pub fn new(expr: Expr, min: u32, max: Option<u32>, greedy: bool) -> (r: Self)
        ensures
            r.expr == expr,
            r.min == min,
            r.max == max,
            r.greedy == greedy,
    {
        Repeat { expr, min, max, greedy }
    }

    /// `expr*`
    pub fn star(expr: Expr, greedy: bool) -> (r: Self)
        ensures
            r.expr == expr,
            r.min == 0,
            r.max is None,
            r.greedy == greedy,
    {
        Self::new(expr, 0, None, greedy)
    }

    /// `expr+`
    pub fn plus(expr: Expr, greedy: bool) -> (r: Self)
        ensures
            r.expr == expr,
            r.min == 1,
            r.max is None,
            r.greedy == greedy,
    {
        Self::new(expr, 1, None, greedy)
    }

    /// `expr?`
    pub fn question(expr: Expr, greedy: bool) -> (r: Self)
        ensures
            r.expr == expr,
            r.min == 0,
            r.max == Some(1u32),
            r.greedy == greedy,
    {
        Self::new(expr, 0, Some(1), greedy)
    }
}

/// A group.
#[derive(Debug, PartialEq, Eq)]
pub struct Group {
    /// The grouped expression.
    pub expr: Expr,
    /// The kind of group.
    pub kind: GroupKind,
}

/// Kinds of groups.
#[derive(Debug, Clone, PartialEq, Eq)]
pub enum GroupKind {
    /// A capturing group with its index.
    Capturing(u32),
    /// A named capturing group.
    NamedCapturing {
        /// The group's name.
        name: String,
        /// Its index (1-based).
        index: u32,
    },
    /// `(?:...)`
    NonCapturing,
}

/// A character class.
#[derive(Debug, Clone, PartialEq, Eq)]
pub struct Class {
    /// The ranges of the class.
    pub ranges: Vec<ClassRange>,
    /// Whether the class is negated (`[^...]`).
    pub negated: bool,
}

impl Class {
    /// Creates a class.
    pub fn new(ranges: Vec<ClassRange>, negated: bool) -> (c: Self)
        ensures
            c.ranges == ranges,
            c.negated == negated,
    {
        Class { ranges, negated }
    }

    /// Creates the class of one character.
    pub fn from_char(c: char) -> (cls: Self)
        ensures
            cls.ranges@ == seq![ClassRange { start: c, end: c }],
            !cls.negated,
    {
        let mut ranges: Vec<ClassRange> = Vec::new();
        ranges.push(ClassRange::single(c));
        proof {
            assert(ranges@ =~= seq![ClassRange { start: c, end: c }]);
        }
        Class { ranges, negated: false }
    }
}

/// An inclusive range of characters.
#[derive(Debug, Clone, Copy, PartialEq, Eq, Structural)]
pub struct ClassRange {
    /// First character.
    pub start: char,
    /// Last character.
    pub end: char,
}

impl ClassRange {
    /// Creates a range.
    pub fn new(start: char, end: char) -> (r: Self)
        ensures
            r.start == start,
            r.end == end,
    {
        ClassRange { start, end }
    }

    /// Creates the range of one character.
    pub fn single(c: char) -> (r: Self)
        ensures
            r.start == c,
            r.end == c,
    {
        ClassRange { start: c, end: c }
    }

    /// Whether the range holds the character.
    pub fn contains(&self, c: char) -> (b: bool)
        ensures
            b == (self.start <= c && c <= self.end),
    {
        c >= self.start && c <= self.end
    }
}

/// Anchors.
#[derive(Debug, Clone, Copy, PartialEq, Eq, Structural)]
pub enum Anchor {
    /// `^`
    StartOfString,
    /// `$`
    EndOfString,
    /// `^` in multi-line mode.
    StartOfLine,
    /// `$` in multi-line mode.
    EndOfLine,
    /// `\b`
    WordBoundary,
    /// `\B`
    NotWordBoundary,
    /// `\A`
    StartOfInput,
    /// `\z`
    EndOfInput,
    /// `\Z`
    EndOfInputBeforeNewline,
}

/// A lookaround assertion.
#[derive(Debug, PartialEq, Eq)]
pub struct Lookaround {
    /// The asserted expression.
    pub expr: Expr,
    /// The kind of lookaround.
    pub kind: LookaroundKind,
}

/// Kinds of lookaround.
#[derive(Debug, Clone, Copy, PartialEq, Eq, Structural)]
pub enum LookaroundKind {
    /// `(?=...)`
    PositiveLookahead,
    /// `(?!...)`
    NegativeLookahead,
    /// `(?<=...)`
    PositiveLookbehind,
    /// `(?<!...)`
    NegativeLookbehind,
}

/// Pattern flags.
#[derive(Debug, Clone, Copy, PartialEq, Eq, Structural)]
pub struct Flags {
    /// `i`: case-insensitive.
    pub case_insensitive: bool,
    /// `m`: `^` and `$` match at line boundaries.
    pub multi_line: bool,
    /// `s`: `.` matches newlines.
    pub dot_all: bool,
    /// `x`: extended syntax.
    pub extended: bool,
    /// `u`: Unicode mode.
    pub unicode: bool,
}

impl Flags {
    /// Whether no flag is set.
    pub open spec fn is_clear(self) -> bool {
        !self.case_insensitive && !self.multi_line && !self.dot_all && !self.extended
            && !self.unicode
    }

    /// Creates flags with none set.
    pub fn new() -> (f: Self)
        ensures
            f.is_clear(),
    {
        Flags {
            case_insensitive: false,
            multi_line: false,
            dot_all: false,
            extended: false,
            unicode: false,
        }
    }
}

impl Default for Flags {
    fn default() -> (f: Self)
        ensures
            f.is_clear(),
    {
        Flags::new()
    }
}

} // verus!
