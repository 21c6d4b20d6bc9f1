//! High-level intermediate representation: a regex over bytes, as the NFA
//! builders consume it.
use crate::error::{Error, ErrorKind, Result};
use crate::parser::ast::{
    Anchor, Ast, Class, ClassRange, Expr, GroupKind, LookaroundKind, PerlClassKind,
};
use vstd::prelude::*;
use vstd::utf8::encode_scalar;

verus! {

/// A translated pattern together with its summary properties.
#[derive(Debug)]
pub struct Hir {
    /// The root expression.
    pub expr: HirExpr,
    /// Properties of the whole pattern.
    pub props: HirProps,
}

/// Properties of a whole pattern.
#[derive(Debug, Clone, Copy)]
pub struct HirProps {
    /// Number of capture groups (group 0 excluded).
    pub capture_count: u32,
    /// Whether the pattern holds a backreference.
    pub has_backrefs: bool,
    /// Whether the pattern holds a lookaround.
    pub has_lookaround: bool,
}

impl HirProps {
    /// Properties of a pattern with no group, backreference or lookaround.
    pub fn new() -> (p: Self)
        ensures
            p.capture_count == 0,
            !p.has_backrefs,
            !p.has_lookaround,
    {
        HirProps { capture_count: 0, has_backrefs: false, has_lookaround: false }
    }
}

/// An expression over bytes.
#[derive(Debug)]
pub enum HirExpr {
    /// Matches the empty string.
    Empty,
    /// A sequence of bytes.
    Literal(Vec<u8>),
    /// A class of bytes.
    Class(HirClass),
    /// A class of Unicode code points (matched one UTF-8 sequence at a time).
    UnicodeCpClass(CodepointClass),
    /// Concatenation.
    Concat(Vec<HirExpr>),
    /// Alternation, in order of preference.
    Alt(Vec<HirExpr>),
    /// Repetition.
    Repeat(Box<HirRepeat>),
    /// A capture group.
    Capture(Box<HirCapture>),
    /// A zero-width assertion.
    Anchor(HirAnchor),
    /// A lookaround assertion.
    Lookaround(Box<HirLookaround>),
    /// A backreference to a capture group.
    Backref(u32),
}

/// A class of bytes given by inclusive ranges.
#[derive(Debug)]
pub struct HirClass {
    /// Inclusive byte ranges.
    pub ranges: Vec<(u8, u8)>,
    /// Whether the class is the complement of the ranges.
    pub negated: bool,
}

/// A repetition.
#[derive(Debug)]
pub struct HirRepeat {
    /// The repeated expression.
    pub expr: HirExpr,
    /// Minimum count.
    pub min: u32,
    /// Maximum count (`None` = unbounded).
    pub max: Option<u32>,
    /// Whether the repetition prefers more.
    pub greedy: bool,
}

/// A capture group.
#[derive(Debug)]
pub struct HirCapture {
    /// Group index (1-based).
    pub index: u32,
    /// Group name, when it has one.
    pub name: Option<String>,
    /// The captured expression.
    pub expr: HirExpr,
}

/// Zero-width assertions.
#[derive(Debug, Clone, Copy, PartialEq, Eq)]
pub enum HirAnchor {
    /// Start of text.
    Start,
    /// End of text.
    End,
    /// Start of a line.
    StartLine,
    /// End of a line.
    EndLine,
    /// Word boundary.
    WordBoundary,
    /// Not a word boundary.
    NotWordBoundary,
}

/// A lookaround assertion.
#[derive(Debug)]
pub struct HirLookaround {
    /// The asserted expression.
    pub expr: HirExpr,
    /// The kind of lookaround.
    pub kind: HirLookaroundKind,
}

/// Kinds of lookaround.
#[derive(Debug, Clone, Copy, PartialEq, Eq)]
pub enum HirLookaroundKind {
    /// `(?=...)`
    PositiveLookahead,
    /// `(?!...)`
    NegativeLookahead,
    /// `(?<=...)`
    PositiveLookbehind,
    /// `(?<!...)`
    NegativeLookbehind,
}

/// A set of Unicode code points given by inclusive ranges.
#[derive(Debug, Clone)]
pub struct CodepointClass {
    /// Inclusive code point ranges.
    pub ranges: Vec<(u32, u32)>,
    /// Whether the class is the complement of the ranges.
    pub negated: bool,
}

/// Whether `cp` lies in one of the ranges.
pub open spec fn in_cp_ranges(ranges: Seq<(u32, u32)>, cp: u32) -> bool {
    exists|i: int| 0 <= i < ranges.len() && (#[trigger] ranges[i]).0 <= cp <= ranges[i].1
}

impl CodepointClass {
    /// Whether the class holds code point `cp`.
    pub open spec fn spec_contains(&self, cp: u32) -> bool {
        in_cp_ranges(self.ranges@, cp) != self.negated
    }

    /// Checks membership of a code point.
    pub fn contains(&self, cp: u32) -> (b: bool)
        ensures
            b == self.spec_contains(cp),
    {
        let mut i: usize = 0;
        let mut found = false;
        while i < self.ranges.len()
            invariant
                i <= self.ranges.len(),
                found == (exists|j: int| 0 <= j < i && (#[trigger] self.ranges@[j]).0 <= cp <= self.ranges@[j].1),
            decreases self.ranges.len() - i,
        {
            let (lo, hi) = self.ranges[i];
            if lo <= cp && cp <= hi {
                found = true;
            }
            i += 1;
        }
        found != self.negated
    }

    /// A copy of the class.
    pub fn duplicate(&self) -> (c: Self)
        ensures
            c.ranges@ == self.ranges@,
            c.negated == self.negated,
    {
        let mut ranges: Vec<(u32, u32)> = Vec::new();
        let mut i: usize = 0;
        while i < self.ranges.len()
            invariant
                i <= self.ranges@.len(),
                ranges@ == self.ranges@.take(i as int),
            decreases self.ranges@.len() - i,
        {
            ranges.push(self.ranges[i]);
            i = i + 1;
            proof {
                assert(ranges@ =~= self.ranges@.take(i as int));
            }
        }
        proof {
            assert(self.ranges@.take(i as int) =~= self.ranges@);
        }
        CodepointClass { ranges, negated: self.negated }
    }
}


// ---------------------------------------------------------------------------
// From syntax trees
// ---------------------------------------------------------------------------

/// Number of capturing groups of `e`.
pub open spec fn count_captures(e: Expr) -> nat
    decreases e, 1nat,
{
    match e {
        Expr::Concat(es) => count_captures_seq(es@),
        Expr::Alt(es) => count_captures_seq(es@),
        Expr::Repeat(r) => count_captures(r.expr),
        Expr::Group(g) => count_captures(g.expr) + if g.kind is NonCapturing {
            0nat
        } else {
            1nat
        },
        Expr::Lookaround(la) => count_captures(la.expr),
        _ => 0,
    }
}

/// Number of capturing groups of a sequence of expressions.
pub open spec fn count_captures_seq(es: Seq<Expr>) -> nat
    decreases es, 0nat,
{
    if es.len() == 0 {
        0
    } else {
        count_captures_seq(es.drop_last()) + count_captures(es.last())
    }
}

/// Whether `e` holds a node of the given shape: a backreference when `want_backref`,
/// a lookaround otherwise.
pub open spec fn holds_node(e: Expr, want_backref: bool) -> bool
    decreases e, 1nat,
{
    match e {
        Expr::Concat(es) => holds_node_seq(es@, want_backref),
        Expr::Alt(es) => holds_node_seq(es@, want_backref),
        Expr::Repeat(r) => holds_node(r.expr, want_backref),
        Expr::Group(g) => holds_node(g.expr, want_backref),
        Expr::Lookaround(la) => !want_backref || holds_node(la.expr, want_backref),
        Expr::Backref(_) => want_backref,
        _ => false,
    }
}

/// Whether some expression of the sequence satisfies `holds_node`.
pub open spec fn holds_node_seq(es: Seq<Expr>, want_backref: bool) -> bool
    decreases es, 0nat,
{
    if es.len() == 0 {
        false
    } else {
        holds_node_seq(es.drop_last(), want_backref) || holds_node(es.last(), want_backref)
    }
}

/// Whether `e` holds a Unicode property, which has no translation here.
pub open spec fn holds_property(e: Expr) -> bool
    decreases e, 1nat,
{
    match e {
        Expr::Concat(es) => holds_property_seq(es@),
        Expr::Alt(es) => holds_property_seq(es@),
        Expr::Repeat(r) => holds_property(r.expr),
        Expr::Group(g) => holds_property(g.expr),
        Expr::Lookaround(la) => holds_property(la.expr),
        Expr::UnicodeProperty { .. } => true,
        _ => false,
    }
}

/// Whether some expression of the sequence holds a Unicode property.
pub open spec fn holds_property_seq(es: Seq<Expr>) -> bool
    decreases es, 0nat,
{
    if es.len() == 0 {
        false
    } else {
        holds_property_seq(es.drop_last()) || holds_property(es.last())
    }
}

proof fn lemma_counts_prefix(es: Seq<Expr>, k: int)
    requires
        0 <= k < es.len(),
    ensures
        count_captures_seq(es.take(k + 1)) == count_captures_seq(es.take(k)) + count_captures(es[k]),
        holds_node_seq(es.take(k + 1), true) == (holds_node_seq(es.take(k), true) || holds_node(
            es[k],
            true,
        )),
        holds_node_seq(es.take(k + 1), false) == (holds_node_seq(es.take(k), false) || holds_node(
            es[k],
            false,
        )),
        holds_property_seq(es.take(k + 1)) == (holds_property_seq(es.take(k)) || holds_property(
            es[k],
        )),
{
    assert(es.take(k + 1).drop_last() =~= es.take(k));
}

/// What the translation of an expression records in the properties, when it
/// succeeds (the group count is exact unless it passes `u32::MAX`).
pub open spec fn props_after(before: HirProps, after: HirProps, e: Expr) -> bool {
    &&& before.capture_count + count_captures(e) <= u32::MAX ==> after.capture_count
        == before.capture_count + count_captures(e)
    &&& after.has_backrefs == (before.has_backrefs || holds_node(e, true))
    &&& after.has_lookaround == (before.has_lookaround || holds_node(e, false))
}

/// The anchor that an anchor of the syntax tree becomes.
pub open spec fn anchor_of(a: Anchor) -> HirAnchor {
    match a {
        Anchor::StartOfString => HirAnchor::Start,
        Anchor::StartOfInput => HirAnchor::Start,
        Anchor::EndOfString => HirAnchor::End,
        Anchor::EndOfInput => HirAnchor::End,
        Anchor::EndOfInputBeforeNewline => HirAnchor::End,
        Anchor::StartOfLine => HirAnchor::StartLine,
        Anchor::EndOfLine => HirAnchor::EndLine,
        Anchor::WordBoundary => HirAnchor::WordBoundary,
        Anchor::NotWordBoundary => HirAnchor::NotWordBoundary,
    }
}

/// The kind that a lookaround kind of the syntax tree becomes.
pub open spec fn lookaround_kind_of(k: LookaroundKind) -> HirLookaroundKind {
    match k {
        LookaroundKind::PositiveLookahead => HirLookaroundKind::PositiveLookahead,
        LookaroundKind::NegativeLookahead => HirLookaroundKind::NegativeLookahead,
        LookaroundKind::PositiveLookbehind => HirLookaroundKind::PositiveLookbehind,
        LookaroundKind::NegativeLookbehind => HirLookaroundKind::NegativeLookbehind,
    }
}

/// The byte ranges of a Perl class: digits, ASCII word bytes, or ASCII white space.
pub open spec fn perl_ranges(k: PerlClassKind) -> Seq<(u8, u8)> {
    match k {
        PerlClassKind::Digit | PerlClassKind::NotDigit => seq![(48u8, 57u8)],
        PerlClassKind::Word | PerlClassKind::NotWord => seq![
            (97u8, 122u8),
            (65u8, 90u8),
            (48u8, 57u8),
            (95u8, 95u8),
        ],
        PerlClassKind::Whitespace | PerlClassKind::NotWhitespace => seq![
            (32u8, 32u8),
            (9u8, 9u8),
            (10u8, 10u8),
            (13u8, 13u8),
            (12u8, 12u8),
            (11u8, 11u8),
        ],
    }
}

/// Whether a Perl class is a negated one (`\D`, `\W`, `\S`).
pub open spec fn perl_negated(k: PerlClassKind) -> bool {
    k is NotDigit || k is NotWord || k is NotWhitespace
}

/// Whether every range of a class ends below 0x80.
pub open spec fn ascii_class(rs: Seq<ClassRange>) -> bool {
    forall|i: int| 0 <= i < rs.len() ==> ((#[trigger] rs[i]).end as u32) < 0x80
}

/// The byte ranges of a class: those of its ranges that lie below 0x80.
pub open spec fn ascii_ranges(rs: Seq<ClassRange>) -> Seq<(u8, u8)>
    decreases rs.len(),
{
    if rs.len() == 0 {
        Seq::empty()
    } else {
        let r = rs.last();
        ascii_ranges(rs.drop_last()) + if (r.start as u32) < 0x80 && (r.end as u32) < 0x80 {
            seq![((r.start as u32) as u8, (r.end as u32) as u8)]
        } else {
            Seq::empty()
        }
    }
}

/// The code point ranges of a class.
pub open spec fn cp_ranges(rs: Seq<ClassRange>) -> Seq<(u32, u32)> {
    Seq::new(rs.len(), |i: int| (rs[i].start as u32, rs[i].end as u32))
}

/// What a class becomes: a byte class when every range is ASCII, a class of
/// code points otherwise.
pub open spec fn class_translated(cls: Class, h: HirExpr) -> bool {
    if ascii_class(cls.ranges@) {
        h matches HirExpr::Class(c) && c.ranges@ == ascii_ranges(cls.ranges@) && c.negated
            == cls.negated
    } else {
        h matches HirExpr::UnicodeCpClass(c) && c.ranges@ == cp_ranges(cls.ranges@) && c.negated
            == cls.negated
    }
}

/// Whether `h` is the translation of `e`: literals become their UTF-8
/// bytes, `.` the bytes other than a line feed, Perl classes their ASCII
/// bytes, non-capturing groups their content, and every other node the
/// node of the same shape.
pub open spec fn translated(e: Expr, h: HirExpr) -> bool
    decreases e,
{
    match e {
        Expr::Empty => h is Empty,
        Expr::Literal(c) => h matches HirExpr::Literal(b) && b@ == encode_scalar(c as u32),
        Expr::Concat(es) => h matches HirExpr::Concat(hs) && hs@.len() == es@.len() && forall|
            i: int,
        |
            0 <= i < es@.len() ==> translated(#[trigger] es@[i], hs@[i]),
        Expr::Alt(es) => h matches HirExpr::Alt(hs) && hs@.len() == es@.len() && forall|i: int|
            0 <= i < es@.len() ==> translated(#[trigger] es@[i], hs@[i]),
        Expr::Repeat(r) => h matches HirExpr::Repeat(hr) && hr.min == r.min && hr.max == r.max
            && hr.greedy == r.greedy && translated(r.expr, hr.expr),
        Expr::Group(g) => match g.kind {
            GroupKind::NonCapturing => translated(g.expr, h),
            GroupKind::Capturing(index) => h matches HirExpr::Capture(c) && c.index == index
                && c.name is None && translated(g.expr, c.expr),
            GroupKind::NamedCapturing { name, index } => h matches HirExpr::Capture(c) && c.index
                == index && (c.name matches Some(n) && n@ == name@) && translated(g.expr, c.expr),
        },
        Expr::Class(cls) => class_translated(*cls, h),
        Expr::Anchor(a) => h == HirExpr::Anchor(anchor_of(a)),
        Expr::Lookaround(la) => h matches HirExpr::Lookaround(hl) && hl.kind == lookaround_kind_of(
            la.kind,
        ) && translated(la.expr, hl.expr),
        Expr::Backref(n) => h == HirExpr::Backref(n),
        Expr::Dot => h matches HirExpr::Class(c) && c.ranges@ == seq![(10u8, 10u8)] && c.negated,
        Expr::UnicodeProperty { .. } => false,
        Expr::PerlClass(k) => h matches HirExpr::Class(c) && c.ranges@ == perl_ranges(k)
            && c.negated == perl_negated(k),
    }
}

/// The UTF-8 encoding of a character.
pub fn encode_char(c: char) -> (bytes: Vec<u8>)
    ensures
        bytes@ == encode_scalar(c as u32),
{
    let v = c as u32;
    let mut bytes: Vec<u8> = Vec::new();
    if v <= 0x7F {
        bytes.push((v & 0x7F) as u8);
    } else if v <= 0x7FF {
        bytes.push(0xC0 | ((v >> 6) & 0x1F) as u8);
        bytes.push(0x80 | (v & 0x3F) as u8);
    } else if v <= 0xFFFF {
        bytes.push(0xE0 | ((v >> 12) & 0x0F) as u8);
        bytes.push(0x80 | ((v >> 6) & 0x3F) as u8);
        bytes.push(0x80 | (v & 0x3F) as u8);
    } else {
        bytes.push(0xF0 | ((v >> 18) & 0x7) as u8);
        bytes.push(0x80 | ((v >> 12) & 0x3F) as u8);
        bytes.push(0x80 | ((v >> 6) & 0x3F) as u8);
        bytes.push(0x80 | (v & 0x3F) as u8);
    }
    proof {
        assert(bytes@ =~= encode_scalar(c as u32));
    }
    bytes
}

/// A byte class from ranges.
fn byte_class(ranges: Vec<(u8, u8)>, negated: bool) -> (e: HirExpr)
    ensures
        e matches HirExpr::Class(c) && c.ranges@ == ranges@ && c.negated == negated,
{
    HirExpr::Class(HirClass { ranges, negated })
}

/// The bytes of a Perl class (`\d`, `\w`, `\s`), and whether it is negated.
fn perl_class(kind: PerlClassKind) -> (e: HirExpr)
    ensures
        e matches HirExpr::Class(c) && c.ranges@ == perl_ranges(kind) && c.negated == perl_negated(
            kind,
        ),
{
    match kind {
        PerlClassKind::Digit => byte_class(vec![(48u8, 57u8)], false),
        PerlClassKind::NotDigit => byte_class(vec![(48u8, 57u8)], true),
        PerlClassKind::Word => byte_class(
            vec![(97u8, 122u8), (65u8, 90u8), (48u8, 57u8), (95u8, 95u8)],
            false,
        ),
        PerlClassKind::NotWord => byte_class(
            vec![(97u8, 122u8), (65u8, 90u8), (48u8, 57u8), (95u8, 95u8)],
            true,
        ),
        PerlClassKind::Whitespace => byte_class(
            vec![(32u8, 32u8), (9u8, 9u8), (10u8, 10u8), (13u8, 13u8), (12u8, 12u8), (11u8, 11u8)],
            false,
        ),
        PerlClassKind::NotWhitespace => byte_class(
            vec![(32u8, 32u8), (9u8, 9u8), (10u8, 10u8), (13u8, 13u8), (12u8, 12u8), (11u8, 11u8)],
            true,
        ),
    }
}

/// A class: of bytes when every range is ASCII, of code points otherwise.
fn translate_class(cls: &Class) -> (e: HirExpr)
    ensures
        class_translated(*cls, e),
{
    let mut ascii = true;
    let mut i: usize = 0;
    while i < cls.ranges.len()
        invariant
            i <= cls.ranges@.len(),
            ascii == forall|j: int| 0 <= j < i ==> ((#[trigger] cls.ranges@[j]).end as u32) < 0x80,
        decreases cls.ranges@.len() - i,
    {
        if (cls.ranges[i].end as u32) >= 0x80 {
            ascii = false;
        }
        i = i + 1;
    }
    if ascii {
        let mut ranges: Vec<(u8, u8)> = Vec::new();
        let mut i: usize = 0;
        while i < cls.ranges.len()
            invariant
                i <= cls.ranges@.len(),
                ranges@ == ascii_ranges(cls.ranges@.take(i as int)),
            decreases cls.ranges@.len() - i,
        {
            let r = cls.ranges[i];
            let lo = r.start as u32;
            let hi = r.end as u32;
            proof {
                assert(cls.ranges@.take(i as int + 1).drop_last() =~= cls.ranges@.take(i as int));
                assert(cls.ranges@.take(i as int + 1).last() == r);
            }
            if lo < 0x80 && hi < 0x80 {
                ranges.push((lo as u8, hi as u8));
            }
            proof {
                assert(ranges@ =~= ascii_ranges(cls.ranges@.take(i as int + 1)));
            }
            i = i + 1;
        }
        proof {
            assert(cls.ranges@.take(i as int) =~= cls.ranges@);
        }
        byte_class(ranges, cls.negated)
    } else {
        let mut ranges: Vec<(u32, u32)> = Vec::new();
        let mut i: usize = 0;
        while i < cls.ranges.len()
            invariant
                i <= cls.ranges@.len(),
                ranges@.len() == i,
                forall|j: int|
                    0 <= j < i ==> #[trigger] ranges@[j] == (cls.ranges@[j].start as u32,
                    cls.ranges@[j].end as u32),
            decreases cls.ranges@.len() - i,
        {
            let r = cls.ranges[i];
            ranges.push((r.start as u32, r.end as u32));
            i = i + 1;
        }
        proof {
            assert(ranges@ =~= cp_ranges(cls.ranges@));
        }
        HirExpr::UnicodeCpClass(CodepointClass { ranges, negated: cls.negated })
    }
}

/// Translates a sequence of expressions.
fn translate_seq(es: &Vec<Expr>, props: &mut HirProps) -> (r: Result<Vec<HirExpr>>)
    ensures
        r is Ok <==> !holds_property_seq(es@),
        r matches Ok(v) ==> v@.len() == es@.len() && props_after_seq(
            *old(props),
            *final(props),
            es@,
        ),
        r matches Ok(v) ==> forall|i: int| 0 <= i < es@.len() ==> translated(#[trigger] es@[i], v@[i]),
    decreases es, 0nat,
{
    let mut out: Vec<HirExpr> = Vec::new();
    let mut k: usize = 0;
    let ghost start = *props;
    while k < es.len()
        invariant
            k <= es@.len(),
            out@.len() == k,
            forall|i: int| 0 <= i < k ==> translated(#[trigger] es@[i], out@[i]),
            !holds_property_seq(es@.take(k as int)),
            start == *old(props),
            start.capture_count + count_captures_seq(es@.take(k as int)) <= u32::MAX
                ==> props.capture_count == start.capture_count + count_captures_seq(
                es@.take(k as int),
            ),
            props.has_backrefs == (start.has_backrefs || holds_node_seq(es@.take(k as int), true)),
            props.has_lookaround == (start.has_lookaround || holds_node_seq(
                es@.take(k as int),
                false,
            )),
        decreases es@.len() - k,
    {
        proof {
            lemma_counts_prefix(es@, k as int);
            assert(decreases_to!(*es => es@));
            assert(decreases_to!(es@ => es@[k as int]));
        }
        match translate_expr(&es[k], props) {
            Ok(h) => {
                out.push(h);
            },
            Err(e) => {
                proof {
                    lemma_property_seq_holds(es@, k as int);
                }
                return Err(e);
            },
        }
        k = k + 1;
    }
    proof {
        assert(es@.take(es@.len() as int) =~= es@);
    }
    Ok(out)
}

proof fn lemma_property_seq_holds(es: Seq<Expr>, k: int)
    requires
        0 <= k < es.len(),
        holds_property(es[k]),
    ensures
        holds_property_seq(es),
    decreases es.len(),
{
    if k < es.len() - 1 {
        assert(es.drop_last()[k] == es[k]);
        lemma_property_seq_holds(es.drop_last(), k);
    }
}

/// What the translation of a sequence records in the properties.
pub open spec fn props_after_seq(before: HirProps, after: HirProps, es: Seq<Expr>) -> bool {
    &&& before.capture_count + count_captures_seq(es) <= u32::MAX ==> after.capture_count
        == before.capture_count + count_captures_seq(es)
    &&& after.has_backrefs == (before.has_backrefs || holds_node_seq(es, true))
    &&& after.has_lookaround == (before.has_lookaround || holds_node_seq(es, false))
}

/// Translates an expression, recording its groups, backreferences and
/// lookarounds in `props` (the group count wraps around past `u32::MAX`).
fn translate_expr(e: &Expr, props: &mut HirProps) -> (r: Result<HirExpr>)
    ensures
        r is Ok <==> !holds_property(*e),
        r is Ok ==> props_after(*old(props), *final(props), *e),
        r matches Ok(h) ==> translated(*e, h),
    decreases e, 1nat,
{
    match e {
        Expr::Empty => Ok(HirExpr::Empty),
        Expr::Literal(c) => Ok(HirExpr::Literal(encode_char(*c))),
        Expr::Concat(es) => {
            proof {
                assert(decreases_to!(*e => e->Concat_0));
            }
            match translate_seq(es, props) {
                Ok(v) => Ok(HirExpr::Concat(v)),
                Err(err) => Err(err),
            }
        },
        Expr::Alt(es) => {
            proof {
                assert(decreases_to!(*e => e->Alt_0));
            }
            match translate_seq(es, props) {
                Ok(v) => Ok(HirExpr::Alt(v)),
                Err(err) => Err(err),
            }
        },
        Expr::Repeat(rep) => {
            proof {
                assert(decreases_to!(*e => e->Repeat_0));
            }
            match translate_expr(&rep.expr, props) {
                Ok(inner) => Ok(
                    HirExpr::Repeat(
                        Box::new(
                            HirRepeat {
                                expr: inner,
                                min: rep.min,
                                max: rep.max,
                                greedy: rep.greedy,
                            },
                        ),
                    ),
                ),
                Err(err) => Err(err),
            }
        },
        Expr::Group(g) => {
            proof {
                assert(decreases_to!(*e => e->Group_0));
            }
            match &g.kind {
                GroupKind::NonCapturing => translate_expr(&g.expr, props),
                GroupKind::Capturing(index) => {
                    let index = *index;
                    match translate_expr(&g.expr, props) {
                        Ok(inner) => {
                            props.capture_count = props.capture_count.wrapping_add(1);
                            Ok(
                                HirExpr::Capture(
                                    Box::new(HirCapture { index, name: None, expr: inner }),
                                ),
                            )
                        },
                        Err(err) => Err(err),
                    }
                },
                GroupKind::NamedCapturing { name, index } => {
                    let index = *index;
                    let name = name.clone();
                    match translate_expr(&g.expr, props) {
                        Ok(inner) => {
                            props.capture_count = props.capture_count.wrapping_add(1);
                            Ok(
                                HirExpr::Capture(
                                    Box::new(HirCapture { index, name: Some(name), expr: inner }),
                                ),
                            )
                        },
                        Err(err) => Err(err),
                    }
                },
            }
        },
        Expr::Class(cls) => Ok(translate_class(cls)),
        Expr::Anchor(a) => {
            let anchor = match a {
                Anchor::StartOfString => HirAnchor::Start,
                Anchor::StartOfInput => HirAnchor::Start,
                Anchor::EndOfString => HirAnchor::End,
                Anchor::EndOfInput => HirAnchor::End,
                Anchor::EndOfInputBeforeNewline => HirAnchor::End,
                Anchor::StartOfLine => HirAnchor::StartLine,
                Anchor::EndOfLine => HirAnchor::EndLine,
                Anchor::WordBoundary => HirAnchor::WordBoundary,
                Anchor::NotWordBoundary => HirAnchor::NotWordBoundary,
            };
            Ok(HirExpr::Anchor(anchor))
        },
        Expr::Lookaround(la) => {
            proof {
                assert(decreases_to!(*e => e->Lookaround_0));
            }
            let inner = match translate_expr(&la.expr, props) {
                Ok(inner) => inner,
                Err(err) => {
                    return Err(err);
                },
            };
            props.has_lookaround = true;
            let kind = match la.kind {
                LookaroundKind::PositiveLookahead => HirLookaroundKind::PositiveLookahead,
                LookaroundKind::NegativeLookahead => HirLookaroundKind::NegativeLookahead,
                LookaroundKind::PositiveLookbehind => HirLookaroundKind::PositiveLookbehind,
                LookaroundKind::NegativeLookbehind => HirLookaroundKind::NegativeLookbehind,
            };
            Ok(HirExpr::Lookaround(Box::new(HirLookaround { expr: inner, kind })))
        },
        Expr::Backref(n) => {
            props.has_backrefs = true;
            Ok(HirExpr::Backref(*n))
        },
        Expr::Dot => {
            let mut ranges: Vec<(u8, u8)> = Vec::new();
            ranges.push((10u8, 10u8));
            proof {
                assert(ranges@ =~= seq![(10u8, 10u8)]);
            }
            Ok(byte_class(ranges, true))
        },
        Expr::UnicodeProperty { name, negated: _ } => Err(
            Error::new(ErrorKind::UnknownUnicodeProperty(name.clone())),
        ),
        Expr::PerlClass(kind) => Ok(perl_class(*kind)),
    }
}

/// Translates a syntax tree into the form the automaton builders read.
///
/// Unicode properties have no translation here (their tables are not part of
/// this crate) and are reported as unknown.
pub fn translate(ast: &Ast) -> (r: Result<Hir>)
    ensures
        r is Ok <==> !holds_property(ast.expr),
        r matches Ok(hir) ==> translated(ast.expr, hir.expr),
        r matches Ok(hir) ==> (count_captures(ast.expr) <= u32::MAX ==> hir.props.capture_count
            == count_captures(ast.expr)),
        r matches Ok(hir) ==> hir.props.has_backrefs == holds_node(ast.expr, true),
        r matches Ok(hir) ==> hir.props.has_lookaround == holds_node(ast.expr, false),
{
    let mut props = HirProps::new();
    let expr = translate_expr(&ast.expr, &mut props)?;
    Ok(Hir { expr, props })
}

} // verus!
