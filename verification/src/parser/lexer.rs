//! Splits a pattern into tokens.
use crate::error::{located, Error, ErrorKind, Result, Span};
use vstd::prelude::*;
use vstd::utf8::{encode_scalar, encode_utf8, is_scalar};
use vstd::string::StringSliceAdditionalSpecFns;

verus! {

/// A token of a pattern.
#[derive(Debug, Clone, PartialEq, Eq)]
pub struct Token {
    /// The kind of token.
    pub kind: TokenKind,
    /// Its byte offsets in the pattern.
    pub span: Span,
}

/// Kinds of tokens.
#[derive(Debug, Clone, PartialEq, Eq)]
pub enum TokenKind {
    /// A literal character.
    Literal(char),
    /// `.`
    Dot,
    /// `*`
    Star,
    /// `+`
    Plus,
    /// `?`
    Question,
    /// `|`
    Pipe,
    /// `^`
    Caret,
    /// `$`
    Dollar,
    /// `(`
    OpenParen,
    /// `)`
    CloseParen,
    /// `[`
    OpenBracket,
    /// `]`
    CloseBracket,
    /// `{`
    OpenBrace,
    /// `}`
    CloseBrace,
    /// `-` inside a class.
    Hyphen,
    /// `,`
    Comma,
    /// A decimal digit, with its value.
    Digit(u32),
    /// An escape sequence.
    Escape(EscapeKind),
    /// `:`
    Colon,
    /// `<`
    LessThan,
    /// `>`
    GreaterThan,
    /// `=`
    Equals,
    /// `!`
    Exclamation,
    /// An identifier.
    Ident(String),
    /// End of the pattern.
    Eof,
}

/// Escape sequences.
#[derive(Debug, Clone, PartialEq, Eq)]
pub enum EscapeKind {
    /// An escaped metacharacter, such as `\.` or `\\`.
    Literal(char),
    /// `\d`
    Digit,
    /// `\D`
    NotDigit,
    /// `\w`
    Word,
    /// `\W`
    NotWord,
    /// `\s`
    Whitespace,
    /// `\S`
    NotWhitespace,
    /// `\b`
    WordBoundary,
    /// `\B`
    NotWordBoundary,
    /// `\A`
    StartOfInput,
    /// `\z`
    EndOfInput,
    /// `\Z`
    EndOfInputBeforeNewline,
    /// `\n`
    Newline,
    /// `\r`
    CarriageReturn,
    /// `\t`
    Tab,
    /// `\f`
    FormFeed,
    /// `\v`
    VerticalTab,
    /// `\0`
    Null,
    /// `\xHH`
    Hex(char),
    /// `\u{H...}` or `\uHHHH`
    Unicode(char),
    /// `\1`, `\2`, ...
    Backref(u32),
    /// `\p{Name}`
    UnicodeProperty(String),
    /// `\P{Name}`
    NotUnicodeProperty(String),
}

// ---------------------------------------------------------------------------
// Characters
// ---------------------------------------------------------------------------

/// Number of bytes of the UTF-8 encoding of `c`.
pub open spec fn char_width(c: char) -> nat {
    if (c as u32) < 0x80 {
        1
    } else if (c as u32) < 0x800 {
        2
    } else if (c as u32) < 0x10000 {
        3
    } else {
        4
    }
}

/// Number of bytes of the UTF-8 encoding of the first `i` characters of `cs`.
pub open spec fn utf8_offset(cs: Seq<char>, i: int) -> nat
    decreases i,
{
    if i <= 0 {
        0
    } else {
        utf8_offset(cs, i - 1) + char_width(cs[i - 1])
    }
}

proof fn lemma_width_encoding(c: char)
    ensures
        encode_scalar(c as u32).len() == char_width(c),
{
}

proof fn lemma_offset_encoding(cs: Seq<char>, i: int)
    requires
        0 <= i <= cs.len(),
    ensures
        utf8_offset(cs, i) + encode_utf8(cs.subrange(i, cs.len() as int)).len() == encode_utf8(
            cs,
        ).len(),
    decreases i,
{
    if i > 0 {
        lemma_offset_encoding(cs, i - 1);
        let rest = cs.subrange(i - 1, cs.len() as int);
        assert(rest.drop_first() =~= cs.subrange(i, cs.len() as int));
        lemma_width_encoding(cs[i - 1]);
    } else {
        assert(cs.subrange(0, cs.len() as int) =~= cs);
    }
}

/// Byte offsets grow with the number of characters.
pub proof fn lemma_offset_mono(cs: Seq<char>, i: int, j: int)
    requires
        0 <= i <= j,
    ensures
        utf8_offset(cs, i) <= utf8_offset(cs, j),
    decreases j,
{
    if i < j {
        lemma_offset_mono(cs, i, j - 1);
    }
}

/// Whether an error's place lies within the bytes of the pattern `cs`.
pub open spec fn within(e: Error, cs: Seq<char>) -> bool {
    e.span matches Some(sp) && sp.start <= sp.end <= utf8_offset(cs, cs.len() as int)
}

/// Number of bytes of the UTF-8 encoding of `c`.
fn utf8_len(c: char) -> (n: usize)
    ensures
        n == char_width(c),
{
    let v = c as u32;
    if v < 0x80 {
        1
    } else if v < 0x800 {
        2
    } else if v < 0x10000 {
        3
    } else {
        4
    }
}

/// Whether `c` is an ASCII decimal digit.
pub open spec fn is_dec_digit(c: char) -> bool {
    '0' <= c <= '9'
}

/// The value of a hexadecimal digit.
pub open spec fn hex_value(c: char) -> Option<u32> {
    if '0' <= c <= '9' {
        Some((c as u32 - '0' as u32) as u32)
    } else if 'a' <= c <= 'f' {
        Some((c as u32 - 'a' as u32 + 10) as u32)
    } else if 'A' <= c <= 'F' {
        Some((c as u32 - 'A' as u32 + 10) as u32)
    } else {
        None
    }
}

/// Whether `c` is an ASCII decimal digit.
pub(crate) fn dec_digit(c: char) -> (b: bool)
    ensures
        b == is_dec_digit(c),
{
    '0' <= c && c <= '9'
}

/// The value of a decimal digit.
pub(crate) fn dec_value(c: char) -> (d: u32)
    requires
        is_dec_digit(c),
    ensures
        d == c as u32 - '0' as u32,
        d < 10,
{
    (c as u32) - ('0' as u32)
}

/// The value of a hexadecimal digit, if `c` is one.
pub(crate) fn hex_digit(c: char) -> (d: Option<u32>)
    ensures
        d == hex_value(c),
        d matches Some(v) ==> v < 16,
{
    let v = c as u32;
    if '0' <= c && c <= '9' {
        Some(v - ('0' as u32))
    } else if 'a' <= c && c <= 'f' {
        Some(v - ('a' as u32) + 10)
    } else if 'A' <= c && c <= 'F' {
        Some(v - ('A' as u32) + 10)
    } else {
        None
    }
}

/// The character with the given code, if the code is a Unicode scalar value.
///
/// Calls `char::from_u32`, which returns `Some` exactly for values up to
/// `0x10FFFF` that are not surrogates, holding the character with that code.
#[verifier::external_body]
pub(crate) fn char_from_u32(v: u32) -> (r: Option<char>)
    ensures
        r is Some <==> is_scalar(v),
        r matches Some(c) ==> c as u32 == v,
{
    char::from_u32(v)
}

/// Whether `char::is_alphanumeric` holds of a character (Unicode's
/// Alphabetic or Numeric properties).
pub uninterp spec fn char_is_alphanumeric(c: char) -> bool;

/// Whether the character is alphabetic or numeric in Unicode.
///
/// Calls `char::is_alphanumeric`; its result is named, not stated.
#[verifier::external_body]
pub(crate) fn is_alphanumeric(c: char) -> (b: bool)
    ensures
        b == char_is_alphanumeric(c),
{
    c.is_alphanumeric()
}

/// Appends a character to a string.
///
/// Calls `String::push`, which appends the character.
#[verifier::external_body]
pub(crate) fn push_char(s: &mut String, c: char)
    ensures
        final(s)@ == old(s)@.push(c),
{
    s.push(c)
}

// ---------------------------------------------------------------------------
// What one character means
// ---------------------------------------------------------------------------

/// The token of a character outside a class, other than `\`.
pub open spec fn plain_kind(c: char) -> TokenKind {
    if c == '.' {
        TokenKind::Dot
    } else if c == '*' {
        TokenKind::Star
    } else if c == '+' {
        TokenKind::Plus
    } else if c == '?' {
        TokenKind::Question
    } else if c == '|' {
        TokenKind::Pipe
    } else if c == '^' {
        TokenKind::Caret
    } else if c == '$' {
        TokenKind::Dollar
    } else if c == '(' {
        TokenKind::OpenParen
    } else if c == ')' {
        TokenKind::CloseParen
    } else if c == '[' {
        TokenKind::OpenBracket
    } else if c == ']' {
        TokenKind::CloseBracket
    } else if c == '{' {
        TokenKind::OpenBrace
    } else if c == '}' {
        TokenKind::CloseBrace
    } else if c == ':' {
        TokenKind::Colon
    } else if c == '<' {
        TokenKind::LessThan
    } else if c == '>' {
        TokenKind::GreaterThan
    } else if c == '=' {
        TokenKind::Equals
    } else if c == '!' {
        TokenKind::Exclamation
    } else if c == ',' {
        TokenKind::Comma
    } else if is_dec_digit(c) {
        TokenKind::Digit((c as u32 - '0' as u32) as u32)
    } else {
        TokenKind::Literal(c)
    }
}

/// The token of a character inside a class, other than `\`.
pub open spec fn class_kind(c: char) -> TokenKind {
    if c == ']' {
        TokenKind::CloseBracket
    } else if c == '-' {
        TokenKind::Hyphen
    } else if c == '^' {
        TokenKind::Caret
    } else {
        TokenKind::Literal(c)
    }
}

/// The meaning of `\c` for an escape of a single character.
pub open spec fn single_escape(c: char) -> Option<EscapeKind> {
    if c == 'd' {
        Some(EscapeKind::Digit)
    } else if c == 'D' {
        Some(EscapeKind::NotDigit)
    } else if c == 'w' {
        Some(EscapeKind::Word)
    } else if c == 'W' {
        Some(EscapeKind::NotWord)
    } else if c == 's' {
        Some(EscapeKind::Whitespace)
    } else if c == 'S' {
        Some(EscapeKind::NotWhitespace)
    } else if c == 'b' {
        Some(EscapeKind::WordBoundary)
    } else if c == 'B' {
        Some(EscapeKind::NotWordBoundary)
    } else if c == 'A' {
        Some(EscapeKind::StartOfInput)
    } else if c == 'z' {
        Some(EscapeKind::EndOfInput)
    } else if c == 'Z' {
        Some(EscapeKind::EndOfInputBeforeNewline)
    } else if c == 'n' {
        Some(EscapeKind::Newline)
    } else if c == 'r' {
        Some(EscapeKind::CarriageReturn)
    } else if c == 't' {
        Some(EscapeKind::Tab)
    } else if c == 'f' {
        Some(EscapeKind::FormFeed)
    } else if c == 'v' {
        Some(EscapeKind::VerticalTab)
    } else if c == '0' {
        Some(EscapeKind::Null)
    } else if is_meta_escape(c) {
        Some(EscapeKind::Literal(c))
    } else {
        None
    }
}

/// Characters that stand for themselves after `\`.
pub open spec fn is_meta_escape(c: char) -> bool {
    c == '\\' || c == '.' || c == '*' || c == '+' || c == '?' || c == '(' || c == ')' || c == '['
        || c == ']' || c == '{' || c == '}' || c == '|' || c == '^' || c == '$' || c == '-' || c
        == '/'
}

/// Whether `\c` starts a known escape.
pub open spec fn known_escape(c: char) -> bool {
    ||| single_escape(c) is Some
    ||| c == 'x'
    ||| c == 'u'
    ||| c == 'p'
    ||| c == 'P'
    ||| ('1' <= c <= '9')
}

// ---------------------------------------------------------------------------
// The lexer
// ---------------------------------------------------------------------------

/// Whether a lexing error is placed from `start` to where reading stopped
/// (`stop`), or at `start` alone where the pattern ended too soon.
pub open spec fn placed(e: Error, start: int, stop: int) -> bool {
    e.span matches Some(sp) && sp.start == start && sp.end == (if e.kind is UnexpectedEof {
        start
    } else {
        stop
    })
}

/// Splits a pattern into tokens.
pub struct Lexer<'a> {
    /// The pattern.
    src: &'a str,
    /// Its characters.
    chars: Vec<char>,
    /// Index of the next character.
    idx: usize,
    /// Byte offset of the next character.
    pos: usize,
    /// Whether tokens are read as inside a class.
    in_class: bool,
}

impl<'a> Lexer<'a> {
    /// The characters of the pattern.
    pub closed spec fn text(&self) -> Seq<char> {
        self.chars@
    }

    /// How many characters have been read.
    pub closed spec fn index(&self) -> int {
        self.idx as int
    }

    /// Byte offset of the next character.
    pub closed spec fn offset(&self) -> int {
        self.pos as int
    }

    /// The byte offset is that of the characters read so far.
    pub proof fn lemma_offset(&self)
        requires
            self.wf(),
        ensures
            self.offset() == utf8_offset(self.text(), self.index()),
            0 <= self.index() <= self.text().len(),
            utf8_offset(self.text(), self.index()) <= utf8_offset(
                self.text(),
                self.text().len() as int,
            ),
    {
        lemma_offset_mono(self.text(), self.index(), self.text().len() as int);
    }

    /// Whether tokens are read as inside a class.
    pub closed spec fn class_mode(&self) -> bool {
        self.in_class
    }

    /// The internal consistency of the lexer.
    pub closed spec fn wf(&self) -> bool {
        &&& self.chars@ == self.src@
        &&& self.idx <= self.chars@.len()
        &&& self.pos == utf8_offset(self.chars@, self.idx as int)
        &&& encode_utf8(self.src@).len() <= usize::MAX
    }

    /// Creates a lexer at the start of a pattern.
    pub fn new(src: &'a str) -> (l: Self)
        ensures
            l.wf(),
            l.text() == src@,
            l.index() <= l.text().len(),
            l.index() == 0,
            l.offset() == 0,
            !l.class_mode(),
    {
        let mut chars: Vec<char> = Vec::new();
        for c in it: src.chars()
            invariant
                chars@ == it.history(),
            ensures
                chars@ == it.seq(),
        {
            chars.push(c);
        }
        let bytes = src.as_bytes();
        let _n = bytes.len();
        proof {
            assert(chars@ == src@);
            assert(src.spec_bytes() == encode_utf8(src@));
        }
        Lexer { src, chars, idx: 0, pos: 0, in_class: false }
    }

    /// The pattern.
    pub fn source(&self) -> (s: &str)
        requires
            self.wf(),
        ensures
            s@ == self.text(),
    {
        self.src
    }

    /// The next character, without reading it.
    fn peek_char(&self) -> (r: Option<char>)
        requires
            self.wf(),
        ensures
            self.index() < self.text().len() ==> r == Some(self.text()[self.index()]),
            self.index() >= self.text().len() ==> r is None,
    {
        if self.idx < self.chars.len() {
            Some(self.chars[self.idx])
        } else {
            None
        }
    }

    /// Reads the next character, with its byte offset.
    fn next_char(&mut self) -> (r: Option<(usize, char)>)
        requires
            old(self).wf(),
        ensures
            final(self).wf(),
            final(self).text() == old(self).text(),
            final(self).class_mode() == old(self).class_mode(),
            old(self).index() < old(self).text().len() ==> r == Some(
                (old(self).offset() as usize, old(self).text()[old(self).index()]),
            ) && final(self).index() == old(self).index() + 1,
            old(self).index() >= old(self).text().len() ==> r is None && final(self).index()
                == old(self).index(),
    {
        if self.idx < self.chars.len() {
            let c = self.chars[self.idx];
            let start = self.pos;
            proof {
                lemma_offset_encoding(self.chars@, self.idx as int + 1);
            }
            self.pos = self.pos + utf8_len(c);
            self.idx = self.idx + 1;
            Some((start, c))
        } else {
            None
        }
    }

    /// Sets whether tokens are read as inside a class.
    pub fn set_in_class(&mut self, in_class: bool)
        requires
            old(self).wf(),
        ensures
            final(self).wf(),
            final(self).text() == old(self).text(),
            final(self).index() == old(self).index(),
            final(self).offset() == old(self).offset(),
            final(self).class_mode() == in_class,
            final(self).index() <= final(self).text().len(),
    {
        self.in_class = in_class;
    }
}

/// The outcome of reading `\` at index `i` of `cs` (outside escapes of
/// several characters, whose outcome `next_token` states in part).
pub open spec fn escape_outcome(cs: Seq<char>, i: int, r: Result<TokenKind>, new_index: int) -> bool {
    if i + 1 >= cs.len() {
        r matches Err(e) && e.kind == ErrorKind::UnexpectedEof
    } else {
        let d = cs[i + 1];
        &&& single_escape(d) matches Some(k) ==> r == Ok::<TokenKind, Error>(TokenKind::Escape(k))
            && new_index == i + 2
        &&& !known_escape(d) ==> (r matches Err(e) && e.kind == ErrorKind::InvalidEscape(d))
        &&& d == 'x' ==> hex_outcome(cs, i + 2, r, new_index)
        &&& d == 'u' ==> unicode_outcome(cs, i + 2, r, new_index)
        &&& d == 'p' ==> property_outcome(cs, i + 2, false, r, new_index)
        &&& d == 'P' ==> property_outcome(cs, i + 2, true, r, new_index)
        &&& '1' <= d <= '9' ==> {
            let end = digits_end(cs, i + 2);
            &&& r == Ok::<TokenKind, Error>(
                TokenKind::Escape(
                    EscapeKind::Backref(
                        (decimal_number(cs.subrange(i + 1, end)) % 0x1_0000_0000) as u32,
                    ),
                ),
            )
            &&& new_index == end
        }
    }
}

/// The number that the decimal digits `ds` write.
pub open spec fn decimal_number(ds: Seq<char>) -> nat
    decreases ds.len(),
{
    if ds.len() == 0 {
        0
    } else {
        decimal_number(ds.drop_last()) * 10 + (ds.last() as u32 - '0' as u32) as nat
    }
}

/// The number that the decimal digits `ds` write, saturating at `u32::MAX`.
pub open spec fn saturated_number(ds: Seq<char>) -> u32
    decreases ds.len(),
{
    if ds.len() == 0 {
        0
    } else {
        let n = saturated_number(ds.drop_last());
        let d = (ds.last() as u32 - '0' as u32) as u32;
        if n * 10 + d > u32::MAX {
            u32::MAX
        } else {
            (n * 10 + d) as u32
        }
    }
}

/// Where the run of decimal digits that starts at index `j` ends.
pub open spec fn digits_end(cs: Seq<char>, j: int) -> int
    decreases cs.len() - j,
{
    if j < 0 || j >= cs.len() || !is_dec_digit(cs[j]) {
        j
    } else {
        digits_end(cs, j + 1)
    }
}

/// The number that the hexadecimal digits `ds` write.
pub open spec fn hex_number(ds: Seq<char>) -> nat
    decreases ds.len(),
{
    if ds.len() == 0 {
        0
    } else {
        hex_number(ds.drop_last()) * 16 + hex_value(ds.last())->0 as nat
    }
}

/// Where the hexadecimal digits from index `j` on are closed by `}`: the
/// index of the `}`, or `None` where another character or the end comes first.
pub open spec fn hex_close(cs: Seq<char>, j: int) -> Option<int>
    decreases cs.len() - j,
{
    if j < 0 || j >= cs.len() {
        None
    } else if cs[j] == '}' {
        Some(j)
    } else if hex_value(cs[j]) is Some {
        hex_close(cs, j + 1)
    } else {
        None
    }
}

/// The digits of a `\u` escape whose `{` or first digit stands at index `j`:
/// where the digits start and end, and the index after the escape. Braced,
/// there are one to six digits; else exactly four.
pub open spec fn unicode_digits(cs: Seq<char>, j: int) -> Option<(int, int, int)> {
    if 0 <= j < cs.len() && cs[j] == '{' {
        match hex_close(cs, j + 1) {
            Some(k) => if j + 1 < k <= j + 7 {
                Some((j + 1, k, k + 1))
            } else {
                None
            },
            None => None,
        }
    } else if 0 <= j && j + 4 <= cs.len() && forall|m: int|
        j <= m < j + 4 ==> hex_value(#[trigger] cs[m]) is Some {
        Some((j, j + 4, j + 4))
    } else {
        None
    }
}

/// The outcome of reading a `\u` escape whose `{` or first digit stands at
/// index `j`.
pub open spec fn unicode_outcome(cs: Seq<char>, j: int, r: Result<TokenKind>, new_index: int) -> bool {
    match unicode_digits(cs, j) {
        Some((a, b, n)) => {
            let v = hex_number(cs.subrange(a, b));
            if v <= u32::MAX && is_scalar(v as u32) {
                &&& r matches Ok(k) && k matches TokenKind::Escape(EscapeKind::Unicode(c)) && c
                    as u32 == v
                &&& new_index == n
            } else {
                r matches Err(e) && e.kind == ErrorKind::InvalidUnicodeEscape
            }
        },
        None => r matches Err(e) && e.kind == ErrorKind::InvalidUnicodeEscape,
    }
}

/// Whether a character may stand in the name of a Unicode property.
pub open spec fn property_char(c: char) -> bool {
    char_is_alphanumeric(c) || c == '_' || c == '-'
}

/// Whether `c` may stand in the name of a Unicode property, given whether
/// it is alphanumeric: alphanumeric characters, `_` and `-` may.
pub fn property_char_given(alphanumeric: bool, c: char) -> (b: bool)
    ensures
        b == (alphanumeric || c == '_' || c == '-'),
{
    alphanumeric || c == '_' || c == '-'
}

/// Where the name characters from index `j` on are closed by `}`: the index
/// of the `}`, or `None` where another character or the end comes first.
pub open spec fn property_close(cs: Seq<char>, j: int) -> Option<int>
    decreases cs.len() - j,
{
    if j < 0 || j >= cs.len() {
        None
    } else if cs[j] == '}' {
        Some(j)
    } else if property_char(cs[j]) {
        property_close(cs, j + 1)
    } else {
        None
    }
}

/// The name of a Unicode property written `{Name}` with its `{` at index
/// `j`, and the index after it; `None` where no such name stands there.
pub open spec fn property_name(cs: Seq<char>, j: int) -> Option<(Seq<char>, int)> {
    if 0 <= j < cs.len() && cs[j] == '{' {
        match property_close(cs, j + 1) {
            Some(k) => if k > j + 1 {
                Some((cs.subrange(j + 1, k), k + 1))
            } else {
                None
            },
            None => None,
        }
    } else {
        None
    }
}

/// The outcome of reading `\p` (or, `negated`, `\P`) whose `{` should stand
/// at index `j`.
pub open spec fn property_outcome(
    cs: Seq<char>,
    j: int,
    negated: bool,
    r: Result<TokenKind>,
    new_index: int,
) -> bool {
    match property_name(cs, j) {
        Some((name, n)) => {
            &&& r matches Ok(k) && (if negated {
                k matches TokenKind::Escape(EscapeKind::NotUnicodeProperty(s)) && s@ == name
            } else {
                k matches TokenKind::Escape(EscapeKind::UnicodeProperty(s)) && s@ == name
            })
            &&& new_index == n
        },
        None => r matches Err(e) && e.kind == ErrorKind::InvalidUnicodeProperty,
    }
}

/// The outcome of reading two hexadecimal digits at index `j` of `cs`.
pub open spec fn hex_outcome(cs: Seq<char>, j: int, r: Result<TokenKind>, new_index: int) -> bool {
    if j + 1 < cs.len() && hex_value(cs[j]) is Some && hex_value(cs[j + 1]) is Some {
        &&& r matches Ok(k) && k matches TokenKind::Escape(EscapeKind::Hex(c)) && c as u32 == hex_value(
            cs[j],
        )->0 * 16 + hex_value(cs[j + 1])->0
        &&& new_index == j + 2
    } else {
        r matches Err(e) && e.kind == ErrorKind::InvalidHexEscape
    }
}

/// Whether a character may stand in an identifier.
pub open spec fn ident_char(c: char) -> bool {
    char_is_alphanumeric(c) || c == '_'
}

/// Whether `c` may stand in an identifier, given whether it is
/// alphanumeric: alphanumeric characters and `_` may.
pub fn ident_char_given(alphanumeric: bool, c: char) -> (b: bool)
    ensures
        b == (alphanumeric || c == '_'),
{
    alphanumeric || c == '_'
}

/// A token as the parser sees it, with the name of a Unicode property as
/// characters.
pub enum TokV {
    /// Any token but a Unicode property escape.
    Plain(TokenKind),
    /// `\p{name}` (`negated` false) or `\P{name}`.
    Property(Seq<char>, bool),
}

/// The view of a token kind.
pub open spec fn tok_view(k: TokenKind) -> TokV {
    match k {
        TokenKind::Escape(EscapeKind::UnicodeProperty(name)) => TokV::Property(name@, false),
        TokenKind::Escape(EscapeKind::NotUnicodeProperty(name)) => TokV::Property(name@, true),
        _ => TokV::Plain(k),
    }
}

/// The token that `\` at index `i` of `cs` starts, and the index after it.
pub open spec fn escape_step(cs: Seq<char>, i: int) -> (core::result::Result<TokV, ErrorKind>, int) {
    if i + 1 >= cs.len() {
        (Err(ErrorKind::UnexpectedEof), i + 1)
    } else {
        let d = cs[i + 1];
        match single_escape(d) {
            Some(k) => (Ok(TokV::Plain(TokenKind::Escape(k))), i + 2),
            None => if d == 'x' {
                let j = i + 2;
                if j + 1 < cs.len() && hex_value(cs[j]) is Some && hex_value(cs[j + 1]) is Some {
                    let v = hex_value(cs[j])->0 * 16 + hex_value(cs[j + 1])->0;
                    (Ok(TokV::Plain(TokenKind::Escape(EscapeKind::Hex((v as u32) as char)))), j + 2)
                } else {
                    (Err(ErrorKind::InvalidHexEscape), j)
                }
            } else if d == 'u' {
                match unicode_digits(cs, i + 2) {
                    Some((a, b, n)) => {
                        let v = hex_number(cs.subrange(a, b));
                        if v <= u32::MAX && is_scalar(v as u32) {
                            (
                                Ok(
                                    TokV::Plain(
                                        TokenKind::Escape(EscapeKind::Unicode((v as u32) as char)),
                                    ),
                                ),
                                n,
                            )
                        } else {
                            (Err(ErrorKind::InvalidUnicodeEscape), i + 2)
                        }
                    },
                    None => (Err(ErrorKind::InvalidUnicodeEscape), i + 2),
                }
            } else if d == 'p' || d == 'P' {
                match property_name(cs, i + 2) {
                    Some((name, n)) => (Ok(TokV::Property(name, d == 'P')), n),
                    None => (Err(ErrorKind::InvalidUnicodeProperty), i + 2),
                }
            } else if '1' <= d <= '9' {
                let end = digits_end(cs, i + 2);
                (
                    Ok(
                        TokV::Plain(
                            TokenKind::Escape(
                                EscapeKind::Backref(
                                    (decimal_number(cs.subrange(i + 1, end)) % 0x1_0000_0000) as u32,
                                ),
                            ),
                        ),
                    ),
                    end,
                )
            } else {
                (Err(ErrorKind::InvalidEscape(d)), i + 2)
            },
        }
    }
}

/// The token that starts at index `i` of `cs` (read inside a class when
/// `in_class`), and the index after it; at the end, `Eof`.
pub open spec fn lex_step(cs: Seq<char>, i: int, in_class: bool) -> (
    core::result::Result<TokV, ErrorKind>,
    int,
) {
    if i >= cs.len() {
        (Ok(TokV::Plain(TokenKind::Eof)), i)
    } else if cs[i] == '\\' {
        escape_step(cs, i)
    } else if in_class {
        (Ok(TokV::Plain(class_kind(cs[i]))), i + 1)
    } else {
        (Ok(TokV::Plain(plain_kind(cs[i]))), i + 1)
    }
}

/// Where the run of identifier characters that starts at index `j` ends.
pub open spec fn ident_end(cs: Seq<char>, j: int) -> int
    decreases cs.len() - j,
{
    if j < 0 || j >= cs.len() || !ident_char(cs[j]) {
        j
    } else {
        ident_end(cs, j + 1)
    }
}

/// A run of identifier characters from `a` to `b`, not followed by one, ends at `b`.
proof fn lemma_ident_end(cs: Seq<char>, a: int, b: int)
    requires
        0 <= a <= b <= cs.len(),
        forall|j: int| a <= j < b ==> ident_char(#[trigger] cs[j]),
        b < cs.len() ==> !ident_char(cs[b]),
    ensures
        ident_end(cs, a) == b,
    decreases b - a,
{
    if a < b {
        lemma_ident_end(cs, a + 1, b);
    }
}

/// A run of decimal digits from `j` on ends at `j` or after.
proof fn lemma_digits_end_after(cs: Seq<char>, j: int)
    ensures
        j <= digits_end(cs, j),
        j <= cs.len() ==> digits_end(cs, j) <= cs.len(),
    decreases cs.len() - j,
{
    if 0 <= j < cs.len() && is_dec_digit(cs[j]) {
        lemma_digits_end_after(cs, j + 1);
    }
}

/// A `}` that closes a property name from index `j` on stands at `j` or after.
proof fn lemma_property_close_after(cs: Seq<char>, j: int)
    ensures
        property_close(cs, j) matches Some(k) ==> j <= k < cs.len(),
    decreases cs.len() - j,
{
    if 0 <= j < cs.len() && cs[j] != '}' && property_char(cs[j]) {
        lemma_property_close_after(cs, j + 1);
    }
}

/// A run of identifier characters from `j` on ends at `j` or after.
pub proof fn lemma_ident_end_after(cs: Seq<char>, j: int)
    ensures
        j <= ident_end(cs, j),
    decreases cs.len() - j,
{
    if 0 <= j < cs.len() && ident_char(cs[j]) {
        lemma_ident_end_after(cs, j + 1);
    }
}

/// Reading a token never moves back, and reading one that is not the end
/// moves on by at least one character.
pub proof fn lemma_lex_step_moves_on(cs: Seq<char>, i: int, in_class: bool)
    requires
        0 <= i,
    ensures
        i <= lex_step(cs, i, in_class).1,
        i < cs.len() ==> i < lex_step(cs, i, in_class).1,
        i < cs.len() && lex_step(cs, i, in_class).0 is Ok ==> lex_step(cs, i, in_class).1
            <= cs.len(),
        i >= cs.len() ==> lex_step(cs, i, in_class) == (
            Ok::<TokV, ErrorKind>(TokV::Plain(TokenKind::Eof)),
            i,
        ),
{
    if i < cs.len() && cs[i] == '\\' && i + 1 < cs.len() {
        lemma_hex_close_after(cs, i + 3);
        lemma_property_close_after(cs, i + 3);
        lemma_digits_end_after(cs, i + 2);
    }
}

/// The outcome that `escape_outcome` states of `\` at index `i` is the one
/// that `escape_step` gives.
proof fn lemma_escape_step(cs: Seq<char>, i: int, r: Result<TokenKind>, n: int)
    requires
        0 <= i < cs.len(),
        cs[i] == '\\',
        escape_outcome(cs, i, r, n),
    ensures
        match r {
            Ok(k) => escape_step(cs, i) == (
                Ok::<TokV, ErrorKind>(tok_view(k)),
                n,
            ),
            Err(e) => escape_step(cs, i).0 == Err::<TokV, ErrorKind>(e.kind),
        },
{
    if i + 1 < cs.len() {
        let d = cs[i + 1];
        if single_escape(d) is None {
            if d == 'x' {
                if let Ok(k) = r {
                    if let TokenKind::Escape(EscapeKind::Hex(c)) = k {
                        assert(c == (c as u32) as char);
                    }
                }
            } else if d == 'u' {
                if let Ok(k) = r {
                    if let TokenKind::Escape(EscapeKind::Unicode(c)) = k {
                        assert(c == (c as u32) as char);
                    }
                }
            }
        }
    }
}

/// A `}` that closes hexadecimal digits from index `j` on stands at `j` or after.
proof fn lemma_hex_close_after(cs: Seq<char>, j: int)
    ensures
        hex_close(cs, j) matches Some(k) ==> j <= k < cs.len(),
    decreases cs.len() - j,
{
    if 0 <= j < cs.len() && cs[j] != '}' && hex_value(cs[j]) is Some {
        lemma_hex_close_after(cs, j + 1);
    }
}

/// One decimal digit more, read with wrapping arithmetic, keeps the value
/// equal to the number modulo 2^32.
proof fn lemma_wrapping_decimal_step(n: u32, big: nat, d: u32)
    requires
        n as nat == big % 0x1_0000_0000,
        d < 10,
    ensures
        vstd::wrapping::u32_specs::wrapping_add(vstd::wrapping::u32_specs::wrapping_mul(n, 10), d)
            as nat == (big * 10 + d) % 0x1_0000_0000,
{
    let m: int = 0x1_0000_0000;
    vstd::arithmetic::div_mod::lemma_mul_mod_noop_left(big as int, 10, m);
    vstd::arithmetic::div_mod::lemma_add_mod_noop(big as int * 10, d as int, m);
    let w = vstd::wrapping::u32_specs::wrapping_mul(n, 10);
    assert(w as int == (big as int * 10) % m);
    assert((d as int) % m == d);
    let t = (w as int) + (d as int);
    assert(t % m == if t >= m { t - m } else { t });
}

impl<'a> Lexer<'a> {
    /// Whether `new` is `old` after reading more characters.
    pub open spec fn moved_on(old: &Self, new: &Self) -> bool {
        &&& new.wf()
        &&& new.text() == old.text()
        &&& new.class_mode() == old.class_mode()
        &&& 0 <= old.index() <= new.index()
        &&& new.index() <= new.text().len()
    }

    /// Reads the next token.
    pub fn next_token(&mut self) -> (r: Result<Token>)
        requires
            old(self).wf(),
        ensures
            r matches Err(e) ==> located(e, old(self).text()),
            r matches Err(e) ==> placed(e, old(self).offset(), final(self).offset()),
            Self::moved_on(old(self), final(self)),
            old(self).index() >= old(self).text().len() ==> (r matches Ok(t) && t.kind
                == TokenKind::Eof && t.span.start == old(self).offset() && t.span.end == old(
                self,
            ).offset() && final(self).index() == old(self).index()),
            old(self).index() < old(self).text().len() ==> final(self).index() > old(
                self,
            ).index() && (r matches Ok(t) ==> t.span.start == old(self).offset() && t.span.end
                == final(self).offset()),
            old(self).index() < old(self).text().len() && old(self).text()[old(self).index()]
                != '\\' ==> (r matches Ok(t) && t.kind == (if old(self).class_mode() {
                class_kind(old(self).text()[old(self).index()])
            } else {
                plain_kind(old(self).text()[old(self).index()])
            }) && final(self).index() == old(self).index() + 1),
            match r {
                Ok(t) => lex_step(old(self).text(), old(self).index(), old(self).class_mode()) == (
                    Ok::<TokV, ErrorKind>(tok_view(t.kind)),
                    final(self).index(),
                ),
                Err(e) => lex_step(old(self).text(), old(self).index(), old(self).class_mode()).0
                    == Err::<TokV, ErrorKind>(e.kind),
            },
            old(self).index() < old(self).text().len() && old(self).text()[old(self).index()]
                == '\\' ==> escape_outcome(
                old(self).text(),
                old(self).index(),
                match r {
                    Ok(t) => Ok(t.kind),
                    Err(e) => Err(e),
                },
                final(self).index(),
            ),
    {
        let (start, c) = match self.next_char() {
            Some(pair) => pair,
            None => {
                return Ok(Token { kind: TokenKind::Eof, span: Span::point(self.pos) });
            },
        };
        let ghost cs = self.text();
        let ghost i0 = old(self).index();
        let kind_r = if self.in_class {
            self.lex_class_char(c, start)
        } else {
            self.lex_char(c, start)
        };
        proof {
            if c == '\\' {
                lemma_escape_step(cs, i0, kind_r, self.index());
            }
        }
        let kind = kind_r?;
        Ok(Token { kind, span: Span::new(start, self.pos) })
    }

    /// The token of a character outside a class.
    fn lex_char(&mut self, c: char, start: usize) -> (r: Result<TokenKind>)
        requires
            old(self).wf(),
            old(self).index() >= 1,
            c == old(self).text()[old(self).index() - 1],
        ensures
            r matches Err(e) ==> located(e, old(self).text()),
            r matches Err(e) ==> placed(e, start as int, final(self).offset()),
            Self::moved_on(old(self), final(self)),
            c != '\\' ==> r == Ok::<TokenKind, Error>(plain_kind(c)) && final(self).index() == old(
                self,
            ).index(),
            c == '\\' ==> escape_outcome(old(self).text(), old(self).index() - 1, r, final(self).index()),
    {
        match c {
            '.' => Ok(TokenKind::Dot),
            '*' => Ok(TokenKind::Star),
            '+' => Ok(TokenKind::Plus),
            '?' => Ok(TokenKind::Question),
            '|' => Ok(TokenKind::Pipe),
            '^' => Ok(TokenKind::Caret),
            '$' => Ok(TokenKind::Dollar),
            '(' => Ok(TokenKind::OpenParen),
            ')' => Ok(TokenKind::CloseParen),
            '[' => Ok(TokenKind::OpenBracket),
            ']' => Ok(TokenKind::CloseBracket),
            '{' => Ok(TokenKind::OpenBrace),
            '}' => Ok(TokenKind::CloseBrace),
            ':' => Ok(TokenKind::Colon),
            '<' => Ok(TokenKind::LessThan),
            '>' => Ok(TokenKind::GreaterThan),
            '=' => Ok(TokenKind::Equals),
            '!' => Ok(TokenKind::Exclamation),
            ',' => Ok(TokenKind::Comma),
            '\\' => self.lex_escape(start),
            _ => {
                if dec_digit(c) {
                    Ok(TokenKind::Digit(dec_value(c)))
                } else {
                    Ok(TokenKind::Literal(c))
                }
            },
        }
    }

    /// The token of a character inside a class.
    fn lex_class_char(&mut self, c: char, start: usize) -> (r: Result<TokenKind>)
        requires
            old(self).wf(),
            old(self).index() >= 1,
            c == old(self).text()[old(self).index() - 1],
        ensures
            r matches Err(e) ==> located(e, old(self).text()),
            r matches Err(e) ==> placed(e, start as int, final(self).offset()),
            Self::moved_on(old(self), final(self)),
            c != '\\' ==> r == Ok::<TokenKind, Error>(class_kind(c)) && final(self).index() == old(
                self,
            ).index(),
            c == '\\' ==> escape_outcome(old(self).text(), old(self).index() - 1, r, final(self).index()),
    {
        match c {
            ']' => Ok(TokenKind::CloseBracket),
            '-' => Ok(TokenKind::Hyphen),
            '^' => Ok(TokenKind::Caret),
            '\\' => self.lex_escape(start),
            _ => Ok(TokenKind::Literal(c)),
        }
    }

    /// Reads an escape sequence; its `\` has been read.
    fn lex_escape(&mut self, start: usize) -> (r: Result<TokenKind>)
        requires
            old(self).wf(),
            old(self).index() >= 1,
            old(self).text()[old(self).index() - 1] == '\\',
        ensures
            r matches Err(e) ==> located(e, old(self).text()),
            r matches Err(e) ==> placed(e, start as int, final(self).offset()),
            Self::moved_on(old(self), final(self)),
            escape_outcome(old(self).text(), old(self).index() - 1, r, final(self).index()),
    {
        let c = match self.next_char() {
            Some((_, c)) => c,
            None => {
                return Err(Error::with_span(ErrorKind::UnexpectedEof, self.src, Span::point(start)));
            },
        };
        let escape = match c {
            'd' => EscapeKind::Digit,
            'D' => EscapeKind::NotDigit,
            'w' => EscapeKind::Word,
            'W' => EscapeKind::NotWord,
            's' => EscapeKind::Whitespace,
            'S' => EscapeKind::NotWhitespace,
            'b' => EscapeKind::WordBoundary,
            'B' => EscapeKind::NotWordBoundary,
            'A' => EscapeKind::StartOfInput,
            'z' => EscapeKind::EndOfInput,
            'Z' => EscapeKind::EndOfInputBeforeNewline,
            'n' => EscapeKind::Newline,
            'r' => EscapeKind::CarriageReturn,
            't' => EscapeKind::Tab,
            'f' => EscapeKind::FormFeed,
            'v' => EscapeKind::VerticalTab,
            '0' => EscapeKind::Null,
            'x' => {
                let ch = self.lex_hex_escape(start)?;
                EscapeKind::Hex(ch)
            },
            'u' => {
                let ch = self.lex_unicode_escape(start)?;
                EscapeKind::Unicode(ch)
            },
            'p' => {
                let name = self.lex_unicode_property(start)?;
                EscapeKind::UnicodeProperty(name)
            },
            'P' => {
                let name = self.lex_unicode_property(start)?;
                EscapeKind::NotUnicodeProperty(name)
            },
            '\\' | '.' | '*' | '+' | '?' | '(' | ')' | '[' | ']' | '{' | '}' | '|' | '^' | '$'
            | '-' | '/' => EscapeKind::Literal(c),
            _ => {
                if '1' <= c && c <= '9' {
                    let n = self.lex_backref(c)?;
                    EscapeKind::Backref(n)
                } else {
                    return Err(
                        Error::with_span(
                            ErrorKind::InvalidEscape(c),
                            self.src,
                            Span::new(start, self.pos),
                        ),
                    );
                }
            },
        };
        Ok(TokenKind::Escape(escape))
    }

    /// Reads the two hexadecimal digits of `\xHH`.
    fn lex_hex_escape(&mut self, start: usize) -> (r: Result<char>)
        requires
            old(self).wf(),
        ensures
            r matches Err(e) ==> located(e, old(self).text()),
            r matches Err(e) ==> placed(e, start as int, final(self).offset()),
            Self::moved_on(old(self), final(self)),
            hex_outcome(
                old(self).text(),
                old(self).index(),
                match r {
                    Ok(c) => Ok(TokenKind::Escape(EscapeKind::Hex(c))),
                    Err(e) => Err(e),
                },
                final(self).index(),
            ),
    {
        let ghost cs = self.chars@;
        let ghost i0 = self.idx as int;
        let mut value: u32 = 0;
        let mut k: usize = 0;
        while k < 2
            invariant
                k <= 2,
                self.wf(),
                self.chars@ == cs,
                cs == old(self).text(),
                self.class_mode() == old(self).class_mode(),
                self.idx == i0 + k,
                i0 == old(self).index(),
                k == 1 ==> hex_value(cs[i0]) is Some && value == hex_value(cs[i0])->0,
                k == 2 ==> hex_value(cs[i0]) is Some,
                k == 2 ==> hex_value(cs[i0 + 1]) is Some && value == hex_value(cs[i0])->0 * 16
                    + hex_value(cs[i0 + 1])->0,
                value < 256,
                k == 0 ==> value == 0,
            decreases 2 - k,
        {
            let c = match self.next_char() {
                Some((_, c)) => c,
                None => {
                    return Err(
                        Error::with_span(
                            ErrorKind::InvalidHexEscape,
                            self.src,
                            Span::new(start, self.pos),
                        ),
                    );
                },
            };
            let digit = match hex_digit(c) {
                Some(d) => d,
                None => {
                    return Err(
                        Error::with_span(
                            ErrorKind::InvalidHexEscape,
                            self.src,
                            Span::new(start, self.pos),
                        ),
                    );
                },
            };
            value = value * 16 + digit;
            k = k + 1;
        }
        match char_from_u32(value) {
            Some(c) => Ok(c),
            None => Err(
                Error::with_span(ErrorKind::InvalidHexEscape, self.src, Span::new(start, self.pos)),
            ),
        }
    }

    /// Reads the digits of `\u{H...}` (one to six digits) or `\uHHHH`.
    fn lex_unicode_escape(&mut self, start: usize) -> (r: Result<char>)
        requires
            old(self).wf(),
        ensures
            r matches Err(e) ==> located(e, old(self).text()),
            r matches Err(e) ==> placed(e, start as int, final(self).offset()),
            Self::moved_on(old(self), final(self)),
            unicode_outcome(
                old(self).text(),
                old(self).index(),
                match r {
                    Ok(c) => Ok(TokenKind::Escape(EscapeKind::Unicode(c))),
                    Err(e) => Err(e),
                },
                final(self).index(),
            ),
    {
        let ghost cs = self.text();
        let ghost j = self.index();
        let braced = match self.peek_char() {
            Some(c) => c == '{',
            None => false,
        };
        if braced {
            self.next_char();
            let ghost a = self.index();
            let mut value: u32 = 0;
            let mut count: u32 = 0;
            loop
                invariant
                    Self::moved_on(old(self), self),
                    self.text() == cs,
                    cs == old(self).text(),
                    j == old(self).index(),
                    0 <= j < cs.len(),
                    cs[j] == '{',
                    a == j + 1,
                    self.index() == a + count,
                    count <= 6,
                    value as nat == hex_number(cs.subrange(a, self.index())),
                    hex_close(cs, a) == hex_close(cs, self.index()),
                    value < 0x100_0000,
                    count == 0 ==> value == 0,
                    count <= 1 ==> value < 0x10,
                    count <= 2 ==> value < 0x100,
                    count <= 3 ==> value < 0x1000,
                    count <= 4 ==> value < 0x1_0000,
                    count <= 5 ==> value < 0x10_0000,
                ensures
                    self.index() < cs.len() && cs[self.index()] == '}',
                decreases self.text().len() - self.index(),
            {
                let ghost here = self.index();
                match self.peek_char() {
                    Some(c) => {
                        if c == '}' {
                            break;
                        }
                        match hex_digit(c) {
                            Some(digit) => {
                                self.next_char();
                                if count == 6 {
                                    proof {
                                        lemma_hex_close_after(cs, here + 1);
                                    }
                                    return Err(
                                        Error::with_span(
                                            ErrorKind::InvalidUnicodeEscape,
                                            self.src,
                                            Span::new(start, self.pos),
                                        ),
                                    );
                                }
                                proof {
                                    assert(cs.subrange(a, here + 1).drop_last() =~= cs.subrange(
                                        a,
                                        here,
                                    ));
                                }
                                value = value * 16 + digit;
                                count = count + 1;
                            },
                            None => {
                                return Err(
                                    Error::with_span(
                                        ErrorKind::InvalidUnicodeEscape,
                                        self.src,
                                        Span::new(start, self.pos),
                                    ),
                                );
                            },
                        }
                    },
                    None => {
                        return Err(
                            Error::with_span(
                                ErrorKind::InvalidUnicodeEscape,
                                self.src,
                                Span::new(start, self.pos),
                            ),
                        );
                    },
                }
            }
            let ghost close = self.index();
            self.next_char();
            proof {
                assert(hex_close(cs, close) == Some(close));
                assert(count > 0 ==> unicode_digits(cs, j) == Some((a, close, close + 1)));
            }
            if count == 0 {
                return Err(
                    Error::with_span(
                        ErrorKind::InvalidUnicodeEscape,
                        self.src,
                        Span::new(start, self.pos),
                    ),
                );
            }
            match char_from_u32(value) {
                Some(c) => Ok(c),
                None => Err(
                    Error::with_span(
                        ErrorKind::InvalidUnicodeEscape,
                        self.src,
                        Span::new(start, self.pos),
                    ),
                ),
            }
        } else {
            let mut value: u32 = 0;
            let mut k: usize = 0;
            while k < 4
                invariant
                    k <= 4,
                    Self::moved_on(old(self), self),
                    self.text() == cs,
                    cs == old(self).text(),
                    j == old(self).index(),
                    !(0 <= j < cs.len() && cs[j] == '{'),
                    self.index() == j + k,
                    forall|m: int| j <= m < j + k ==> hex_value(#[trigger] cs[m]) is Some,
                    value as nat == hex_number(cs.subrange(j, j + k)),
                    value < 0x1_0000,
                    k == 0 ==> value == 0,
                    k == 1 ==> value < 0x10,
                    k == 2 ==> value < 0x100,
                    k == 3 ==> value < 0x1000,
                decreases 4 - k,
            {
                let c = match self.next_char() {
                    Some((_, c)) => c,
                    None => {
                        return Err(
                            Error::with_span(
                                ErrorKind::InvalidUnicodeEscape,
                                self.src,
                                Span::new(start, self.pos),
                            ),
                        );
                    },
                };
                let digit = match hex_digit(c) {
                    Some(d) => d,
                    None => {
                        return Err(
                            Error::with_span(
                                ErrorKind::InvalidUnicodeEscape,
                                self.src,
                                Span::new(start, self.pos),
                            ),
                        );
                    },
                };
                proof {
                    assert(cs.subrange(j, j + k + 1).drop_last() =~= cs.subrange(j, j + k));
                }
                value = value * 16 + digit;
                k = k + 1;
            }
            proof {
                assert(unicode_digits(cs, j) == Some((j, j + 4, j + 4)));
            }
            match char_from_u32(value) {
                Some(c) => Ok(c),
                None => Err(
                    Error::with_span(
                        ErrorKind::InvalidUnicodeEscape,
                        self.src,
                        Span::new(start, self.pos),
                    ),
                ),
            }
        }
    }

    /// Reads the `{Name}` of a Unicode property escape.
    fn lex_unicode_property(&mut self, start: usize) -> (r: Result<String>)
        requires
            old(self).wf(),
        ensures
            r matches Err(e) ==> located(e, old(self).text()),
            r matches Err(e) ==> placed(e, start as int, final(self).offset()),
            Self::moved_on(old(self), final(self)),
            match property_name(old(self).text(), old(self).index()) {
                Some((name, n)) => r matches Ok(s) && s@ == name && final(self).index() == n,
                None => r matches Err(e) && e.kind == ErrorKind::InvalidUnicodeProperty,
            },
    {
        let ghost cs = self.text();
        let ghost j = self.index();
        match self.next_char() {
            Some((_, c)) => {
                if c != '{' {
                    return Err(
                        Error::with_span(
                            ErrorKind::InvalidUnicodeProperty,
                            self.src,
                            Span::new(start, self.pos),
                        ),
                    );
                }
            },
            None => {
                return Err(
                    Error::with_span(
                        ErrorKind::InvalidUnicodeProperty,
                        self.src,
                        Span::new(start, self.pos),
                    ),
                );
            },
        }
        let mut name = String::new();
        loop
            invariant
                Self::moved_on(old(self), self),
                self.text() == cs,
                cs == old(self).text(),
                j == old(self).index(),
                0 <= j < cs.len(),
                cs[j] == '{',
                j + 1 <= self.index(),
                name@ == cs.subrange(j + 1, self.index()),
                property_close(cs, j + 1) == property_close(cs, self.index()),
            ensures
                self.index() < cs.len() && cs[self.index()] == '}',
            decreases self.text().len() - self.index(),
        {
            let ghost here = self.index();
            match self.peek_char() {
                Some(c) => {
                    if c == '}' {
                        break;
                    }
                    self.next_char();
                    if property_char_given(is_alphanumeric(c), c) {
                        proof {
                            assert(cs.subrange(j + 1, here + 1) =~= cs.subrange(j + 1, here).push(c));
                        }
                        push_char(&mut name, c);
                    } else {
                        return Err(
                            Error::with_span(
                                ErrorKind::InvalidUnicodeProperty,
                                self.src,
                                Span::new(start, self.pos),
                            ),
                        );
                    }
                },
                None => {
                    return Err(
                        Error::with_span(
                            ErrorKind::InvalidUnicodeProperty,
                            self.src,
                            Span::new(start, self.pos),
                        ),
                    );
                },
            }
        }
        self.next_char();
        if name.as_str().is_empty() {
            return Err(
                Error::with_span(
                    ErrorKind::InvalidUnicodeProperty,
                    self.src,
                    Span::new(start, self.pos),
                ),
            );
        }
        Ok(name)
    }

    /// Reads the digits of a backreference; its first digit has been read.
    /// The value wraps around past `u32::MAX`.
    fn lex_backref(&mut self, first: char) -> (r: Result<u32>)
        requires
            old(self).wf(),
            old(self).index() >= 1,
            first == old(self).text()[old(self).index() - 1],
            is_dec_digit(first),
        ensures
            Self::moved_on(old(self), final(self)),
            final(self).index() == digits_end(old(self).text(), old(self).index()),
            r == Ok::<u32, Error>(
                (decimal_number(
                    old(self).text().subrange(old(self).index() - 1, final(self).index()),
                ) % 0x1_0000_0000) as u32,
            ),
    {
        let ghost cs = self.text();
        let ghost i0 = self.index();
        let mut n = dec_value(first);
        proof {
            let first_digit = cs.subrange(i0 - 1, i0);
            assert(first_digit.drop_last() =~= Seq::<char>::empty());
            assert(first_digit.last() == first);
            assert(decimal_number(Seq::<char>::empty()) == 0);
            assert(decimal_number(first_digit) == n as nat);
        }
        loop
            invariant
                Self::moved_on(old(self), self),
                self.text() == cs,
                cs == old(self).text(),
                i0 == old(self).index(),
                1 <= i0 <= self.index(),
                digits_end(cs, i0) == digits_end(cs, self.index()),
                n as nat == decimal_number(cs.subrange(i0 - 1, self.index())) % 0x1_0000_0000,
            ensures
                Self::moved_on(old(self), self),
                self.text() == cs,
                self.index() == digits_end(cs, i0),
                n as nat == decimal_number(cs.subrange(i0 - 1, self.index())) % 0x1_0000_0000,
            decreases self.text().len() - self.index(),
        {
            let ghost here = self.index();
            match self.peek_char() {
                Some(c) => {
                    if dec_digit(c) {
                        self.next_char();
                        let d = dec_value(c);
                        proof {
                            assert(cs.subrange(i0 - 1, here + 1).drop_last() =~= cs.subrange(
                                i0 - 1,
                                here,
                            ));
                            lemma_wrapping_decimal_step(
                                n,
                                decimal_number(cs.subrange(i0 - 1, here)),
                                d,
                            );
                        }
                        n = n.wrapping_mul(10).wrapping_add(d);
                    } else {
                        break;
                    }
                },
                None => {
                    break;
                },
            }
        }
        Ok(n)
    }

    /// Reads an identifier: the letters, digits and `_` that follow.
    pub fn read_ident(&mut self) -> (r: Result<String>)
        requires
            old(self).wf(),
        ensures
            r matches Err(e) ==> located(e, old(self).text()),
            r matches Err(e) ==> placed(e, old(self).offset(), final(self).offset()),
            Self::moved_on(old(self), final(self)),
            forall|j: int|
                old(self).index() <= j < final(self).index() ==> ident_char(
                    #[trigger] final(self).text()[j],
                ),
            final(self).index() < final(self).text().len() ==> !ident_char(
                final(self).text()[final(self).index()],
            ),
            r matches Ok(s) ==> s@ == old(self).text().subrange(
                old(self).index(),
                final(self).index(),
            ) && s@.len() > 0,
            r matches Err(e) ==> e.kind == ErrorKind::InvalidGroup && final(self).index() == old(
                self,
            ).index(),
            r is Err <==> final(self).index() == old(self).index(),
            final(self).index() == ident_end(old(self).text(), old(self).index()),
    {
        let start = self.pos;
        let mut ident = String::new();
        loop
            invariant
                Self::moved_on(old(self), self),
                forall|j: int|
                    old(self).index() <= j < self.index() ==> ident_char(#[trigger] self.text()[j]),
                ident@ == self.text().subrange(old(self).index(), self.index()),
            ensures
                Self::moved_on(old(self), self),
                forall|j: int|
                    old(self).index() <= j < self.index() ==> ident_char(#[trigger] self.text()[j]),
                ident@ == self.text().subrange(old(self).index(), self.index()),
                self.index() < self.text().len() ==> !ident_char(self.text()[self.index()]),
            decreases self.text().len() - self.index(),
        {
            match self.peek_char() {
                Some(c) => {
                    if ident_char_given(is_alphanumeric(c), c) {
                        let ghost before = self.index();
                        self.next_char();
                        push_char(&mut ident, c);
                        assert(ident@ =~= self.text().subrange(old(self).index(), self.index()));
                    } else {
                        break;
                    }
                },
                None => {
                    break;
                },
            }
        }
        proof {
            lemma_ident_end(self.text(), old(self).index(), self.index());
        }
        if ident.as_str().is_empty() {
            return Err(Error::with_span(ErrorKind::InvalidGroup, self.src, Span::point(start)));
        }
        Ok(ident)
    }

    /// Reads a decimal number, if digits follow; its value saturates at `u32::MAX`.
    pub fn read_number(&mut self) -> (r: Result<Option<u32>>)
        requires
            old(self).wf(),
        ensures
            Self::moved_on(old(self), final(self)),
            forall|j: int|
                old(self).index() <= j < final(self).index() ==> is_dec_digit(
                    #[trigger] final(self).text()[j],
                ),
            final(self).index() < final(self).text().len() ==> !is_dec_digit(
                final(self).text()[final(self).index()],
            ),
            r matches Ok(n) && (n is Some <==> final(self).index() > old(self).index()),
            r matches Ok(Some(n)) ==> n == saturated_number(
                old(self).text().subrange(old(self).index(), final(self).index()),
            ),
    {
        let mut n: u32 = 0;
        let mut has_digit = false;
        proof {
            assert(self.text().subrange(self.index(), self.index()) =~= Seq::<char>::empty());
        }
        loop
            invariant
                Self::moved_on(old(self), self),
                forall|j: int|
                    old(self).index() <= j < self.index() ==> is_dec_digit(#[trigger] self.text()[j]),
                has_digit <==> self.index() > old(self).index(),
                n == saturated_number(self.text().subrange(old(self).index(), self.index())),
            ensures
                Self::moved_on(old(self), self),
                forall|j: int|
                    old(self).index() <= j < self.index() ==> is_dec_digit(#[trigger] self.text()[j]),
                has_digit <==> self.index() > old(self).index(),
                self.index() < self.text().len() ==> !is_dec_digit(self.text()[self.index()]),
                n == saturated_number(self.text().subrange(old(self).index(), self.index())),
            decreases self.text().len() - self.index(),
        {
            match self.peek_char() {
                Some(c) => {
                    if dec_digit(c) {
                        let ghost here = self.index();
                        proof {
                            assert(self.text().subrange(old(self).index(), here + 1).drop_last()
                                =~= self.text().subrange(old(self).index(), here));
                        }
                        self.next_char();
                        has_digit = true;
                        let d = dec_value(c);
                        let m: u32 = if n > u32::MAX / 10 {
                            u32::MAX
                        } else {
                            n * 10
                        };
                        n = if m > u32::MAX - d {
                            u32::MAX
                        } else {
                            m + d
                        };
                    } else {
                        break;
                    }
                },
                None => {
                    break;
                },
            }
        }
        Ok(
            if has_digit {
                Some(n)
            } else {
                None
            },
        )
    }
}

} // verus!
