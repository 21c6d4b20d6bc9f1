use regex_nfa::error::{Error, ErrorKind, Span};
use regex_nfa::hir::translate;
use regex_nfa::parser::parse;

fn kind_of(pattern: &str) -> ErrorKind {
    parse(pattern).unwrap_err().kind().clone()
}

#[test]
fn error_constructors() {
    let e = Error::new(ErrorKind::EmptyClass);
    assert!(matches!(e.kind(), ErrorKind::EmptyClass));
    assert_eq!(e.span(), None);
    assert!(e.pattern.is_none());
    let e = Error::with_span(ErrorKind::InvalidGroup, "(?Q)", Span::new(1, 3));
    assert_eq!(e.span(), Some(Span { start: 1, end: 3 }));
    assert_eq!(e.pattern.as_deref(), Some("(?Q)"));
    assert_eq!(Span::point(4), Span { start: 4, end: 4 });
}

#[test]
fn error_trailing_backslash() {
    assert!(matches!(kind_of("a\\"), ErrorKind::UnexpectedEof));
}

#[test]
fn error_unknown_escape() {
    assert!(matches!(kind_of("a\\q"), ErrorKind::InvalidEscape('q')));
}

#[test]
fn error_bad_hex_escape() {
    assert!(matches!(kind_of("a\\xZZ"), ErrorKind::InvalidHexEscape));
    assert!(matches!(kind_of("a\\x4"), ErrorKind::InvalidHexEscape));
}

#[test]
fn error_bad_unicode_escape() {
    assert!(matches!(kind_of("a\\u{110000}"), ErrorKind::InvalidUnicodeEscape));
    assert!(matches!(kind_of("a\\u{}"), ErrorKind::InvalidUnicodeEscape));
    assert!(matches!(kind_of("a\\u12"), ErrorKind::InvalidUnicodeEscape));
}

#[test]
fn error_bad_unicode_property() {
    assert!(matches!(kind_of("a\\pL"), ErrorKind::InvalidUnicodeProperty));
    assert!(matches!(kind_of("a\\p{}"), ErrorKind::InvalidUnicodeProperty));
}

#[test]
fn error_unknown_unicode_property() {
    let ast = parse("a\\p{NoSuchProperty}").unwrap();
    let err = translate(&ast).unwrap_err();
    match err.kind() {
        ErrorKind::UnknownUnicodeProperty(name) => assert_eq!(name, "NoSuchProperty"),
        other => panic!("unexpected error {:?}", other),
    }
    assert!(matches!(kind_of("[\\p{NoSuchProperty}]"), ErrorKind::UnknownUnicodeProperty(_)));
}

#[test]
fn error_reversed_class_range() {
    match kind_of("[z-a]") {
        ErrorKind::InvalidClassRange { start, end } => {
            assert_eq!(start, 'z');
            assert_eq!(end, 'a');
        }
        other => panic!("unexpected error {:?}", other),
    }
}

#[test]
fn error_unclosed_class() {
    assert!(matches!(kind_of("[a"), ErrorKind::UnmatchedOpenBracket));
    assert!(matches!(kind_of("[]"), ErrorKind::UnmatchedOpenBracket));
}

#[test]
fn error_bad_group() {
    assert!(matches!(kind_of("(?Q)"), ErrorKind::InvalidGroup));
    assert!(matches!(kind_of("(?<>a)"), ErrorKind::InvalidGroup));
}

#[test]
fn error_bad_repetition() {
    assert!(matches!(kind_of("a{5,2}"), ErrorKind::InvalidRepetition));
    assert!(matches!(kind_of("a{x}"), ErrorKind::InvalidRepetition));
    assert!(matches!(kind_of("a{2,x}"), ErrorKind::InvalidRepetition));
}

#[test]
fn error_inside_repetition_keeps_its_kind() {
    assert!(matches!(kind_of("a{2\\q}"), ErrorKind::InvalidEscape('q')));
    assert!(matches!(kind_of("a{1,2x}"), ErrorKind::UnexpectedChar('x')));
}

#[test]
fn error_stray_close_paren() {
    assert!(matches!(kind_of("a)"), ErrorKind::UnexpectedChar('?')));
}

#[test]
fn error_in_first_token_reads_as_end() {
    // The parser reads its first token on creation, and a lexing error there
    // is taken as the end of the pattern.
    let ast = parse("\\q").unwrap();
    assert!(matches!(ast.expr, regex_nfa::parser::ast::Expr::Empty));
}

#[test]
fn parse_error_carries_pattern_and_place() {
    for pattern in ["a{2\\q}", "(ab", "[abc", "a)", "(?Q)", "a\\xZZ"] {
        let e = parse(pattern).unwrap_err();
        assert_eq!(e.pattern.as_deref(), Some(pattern));
        assert!(e.span.is_some());
    }
}
