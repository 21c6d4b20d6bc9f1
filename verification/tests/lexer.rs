use regex_nfa::error::{ErrorKind, Result, Span};
use regex_nfa::parser::lexer::{
    ident_char_given, property_char_given, EscapeKind, Lexer, TokenKind,
};

fn lex_all(src: &str) -> Result<Vec<TokenKind>> {
    let mut lexer = Lexer::new(src);
    let mut tokens = Vec::new();
    loop {
        let tok = lexer.next_token()?;
        if tok.kind == TokenKind::Eof {
            break;
        }
        tokens.push(tok.kind);
    }
    Ok(tokens)
}

#[test]
fn test_simple_tokens() {
    let tokens = lex_all("a.b*c+d?").unwrap();
    assert_eq!(
        tokens,
        vec![
            TokenKind::Literal('a'),
            TokenKind::Dot,
            TokenKind::Literal('b'),
            TokenKind::Star,
            TokenKind::Literal('c'),
            TokenKind::Plus,
            TokenKind::Literal('d'),
            TokenKind::Question,
        ]
    );
}

#[test]
fn test_escapes() {
    let tokens = lex_all(r"\d\w\s\n\t").unwrap();
    assert_eq!(
        tokens,
        vec![
            TokenKind::Escape(EscapeKind::Digit),
            TokenKind::Escape(EscapeKind::Word),
            TokenKind::Escape(EscapeKind::Whitespace),
            TokenKind::Escape(EscapeKind::Newline),
            TokenKind::Escape(EscapeKind::Tab),
        ]
    );
}

#[test]
fn test_hex_escape() {
    let tokens = lex_all(r"\x41").unwrap();
    assert_eq!(tokens, vec![TokenKind::Escape(EscapeKind::Hex('A'))]);
}

#[test]
fn test_unicode_escape() {
    let tokens = lex_all(r"\u{1F600}").unwrap();
    assert_eq!(tokens, vec![TokenKind::Escape(EscapeKind::Unicode('😀'))]);
}

#[test]
fn test_backref() {
    let tokens = lex_all(r"\1\12").unwrap();
    assert_eq!(
        tokens,
        vec![
            TokenKind::Escape(EscapeKind::Backref(1)),
            TokenKind::Escape(EscapeKind::Backref(12)),
        ]
    );
}

#[test]
fn test_invalid_escape() {
    let err = lex_all(r"\q").unwrap_err();
    assert!(matches!(err.kind(), ErrorKind::InvalidEscape('q')));
}

#[test]
fn test_unicode_property() {
    let tokens = lex_all(r"\p{Letter}").unwrap();
    assert_eq!(
        tokens,
        vec![TokenKind::Escape(EscapeKind::UnicodeProperty("Letter".to_string()))]
    );
}

#[test]
fn test_negated_unicode_property() {
    let tokens = lex_all(r"\P{Number}").unwrap();
    assert_eq!(
        tokens,
        vec![TokenKind::Escape(EscapeKind::NotUnicodeProperty("Number".to_string()))]
    );
}

#[test]
fn test_unicode_property_short() {
    let tokens = lex_all(r"\p{L}").unwrap();
    assert_eq!(tokens, vec![TokenKind::Escape(EscapeKind::UnicodeProperty("L".to_string()))]);
}

#[test]
fn test_invalid_unicode_property_no_brace() {
    let err = lex_all(r"\pL").unwrap_err();
    assert!(matches!(err.kind(), ErrorKind::InvalidUnicodeProperty));
}

#[test]
fn test_invalid_unicode_property_empty() {
    let err = lex_all(r"\p{}").unwrap_err();
    assert!(matches!(err.kind(), ErrorKind::InvalidUnicodeProperty));
}

#[test]
fn unicode_escape_four_digits_and_braced_forms() {
    assert_eq!(lex_all(r"\u0041").unwrap(), vec![TokenKind::Escape(EscapeKind::Unicode('A'))]);
    assert_eq!(lex_all(r"\u{41}").unwrap(), vec![TokenKind::Escape(EscapeKind::Unicode('A'))]);
    assert_eq!(
        lex_all(r"\u{10FFFF}").unwrap(),
        vec![TokenKind::Escape(EscapeKind::Unicode('\u{10FFFF}'))]
    );
    // the four-digit form stops after four digits
    assert_eq!(
        lex_all(r"\u00411").unwrap(),
        vec![TokenKind::Escape(EscapeKind::Unicode('A')), TokenKind::Digit(1)]
    );
}

#[test]
fn unicode_escape_rejections() {
    for src in [r"\u{}", r"\u{1234567}", r"\u{110000}", r"\u{D800}", r"\u{12", r"\u12", r"\u12G4"] {
        let err = lex_all(src).unwrap_err();
        assert!(matches!(err.kind(), ErrorKind::InvalidUnicodeEscape), "{}", src);
    }
}

#[test]
fn unicode_property_name_stops_at_brace() {
    assert_eq!(
        lex_all(r"\p{Script_Extensions-X}a").unwrap(),
        vec![
            TokenKind::Escape(EscapeKind::UnicodeProperty("Script_Extensions-X".to_string())),
            TokenKind::Literal('a'),
        ]
    );
    let err = lex_all(r"\p{L m}").unwrap_err();
    assert!(matches!(err.kind(), ErrorKind::InvalidUnicodeProperty));
    let err = lex_all(r"\p{Lm").unwrap_err();
    assert!(matches!(err.kind(), ErrorKind::InvalidUnicodeProperty));
}

#[test]
fn backref_number_wraps_past_u32_max() {
    // 4294967297 = 2^32 + 1
    assert_eq!(
        lex_all(r"\4294967297x").unwrap(),
        vec![TokenKind::Escape(EscapeKind::Backref(1)), TokenKind::Literal('x')]
    );
}

#[test]
fn name_characters_given_alphanumeric() {
    assert!(ident_char_given(true, 'x'));
    assert!(ident_char_given(false, '_'));
    assert!(!ident_char_given(false, '-'));
    assert!(property_char_given(false, '-'));
    assert!(!property_char_given(false, '!'));
    assert!(property_char_given(true, '\u{e9}'));
}

#[test]
fn lexing_error_spans_cover_the_bad_escape() {
    let mut lexer = Lexer::new("\\q");
    let e = lexer.next_token().unwrap_err();
    assert!(matches!(e.kind(), ErrorKind::InvalidEscape('q')));
    assert_eq!(e.span(), Some(Span::new(0, 2)));

    // Offsets count bytes: the two-byte 'é' puts the escape at offset 2.
    let mut lexer = Lexer::new("é\\q");
    assert!(lexer.next_token().is_ok());
    let e = lexer.next_token().unwrap_err();
    assert_eq!(e.span(), Some(Span::new(2, 4)));
    assert_eq!(e.pattern.as_deref(), Some("é\\q"));

    // A pattern that ends after the backslash is reported at the backslash.
    let mut lexer = Lexer::new("a\\");
    assert!(lexer.next_token().is_ok());
    let e = lexer.next_token().unwrap_err();
    assert!(matches!(e.kind(), ErrorKind::UnexpectedEof));
    assert_eq!(e.span(), Some(Span::point(1)));
}
