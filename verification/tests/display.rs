use regex_nfa::parser::ast::{
    Anchor, Class, ClassRange, Expr, Group, GroupKind, Lookaround, LookaroundKind, PerlClassKind,
    Repeat,
};
use regex_nfa::parser::parse;

fn lit(c: char) -> Expr {
    Expr::Literal(c)
}

fn repeat(e: Expr, min: u32, max: Option<u32>, greedy: bool) -> Expr {
    Expr::Repeat(Box::new(Repeat::new(e, min, max, greedy)))
}

#[test]
fn display_literals_and_escapes() {
    assert_eq!(lit('a').to_string(), "a");
    assert_eq!(lit(' ').to_string(), " ");
    assert_eq!(lit('.').to_string(), "\\.");
    assert_eq!(lit('$').to_string(), "\\$");
    assert_eq!(lit('\n').to_string(), "\\n");
    assert_eq!(lit('\t').to_string(), "\\t");
    assert_eq!(lit('\r').to_string(), "\\r");
    assert_eq!(lit('\u{e9}').to_string(), "\\u{E9}");
    assert_eq!(lit('\u{1F600}').to_string(), "\\u{1F600}");
    assert_eq!(lit('\u{7f}').to_string(), "\\u{7F}");
}

#[test]
fn display_concat_and_alternation() {
    let e = Expr::Concat(vec![lit('a'), lit('b'), lit('c')]);
    assert_eq!(e.to_string(), "abc");
    let e = Expr::Alt(vec![lit('a'), Expr::Concat(vec![lit('b'), lit('c')]), Expr::Empty]);
    assert_eq!(e.to_string(), "a|bc|");
    assert_eq!(Expr::Alt(vec![]).to_string(), "");
    assert_eq!(Expr::Empty.to_string(), "");
}

#[test]
fn display_repetitions() {
    assert_eq!(repeat(lit('a'), 0, None, true).to_string(), "a*");
    assert_eq!(repeat(lit('a'), 1, None, true).to_string(), "a+");
    assert_eq!(repeat(lit('a'), 0, Some(1), true).to_string(), "a?");
    assert_eq!(repeat(lit('a'), 0, None, false).to_string(), "a*?");
    assert_eq!(repeat(lit('a'), 2, None, true).to_string(), "a{2,}");
    assert_eq!(repeat(lit('a'), 3, Some(3), true).to_string(), "a{3}");
    assert_eq!(repeat(lit('a'), 2, Some(15), false).to_string(), "a{2,15}?");
    assert_eq!(repeat(lit('a'), 1, Some(1), true).to_string(), "a{1}");
    let body = Expr::Concat(vec![lit('a'), lit('b')]);
    assert_eq!(repeat(body, 1, None, true).to_string(), "(?:ab)+");
    let body = Expr::Alt(vec![lit('a'), lit('b')]);
    assert_eq!(repeat(body, 0, None, true).to_string(), "(?:a|b)*");
}

#[test]
fn display_groups() {
    let g = Group { expr: lit('x'), kind: GroupKind::Capturing(1) };
    assert_eq!(Expr::Group(Box::new(g)).to_string(), "(x)");
    let g = Group {
        expr: lit('x'),
        kind: GroupKind::NamedCapturing { name: String::from("year"), index: 1 },
    };
    assert_eq!(Expr::Group(Box::new(g)).to_string(), "(?<year>x)");
    let g = Group { expr: lit('x'), kind: GroupKind::NonCapturing };
    assert_eq!(Expr::Group(Box::new(g)).to_string(), "(?:x)");
}

#[test]
fn display_classes() {
    let c = Class::new(vec![ClassRange::new('a', 'z'), ClassRange::single('0')], false);
    assert_eq!(Expr::Class(Box::new(c)).to_string(), "[a-z0]");
    let c = Class::new(vec![ClassRange::new('-', ']')], true);
    assert_eq!(Expr::Class(Box::new(c)).to_string(), "[^--\\]]");
}

#[test]
fn display_assertions_and_escapes() {
    assert_eq!(Expr::Anchor(Anchor::StartOfString).to_string(), "^");
    assert_eq!(Expr::Anchor(Anchor::EndOfLine).to_string(), "$");
    assert_eq!(Anchor::WordBoundary.to_string(), "\\b");
    assert_eq!(Anchor::NotWordBoundary.to_string(), "\\B");
    assert_eq!(Anchor::StartOfInput.to_string(), "\\A");
    assert_eq!(Anchor::EndOfInput.to_string(), "\\z");
    assert_eq!(Anchor::EndOfInputBeforeNewline.to_string(), "\\Z");
    let la = Lookaround { expr: lit('x'), kind: LookaroundKind::NegativeLookbehind };
    assert_eq!(Expr::Lookaround(Box::new(la)).to_string(), "(?<!x)");
    let la = Lookaround { expr: lit('x'), kind: LookaroundKind::PositiveLookahead };
    assert_eq!(Expr::Lookaround(Box::new(la)).to_string(), "(?=x)");
    assert_eq!(Expr::Backref(12).to_string(), "\\12");
    assert_eq!(Expr::Dot.to_string(), ".");
    let p = Expr::UnicodeProperty { name: String::from("Greek"), negated: true };
    assert_eq!(p.to_string(), "\\P{Greek}");
    let p = Expr::UnicodeProperty { name: String::from("L"), negated: false };
    assert_eq!(p.to_string(), "\\p{L}");
    assert_eq!(Expr::PerlClass(PerlClassKind::Word).to_string(), "\\w");
    assert_eq!(Expr::PerlClass(PerlClassKind::NotWhitespace).to_string(), "\\S");
}

#[test]
fn display_parsed_pattern() {
    let ast = parse("(?:ab)+c").unwrap();
    assert_eq!(ast.expr.to_string(), "(?:ab)+c");
    let ast = parse("a|b*").unwrap();
    assert_eq!(ast.expr.to_string(), "a|b*");
}
