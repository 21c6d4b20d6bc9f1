use regex_nfa::error::ErrorKind;
use regex_nfa::parser::ast::{Anchor, Expr, GroupKind, LookaroundKind, PerlClassKind};
use regex_nfa::parser::parse;

#[test]
fn mod_test_literal() {
    let ast = parse("abc").unwrap();
    assert!(matches!(ast.expr, Expr::Concat(_)));
}

#[test]
fn mod_test_alternation() {
    let ast = parse("a|b|c").unwrap();
    if let Expr::Alt(alts) = ast.expr {
        assert_eq!(alts.len(), 3);
    } else {
        panic!("Expected Alt");
    }
}

#[test]
fn test_quantifiers() {
    let ast = parse("a*b+c?").unwrap();
    if let Expr::Concat(exprs) = ast.expr {
        assert!(matches!(exprs[0], Expr::Repeat(_)));
        assert!(matches!(exprs[1], Expr::Repeat(_)));
        assert!(matches!(exprs[2], Expr::Repeat(_)));
    } else {
        panic!("Expected Concat");
    }
}

#[test]
fn test_repetition_range() {
    let ast = parse("a{2,5}").unwrap();
    if let Expr::Repeat(rep) = ast.expr {
        assert_eq!(rep.min, 2);
        assert_eq!(rep.max, Some(5));
    } else {
        panic!("Expected Repeat");
    }
}

#[test]
fn test_character_class() {
    let ast = parse("[a-z]").unwrap();
    if let Expr::Class(cls) = ast.expr {
        assert!(!cls.negated);
        assert_eq!(cls.ranges.len(), 1);
        assert_eq!(cls.ranges[0].start, 'a');
        assert_eq!(cls.ranges[0].end, 'z');
    } else {
        panic!("Expected Class");
    }
}

#[test]
fn test_negated_class() {
    let ast = parse("[^0-9]").unwrap();
    if let Expr::Class(cls) = ast.expr {
        assert!(cls.negated);
    } else {
        panic!("Expected Class");
    }
}

#[test]
fn test_capturing_group() {
    let ast = parse("(abc)").unwrap();
    if let Expr::Group(g) = ast.expr {
        assert!(matches!(g.kind, GroupKind::Capturing(1)));
    } else {
        panic!("Expected Group");
    }
}

#[test]
fn test_non_capturing_group() {
    let ast = parse("(?:abc)").unwrap();
    if let Expr::Group(g) = ast.expr {
        assert!(matches!(g.kind, GroupKind::NonCapturing));
    } else {
        panic!("Expected Group");
    }
}

#[test]
fn test_lookahead() {
    let ast = parse("(?=abc)").unwrap();
    if let Expr::Lookaround(la) = ast.expr {
        assert!(matches!(la.kind, LookaroundKind::PositiveLookahead));
    } else {
        panic!("Expected Lookaround");
    }
}

#[test]
fn test_escape_sequences() {
    let ast = parse(r"\d\w\s").unwrap();
    if let Expr::Concat(exprs) = ast.expr {
        assert_eq!(exprs.len(), 3);
        assert!(matches!(exprs[0], Expr::PerlClass(PerlClassKind::Digit)));
        assert!(matches!(exprs[1], Expr::PerlClass(PerlClassKind::Word)));
        assert!(matches!(exprs[2], Expr::PerlClass(PerlClassKind::Whitespace)));
    } else {
        panic!("Expected Concat");
    }
}

#[test]
fn test_anchors() {
    let ast = parse(r"^\w+$").unwrap();
    if let Expr::Concat(exprs) = ast.expr {
        assert!(matches!(exprs[0], Expr::Anchor(Anchor::StartOfString)));
        assert!(matches!(exprs[2], Expr::Anchor(Anchor::EndOfString)));
    } else {
        panic!("Expected Concat");
    }
}

#[test]
fn test_error_unmatched_paren() {
    let err = parse("(abc").unwrap_err();
    assert!(matches!(err.kind(), ErrorKind::UnmatchedOpenParen));
}

#[test]
fn test_error_quantifier_on_nothing() {
    let err = parse("*abc").unwrap_err();
    assert!(matches!(err.kind(), ErrorKind::RepetitionOnNothing));
}

#[test]
fn test_error_nested_quantifier() {
    let err = parse("a**").unwrap_err();
    assert!(matches!(err.kind(), ErrorKind::NestedQuantifier));
}

fn capture_indices(e: &Expr, out: &mut Vec<u32>) {
    match e {
        Expr::Concat(es) | Expr::Alt(es) => {
            for x in es {
                capture_indices(x, out);
            }
        }
        Expr::Repeat(r) => capture_indices(&r.expr, out),
        Expr::Group(g) => {
            capture_indices(&g.expr, out);
            match &g.kind {
                GroupKind::Capturing(i) => out.push(*i),
                GroupKind::NamedCapturing { index, .. } => out.push(*index),
                GroupKind::NonCapturing => {}
            }
        }
        Expr::Lookaround(la) => capture_indices(&la.expr, out),
        _ => {}
    }
}

#[test]
fn capture_groups_are_numbered_one_to_n() {
    let ast = parse(r"(a)(?<n>(b)|c)(?:(d))*(?=(e))").unwrap();
    let mut idx = Vec::new();
    capture_indices(&ast.expr, &mut idx);
    let mut sorted = idx.clone();
    sorted.sort();
    assert_eq!(sorted, vec![1, 2, 3, 4, 5]);
    assert_eq!(idx, vec![1, 2, 3, 4, 5]);
}

#[test]
fn named_group_takes_its_number_after_its_body() {
    let ast = parse(r"(?<outer>(inner))").unwrap();
    match ast.expr {
        Expr::Group(g) => {
            assert!(matches!(g.kind, GroupKind::NamedCapturing { index: 2, .. }));
            match g.expr {
                Expr::Group(inner) => assert_eq!(inner.kind, GroupKind::Capturing(1)),
                other => panic!("unexpected {:?}", other),
            }
        }
        other => panic!("unexpected {:?}", other),
    }
}
