use regex_nfa::hir::{translate, HirAnchor, HirExpr};
use regex_nfa::parser::parse;

fn lower(pattern: &str) -> regex_nfa::hir::Hir {
    translate(&parse(pattern).unwrap()).unwrap()
}

#[test]
fn hir_literal_is_utf8() {
    let hir = lower("\u{e9}");
    match hir.expr {
        HirExpr::Literal(bytes) => assert_eq!(bytes, vec![0xC3, 0xA9]),
        _ => panic!("expected a literal"),
    }
}

#[test]
fn hir_dot_and_perl_classes() {
    match lower(".").expr {
        HirExpr::Class(c) => {
            assert_eq!(c.ranges, vec![(10, 10)]);
            assert!(c.negated);
        }
        _ => panic!("expected a class"),
    }
    match lower("\\D").expr {
        HirExpr::Class(c) => {
            assert_eq!(c.ranges, vec![(48, 57)]);
            assert!(c.negated);
        }
        _ => panic!("expected a class"),
    }
}

#[test]
fn hir_classes() {
    match lower("[a-c]").expr {
        HirExpr::Class(c) => assert_eq!(c.ranges, vec![(97, 99)]),
        _ => panic!("expected a byte class"),
    }
    match lower("[a-\u{e9}]").expr {
        HirExpr::UnicodeCpClass(c) => {
            assert_eq!(c.ranges, vec![(97, 0xE9)]);
            assert!(c.contains(0xE0));
            assert!(!c.contains(0x41));
        }
        _ => panic!("expected a code point class"),
    }
}

#[test]
fn hir_groups_and_properties() {
    let hir = lower("(a)(?:b)(?<n>c)\\1(?=d)");
    assert_eq!(hir.props.capture_count, 2);
    assert!(hir.props.has_backrefs);
    assert!(hir.props.has_lookaround);
    match hir.expr {
        HirExpr::Concat(parts) => {
            assert_eq!(parts.len(), 5);
            assert!(matches!(&parts[0], HirExpr::Capture(c) if c.index == 1 && c.name.is_none()));
            assert!(matches!(&parts[1], HirExpr::Literal(b) if b == &vec![b'b']));
            assert!(
                matches!(&parts[2], HirExpr::Capture(c) if c.index == 2 && c.name.as_deref() == Some("n"))
            );
            assert!(matches!(&parts[3], HirExpr::Backref(1)));
            assert!(matches!(&parts[4], HirExpr::Lookaround(_)));
        }
        _ => panic!("expected a concatenation"),
    }
}

#[test]
fn hir_anchors() {
    match lower("^a$").expr {
        HirExpr::Concat(parts) => {
            assert!(matches!(parts[0], HirExpr::Anchor(HirAnchor::Start)));
            assert!(matches!(parts[2], HirExpr::Anchor(HirAnchor::End)));
        }
        _ => panic!("expected a concatenation"),
    }
}
