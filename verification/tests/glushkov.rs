use regex_nfa::hir::translate;
use regex_nfa::nfa::{compile_glushkov, GlushkovNfa, MAX_POSITIONS};
use regex_nfa::parser::parse;

fn make_glushkov(pattern: &str) -> Option<GlushkovNfa> {
    let ast = parse(pattern).ok()?;
    let hir = translate(&ast).ok()?;
    compile_glushkov(&hir)
}

#[test]
fn test_simple_literal() {
    let nfa = make_glushkov("abc").unwrap();
    assert_eq!(nfa.position_count, 3);
    assert!(!nfa.nullable);
    assert!(nfa.positions[0].contains(b'a'));
    assert!(nfa.positions[1].contains(b'b'));
    assert!(nfa.positions[2].contains(b'c'));
}

#[test]
fn glushkov_test_alternation() {
    let nfa = make_glushkov("a|b").unwrap();
    assert_eq!(nfa.position_count, 2);
    assert!(!nfa.nullable);
    assert_eq!(nfa.first, 0b11);
    assert_eq!(nfa.last, 0b11);
}

#[test]
fn test_optional() {
    let nfa = make_glushkov("a?").unwrap();
    assert_eq!(nfa.position_count, 1);
    assert!(nfa.nullable);
}

#[test]
fn test_star() {
    let nfa = make_glushkov("a*").unwrap();
    assert_eq!(nfa.position_count, 1);
    assert!(nfa.nullable);
}

#[test]
fn test_plus() {
    let nfa = make_glushkov("a+").unwrap();
    assert_eq!(nfa.position_count, 1);
    assert!(!nfa.nullable);
}

#[test]
fn glushkov_test_class() {
    let nfa = make_glushkov("[a-z]").unwrap();
    assert_eq!(nfa.position_count, 1);
    for c in b'a'..=b'z' {
        assert!(nfa.positions[0].contains(c));
    }
    assert!(!nfa.positions[0].contains(b'A'));
}

#[test]
fn test_too_many_positions() {
    let pattern = "abcdefghijklmnopqrstuvwxyzabcdefghijklmnopqrstuvwxyzabcdefghijklmnop";
    assert!(pattern.len() > MAX_POSITIONS);
    let result = make_glushkov(pattern);
    assert!(result.is_none());
}

#[test]
fn test_shift_or_masks() {
    let nfa = make_glushkov("ab").unwrap();
    let masks = nfa.build_shift_or_masks();
    assert_eq!(masks[b'a' as usize] & 1, 0);
    assert_eq!(masks[b'b' as usize] & 2, 0);
    assert_eq!(masks[b'c' as usize], !0u64);
}

#[test]
fn test_dot_star_glushkov() {
    let nfa = make_glushkov("a.*b").unwrap();
    assert_eq!(nfa.position_count, 3);
    assert_eq!(nfa.first, 0b001);
    assert_eq!(nfa.last, 0b100);
    assert!(!nfa.nullable);
    assert!(nfa.positions[0].contains(b'a'));
    assert!(!nfa.positions[0].contains(b'b'));
    assert!(nfa.positions[1].contains(b'a'));
    assert!(nfa.positions[1].contains(b'b'));
    assert!(nfa.positions[1].contains(b'x'));
    assert!(nfa.positions[2].contains(b'b'));
    assert!(!nfa.positions[2].contains(b'a'));
    assert_eq!(nfa.follow[0] & 0b110, 0b110, "Follow(0) should include positions 1 and 2");
    assert_eq!(nfa.follow[1] & 0b110, 0b110, "Follow(1) should include positions 1 and 2");
    assert_eq!(nfa.follow[2], 0, "Follow(2) should be empty");
}
