use regex_nfa::hir::translate;
use regex_nfa::nfa::compile;
use regex_nfa::nfa::tagged::liveness::{analyze_liveness, CaptureBitSet, NfaLiveness};
use regex_nfa::parser::parse;

fn analyze_pattern(pattern: &str) -> NfaLiveness {
    let ast = parse(pattern).unwrap();
    let hir = translate(&ast).unwrap();
    let nfa = compile(&hir).unwrap();
    analyze_liveness(&nfa)
}

#[test]
fn test_bitset_operations() {
    let mut bs = CaptureBitSet::empty();
    assert!(bs.is_empty());

    bs.set(0);
    bs.set(3);
    bs.set(7);
    assert!(bs.contains(0));
    assert!(bs.contains(3));
    assert!(bs.contains(7));
    assert!(!bs.contains(1));
    assert_eq!(bs.count(), 3);

    let bs2 = CaptureBitSet::all(4);
    assert!(bs2.contains(0));
    assert!(bs2.contains(3));
    assert!(!bs2.contains(4));

    let union = bs.union(&bs2);
    assert!(union.contains(0));
    assert!(union.contains(3));
    assert!(union.contains(7));

    let intersect = bs.intersect(&bs2);
    assert!(intersect.contains(0));
    assert!(intersect.contains(3));
    assert!(!intersect.contains(7));
}

#[test]
fn test_simple_capture() {
    let liveness = analyze_pattern(r"(a)");
    assert_eq!(liveness.capture_count, 1);
    let _has_capture_1_live = liveness.states.iter().any(|s| s.live_reads.contains(1));
    let has_capture_1_write = liveness.states.iter().any(|s| s.writes.contains(1));
    assert!(has_capture_1_write, "Should have capture 1 write");
}

#[test]
fn test_alternation_no_captures() {
    let liveness = analyze_pattern(r"a|b");
    assert_eq!(liveness.capture_count, 0);
    for state in &liveness.states {
        assert!(
            !state.copy_mask.contains(1),
            "No explicit captures means group 1+ should not be in copy_mask"
        );
    }
}

#[test]
fn test_alternation_with_captures() {
    let liveness = analyze_pattern(r"(a)|(b)");
    assert_eq!(liveness.capture_count, 2);
}

#[test]
fn test_backref_makes_capture_live() {
    let liveness = analyze_pattern(r"(a)\1");
    let has_live_capture_1 = liveness.states.iter().any(|s| s.live_reads.contains(1));
    assert!(has_live_capture_1, "Backref should make capture 1 live");
}

#[test]
fn test_nested_captures() {
    let liveness = analyze_pattern(r"((a)(b))");
    assert_eq!(liveness.capture_count, 3);
}

#[test]
fn test_lookaround_count() {
    let liveness = analyze_pattern(r"a(?=b)");
    assert_eq!(liveness.lookaround_count, 1);

    let liveness = analyze_pattern(r"(?=a)b(?!c)");
    assert_eq!(liveness.lookaround_count, 2);
}
