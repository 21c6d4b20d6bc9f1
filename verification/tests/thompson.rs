use regex_nfa::hir::translate;
use regex_nfa::nfa::tagged::interpreter::TaggedNfaInterpreter;
use regex_nfa::nfa::tagged::liveness::analyze_liveness;
use regex_nfa::nfa::state::NfaInstruction;
use regex_nfa::nfa::{compile, Nfa};
use regex_nfa::parser::parse;

fn build_nfa(pattern: &str) -> Nfa {
    let ast = parse(pattern).unwrap();
    let hir = translate(&ast).unwrap();
    compile(&hir).unwrap()
}

#[test]
fn thompson_test_literal() {
    let nfa = build_nfa("abc");
    assert!(nfa.state_count() >= 4);
}

#[test]
fn thompson_test_alternation() {
    let nfa = build_nfa("a|b");
    assert!(nfa.state_count() >= 4);
}

#[test]
fn test_repetition() {
    let nfa = build_nfa("a*");
    assert!(nfa.state_count() >= 2);
}

#[test]
fn thompson_test_class() {
    let nfa = build_nfa("[a-z]");
    assert!(nfa.state_count() >= 2);
}

#[test]
fn thompson_automaton_accepts_matches_of_its_expression() {
    for (pattern, input, expected) in [
        ("ab", &b"xxab"[..], Some((2, 4))),
        ("a{2,3}b", &b"aaab"[..], Some((0, 4))),
        ("(a|bc)+d", &b"zbcad"[..], Some((1, 5))),
        ("x?y*z", &b"yyz"[..], Some((0, 3))),
    ] {
        let nfa = build_nfa(pattern);
        assert_eq!(nfa.states.iter().filter(|s| s.is_match).count(), 1);
        let liveness = analyze_liveness(&nfa);
        let interp = TaggedNfaInterpreter::new(&nfa, &liveness);
        assert_eq!(interp.find(input), expected);
    }
}

#[test]
fn thompson_makes_one_tagged_state_per_construction_step() {
    let count = |nfa: &Nfa, f: &dyn Fn(&Option<NfaInstruction>) -> bool| {
        nfa.states.iter().filter(|s| f(&s.instruction)).count()
    };
    let nfa = build_nfa("(a)");
    assert_eq!(count(&nfa, &|i| matches!(i, Some(NfaInstruction::CaptureStart(1)))), 1);
    assert_eq!(count(&nfa, &|i| matches!(i, Some(NfaInstruction::CaptureEnd(1)))), 1);
    let nfa = build_nfa("(a){3}");
    assert_eq!(count(&nfa, &|i| matches!(i, Some(NfaInstruction::CaptureStart(1)))), 3);
    let nfa = build_nfa("(?=a)b(?!c)");
    let lookarounds = count(&nfa, &|i| {
        matches!(
            i,
            Some(NfaInstruction::PositiveLookahead(_)) | Some(NfaInstruction::NegativeLookahead(_))
        )
    });
    assert_eq!(lookarounds, 2);
    let nfa = build_nfa("(a)\\1");
    assert_eq!(count(&nfa, &|i| matches!(i, Some(NfaInstruction::Backref(1)))), 1);
    let nfa = build_nfa("a|b");
    assert_eq!(count(&nfa, &|i| i.is_some()), 0);
}

#[test]
fn thompson_fits_ordinary_patterns() {
    for pattern in ["a", "(a|b)*c", "x{2,5}y", "(?=ab)a\\w+"] {
        let hir = translate(&parse(pattern).unwrap()).unwrap();
        assert!(regex_nfa::nfa::thompson::thompson_fits(&hir), "{}", pattern);
        assert!(compile(&hir).is_ok());
    }
}
