use regex_nfa::hir::translate;
use regex_nfa::nfa::tagged::engine::TaggedNfaEngine;
use regex_nfa::nfa::tagged::interpreter::{StepInterpreter, TaggedNfaInterpreter};
use regex_nfa::nfa::tagged::liveness::analyze_liveness;
use regex_nfa::nfa::tagged::shared::PatternStep;
use regex_nfa::nfa::tagged::steps::{combine_greedy_with_lookahead, StepExtractor};
use regex_nfa::nfa::{compile, ByteClass, ByteRange, Nfa};
use regex_nfa::parser::parse;

fn build_nfa(pattern: &str) -> Nfa {
    let ast = parse(pattern).unwrap();
    let hir = translate(&ast).unwrap();
    compile(&hir).unwrap()
}

fn class(start: u8, end: u8) -> ByteClass {
    ByteClass::new(vec![ByteRange::new(start, end)])
}

fn digits() -> ByteClass {
    class(b'0', b'9')
}

fn lower() -> ByteClass {
    class(b'a', b'z')
}

// ---------------------------------------------------------------------------
// Fusing greedy steps with lookaheads
// ---------------------------------------------------------------------------

#[test]
fn combine_fuses_plus_with_positive_lookahead() {
    let steps = vec![
        PatternStep::GreedyPlus(lower()),
        PatternStep::PositiveLookahead(vec![PatternStep::Byte(b'!')]),
    ];
    let out = combine_greedy_with_lookahead(steps);
    assert_eq!(out.len(), 1);
    match &out[0] {
        PatternStep::GreedyPlusLookahead(c, body, positive) => {
            assert!(c.contains(b'q'));
            assert!(!c.contains(b'Q'));
            assert_eq!(body.len(), 1);
            assert!(matches!(body[0], PatternStep::Byte(b'!')));
            assert!(*positive);
        }
        other => panic!("unexpected step {:?}", other),
    }
}

#[test]
fn combine_fuses_star_with_negative_lookahead() {
    let steps = vec![
        PatternStep::Byte(b'x'),
        PatternStep::GreedyStar(digits()),
        PatternStep::NegativeLookahead(vec![PatternStep::Byte(b'5')]),
        PatternStep::EndOfText,
    ];
    let out = combine_greedy_with_lookahead(steps);
    assert_eq!(out.len(), 3);
    assert!(matches!(out[0], PatternStep::Byte(b'x')));
    assert!(matches!(out[1], PatternStep::GreedyStarLookahead(_, _, false)));
    assert!(matches!(out[2], PatternStep::EndOfText));
}

#[test]
fn combine_leaves_unfused_steps() {
    let steps = vec![
        PatternStep::GreedyPlus(lower()),
        PatternStep::Byte(b'-'),
        PatternStep::PositiveLookahead(vec![PatternStep::Byte(b'a')]),
    ];
    let out = combine_greedy_with_lookahead(steps);
    assert_eq!(out.len(), 3);
    assert!(matches!(out[0], PatternStep::GreedyPlus(_)));
    assert!(matches!(out[1], PatternStep::Byte(b'-')));
    assert!(matches!(out[2], PatternStep::PositiveLookahead(_)));
}

#[test]
fn combine_twice_is_combine_once() {
    let steps = vec![
        PatternStep::GreedyPlus(lower()),
        PatternStep::GreedyStar(digits()),
        PatternStep::PositiveLookahead(vec![PatternStep::EndOfText]),
    ];
    let once = combine_greedy_with_lookahead(steps);
    assert_eq!(once.len(), 2);
    assert!(matches!(once[0], PatternStep::GreedyPlus(_)));
    assert!(matches!(once[1], PatternStep::GreedyStarLookahead(_, _, true)));
    let twice = combine_greedy_with_lookahead(once);
    assert_eq!(twice.len(), 2);
    assert!(matches!(twice[0], PatternStep::GreedyPlus(_)));
    assert!(matches!(twice[1], PatternStep::GreedyStarLookahead(_, _, true)));
}

#[test]
fn combine_keeps_minimum_length() {
    let steps = vec![
        PatternStep::Byte(b'a'),
        PatternStep::GreedyPlus(lower()),
        PatternStep::PositiveLookahead(vec![PatternStep::Byte(b'b')]),
        PatternStep::GreedyStar(digits()),
    ];
    let before = StepExtractor::calc_min_len(&steps);
    let out = combine_greedy_with_lookahead(steps);
    assert_eq!(before, 2);
    assert_eq!(StepExtractor::calc_min_len(&out), 2);
}

#[test]
fn calc_min_len_counts_consuming_steps() {
    let steps = vec![
        PatternStep::Byte(b'a'),
        PatternStep::ByteClass(digits()),
        PatternStep::GreedyStar(lower()),
        PatternStep::WordBoundary,
        PatternStep::GreedyPlus(lower()),
        PatternStep::EndOfText,
    ];
    assert_eq!(StepExtractor::calc_min_len(&steps), 3);
    assert_eq!(StepExtractor::calc_min_len(&[]), 0);
}

// ---------------------------------------------------------------------------
// Reading steps off automata
// ---------------------------------------------------------------------------

#[test]
fn extract_literal_gives_steps_that_match() {
    let nfa = build_nfa("abc");
    let steps = StepExtractor::new(&nfa).extract().expect("a literal flattens to steps");
    assert!(!steps.is_empty());
    assert_eq!(StepInterpreter::find(&steps, b"xxabcx"), Some((2, 5)));
    assert_eq!(StepInterpreter::find(&steps, b"abx"), None);
}

#[test]
fn extract_plus_gives_greedy_step() {
    let nfa = build_nfa("a+b");
    let steps = StepExtractor::new(&nfa).extract().expect("a+b flattens to steps");
    assert!(steps.iter().any(|s| matches!(s, PatternStep::GreedyPlus(_))));
    assert_eq!(StepInterpreter::find(&steps, b"xaaab"), Some((1, 5)));
}

#[test]
fn extract_lookbehind_carries_its_length() {
    let nfa = build_nfa("(?<=ab)c");
    let steps = StepExtractor::new(&nfa).extract().expect("a fixed lookbehind flattens");
    let found = steps.iter().any(|s| match s {
        PatternStep::PositiveLookbehind(body, len) => *len == 2 && body.len() == 2,
        _ => false,
    });
    assert!(found);
    assert_eq!(StepInterpreter::find(&steps, b"xabc"), Some((3, 4)));
    assert_eq!(StepInterpreter::find(&steps, b"xbc"), None);
}

#[test]
fn extract_rejects_backreference() {
    let nfa = build_nfa("(a)\\1");
    assert!(StepExtractor::new(&nfa).extract().is_none());
}

// ---------------------------------------------------------------------------
// Matching by steps
// ---------------------------------------------------------------------------

#[test]
fn step_find_bytes() {
    let steps = vec![PatternStep::Byte(b'b'), PatternStep::Byte(b'c')];
    assert_eq!(StepInterpreter::find(&steps, b"abcbc"), Some((1, 3)));
    assert_eq!(StepInterpreter::find_at(&steps, b"abcbc", 2), Some((3, 5)));
    assert_eq!(StepInterpreter::find_at(&steps, b"abcbc", 4), None);
    assert_eq!(StepInterpreter::find_at(&steps, b"abc", 9), None);
}

#[test]
fn step_find_empty_steps_match_at_start() {
    let steps: Vec<PatternStep> = Vec::new();
    assert_eq!(StepInterpreter::find(&steps, b"xyz"), Some((0, 0)));
    assert_eq!(StepInterpreter::find_at(&steps, b"xyz", 3), Some((3, 3)));
}

#[test]
fn step_greedy_plus_takes_longest_run() {
    let steps = vec![PatternStep::GreedyPlus(digits())];
    assert_eq!(StepInterpreter::find(&steps, b"ab123c45"), Some((2, 5)));
    assert_eq!(StepInterpreter::find(&steps, b"abc"), None);
}

#[test]
fn step_greedy_star_may_match_nothing() {
    let steps = vec![PatternStep::GreedyStar(digits()), PatternStep::Byte(b'x')];
    assert_eq!(StepInterpreter::find(&steps, b"12x"), Some((0, 3)));
    assert_eq!(StepInterpreter::find(&steps, b"ax"), Some((1, 2)));
}

#[test]
fn step_greedy_plus_lookahead_gives_back_bytes() {
    // [a-z]+(?=z): the run "abz" is given back to "ab" so that "z" follows.
    let steps = vec![PatternStep::GreedyPlusLookahead(
        lower(),
        vec![PatternStep::Byte(b'z')],
        true,
    )];
    assert_eq!(StepInterpreter::find(&steps, b"abz"), Some((0, 2)));
    assert_eq!(StepInterpreter::find(&steps, b"abc"), None);
}

#[test]
fn step_greedy_star_negative_lookahead() {
    // [0-9]*(?!5): from "125" the run gives back the 5.
    let steps = vec![PatternStep::GreedyStarLookahead(
        digits(),
        vec![PatternStep::Byte(b'5')],
        false,
    )];
    assert_eq!(StepInterpreter::find(&steps, b"125"), Some((0, 3)));
    let steps = vec![
        PatternStep::GreedyStarLookahead(digits(), vec![PatternStep::Byte(b'5')], false),
        PatternStep::Byte(b'5'),
    ];
    assert_eq!(StepInterpreter::find(&steps, b"125"), None);
}

#[test]
fn step_lookaheads() {
    let steps = vec![
        PatternStep::Byte(b'a'),
        PatternStep::PositiveLookahead(vec![PatternStep::Byte(b'b')]),
    ];
    assert_eq!(StepInterpreter::find(&steps, b"acab"), Some((2, 3)));
    let steps = vec![
        PatternStep::Byte(b'a'),
        PatternStep::NegativeLookahead(vec![PatternStep::Byte(b'b')]),
    ];
    assert_eq!(StepInterpreter::find(&steps, b"abac"), Some((2, 3)));
}

#[test]
fn step_lookbehinds() {
    let steps = vec![
        PatternStep::PositiveLookbehind(vec![PatternStep::Byte(b'$')], 1),
        PatternStep::GreedyPlus(digits()),
    ];
    assert_eq!(StepInterpreter::find(&steps, b"a1 $42"), Some((4, 6)));
    let steps = vec![
        PatternStep::NegativeLookbehind(vec![PatternStep::Byte(b'-')], 1),
        PatternStep::Byte(b'7'),
    ];
    assert_eq!(StepInterpreter::find(&steps, b"-7 7"), Some((3, 4)));
}

#[test]
fn step_anchors_and_boundaries() {
    let steps = vec![PatternStep::StartOfText, PatternStep::Byte(b'a')];
    assert_eq!(StepInterpreter::find(&steps, b"ba"), None);
    assert_eq!(StepInterpreter::find(&steps, b"ab"), Some((0, 1)));
    let steps = vec![PatternStep::Byte(b'a'), PatternStep::EndOfText];
    assert_eq!(StepInterpreter::find(&steps, b"aba"), Some((2, 3)));
    let steps = vec![
        PatternStep::WordBoundary,
        PatternStep::GreedyPlus(lower()),
        PatternStep::WordBoundary,
    ];
    assert_eq!(StepInterpreter::find(&steps, b"  cat!"), Some((2, 5)));
    let steps = vec![PatternStep::NotWordBoundary, PatternStep::Byte(b'b')];
    assert_eq!(StepInterpreter::find(&steps, b"b ab"), Some((3, 4)));
}

#[test]
fn step_unsupported_step_never_matches() {
    let steps = vec![PatternStep::Alt(vec![vec![PatternStep::Byte(b'a')]])];
    assert_eq!(StepInterpreter::find(&steps, b"aaa"), None);
}

// ---------------------------------------------------------------------------
// Simulating the automaton
// ---------------------------------------------------------------------------

#[test]
fn interpreter_finds_first_match() {
    let nfa = build_nfa("b+");
    let liveness = analyze_liveness(&nfa);
    let interp = TaggedNfaInterpreter::new(&nfa, &liveness);
    assert_eq!(interp.find(b"aabbbc"), Some((2, 5)));
    assert_eq!(interp.find(b"aaa"), None);
}

#[test]
fn interpreter_reports_groups() {
    let nfa = build_nfa("(a)(b)?c");
    let liveness = analyze_liveness(&nfa);
    let interp = TaggedNfaInterpreter::new(&nfa, &liveness);
    let caps = interp.captures(b"xabc").unwrap();
    assert_eq!(caps, vec![Some((1, 4)), Some((1, 2)), Some((2, 3))]);
    let caps = interp.captures(b"ac").unwrap();
    assert_eq!(caps, vec![Some((0, 2)), Some((0, 1)), None]);
    assert!(interp.captures(b"bc").is_none());
}

#[test]
fn interpreter_captures_at_fixed_start() {
    let nfa = build_nfa("(a+)b");
    let liveness = analyze_liveness(&nfa);
    let interp = TaggedNfaInterpreter::new(&nfa, &liveness);
    assert_eq!(interp.captures_at(b"xaab", 1), Some(vec![Some((1, 4)), Some((1, 3))]));
    assert_eq!(interp.captures_at(b"xaab", 0), None);
}

#[test]
fn interpreter_without_sparse_copy_agrees() {
    let nfa = build_nfa("(a)(b)?c");
    let liveness = analyze_liveness(&nfa);
    let sparse = TaggedNfaInterpreter::new(&nfa, &liveness);
    let full = TaggedNfaInterpreter::new_no_sparse(&nfa, &liveness);
    for input in [&b"xabc"[..], &b"ac"[..], &b"zzz"[..]] {
        assert_eq!(sparse.captures(input), full.captures(input));
        assert_eq!(sparse.find(input), full.find(input));
    }
}

#[test]
fn interpreter_finds_empty_match_through_epsilon_moves() {
    let nfa = build_nfa("a*");
    let liveness = analyze_liveness(&nfa);
    let interp = TaggedNfaInterpreter::new(&nfa, &liveness);
    assert_eq!(interp.find(b"bbb"), Some((0, 0)));
    assert_eq!(interp.captures_at(b"bbb", 2), Some(vec![Some((2, 2))]));
    assert_eq!(interp.captures(b""), Some(vec![Some((0, 0))]));
}

#[test]
fn interpreter_finds_anchored_run() {
    let nfa = build_nfa("^ab$");
    let liveness = analyze_liveness(&nfa);
    let interp = TaggedNfaInterpreter::new(&nfa, &liveness);
    assert_eq!(interp.find(b"ab"), Some((0, 2)));
    assert_eq!(interp.find(b"abc"), None);
    assert_eq!(interp.find(b"xab"), None);
}

#[test]
fn interpreter_backreference() {
    let nfa = build_nfa("(a|b)\\1");
    let liveness = analyze_liveness(&nfa);
    let interp = TaggedNfaInterpreter::new(&nfa, &liveness);
    assert_eq!(interp.find(b"abba"), Some((1, 3)));
    assert_eq!(interp.find(b"abab"), None);
}

#[test]
fn interpreter_lookahead() {
    let nfa = build_nfa("a(?=b)");
    let liveness = analyze_liveness(&nfa);
    let interp = TaggedNfaInterpreter::new(&nfa, &liveness);
    assert_eq!(interp.find(b"acab"), Some((2, 3)));
    let nfa = build_nfa("a(?!b)");
    let liveness = analyze_liveness(&nfa);
    let interp = TaggedNfaInterpreter::new(&nfa, &liveness);
    assert_eq!(interp.find(b"abac"), Some((2, 3)));
}

#[test]
fn interpreter_lookbehind() {
    let nfa = build_nfa("(?<=x)y");
    let liveness = analyze_liveness(&nfa);
    let interp = TaggedNfaInterpreter::new(&nfa, &liveness);
    assert_eq!(interp.find(b"yxy"), Some((2, 3)));
}

// ---------------------------------------------------------------------------
// The engine
// ---------------------------------------------------------------------------

#[test]
fn engine_matches_by_steps() {
    let engine = TaggedNfaEngine::new(build_nfa("ab+c"));
    assert!(engine.is_match(b"xxabbbc"));
    assert!(!engine.is_match(b"ac"));
    assert_eq!(engine.find(b"xxabbbc"), Some((2, 7)));
    assert_eq!(engine.find_at(b"abc abbc", 1), Some((4, 8)));
}

#[test]
fn engine_falls_back_to_simulation() {
    let engine = TaggedNfaEngine::new(build_nfa("(a|b)\\1"));
    assert!(engine.is_match(b"xaa"));
    assert_eq!(engine.find(b"abba"), Some((1, 3)));
    assert_eq!(engine.find_at(b"aabb", 1), Some((2, 4)));
    assert_eq!(engine.find_at(b"aabb", 3), None);
    assert!(!engine.is_match(b"abab"));
}

#[test]
fn engine_alternation_uses_simulation() {
    // The steps read off an alternation hold an `Alt` step, which the step
    // interpreter does not run, so the engine simulates the automaton.
    let nfa = build_nfa("cat|dog");
    let steps = StepExtractor::new(&nfa).extract().unwrap();
    assert!(matches!(steps[0], PatternStep::Alt(_)));
    assert_eq!(StepInterpreter::find(&steps, b"a dog"), None);
    let engine = TaggedNfaEngine::new(nfa);
    assert_eq!(engine.find(b"a dog"), Some((2, 5)));
    assert!(engine.is_match(b"concat"));
}

#[test]
fn engine_captures() {
    let engine = TaggedNfaEngine::new(build_nfa("(\\d+)-(\\d+)"));
    let caps = engine.captures(b"tel 12-345").unwrap();
    assert_eq!(caps, vec![Some((4, 10)), Some((4, 6)), Some((7, 10))]);
    assert!(engine.captures(b"12-").is_none());
}

#[test]
fn fused_steps_keep_every_match() {
    let unfused = vec![
        PatternStep::GreedyPlus(lower()),
        PatternStep::PositiveLookahead(vec![PatternStep::Byte(b'!')]),
    ];
    assert_eq!(StepInterpreter::find(&unfused, b"ab!"), Some((0, 2)));
    let fused = combine_greedy_with_lookahead(unfused);
    assert_eq!(StepInterpreter::find(&fused, b"ab!"), Some((0, 2)));

    // When the run swallows the byte the lookahead needs, only the fused
    // step, which gives bytes back, finds the match.
    let unfused = vec![
        PatternStep::GreedyPlus(lower()),
        PatternStep::PositiveLookahead(vec![PatternStep::Byte(b'z')]),
    ];
    assert_eq!(StepInterpreter::find(&unfused, b"abz"), None);
    let fused = combine_greedy_with_lookahead(unfused);
    assert_eq!(StepInterpreter::find(&fused, b"abz"), Some((0, 2)));
}

#[test]
fn extract_literal_reads_one_byte_per_state() {
    let nfa = build_nfa("abc");
    let steps = StepExtractor::new(&nfa).extract().unwrap();
    assert_eq!(steps.len(), 3);
    assert!(matches!(steps[0], PatternStep::Byte(b'a')));
    assert!(matches!(steps[1], PatternStep::Byte(b'b')));
    assert!(matches!(steps[2], PatternStep::Byte(b'c')));
}

#[test]
fn extract_fuses_plus_with_following_lookahead() {
    let nfa = build_nfa("[a-z]+(?=1)");
    let steps = StepExtractor::new(&nfa).extract().unwrap();
    assert_eq!(steps.len(), 1);
    match &steps[0] {
        PatternStep::GreedyPlusLookahead(c, la, positive) => {
            assert!(*positive);
            assert!(c.contains(b'q') && !c.contains(b'1'));
            assert_eq!(la.len(), 1);
            assert!(matches!(la[0], PatternStep::Byte(b'1')));
        }
        other => panic!("unexpected {:?}", other),
    }
}

#[test]
fn interpreter_finds_matches_through_lookarounds() {
    // A positive lookahead whose body checks nothing, and negative lookarounds
    // whose bodies have no run where they stand.
    for (pattern, input, expected) in [
        ("a(?=bc)", "xabc", (1, 2)),
        ("a(?!c)", "acab", (2, 3)),
        ("(?<!x)b", "xbab", (3, 4)),
    ] {
        let nfa = build_nfa(pattern);
        let liveness = analyze_liveness(&nfa);
        let interp = TaggedNfaInterpreter::new(&nfa, &liveness);
        assert_eq!(interp.find(input.as_bytes()), Some(expected), "{}", pattern);
        let engine = TaggedNfaEngine::new(build_nfa(pattern));
        assert!(engine.is_match(input.as_bytes()), "{}", pattern);
    }
}

#[test]
fn interpreter_match_is_longest_from_leftmost_start() {
    // Every thread carries the same priority, so a later match at a later
    // position replaces an earlier one: the match from the leftmost start is
    // the longest one from there.
    for (pattern, input, expected) in [
        ("a|ab", "ab", Some((0, 2))),
        ("ab|a", "xab", Some((1, 3))),
        ("a*", "baaa", Some((0, 0))),
        ("b+", "abbbc", Some((1, 4))),
        ("(a|b)c", "abd", None),
    ] {
        let nfa = build_nfa(pattern);
        let liveness = analyze_liveness(&nfa);
        let sparse = TaggedNfaInterpreter::new(&nfa, &liveness);
        let dense = TaggedNfaInterpreter::new_no_sparse(&nfa, &liveness);
        assert_eq!(sparse.find(input.as_bytes()), expected, "{}", pattern);
        assert_eq!(dense.find(input.as_bytes()), expected, "{}", pattern);
    }
}

#[test]
fn interpreter_checks_lookaheads_before_matching() {
    let nfa = build_nfa("a(?=b)");
    let liveness = analyze_liveness(&nfa);
    let interp = TaggedNfaInterpreter::new(&nfa, &liveness);
    assert_eq!(interp.find(b"ac"), None);
    assert_eq!(interp.find(b"acab"), Some((2, 3)));
    let nfa = build_nfa("^b");
    let liveness = analyze_liveness(&nfa);
    let interp = TaggedNfaInterpreter::new(&nfa, &liveness);
    assert_eq!(interp.find(b"ab"), None);
}

#[test]
fn interpreter_groups_are_the_last_recorded_spans() {
    for (pattern, input, expected) in [
        ("(a|b)+", "ab", vec![Some((0, 2)), Some((1, 2))]),
        ("(a)(x)?(b)", "zab", vec![Some((1, 3)), Some((1, 2)), None, Some((2, 3))]),
        ("((a)b)+", "abab", vec![Some((0, 4)), Some((2, 4)), Some((2, 3))]),
    ] {
        let nfa = build_nfa(pattern);
        let liveness = analyze_liveness(&nfa);
        let sparse = TaggedNfaInterpreter::new(&nfa, &liveness);
        let dense = TaggedNfaInterpreter::new_no_sparse(&nfa, &liveness);
        assert_eq!(sparse.captures(input.as_bytes()), Some(expected.clone()), "{}", pattern);
        assert_eq!(dense.captures(input.as_bytes()), Some(expected), "{}", pattern);
    }
}

#[test]
fn engine_is_match_agrees_with_find() {
    for (pattern, input) in [
        ("a+?b", "xaab"),
        ("a+?b", "xaa"),
        ("(a|b)*?c", "abac"),
        ("x{2,3}?y", "xxy"),
        ("^ab", "cab"),
    ] {
        let engine = TaggedNfaEngine::new(build_nfa(pattern));
        assert_eq!(
            engine.is_match(input.as_bytes()),
            engine.find(input.as_bytes()).is_some(),
            "{}",
            pattern
        );
    }
}
