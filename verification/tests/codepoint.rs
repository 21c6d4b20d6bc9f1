use regex_nfa::hir::CodepointClass;
use regex_nfa::nfa::tagged::codepoint::check_codepoint_class;

fn class(ranges: Vec<(u32, u32)>, negated: bool) -> CodepointClass {
    CodepointClass { ranges, negated }
}

#[test]
fn codepoint_widths() {
    let input = "a\u{e9}\u{20ac}\u{1f600}".as_bytes();
    let all = class(vec![(0, 0x10FFFF)], false);
    assert_eq!(check_codepoint_class(input, 0, &all), 1);
    assert_eq!(check_codepoint_class(input, 1, &all), 2);
    assert_eq!(check_codepoint_class(input, 3, &all), 3);
    assert_eq!(check_codepoint_class(input, 6, &all), 4);
    assert_eq!(check_codepoint_class(input, 10, &all), -1);
}

#[test]
fn codepoint_membership() {
    let input = "x\u{e9}".as_bytes();
    let accented = class(vec![(0xC0, 0xFF)], false);
    assert_eq!(check_codepoint_class(input, 0, &accented), -1);
    assert_eq!(check_codepoint_class(input, 1, &accented), 2);
    let not_accented = class(vec![(0xC0, 0xFF)], true);
    assert_eq!(check_codepoint_class(input, 0, &not_accented), 1);
    assert_eq!(check_codepoint_class(input, 1, &not_accented), -1);
}

#[test]
fn codepoint_malformed_bytes() {
    let all = class(vec![(0, 0x10FFFF)], false);
    // A continuation byte cannot start a code point.
    assert_eq!(check_codepoint_class(&[0x82, 0x41], 0, &all), -1);
    // A two-byte lead at the end of the input.
    assert_eq!(check_codepoint_class(&[0x41, 0xC3], 1, &all), -1);
    // A three-byte lead followed by a non-continuation byte.
    assert_eq!(check_codepoint_class(&[0xE2, 0x41, 0xAC], 0, &all), -1);
    // 0xF8 never leads a code point.
    assert_eq!(check_codepoint_class(&[0xF8, 0x80, 0x80, 0x80], 0, &all), -1);
    // An overlong form is decoded all the same: C1 81 gives U+0041.
    let big_a = class(vec![(0x41, 0x41)], false);
    assert_eq!(check_codepoint_class(&[0xC1, 0x81], 0, &big_a), 2);
}
