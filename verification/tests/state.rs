use regex_nfa::nfa::{ByteRange, Nfa, NfaState};
use std::collections::BTreeSet;

#[test]
fn test_byte_range() {
    let range = ByteRange::new(b'a', b'z');
    assert!(range.contains(b'm'));
    assert!(!range.contains(b'A'));
}

#[test]
fn test_epsilon_closure() {
    let mut nfa = Nfa::new();
    let mut s0 = NfaState::new();
    s0.add_epsilon(1);
    nfa.add_state(s0);
    let mut s1 = NfaState::new();
    s1.add_epsilon(2);
    nfa.add_state(s1);
    nfa.add_state(NfaState::new());
    let mut initial = BTreeSet::new();
    initial.insert(0);
    let closure = nfa.epsilon_closure(&initial);
    assert!(closure.contains(&0));
    assert!(closure.contains(&1));
    assert!(closure.contains(&2));
}
