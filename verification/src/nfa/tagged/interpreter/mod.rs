//! Interpreters for tagged-NFA matching: by pattern steps, and by simulating
//! the automaton.
pub mod nfa_interpreter;
pub mod step_interpreter;

pub use nfa_interpreter::TaggedNfaInterpreter;
pub use step_interpreter::StepInterpreter;
