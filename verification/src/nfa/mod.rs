//! NFA (Nondeterministic Finite Automaton) construction.
pub mod glushkov;
pub mod language;
pub mod positions;
pub mod state;
pub mod tagged;
pub mod thompson;

pub use glushkov::{
    compile_glushkov, compile_glushkov_wide, BitSet256, BitSet256Iter, ByteSet, GlushkovNfa,
    GlushkovWideNfa, MAX_POSITIONS, MAX_POSITIONS_WIDE,
};
pub use state::{ByteClass, ByteRange, Nfa, NfaInstruction, NfaState, StateId};
pub use thompson::{compile, NfaBuilder};
