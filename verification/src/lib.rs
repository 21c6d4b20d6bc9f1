//! A regular-expression front end and NFA toolkit.
pub mod bits;
pub mod error;
pub mod hir;
pub mod nfa;
pub mod parser;
