//! Matching with tagged NFAs: capture liveness, pattern steps and interpreters.
pub mod codepoint;
pub mod engine;
pub mod extraction;
pub mod interpreter;
pub mod liveness;
pub mod shared;
pub mod steps;
