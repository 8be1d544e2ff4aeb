//! Nondeterministic finite automata: construction from regular expressions, joining,
//! and simulation.

pub mod state;
pub mod builder;
pub mod nfa;
pub mod closure;
pub mod join_nfa;
pub mod simulator;
pub mod render;
pub mod visual;
pub mod language;
pub mod run_paths;
pub mod anchored;
pub mod tail;
