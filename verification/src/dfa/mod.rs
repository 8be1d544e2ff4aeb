//! Deterministic automata built from joined nondeterministic ones by the subset construction.

pub mod bound;
pub mod utils;
pub mod dfa;
pub mod describe;
pub mod run;
pub mod tokens;
