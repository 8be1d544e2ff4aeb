//! Semantic errors of HULK programs and the places in the source they point at.

pub mod source;
pub mod error;
pub mod visitor;
