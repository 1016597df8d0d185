//! Pluck, a probabilistic programming language with lazy knowledge
//! compilation: the language front end, the inference engine, and the answers
//! to queries. Numbers are double-precision floats by their bits; the
//! arithmetic on them, of plain numbers and of conjugate families, comes from
//! the caller.

pub mod discrete_factorizations;
pub mod inference;
pub mod language;
pub mod results;
pub mod utils;
