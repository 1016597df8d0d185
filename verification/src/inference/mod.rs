//! Inference over Pluck programs.

pub mod assignment;
pub mod count_laws;
pub mod finish_laws;
pub mod forcing;
pub mod int_dists;
pub mod lazy_kc;
pub mod sample_laws;
pub mod sampling;
pub mod spn;
