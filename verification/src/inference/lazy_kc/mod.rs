//! Lazy knowledge compilation.

pub mod affine;
pub mod affine_laws;
pub mod bind;
pub mod callstack;
pub mod chance_laws;
pub mod compile;
pub mod ctx;
pub mod distribution;
pub mod draw_laws;
pub mod floats;
pub mod form_laws;
pub mod integer_laws;
pub mod kont;
pub mod matrices;
pub mod monad;
pub mod number_laws;
pub mod operands;
pub mod pins;
pub mod sample;
pub mod scope_laws;
pub mod semantics;
pub mod settle;
pub mod state;
pub mod test_laws;
pub mod thunks;
