pub mod define;
pub mod grammar;
pub mod parsing;
pub mod pexpr;
pub mod primitive_laws;
pub mod primitives;
pub mod reading_laws;
pub mod roundtrip;
pub mod tokens;
pub mod toplevel;
pub mod types;
pub mod values;
