pub mod decimal;
pub mod display_precision;
pub mod epsilon;
pub mod exact;
pub mod intervals;
pub mod reals;
pub mod sharing;
pub mod sorted_vec_by_name;
pub mod stats;
pub mod text;
pub mod union_find;
