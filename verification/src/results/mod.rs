pub mod gaussian_laws;
pub mod grouping;
pub mod mixture;
pub mod mixture_laws;
pub mod naming;
pub mod packet;
pub mod packet_laws;
pub mod position_laws;
pub mod positions;
pub mod query;
pub mod registry;
pub mod rendering;
pub mod summary;
pub mod summary_laws;
