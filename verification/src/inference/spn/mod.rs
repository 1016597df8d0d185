//! Sum-product networks.

pub mod evidence;
pub mod meaning;
pub mod node;
pub mod normal;
pub mod posterior;
pub mod power_laws;
pub mod powers;
pub mod product;
pub mod scope;
pub mod wmc;
