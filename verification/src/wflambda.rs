//! The wavefront alignment engine and its supporting types.

pub mod types;
pub mod utils;
pub mod wflambda;
