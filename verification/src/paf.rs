//! The pairwise-mapping alignment format.

pub mod paf;
