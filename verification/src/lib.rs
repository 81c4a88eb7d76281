//! Validation of approximate genomic mapping records against independent
//! alignment evidence.
//!
//! Known-good alignments are broken into matched sub-intervals on the query
//! and target axes and indexed for overlap queries.  Candidate mappings are
//! then probed window by window with a diagonal-wavefront search that uses
//! the evidence index as a match oracle; records corroborated on both axes
//! survive the filter.

pub mod filter;
pub mod mashmap;
pub mod paf;
pub mod text;
pub mod types;
pub mod wflambda;
