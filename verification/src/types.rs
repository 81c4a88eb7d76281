//! Run-wide configuration.

use vstd::prelude::*;

verus! {

/// Alignment scoring penalties.
#[derive(Copy, Clone, Debug)]
pub struct Penalties {
    pub mismatch: u8,
    pub matches: u8,
    pub gap_open: u8,
    pub gap_extend: u8,
}

/// Configuration for one filtering run.
#[derive(Debug)]
pub struct AppConfig {
    pub input_paf: String,
    pub mashmap_filepath: Option<String>,
    /// Probe window size for segment generation.
    pub segment_length: usize,
    /// Use 50%-overlapping segments rather than abutting ones.
    pub step: bool,
    pub thread_count: usize,
    pub penalties: Penalties,
    /// Bound the diagonal band of the wavefront search.
    pub adapt: bool,
    pub verbosity_level: u8,
}

impl AppConfig {
    pub fn new(
        paf_filepath: &str,
        mashmap_filepath_: Option<&str>,
        segment_length: usize,
        thread_count: usize,
        penalties: Option<Penalties>,
        adapt: bool,
        verbosity_level: u8,
    ) -> (r: AppConfig)
        ensures
            r.input_paf@ == paf_filepath@,
            r.mashmap_filepath is Some <==> mashmap_filepath_ is Some,
            mashmap_filepath_ is Some ==> r.mashmap_filepath->0@ == mashmap_filepath_->0@,
            r.segment_length == segment_length,
            r.step,
            r.thread_count == thread_count,
            penalties is Some ==> r.penalties == penalties->0,
            penalties is None ==> r.penalties == (Penalties {
                mismatch: 1,
                matches: 0,
                gap_open: 1,
                gap_extend: 1,
            }),
            r.adapt == adapt,
            r.verbosity_level == verbosity_level,
    {
        let penalties = match penalties {
            Some(p) => p,
            _ => Penalties { mismatch: 1, matches: 0, gap_open: 1, gap_extend: 1 },
        };

        let mashmap_filepath: Option<String> = match mashmap_filepath_ {
            Some(fp) => Some(String::from_str(fp)),
            _ => None,
        };

        AppConfig {
            verbosity_level,
            input_paf: String::from_str(paf_filepath),
            mashmap_filepath,
            segment_length,
            step: true,
            thread_count,
            penalties,
            adapt,
        }
    }
}

} // verus!
