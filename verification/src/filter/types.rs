//! Data types shared by the evidence index and the filter.

use vstd::prelude::*;

verus! {

/// A probe window: `((target_start, target_stop), (query_start, query_stop))`,
/// half-open on both axes.
pub type Segment = ((usize, usize), (usize, usize));

/// Payload attached to one evidence interval: the sequence it belongs to and
/// the source line of the alignment it came from.
#[derive(Clone, Debug)]
pub struct PafMetadata {
    pub name: String,
    pub line_num: u32,
}

/// A rectangle of coordinates corroborated by the match oracle during one
/// wavefront search: half-open offsets within the probed window.
#[derive(Clone, Copy, Debug, PartialEq, Eq, Structural)]
pub struct MatchRegion {
    pub query_start: usize,
    pub query_stop: usize,
    pub text_start: usize,
    pub text_stop: usize,
}

/// One piece of evidence found for a segment: the source line it comes from,
/// the stored evidence range, and the probed segment's bounds.
///
/// Two results are equal when they name the same source line and the same
/// segment; the particular evidence range is incidental.
#[derive(Debug, Copy, Clone)]
pub struct QueryResult {
    pub line: u32,
    pub sequence_start: i32,
    pub sequence_stop: i32,
    pub segment_qstart: usize,
    pub segment_qstop: usize,
    pub segment_tstart: usize,
    pub segment_tstop: usize,
}

/// The deduplication key of a `QueryResult`.
pub open spec fn qr_key(q: QueryResult) -> (int, int, int, int, int) {
    (
        q.line as int,
        q.segment_qstart as int,
        q.segment_qstop as int,
        q.segment_tstart as int,
        q.segment_tstop as int,
    )
}

impl PartialEq for QueryResult {
    fn eq(&self, other: &Self) -> (r: bool) {
        self.line == other.line && self.segment_tstart == other.segment_tstart
            && self.segment_tstop == other.segment_tstop && self.segment_qstart
            == other.segment_qstart && self.segment_qstop == other.segment_qstop
    }
}

impl Eq for QueryResult {

}

impl vstd::std_specs::cmp::PartialEqSpecImpl for QueryResult {
    open spec fn obeys_eq_spec() -> bool {
        true
    }

    open spec fn eq_spec(&self, other: &Self) -> bool {
        qr_key(*self) == qr_key(*other)
    }
}

/// Relative strand of an alignment record.
#[derive(PartialEq, Eq, Structural, Clone, Copy, Debug)]
pub enum Strand {
    Forward,
    Reverse,
}

impl Strand {
    /// `'+'` is the forward strand; every other character is read as reverse.
    pub fn from_char(c: char) -> (r: Strand)
        ensures
            r == (if c == '+' {
                Strand::Forward
            } else {
                Strand::Reverse
            }),
    {
        if c == '+' {
            Strand::Forward
        } else {
            Strand::Reverse
        }
    }
}

/// One evidence interval: start, stop (half-open), source line number and
/// sequence name.
#[derive(PartialEq, Clone, Debug)]
pub struct Interval(pub u32, pub u32, pub usize, pub String);

impl View for Interval {
    type V = (int, int, int, Seq<char>);

    open spec fn view(&self) -> (int, int, int, Seq<char>) {
        (self.0 as int, self.1 as int, self.2 as int, self.3@)
    }
}

/// Which coordinate axis an edit-script walk is producing intervals for.
#[derive(PartialEq, Eq, Structural, Clone, Copy, Debug)]
pub enum SequenceType {
    Target,
    Query,
}

} // verus!
