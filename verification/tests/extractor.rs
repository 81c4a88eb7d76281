use wffilter::filter::index::{try_compute_match_intervals, CigarParseError};
use wffilter::filter::index::compute_match_intervals;
use wffilter::filter::types::{Interval, SequenceType, Strand};

#[test]
fn test_compute_match_intervals_tiny() {
    // Forward
    let intervals_computed: Vec<Interval> = compute_match_intervals(
        SequenceType::Query,
        Strand::Forward,
        0,
        330243,
        "330243M",
        "no_name",
        0,
    );
    let intervals: Vec<Interval> = vec![Interval(0, 330243, 0, String::from("no_name"))];
    assert_eq!(intervals, intervals_computed);
}

#[test]
fn test_extractor_cursor_moves() {
    // match, mismatch, insertion and deletion all move the cursor; only
    // match operations emit intervals
    let ivs = compute_match_intervals(
        SequenceType::Query,
        Strand::Forward,
        10,
        0,
        "5M2X3M1I4M1D2M",
        "s",
        7,
    );
    // cursor: 10 -> [10,15) -> +2 -> [17,20) -> +1 (query insertion) ->
    // [21,25) -> -1 (query deletion) -> [24,26)
    let expected = vec![
        Interval(10, 15, 7, String::from("s")),
        Interval(17, 20, 7, String::from("s")),
        Interval(21, 25, 7, String::from("s")),
        Interval(24, 26, 7, String::from("s")),
    ];
    assert_eq!(ivs, expected);
}

#[test]
fn test_extractor_target_axis() {
    // on the target axis an insertion retracts the cursor and a deletion
    // advances it
    let ivs = compute_match_intervals(
        SequenceType::Target,
        Strand::Forward,
        10,
        0,
        "2M3I2M3D2M",
        "s",
        0,
    );
    let expected = vec![
        Interval(10, 12, 0, String::from("s")),
        Interval(9, 11, 0, String::from("s")),
        Interval(14, 16, 0, String::from("s")),
    ];
    assert_eq!(ivs, expected);
}

#[test]
fn test_extractor_errors() {
    // an alphabetic character that is no operation code
    assert_eq!(
        try_compute_match_intervals(
            SequenceType::Query,
            Strand::Forward,
            0,
            0,
            "12Z",
            "s",
            0
        ),
        Err(CigarParseError::UnexpectedChar('Z'))
    );
    // a character that is neither digit nor letter
    assert_eq!(
        try_compute_match_intervals(
            SequenceType::Query,
            Strand::Forward,
            0,
            0,
            "1?2M",
            "s",
            0
        ),
        Err(CigarParseError::UnknownChar('?'))
    );
    // an operation with no count
    assert_eq!(
        try_compute_match_intervals(SequenceType::Query, Strand::Forward, 0, 0, "M", "s", 0),
        Err(CigarParseError::BadCount)
    );
    // a count too large for the coordinate type
    assert_eq!(
        try_compute_match_intervals(
            SequenceType::Query,
            Strand::Forward,
            0,
            0,
            "4294967296M",
            "s",
            0
        ),
        Err(CigarParseError::BadCount)
    );
    // a cursor pushed below zero: an insertion on the target axis
    assert_eq!(
        try_compute_match_intervals(
            SequenceType::Target,
            Strand::Forward,
            0,
            0,
            "5I1M",
            "s",
            0
        ),
        Err(CigarParseError::CursorRange)
    );
    // trailing digits with no operation are accepted and ignored
    assert_eq!(
        try_compute_match_intervals(SequenceType::Query, Strand::Forward, 0, 0, "123", "s", 0),
        Ok(vec![])
    );
}
