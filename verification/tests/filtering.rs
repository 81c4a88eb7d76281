use wffilter::filter::build_index;
use wffilter::filter::filter::{filter, generate_segments as generate_segments_cfg};
use wffilter::filter::generate_segments;
use wffilter::filter::index::index_paf_matches;
use wffilter::paf::paf::PAF;
use wffilter::types::AppConfig;

static TEST_PAF_STRING: &str = "\
qry\t330243\t0\t330243\t+\ttgt\t330243\t0\t330243\t330243\t330243\t60\tNM:i:0\tms:i:660486\tAS:i:660486\tnn:i:0\ttp:A:P\tcm:i:62290\ts1:i:329202\ts2:i:262341\tde:f:0\trl:i:2730\tcg:Z:330243M\n\
qry\t329347\t41052\t324759\t+\ttgt\t283680\t0\t283680\t283613\t283736\t0\tNM:i:123\tms:i:566760\tAS:i:566760\tnn:i:0\ttp:A:S\tcm:i:53397\ts1:i:282348\tde:f:0.0003\trl:i:2765\tcg:Z:15M1I158M1I24M1I169M1I1147M1I24M1I851M1I13M1I3900M1D25M1I874M4I10847M3D4400M1I1494M1D4041M1I8577M14I1340M2D21138M2I7776M6D3563M2I83120M10D5541M2D27729M1I2M13I49698M1I5030M2I17541M1D22531M1I187M1D458M1D80M1I75M1I266M1I48M1I269M1I460M1D240M
";

#[test]
fn test_index_paf() {
    let alignments: PAF = PAF::from_str(TEST_PAF_STRING);
    let index = index_paf_matches(&alignments);
    let query_index = index.query_index;
    let target_index = index.target_index;

    // should apply to all of them
    assert_eq!(38, query_index.query_count(0, 330_243));
    // the first match in the second alignment plus the first alignment which covers everything
    assert_eq!(2, query_index.query_count(41_052, 41_067));
    assert_eq!(query_index.len(), target_index.len());
}

#[test]
fn test_index_full_range_count() {
    // a full-range count reports exactly the number of evidence intervals
    let alignments: PAF = PAF::from_str(TEST_PAF_STRING);
    let index = index_paf_matches(&alignments);
    assert_eq!(index.query_index.query_count(i32::MIN, i32::MAX), 38);
    assert_eq!(index.target_index.query_count(i32::MIN, i32::MAX), 38);
    assert_eq!(index.query_index.len(), 38);
}

#[test]
fn test_index_query_ranges() {
    // the built-in index answers range queries with exactly the stored
    // intervals that intersect
    let index = build_index();
    assert_eq!(index.query_index.query_count(i32::MIN, i32::MAX), 4);
    assert_eq!(index.query_index.query_count(0, 0), 0);
    assert_eq!(index.query_index.query_count(1, 1), 1);
    assert_eq!(index.query_index.query_count(5, 6), 2);
    assert_eq!(index.target_index.query_count(7, 7), 2);
    assert_eq!(index.target_index.query_count(11, 35), 0);
}

#[test]
fn test_generate_segments_sixty() {
    // windows of five advance by two until [0, 60) is covered; the final
    // window ends exactly at (60, 60)
    let segments = generate_segments(60, 60, 5);
    assert_eq!(segments.len(), 29);
    assert_eq!(segments[0], ((0, 5), (0, 5)));
    assert_eq!(segments[1], ((2, 7), (2, 7)));
    assert_eq!(segments[27], ((54, 59), (54, 59)));
    assert_eq!(segments[28], ((56, 60), (56, 60)));
}

#[test]
fn test_generate_segments_empty() {
    // one empty sequence yields no windows at all
    let segments = generate_segments(0, 10, 5);
    assert!(segments.is_empty());
    let segments2 = generate_segments(10, 0, 5);
    assert!(segments2.is_empty());
}

#[test]
fn test_generate_segments_clipped_final() {
    // the final window is clipped to the true lengths of both sequences
    let segments = generate_segments(12, 9, 5);
    let last = segments[segments.len() - 1];
    assert_eq!(last.0 .1, 12);
    assert_eq!(last.1 .1, 9);
}

#[test]
fn test_generate_segments_config_modes() {
    let overlapping = AppConfig::new("in.paf", None, 6, 1, None, false, 0);
    let segs = generate_segments_cfg(20, 20, &overlapping);
    // overlapping windows advance by half the window size
    assert_eq!(segs[0], ((0, 6), (0, 6)));
    assert_eq!(segs[1], ((3, 9), (3, 9)));
}

fn evidence_index() -> wffilter::filter::index::Index {
    build_index()
}

fn candidates() -> PAF {
    // one candidate pair over the sequences the built-in evidence covers,
    // and one pair no evidence mentions
    let s = "q\t10\t0\t10\t+\tt\t10\t0\t10\t10\t10\t60\tcg:Z:10M\n\
             x\t10\t0\t10\t+\ty\t10\t0\t10\t10\t10\t60\tcg:Z:10M\n";
    PAF::from_str(s)
}

#[test]
fn test_filter_end_to_end() {
    // evidence at [1,5) and [6,9) on the query axis and [3,8) and [7,10) on
    // the target axis, all from line 1, corroborates the (q, t) candidate on
    // both axes; the (x, y) pair has no evidence and contributes nothing
    let index = evidence_index();
    let paf = candidates();
    let config = AppConfig::new("in.paf", None, 5, 1, None, false, 0);
    let surviving = filter(&index, &paf, &config);
    assert_eq!(surviving, vec![1]);
}

#[test]
fn test_filter_idempotent() {
    // the same index and candidate set give the identical output list
    let index = evidence_index();
    let paf = candidates();
    let config = AppConfig::new("in.paf", None, 5, 1, None, false, 0);
    let first = filter(&index, &paf, &config);
    let second = filter(&index, &paf, &config);
    assert_eq!(first, second);
}

#[test]
fn test_filter_config_invariance() {
    // neither the thread count nor the verbosity level changes the output
    let index = evidence_index();
    let paf = candidates();
    let quiet = AppConfig::new("in.paf", None, 5, 1, None, false, 0);
    let loud = AppConfig::new("in.paf", None, 5, 16, None, false, 2);
    assert_eq!(filter(&index, &paf, &quiet), filter(&index, &paf, &loud));
}

#[test]
fn test_filter_adaptive_band() {
    // the adaptive band keeps the corroborated line of the scenario
    let index = evidence_index();
    let paf = candidates();
    let config = AppConfig::new("in.paf", None, 5, 1, None, true, 0);
    let surviving = filter(&index, &paf, &config);
    assert_eq!(surviving, vec![1]);
}

#[test]
fn test_filter_no_evidence_is_empty() {
    // a candidate set whose names the evidence never mentions is entirely
    // filtered out; that is an empty result, not an error
    let index = evidence_index();
    let paf = PAF::from_str("x\t10\t0\t10\t+\ty\t10\t0\t10\t10\t10\t60\tcg:Z:10M\n");
    let config = AppConfig::new("in.paf", None, 5, 1, None, false, 0);
    let surviving = filter(&index, &paf, &config);
    assert!(surviving.is_empty());
}

#[test]
fn test_filter_origin_evidence_survives() {
    // evidence that covers the very start of both sequences of a candidate
    // pair is always found and its line survives
    let evidence = PAF::from_str("q\t10\t0\t10\t+\tt\t10\t0\t10\t10\t10\t60\tcg:Z:4M\n");
    let index = index_paf_matches(&evidence);
    let candidate = PAF::from_str("q\t10\t0\t10\t+\tt\t10\t0\t10\t10\t10\t60\tcg:Z:10M\n");
    let config = AppConfig::new("in.paf", None, 5, 1, None, false, 0);
    let surviving = filter(&index, &candidate, &config);
    assert_eq!(surviving, vec![0]);
}

#[test]
fn test_filter_sorted_dedup() {
    // both evidence lines can survive when candidates cover them; the output
    // is sorted ascending without duplicates
    let index = evidence_index();
    let s = "q\t35\t0\t35\t+\tt\t60\t0\t60\t35\t35\t60\tcg:Z:35M\n\
             q\t35\t0\t35\t+\tt\t60\t0\t60\t35\t35\t60\tcg:Z:35M\n";
    let paf = PAF::from_str(s);
    let config = AppConfig::new("in.paf", None, 5, 1, None, false, 0);
    let surviving = filter(&index, &paf, &config);
    for w in surviving.windows(2) {
        assert!(w[0] < w[1]);
    }
    assert!(surviving.contains(&1));
}
