use wffilter::filter::types::Strand;
use wffilter::mashmap::{MashMapLine, MashMapOutput};
use wffilter::paf::paf::{AlignmentPair, PafAlignment, PafLookup, PafMetadata, PAF};
use wffilter::text::parse_u32;

static TEST_PAF_STRING: &str = "qry\t330243\t0\t330243\t+\ttgt\t330243\t0\t330243\t330243\t330243\t60\tNM:i:0\tms:i:660486\tAS:i:660486\tnn:i:0\ttp:A:P\tcm:i:62290\ts1:i:329202\ts2:i:262341\tde:f:0\trl:i:2730\tcg:Z:330243M";

static TEST_MASHMAP_STRING: &str = "\
    qry1\t11068\t0\t11067\t+\ttgt1\t11068\t0\t11048\t99.9938\
    ";

static TEST_MASHMAP_FILE: &str = "\
    qry2\t13403\t0\t13402\t+\ttgt2\t13403\t0\t13389\t99.4385\
    \n\
    qry3\t15600\t0\t15599\t-\ttgt3\t15600\t0\t15589\t99.577\
    ";

#[test]
fn test_parse_single_alignment() {
    let aln = MashMapLine::from_str(TEST_MASHMAP_STRING);
    let aln2 = MashMapLine {
        query: String::from("qry1"),
        query_length: 11068,
        query_start: 0,
        query_stop: 11067,

        strand: Strand::Forward,

        target: String::from("tgt1"),
        target_length: 11068,
        target_start: 0,
        target_stop: 11048,
    };

    assert_eq!(aln, aln2);
}

#[test]
fn test_parse_file() {
    let lines: Vec<String> = TEST_MASHMAP_FILE.lines().map(|x| x.to_string()).collect();
    let file1 = MashMapLine::from_lines(lines);

    let aln2 = MashMapLine {
        query: String::from("qry2"),
        query_length: 13403,
        query_start: 0,
        query_stop: 13402,

        strand: Strand::Forward,

        target: String::from("tgt2"),
        target_length: 13403,
        target_start: 0,
        target_stop: 13389,
    };
    let aln3 = MashMapLine {
        query: String::from("qry3"),
        query_length: 15600,
        query_start: 0,
        query_stop: 15599,

        strand: Strand::Reverse,

        target: String::from("tgt3"),
        target_length: 15600,
        target_start: 0,
        target_stop: 15589,
    };
    let file2 = vec![aln2, aln3];

    assert_eq!(file1, file2);
}

#[test]
fn test_gen_unique_mappings() {
    let lines: Vec<String> = TEST_MASHMAP_FILE.lines().map(|x| x.to_string()).collect();
    let mappings = MashMapLine::from_lines(lines);

    let output = MashMapOutput::new(mappings);
    let unique = output.gen_unique_mappings();
    assert_eq!(unique.len(), 2);
    assert_eq!(unique[0].1.len(), 1);
}

#[test]
fn test_parse_alignment() {
    let aln = PafAlignment::from_str(TEST_PAF_STRING);
    let aln2 = PafAlignment::new(
        "qry",
        330243,
        0,
        330243,
        Strand::Forward,
        "tgt",
        330243,
        0,
        330243,
        "330243M",
    );

    assert_eq!(aln, aln2);
}

#[test]
fn test_paf_metadata() {
    let paf = PAF::from_str(TEST_PAF_STRING);
    let mut lookup = PafLookup::empty();
    lookup.insert(String::from("qry"), PafMetadata { length: 330243 });
    lookup.insert(String::from("tgt"), PafMetadata { length: 330243 });

    let metadata = paf.get_metadata();

    assert_eq!(metadata.len(), lookup.len());
}

#[test]
fn test_paf_unique_alignments() {
    let paf = PAF::from_str(TEST_PAF_STRING);
    let mut unique_alignments: Vec<AlignmentPair> = Vec::new();

    unique_alignments.push(AlignmentPair {
        target_name: String::from("tgt"),
        query_name: String::from("qry"),
    });

    assert_eq!(paf.get_unique_alignments(), unique_alignments);
}

#[test]
fn test_try_parse_rejects_malformed() {
    // too few fields
    assert!(PafAlignment::try_from_str("a\tb\tc").is_none());
    // missing edit-script tag
    assert!(PafAlignment::try_from_str(
        "qry\t10\t0\t10\t+\ttgt\t10\t0\t10\t10\t10\t60"
    )
    .is_none());
    // non-numeric coordinate
    assert!(MashMapLine::try_from_str("q\tx\t0\t9\t+\tt\t10\t0\t9\t99.9").is_none());
    // well-formed lines parse
    assert!(PafAlignment::try_from_str(TEST_PAF_STRING).is_some());
    assert!(MashMapLine::try_from_str(TEST_MASHMAP_STRING).is_some());
}

#[test]
fn test_parse_u32_bounds() {
    assert_eq!(parse_u32("0"), Some(0));
    assert_eq!(parse_u32("4294967295"), Some(u32::MAX));
    assert_eq!(parse_u32("4294967296"), None);
    assert_eq!(parse_u32(""), None);
    assert_eq!(parse_u32("12a"), None);
}

#[test]
fn test_paf_try_from_str() {
    let paf = PAF::try_from_str(TEST_PAF_STRING).expect("well-formed file");
    assert_eq!(paf.get_alignments().len(), 1);
    assert!(PAF::try_from_str("not a paf line").is_none());
}
