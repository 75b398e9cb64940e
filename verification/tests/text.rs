use vcf_prepper::codec::DecodeError;
use vcf_prepper::record::{Line, Stage};
use vcf_prepper::severity::{group_of, most_severe, parse_severity_json, SeverityTable};
use vcf_prepper::textio::{
    contains_char, field_at, join_strings, parse_u64, parse_u8, split_fields, str_eq,
    u64_to_string,
};

fn table(pairs: &[(&str, &str)]) -> SeverityTable {
    SeverityTable::new(
        pairs.iter().map(|(k, v)| (k.to_string(), v.to_string())).collect(),
    )
}

#[test]
fn string_helpers() {
    assert!(str_eq("abc", "abc"));
    assert!(!str_eq("abc", "abd"));
    assert!(!str_eq("abc", "ab"));
    assert!(contains_char("rs1;rs2", ';'));
    assert!(!contains_char("rs1", ';'));
}

#[test]
fn parse_numbers() {
    assert_eq!(parse_u64("0"), Some(0));
    assert_eq!(parse_u64("123"), Some(123));
    assert_eq!(parse_u64("+7"), Some(7));
    assert_eq!(parse_u64("007"), Some(7));
    assert_eq!(parse_u64(""), None);
    assert_eq!(parse_u64("+"), None);
    assert_eq!(parse_u64("1a"), None);
    assert_eq!(parse_u64("-1"), None);
    assert_eq!(parse_u64("18446744073709551615"), Some(u64::MAX));
    assert_eq!(parse_u64("18446744073709551616"), None);
    assert_eq!(parse_u8("255"), Some(255));
    assert_eq!(parse_u8("256"), None);
}

#[test]
fn format_numbers() {
    assert_eq!(u64_to_string(0), "0");
    assert_eq!(u64_to_string(9), "9");
    assert_eq!(u64_to_string(9876543210), "9876543210");
    assert_eq!(parse_u64(&u64_to_string(123456)), Some(123456));
}

#[test]
fn split_and_join() {
    assert_eq!(split_fields("a b c", ' '), vec!["a", "b", "c"]);
    assert_eq!(split_fields("a//b", '/'), vec!["a", "", "b"]);
    assert_eq!(split_fields("", ' '), vec![""]);
    assert_eq!(split_fields("abc", ' '), vec!["abc"]);
    let parts: Vec<String> = vec!["T".into(), "C".into(), "G".into()];
    assert_eq!(join_strings(&parts, '/'), "T/C/G");
    let one: Vec<String> = vec!["T".into()];
    assert_eq!(join_strings(&one, ','), "T");
    let none: Vec<String> = vec![];
    assert_eq!(join_strings(&none, ','), "");
}

#[test]
fn csq_field_extraction() {
    assert_eq!(field_at("x|missense_variant|y", '|', 1), "missense_variant");
    assert_eq!(field_at("x|y", '|', 5), "");
    assert_eq!(field_at("plain", '|', 0), "plain");
}

#[test]
fn group_table() {
    assert_eq!(group_of("missense_variant"), 1);
    assert_eq!(group_of("splice_region_variant"), 2);
    assert_eq!(group_of("intron_variant"), 3);
    assert_eq!(group_of("TFBS_fusion"), 4);
    assert_eq!(group_of("intergenic_variant"), 5);
    assert_eq!(group_of("no_such_term"), 0);
}

#[test]
fn rank_lookup_and_default() {
    let t = table(&[("missense_variant", "2"), ("intron_variant", "20"), ("odd", "x")]);
    assert_eq!(t.rank_of("missense_variant"), Some(2));
    // A term the table does not carry resolves to the most severe rank 0.
    assert_eq!(t.rank_of("unranked_term"), Some(0));
    // A malformed value is an error, but only when that term is looked up.
    assert_eq!(t.rank_of("odd"), None);
}

#[test]
fn most_severe_fold() {
    let t = table(&[("missense_variant", "2"), ("stop_gained", "1"), ("intron_variant", "20")]);
    let csqs: Vec<String> =
        vec!["intron_variant&missense_variant".into(), "stop_gained".into()];
    let (term, rank, group) = most_severe(&csqs, &t).unwrap();
    assert_eq!(term, "stop_gained");
    assert_eq!(rank, 1);
    assert_eq!(group, 1);
    // Ties keep the earlier term.
    let t2 = table(&[("a_term", "3"), ("b_term", "3")]);
    let csqs2: Vec<String> = vec!["a_term&b_term".into()];
    let (term2, rank2, group2) = most_severe(&csqs2, &t2).unwrap();
    assert_eq!(term2, "a_term");
    assert_eq!(rank2, 3);
    assert_eq!(group2, 0);
    // A malformed rank anywhere in the list is an error.
    let t3 = table(&[("a_term", "x")]);
    assert!(most_severe(&csqs2, &t3).is_none());
}

#[test]
fn severity_json_loading() {
    let parsed = parse_severity_json("{\"missense_variant\": \"2\", \"stop_lost\": \"4\"}")
        .expect("valid object");
    let t = SeverityTable::new(parsed);
    assert_eq!(t.rank_of("missense_variant"), Some(2));
    assert_eq!(t.rank_of("stop_lost"), Some(4));
    assert_eq!(t.rank_of("absent"), Some(0));
    assert!(parse_severity_json("[1, 2]").is_none());
    assert!(parse_severity_json("not json").is_none());
    assert!(parse_severity_json("{\"a\": 3}").is_none());
}

#[test]
fn encode_line_exactly() {
    let l = Line {
        chromosome: "chr1".to_string(),
        start: 99,
        end: 101,
        id: "rs1".to_string(),
        variety: "SNV".to_string(),
        reference: "A".to_string(),
        alts: vec!["T".to_string(), "C".to_string()],
        group: 1,
        severity: "missense_variant".to_string(),
        severity_rank: 2,
    };
    assert_eq!(l.encode(','), "chr1 99 101 rs1 SNV A T,C 1 missense_variant");
    assert_eq!(l.encode('/'), "chr1 99 101 rs1 SNV A T/C 1 missense_variant");
}

#[test]
fn decode_line_and_errors() {
    let t = table(&[("missense_variant", "2")]);
    let l = Line::decode("chr1 99 101 rs1 SNV A T/C 1 missense_variant", '/', &t).unwrap();
    assert_eq!(l.chromosome, "chr1");
    assert_eq!(l.start, 99);
    assert_eq!(l.end, 101);
    assert_eq!(l.id, "rs1");
    assert_eq!(l.variety, "SNV");
    assert_eq!(l.reference, "A");
    assert_eq!(l.alts, vec!["T".to_string(), "C".to_string()]);
    assert_eq!(l.group, 1);
    assert_eq!(l.severity, "missense_variant");
    assert_eq!(l.severity_rank, 2);
    // An unranked severity term defaults to rank 0.
    let l2 = Line::decode("chr1 99 101 rs1 SNV A T 1 other_term", '/', &t).unwrap();
    assert_eq!(l2.severity_rank, 0);
    // Duplicated alleles on the line are deduplicated.
    let l3 = Line::decode("chr1 99 101 rs1 SNV A T/T/C 1 other_term", '/', &t).unwrap();
    assert_eq!(l3.alts, vec!["T".to_string(), "C".to_string()]);
    assert!(matches!(
        Line::decode("chr1 99 101 rs1 SNV A T/C 1", '/', &t),
        Err(DecodeError::FieldCount)
    ));
    assert!(matches!(
        Line::decode("chr1 x 101 rs1 SNV A T/C 1 missense_variant", '/', &t),
        Err(DecodeError::Number)
    ));
    assert!(matches!(
        Line::decode("chr1 99 101 rs1 SNV A T/C 999 missense_variant", '/', &t),
        Err(DecodeError::Number)
    ));
    let bad = table(&[("missense_variant", "nope")]);
    assert!(matches!(
        Line::decode("chr1 99 101 rs1 SNV A T/C 1 missense_variant", '/', &bad),
        Err(DecodeError::Rank)
    ));
}

#[test]
fn remerge_is_byte_identical() {
    let t = table(&[("missense_variant", "2"), ("intron_variant", "20")]);
    let input = vec![
        "chr1 99 101 rs1 SNV A T/C 1 missense_variant".to_string(),
        "chr1 200 210 rs2 deletion ACGT A 3 intron_variant".to_string(),
        "chr2 5 6 rs3 SNV G A 3 intron_variant".to_string(),
    ];
    let merge_once = |lines: &[String]| -> Vec<String> {
        let mut acc = Line::sentinel();
        let mut out = Vec::new();
        for s in lines {
            let rec = Line::decode(s, '/', &t).unwrap();
            if let Some(f) = acc.merge(Some(rec), Stage::CrossPartition) {
                out.push(f.encode('/'));
            }
        }
        if let Some(f) = acc.merge(None, Stage::CrossPartition) {
            out.push(f.encode('/'));
        }
        out
    };
    let once = merge_once(&input);
    let twice = merge_once(&once);
    assert_eq!(once, twice);
    assert_eq!(once, input);
}
