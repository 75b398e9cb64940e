use vcf_prepper::classify::{
    classify_allele, interval_of, process_record, resolve_variety, AlleleClass, RecordError,
    RecordOutcome, SkipReason,
};
use vcf_prepper::dedupe::IdDeduper;
use vcf_prepper::severity::SeverityTable;
use vcf_prepper::track::{convert_interval, Expander};

fn table(pairs: &[(&str, &str)]) -> SeverityTable {
    SeverityTable::new(
        pairs.iter().map(|(k, v)| (k.to_string(), v.to_string())).collect(),
    )
}

fn strings(items: &[&str]) -> Vec<String> {
    items.iter().map(|s| s.to_string()).collect()
}

/// A raw annotation string whose consequence field is `csq` and whose
/// variant-class field is `class`.
fn csq_string(csq: &str, class: &str) -> String {
    let mut s = format!("x|{}", csq);
    for _ in 0..19 {
        s.push('|');
    }
    s.push('|');
    s.push_str(class);
    s
}

#[test]
fn allele_classification() {
    assert_eq!(classify_allele(1, 1), Some(AlleleClass::Snv));
    assert_eq!(classify_allele(5, 1), Some(AlleleClass::Deletion));
    assert_eq!(classify_allele(1, 5), Some(AlleleClass::Insertion));
    assert_eq!(classify_allele(5, 7), Some(AlleleClass::Indel));
    assert_eq!(classify_allele(5, 5), Some(AlleleClass::Substitution));
    assert_eq!(classify_allele(0, 1), None);
}

#[test]
fn variety_resolution() {
    // Anything but sequence_alteration stands unchanged.
    let (v, warn) = resolve_variety("SNV".to_string(), 1, &strings(&["T"])).unwrap();
    assert_eq!(v, "SNV");
    assert!(!warn);
    // All alleles insertion/deletion/indel: becomes indel.
    let (v, warn) =
        resolve_variety("sequence_alteration".to_string(), 1, &strings(&["AT", "ACG"])).unwrap();
    assert_eq!(v, "indel");
    assert!(!warn);
    // An exchange-like allele keeps the class and owes a diagnostic.
    let (v, warn) =
        resolve_variety("sequence_alteration".to_string(), 1, &strings(&["AT", "C"])).unwrap();
    assert_eq!(v, "sequence_alteration");
    assert!(warn);
    // The unreachable combination is an internal error.
    assert!(resolve_variety("sequence_alteration".to_string(), 0, &strings(&["C"])).is_none());
}

#[test]
fn interval_derivation() {
    assert_eq!(interval_of(100, 1, false), (99, 101));
    // An insertion has no reference span.
    assert_eq!(interval_of(100, 1, true), (99, 99));
}

#[test]
fn record_processing() {
    let t = table(&[("missense_variant", "2"), ("intron_variant", "20")]);
    let out = process_record(
        "chr1".to_string(),
        100,
        "A".to_string(),
        strings(&["rs1"]),
        strings(&["T", "C"]),
        vec![csq_string("intron_variant", "SNV"), csq_string("missense_variant", "SNV")],
        &t,
    )
    .unwrap();
    match out {
        RecordOutcome::Candidates(cs) => {
            assert_eq!(cs.len(), 1);
            let l = &cs[0].line;
            assert_eq!(l.chromosome, "chr1");
            assert_eq!(l.start, 99);
            assert_eq!(l.end, 101);
            assert_eq!(l.id, "rs1");
            assert_eq!(l.variety, "SNV");
            assert_eq!(l.reference, "A");
            assert_eq!(l.alts, vec!["T".to_string(), "C".to_string()]);
            assert_eq!(l.group, 1);
            assert_eq!(l.severity, "missense_variant");
            assert_eq!(l.severity_rank, 2);
            assert!(!cs[0].alteration_kept);
        },
        RecordOutcome::Skipped(_) => panic!("candidates owed"),
    }
}

#[test]
fn record_skips_and_errors() {
    let t = table(&[("missense_variant", "2")]);
    let long_ref: String = "A".repeat(32);
    let csqs = vec![csq_string("missense_variant", "SNV")];
    assert!(matches!(
        process_record(
            "chr1".to_string(),
            100,
            long_ref,
            strings(&["rs1"]),
            strings(&["T"]),
            csqs.clone(),
            &t
        ),
        Ok(RecordOutcome::Skipped(SkipReason::LongReference))
    ));
    assert!(matches!(
        process_record(
            "chr1".to_string(),
            100,
            "A".to_string(),
            strings(&["rs1;rs2"]),
            strings(&["T"]),
            csqs.clone(),
            &t
        ),
        Ok(RecordOutcome::Skipped(SkipReason::MultipleIds))
    ));
    assert!(matches!(
        process_record(
            "chr1".to_string(),
            100,
            "A".to_string(),
            strings(&["rs1"]),
            strings(&["T"]),
            vec![],
            &t
        ),
        Ok(RecordOutcome::Skipped(SkipReason::NoConsequence))
    ));
    let bad = table(&[("missense_variant", "oops")]);
    assert!(matches!(
        process_record(
            "chr1".to_string(),
            100,
            "A".to_string(),
            strings(&["rs1"]),
            strings(&["T"]),
            csqs.clone(),
            &bad
        ),
        Err(RecordError::RankValue)
    ));
    assert!(matches!(
        process_record(
            "chr1".to_string(),
            100,
            "".to_string(),
            strings(&["rs1"]),
            strings(&["T"]),
            vec![csq_string("missense_variant", "sequence_alteration")],
            &t
        ),
        Err(RecordError::Classification)
    ));
}

#[test]
fn insertion_interval_is_widened() {
    // A zero-length insertion interval [99, 99), 1-based [100, 99],
    // widens to the single base 100.
    assert_eq!(convert_interval(99, 99), (100, 100));
    let mut e = Expander::new();
    let (header, values) = e.step("chr1", 100, 100, "4");
    assert_eq!(header.unwrap(), "fixedStep  chrom=chr1 start=1 step=1");
    assert_eq!(values.len(), 100);
    assert_eq!(values[98], "0");
    assert_eq!(values[99], "4");
}

#[test]
fn track_expansion_and_reset() {
    let mut e = Expander::new();
    let (h1, v1) = e.step("chr1", 2, 3, "1");
    assert_eq!(h1.unwrap(), "fixedStep  chrom=chr1 start=1 step=1");
    assert_eq!(v1, vec!["0", "1", "1"]);
    // Same chromosome: no header, the position keeps running.
    let (h2, v2) = e.step("chr1", 5, 6, "2");
    assert!(h2.is_none());
    assert_eq!(v2, vec!["0", "2", "2"]);
    // An already-covered record emits nothing further.
    let (h3, v3) = e.step("chr1", 2, 4, "9");
    assert!(h3.is_none());
    assert_eq!(v3.len(), 0);
    // A new chromosome resets the position.
    let (h4, v4) = e.step("chr2", 1, 2, "3");
    assert_eq!(h4.unwrap(), "fixedStep  chrom=chr2 start=1 step=1");
    assert_eq!(v4, vec!["3", "3"]);
    // Output length for a chromosome is the largest end coordinate.
    assert_eq!(v1.len() + v2.len() + v3.len(), 6);
}

#[test]
fn id_dedupe_keeps_first() {
    let mut d = IdDeduper::new();
    assert!(d.first_sighting(&"rs1".to_string()));
    assert!(d.first_sighting(&"rs2".to_string()));
    assert!(!d.first_sighting(&"rs1".to_string()));
    assert!(!d.first_sighting(&"rs2".to_string()));
    assert!(d.first_sighting(&"rs3".to_string()));
}
