use vcf_prepper::record::{Line, Stage};

fn line(
    chromosome: &str,
    start: u64,
    end: u64,
    id: &str,
    variety: &str,
    reference: &str,
    alts: &[&str],
    group: u8,
    severity: &str,
    severity_rank: u8,
) -> Line {
    Line {
        chromosome: chromosome.to_string(),
        start,
        end,
        id: id.to_string(),
        variety: variety.to_string(),
        reference: reference.to_string(),
        alts: alts.iter().map(|s| s.to_string()).collect(),
        group,
        severity: severity.to_string(),
        severity_rank,
    }
}

#[test]
fn annotation_coalesce_unions_alts_and_adopts_severity() {
    let mut acc = Line::sentinel();
    let r1 = line("chr1", 99, 101, "rs1", "SNV", "A", &["T"], 3, "intron_variant", 5);
    let r2 = line("chr1", 99, 101, "rs1", "SNV", "A", &["C"], 1, "missense_variant", 2);
    assert!(acc.merge(Some(r1), Stage::Annotation).is_none());
    assert!(acc.merge(Some(r2), Stage::Annotation).is_none());
    let out = acc.merge(None, Stage::Annotation).expect("one record owed");
    assert_eq!(out.chromosome, "chr1");
    assert_eq!(out.start, 99);
    assert_eq!(out.end, 101);
    assert_eq!(out.id, "rs1");
    assert_eq!(out.variety, "SNV");
    assert_eq!(out.reference, "A");
    assert_eq!(out.alts, vec!["T".to_string(), "C".to_string()]);
    assert_eq!(out.group, 1);
    assert_eq!(out.severity, "missense_variant");
    assert_eq!(out.severity_rank, 2);
}

#[test]
fn annotation_never_shrinks_interval() {
    let mut acc = Line::sentinel();
    let r1 = line("chr1", 99, 110, "rs1", "deletion", "ACGTACGTACG", &["A"], 3, "intron_variant", 5);
    // More severe but shorter: annotation fields adopted, interval kept.
    let r2 = line("chr1", 99, 105, "rs1", "deletion", "ACGTACGTACG", &["G"], 1, "stop_gained", 1);
    acc.merge(Some(r1), Stage::Annotation);
    acc.merge(Some(r2), Stage::Annotation);
    let out = acc.merge(None, Stage::Annotation).unwrap();
    assert_eq!(out.end, 110);
    assert_eq!(out.severity_rank, 1);
    assert_eq!(out.severity, "stop_gained");
}

#[test]
fn cross_partition_adopts_interval_unconditionally() {
    let mut acc = Line::sentinel();
    let r1 = line("chr1", 99, 110, "x1", "deletion", "ACGTACGTACG", &["A"], 3, "intron_variant", 5);
    let r2 = line("chr1", 99, 105, "x2", "deletion", "ACGTACGTACG", &["G"], 1, "stop_gained", 1);
    acc.merge(Some(r1), Stage::CrossPartition);
    acc.merge(Some(r2), Stage::CrossPartition);
    let out = acc.merge(None, Stage::CrossPartition).unwrap();
    // id is excluded from cross-partition compatibility and never adopted.
    assert_eq!(out.id, "x1");
    assert_eq!(out.end, 105);
    assert_eq!(out.severity_rank, 1);
}

#[test]
fn redundant_candidate_is_dropped() {
    let mut acc = Line::sentinel();
    let r1 = line("chr1", 99, 100, "rs1", "SNV", "A", &["T"], 3, "intron_variant", 5);
    // Same id, other variety, incompatible: dropped, not flushed, not merged.
    let r2 = line("chr1", 200, 210, "rs1", "deletion", "ACGTACGTACG", &["A"], 1, "stop_gained", 1);
    assert!(acc.merge(Some(r1), Stage::Annotation).is_none());
    assert!(acc.merge(Some(r2), Stage::Annotation).is_none());
    let out = acc.merge(None, Stage::Annotation).unwrap();
    assert_eq!(out.variety, "SNV");
    assert_eq!(out.severity_rank, 5);
    assert_eq!(out.alts, vec!["T".to_string()]);
}

#[test]
fn emitted_count_is_number_of_runs() {
    let mut acc = Line::sentinel();
    let mut emitted = 0;
    // Two compatible records, then an incompatible one: two runs.
    let r1 = line("chr1", 99, 100, "rs1", "SNV", "A", &["T"], 3, "intron_variant", 5);
    let r2 = line("chr1", 99, 100, "rs1", "SNV", "A", &["C"], 3, "intron_variant", 4);
    let r3 = line("chr2", 5, 6, "rs2", "SNV", "G", &["A"], 3, "intron_variant", 3);
    for r in [r1, r2, r3] {
        if acc.merge(Some(r), Stage::Annotation).is_some() {
            emitted += 1;
        }
    }
    if acc.merge(None, Stage::Annotation).is_some() {
        emitted += 1;
    }
    assert_eq!(emitted, 2);
}

#[test]
fn duplicate_alts_are_not_repeated() {
    let mut acc = Line::sentinel();
    let r1 = line("chr1", 99, 100, "rs1", "SNV", "A", &["T", "C"], 3, "intron_variant", 5);
    let r2 = line("chr1", 99, 100, "rs1", "SNV", "A", &["C", "G"], 3, "intron_variant", 4);
    acc.merge(Some(r1), Stage::Annotation);
    acc.merge(Some(r2), Stage::Annotation);
    let out = acc.merge(None, Stage::Annotation).unwrap();
    assert_eq!(out.alts, vec!["T".to_string(), "C".to_string(), "G".to_string()]);
}

#[test]
fn compatible_and_redundant_predicates() {
    let a = line("chr1", 99, 100, "rs1", "SNV", "A", &["T"], 3, "intron_variant", 5);
    let b = line("chr1", 99, 100, "rs2", "SNV", "A", &["C"], 3, "intron_variant", 4);
    assert!(!a.compatible(&b, Stage::Annotation));
    assert!(a.compatible(&b, Stage::CrossPartition));
    let c = line("chr1", 300, 310, "rs1", "deletion", "ACGT", &["A"], 3, "intron_variant", 4);
    assert!(a.redundant(&c));
    assert!(!a.redundant(&b));
}
