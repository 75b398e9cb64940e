//! The variant classifier and the per-record pipeline of the annotation
//! stage: allele classification by lengths, variety resolution for
//! `sequence_alteration` records, interval derivation, and the assembly of
//! candidate interval records from one decoded source record.

use vstd::prelude::*;

use crate::record::{dedup_strings, seq_views, Line};
use crate::severity::{any_bad_rank, flat_terms, most_severe, spec_best_fold, SeverityTable};
use crate::textio::{contains_char, field_at, spec_field_at, str_eq};

verus! {

/// The structural class of a single alternate allele.
#[derive(Clone, Copy, PartialEq, Eq, Structural, Debug)]
pub enum AlleleClass {
    Snv,
    Deletion,
    Insertion,
    Indel,
    Substitution,
}

/// Classify one allele by the reference and alternate lengths.  `None` is
/// the one unreachable combination (both lengths below two yet different),
/// treated as an internal error.
pub open spec fn spec_classify(ref_len: nat, alt_len: nat) -> Option<AlleleClass> {
    if alt_len < 2 && ref_len < 2 && alt_len == ref_len {
        Some(AlleleClass::Snv)
    } else if alt_len < 2 && ref_len >= 2 {
        Some(AlleleClass::Deletion)
    } else if alt_len >= 2 && ref_len < 2 {
        Some(AlleleClass::Insertion)
    } else if alt_len >= 2 && ref_len >= 2 && alt_len != ref_len {
        Some(AlleleClass::Indel)
    } else if alt_len >= 2 && ref_len >= 2 && alt_len == ref_len {
        Some(AlleleClass::Substitution)
    } else {
        None
    }
}

/// Classify one allele by the reference and alternate lengths.
pub fn classify_allele(ref_len: usize, alt_len: usize) -> (r: Option<AlleleClass>)
    ensures
        r == spec_classify(ref_len as nat, alt_len as nat),
{
    if alt_len < 2 && ref_len < 2 && alt_len == ref_len {
        Some(AlleleClass::Snv)
    } else if alt_len < 2 && ref_len >= 2 {
        Some(AlleleClass::Deletion)
    } else if alt_len >= 2 && ref_len < 2 {
        Some(AlleleClass::Insertion)
    } else if alt_len >= 2 && ref_len >= 2 && alt_len != ref_len {
        Some(AlleleClass::Indel)
    } else if alt_len >= 2 && ref_len >= 2 && alt_len == ref_len {
        Some(AlleleClass::Substitution)
    } else {
        None
    }
}

/// Some allele hits the unreachable classification case.
pub open spec fn spec_any_unclassifiable(ref_len: nat, alts: Seq<Seq<char>>) -> bool {
    exists|i: int| 0 <= i < alts.len() && spec_classify(ref_len, (#[trigger] alts[i]).len()) is None
}

/// Some allele classifies as a single-base exchange.
pub open spec fn spec_any_snv_or_sub(ref_len: nat, alts: Seq<Seq<char>>) -> bool {
    exists|i: int|
        0 <= i < alts.len() && {
            let c = spec_classify(ref_len, (#[trigger] alts[i]).len());
            c == Some(AlleleClass::Snv) || c == Some(AlleleClass::Substitution)
        }
}

/// The record's variety, and whether a `sequence_alteration` record was
/// kept as such despite an exchange-like allele (a diagnostic, not an
/// error).  Any class other than `sequence_alteration` stands unchanged;
/// a `sequence_alteration` record whose alleles are all insertions,
/// deletions or indels becomes `indel`.  `None` on the internal
/// classification error.
pub open spec fn spec_resolve_variety(class: Seq<char>, ref_len: nat, alts: Seq<Seq<char>>) -> Option<
    (Seq<char>, bool),
> {
    if class != "sequence_alteration"@ {
        Some((class, false))
    } else if spec_any_unclassifiable(ref_len, alts) {
        None
    } else if spec_any_snv_or_sub(ref_len, alts) {
        Some((class, true))
    } else {
        Some(("indel"@, false))
    }
}

/// The model of an optional variety resolution.
pub open spec fn opt_variety_model(r: Option<(String, bool)>) -> Option<(Seq<char>, bool)> {
    match r {
        Some(p) => Some((p.0@, p.1)),
        None => None,
    }
}

/// Resolve a record's variety from its annotated class and its alleles.
pub fn resolve_variety(class: String, ref_len: usize, alts: &Vec<String>) -> (r: Option<
    (String, bool),
>)
    ensures
        opt_variety_model(r) == spec_resolve_variety(class@, ref_len as nat, seq_views(alts@)),
{
    if !str_eq(class.as_str(), "sequence_alteration") {
        return Some((class, false));
    }
    let mut any_bad = false;
    let mut any_snv = false;
    let n = alts.len();
    let mut i: usize = 0;
    while i < n
        invariant
            n == alts@.len(),
            i <= n,
            any_bad == spec_any_unclassifiable(ref_len as nat, seq_views(alts@).subrange(0, i as int)),
            any_snv == spec_any_snv_or_sub(ref_len as nat, seq_views(alts@).subrange(0, i as int)),
        decreases n - i,
    {
        let ghost pre = seq_views(alts@).subrange(0, i as int);
        let ghost cur = seq_views(alts@).subrange(0, i + 1);
        let alt_len = alts[i].unicode_len();
        proof {
            assert(cur.drop_last() =~= pre);
            assert(cur.last() == seq_views(alts@)[i as int]);
            assert(seq_views(alts@)[i as int].len() == alts@[i as int]@.len());
        }
        match classify_allele(ref_len, alt_len) {
            None => {
                any_bad = true;
                proof {
                    assert(spec_classify(ref_len as nat, cur[i as int].len()) is None);
                    assert(spec_any_unclassifiable(ref_len as nat, cur));
                }
            },
            Some(c) => {
                if matches!(c, AlleleClass::Snv) || matches!(c, AlleleClass::Substitution) {
                    any_snv = true;
                    proof {
                        assert(spec_any_snv_or_sub(ref_len as nat, cur)) by {
                            assert(0 <= i < cur.len() && {
                                let cc = spec_classify(ref_len as nat, cur[i as int].len());
                                cc == Some(AlleleClass::Snv) || cc == Some(
                                    AlleleClass::Substitution,
                                )
                            });
                        }
                    }
                }
            },
        }
        proof {
            if !any_bad {
                assert(forall|k: int| 0 <= k < cur.len() ==> spec_classify(
                    ref_len as nat,
                    (#[trigger] cur[k]).len(),
                ) is Some) by {
                    assert(forall|k: int| 0 <= k < pre.len() ==> cur[k] == pre[k]);
                }
            }
            if !any_snv {
                assert(!spec_any_snv_or_sub(ref_len as nat, cur)) by {
                    assert(forall|k: int| 0 <= k < pre.len() ==> cur[k] == pre[k]);
                }
            }
        }
        i += 1;
    }
    proof {
        assert(seq_views(alts@).subrange(0, n as int) =~= seq_views(alts@));
    }
    if any_bad {
        None
    } else if any_snv {
        Some((class, true))
    } else {
        Some(("indel".to_owned(), false))
    }
}

/// The interval a record occupies: the 1-based source position becomes a
/// 0-based half-open start; an insertion has no reference span, so its
/// interval is empty.
pub fn interval_of(position: u64, ref_len: u64, insertion: bool) -> (r: (u64, u64))
    requires
        1 <= position,
        position + ref_len <= u64::MAX,
    ensures
        r.0 == position - 1,
        r.1 == if insertion {
            position - 1
        } else {
            position + ref_len
        },
{
    let start = position - 1;
    let end = if insertion {
        start
    } else {
        position + ref_len
    };
    (start, end)
}

/// Why a source record is skipped rather than turned into candidates.
#[derive(Clone, Copy, PartialEq, Eq, Structural, Debug)]
pub enum SkipReason {
    /// The reference allele is longer than 31 characters.
    LongReference,
    /// Some identifier holds several semicolon-separated ids.
    MultipleIds,
    /// The record carries no consequence annotation.
    NoConsequence,
}

/// Why processing a record fails outright.
#[derive(Clone, Copy, PartialEq, Eq, Structural, Debug)]
pub enum RecordError {
    /// A consequence term's rank in the table is not a decimal number.
    RankValue,
    /// An allele hit the unreachable classification case.
    Classification,
}

/// One candidate interval record, and whether a `sequence_alteration`
/// diagnostic is owed for it.
pub struct Candidate {
    pub line: Line,
    pub alteration_kept: bool,
}

/// What processing one source record produces.
pub enum RecordOutcome {
    Skipped(SkipReason),
    Candidates(Vec<Candidate>),
}

/// Whether a record is skipped, and why; the checks in their fixed order.
pub open spec fn spec_skip(ref_len: nat, ids: Seq<Seq<char>>, n_csq: nat) -> Option<SkipReason> {
    if ref_len > 31 {
        Some(SkipReason::LongReference)
    } else if exists|i: int| 0 <= i < ids.len() && (#[trigger] ids[i]).contains(';') {
        Some(SkipReason::MultipleIds)
    } else if n_csq == 0 {
        Some(SkipReason::NoConsequence)
    } else {
        None
    }
}

/// The consequence field of each raw annotation string.
pub open spec fn csq_consequences(raw: Seq<Seq<char>>) -> Seq<Seq<char>> {
    raw.map_values(|s: Seq<char>| spec_field_at(s, '|', 1))
}

/// The variant-class field of each raw annotation string.
pub open spec fn csq_classes(raw: Seq<Seq<char>>) -> Seq<Seq<char>> {
    raw.map_values(|s: Seq<char>| spec_field_at(s, '|', 21))
}

/// One candidate carries the record's data under one identifier.
pub open spec fn candidate_ok(
    c: Candidate,
    chromosome: Seq<char>,
    position: u64,
    refv: Seq<char>,
    id: Seq<char>,
    altsv: Seq<Seq<char>>,
    vw: (Seq<char>, bool),
    best: (Seq<char>, u8, u8),
) -> bool {
    &&& c.line.wf()
    &&& c.line@.chromosome == chromosome
    &&& c.line@.start == position - 1
    &&& c.line@.end == if vw.0 == "insertion"@ {
        position - 1
    } else {
        position + refv.len()
    }
    &&& c.line@.id == id
    &&& c.line@.variety == vw.0
    &&& c.line@.reference == refv
    &&& c.line@.alts == altsv.to_set()
    &&& c.line@.group == best.2
    &&& c.line@.severity == best.0
    &&& c.line@.severity_rank == best.1
    &&& c.alteration_kept == vw.1
}

/// Turn one decoded source record into candidate interval records, one per
/// identifier, or skip it, or fail on it, exactly as the stage's policy
/// says.
pub fn process_record(
    chromosome: String,
    position: u64,
    reference: String,
    ids: Vec<String>,
    alts: Vec<String>,
    csqs_raw: Vec<String>,
    table: &SeverityTable,
) -> (r: Result<RecordOutcome, RecordError>)
    requires
        1 <= position,
        position <= u64::MAX - 31,
    ensures
        ({
            let refv = reference@;
            let idsv = seq_views(ids@);
            let altsv = seq_views(alts@);
            let raw = seq_views(csqs_raw@);
            let terms = flat_terms(csq_consequences(raw));
            match spec_skip(refv.len(), idsv, raw.len()) {
                Some(reason) => r == Ok::<RecordOutcome, RecordError>(
                    RecordOutcome::Skipped(reason),
                ),
                None => {
                    if any_bad_rank(terms, *table) {
                        r == Err::<RecordOutcome, RecordError>(RecordError::RankValue)
                    } else {
                        let best = spec_best_fold(terms, *table);
                        match spec_resolve_variety(csq_classes(raw)[0], refv.len(), altsv) {
                            None => r == Err::<RecordOutcome, RecordError>(
                                RecordError::Classification,
                            ),
                            Some(vw) => match r {
                                Ok(RecordOutcome::Candidates(cs)) => {
                                    &&& cs@.len() == idsv.len()
                                    &&& forall|k: int|
                                        0 <= k < cs@.len() ==> candidate_ok(
                                            #[trigger] cs@[k],
                                            chromosome@,
                                            position,
                                            refv,
                                            idsv[k],
                                            altsv,
                                            vw,
                                            best,
                                        )
                                },
                                _ => false,
                            },
                        }
                    }
                },
            }
        }),
{
    let ref_len = reference.unicode_len();
    if ref_len > 31 {
        return Ok(RecordOutcome::Skipped(SkipReason::LongReference));
    }
    let mut i: usize = 0;
    let n_ids = ids.len();
    while i < n_ids
        invariant
            n_ids == ids@.len(),
            i <= n_ids,
            ref_len == reference@.len(),
            ref_len <= 31,
            forall|k: int| 0 <= k < i ==> !(#[trigger] seq_views(ids@)[k]).contains(';'),
        decreases n_ids - i,
    {
        if contains_char(ids[i].as_str(), ';') {
            proof {
                assert(seq_views(ids@)[i as int].contains(';'));
            }
            return Ok(RecordOutcome::Skipped(SkipReason::MultipleIds));
        }
        i += 1;
    }
    if csqs_raw.len() == 0 {
        return Ok(RecordOutcome::Skipped(SkipReason::NoConsequence));
    }
    let ghost raw = seq_views(csqs_raw@);
    let mut consequences: Vec<String> = Vec::new();
    let mut classes: Vec<String> = Vec::new();
    let n_csq = csqs_raw.len();
    let mut j: usize = 0;
    proof {
        assert(seq_views(consequences@) =~= csq_consequences(raw).subrange(0, 0));
        assert(seq_views(classes@) =~= csq_classes(raw).subrange(0, 0));
    }
    while j < n_csq
        invariant
            n_csq == csqs_raw@.len(),
            j <= n_csq,
            raw == seq_views(csqs_raw@),
            seq_views(consequences@) == csq_consequences(raw).subrange(0, j as int),
            seq_views(classes@) == csq_classes(raw).subrange(0, j as int),
        decreases n_csq - j,
    {
        let ghost cpre = seq_views(consequences@);
        let ghost kpre = seq_views(classes@);
        let cons = field_at(csqs_raw[j].as_str(), '|', 1);
        let cls = field_at(csqs_raw[j].as_str(), '|', 21);
        consequences.push(cons);
        classes.push(cls);
        proof {
            assert(seq_views(consequences@) =~= cpre.push(csq_consequences(raw)[j as int]));
            assert(seq_views(consequences@) =~= csq_consequences(raw).subrange(0, j + 1));
            assert(seq_views(classes@) =~= kpre.push(csq_classes(raw)[j as int]));
            assert(seq_views(classes@) =~= csq_classes(raw).subrange(0, j + 1));
        }
        j += 1;
    }
    proof {
        assert(csq_consequences(raw).subrange(0, n_csq as int) =~= csq_consequences(raw));
        assert(csq_classes(raw).subrange(0, n_csq as int) =~= csq_classes(raw));
    }
    let best = match most_severe(&consequences, table) {
        None => {
            return Err(RecordError::RankValue);
        },
        Some(b) => b,
    };
    let class0 = classes[0].clone();
    assert(class0@ == csq_classes(raw)[0]);
    let resolved = match resolve_variety(class0, ref_len, &alts) {
        None => {
            return Err(RecordError::Classification);
        },
        Some(v) => v,
    };
    let variety = resolved.0;
    let warn = resolved.1;
    let insertion = str_eq(variety.as_str(), "insertion");
    let coords = interval_of(position, ref_len as u64, insertion);
    let clean_alts = dedup_strings(&alts);
    let base = Line {
        chromosome,
        start: coords.0,
        end: coords.1,
        id: String::new(),
        variety,
        reference,
        alts: clean_alts,
        group: best.2,
        severity: best.0,
        severity_rank: best.1,
    };
    let mut cs: Vec<Candidate> = Vec::new();
    let mut k: usize = 0;
    let ghost vw = (base.variety@, warn);
    let ghost bestg = (base.severity@, base.severity_rank, base.group);
    while k < n_ids
        invariant
            n_ids == ids@.len(),
            k <= n_ids,
            cs@.len() == k,
            base.wf(),
            vw == (base.variety@, warn),
            bestg == (base.severity@, base.severity_rank, base.group),
            forall|m: int|
                0 <= m < k ==> candidate_ok(
                    #[trigger] cs@[m],
                    base.chromosome@,
                    position,
                    base.reference@,
                    seq_views(ids@)[m],
                    seq_views(alts@),
                    vw,
                    bestg,
                ),
            base@.start == position - 1,
            base@.end == if base.variety@ == "insertion"@ {
                position - 1
            } else {
                position + base.reference@.len()
            },
            base@.alts == seq_views(alts@).to_set(),
        decreases n_ids - k,
    {
        let mut line = base.duplicate();
        line.id = ids[k].clone();
        proof {
            assert(line@.id == seq_views(ids@)[k as int]);
        }
        cs.push(Candidate { line, alteration_kept: warn });
        k += 1;
    }
    Ok(RecordOutcome::Candidates(cs))
}

} // verus!
