//! The severity resolver: a fixed consequence-term-to-group table, an
//! externally loaded consequence-term-to-rank table, and the most-severe
//! fold over a record's consequence annotations.

use vstd::prelude::*;

use crate::record::seq_views;
use crate::textio::{parse_u8, spec_parse_u8, split_at, split_fields, str_eq};

verus! {

/// The variant-class group of a consequence term: 1 coding, 2 splice,
/// 3 transcript, 4 regulatory, 5 intergenic, 0 unknown.
pub open spec fn spec_group_of(t: Seq<char>) -> u8 {
    if t == "frameshift_variant"@ || t == "inframe_deletion"@ || t == "inframe_insertion"@ || t
        == "missense_variant"@ || t == "protein_altering_variant"@ || t == "start_lost"@ || t
        == "stop_gained"@ || t == "stop_lost"@ {
        1
    } else if t == "splice_acceptor_variant"@ || t == "splice_donor_5th_base_variant"@ || t
        == "splice_donor_region_variant"@ || t == "splice_donor_variant"@ || t
        == "splice_polypyrimidine_tract_variant"@ || t == "splice_region_variant"@ {
        2
    } else if t == "3_prime_UTR_variant"@ || t == "5_prime_UTR_variant"@ || t
        == "coding_sequence_variant"@ || t == "incomplete_terminal_codon_variant"@ || t
        == "intron_variant"@ || t == "mature_miRNA_variant"@ || t == "NMD_transcript_variant"@
        || t == "non_coding_transcript_exon_variant"@ || t == "non_coding_transcript_variant"@
        || t == "start_retained_variant"@ || t == "stop_retained_variant"@ || t
        == "synonymous_variant"@ || t == "feature_elongation"@ || t == "feature_truncation"@ || t
        == "transcript_ablation"@ || t == "transcript_amplification"@ || t
        == "transcript_fusion"@ || t == "transcript_translocation"@ {
        3
    } else if t == "regulatory_region_variant"@ || t == "TF_binding_site_variant"@ || t
        == "regulatory_region_ablation"@ || t == "regulatory_region_amplification"@ || t
        == "regulatory_region_fusion"@ || t == "regulatory_region_translocation"@ || t
        == "TFBS_ablation"@ || t == "TFBS_amplification"@ || t == "TFBS_fusion"@ || t
        == "TFBS_translocation"@ {
        4
    } else if t == "upstream_gene_variant"@ || t == "downstream_gene_variant"@ || t
        == "intergenic_variant"@ {
        5
    } else {
        0
    }
}

/// The variant-class group of a consequence term.
pub fn group_of(term: &str) -> (g: u8)
    ensures
        g == spec_group_of(term@),
{
    if str_eq(term, "frameshift_variant") || str_eq(term, "inframe_deletion") || str_eq(
        term,
        "inframe_insertion",
    ) || str_eq(term, "missense_variant") || str_eq(term, "protein_altering_variant") || str_eq(
        term,
        "start_lost",
    ) || str_eq(term, "stop_gained") || str_eq(term, "stop_lost") {
        1
    } else if str_eq(term, "splice_acceptor_variant") || str_eq(
        term,
        "splice_donor_5th_base_variant",
    ) || str_eq(term, "splice_donor_region_variant") || str_eq(term, "splice_donor_variant")
        || str_eq(term, "splice_polypyrimidine_tract_variant") || str_eq(
        term,
        "splice_region_variant",
    ) {
        2
    } else if str_eq(term, "3_prime_UTR_variant") || str_eq(term, "5_prime_UTR_variant")
        || str_eq(term, "coding_sequence_variant") || str_eq(
        term,
        "incomplete_terminal_codon_variant",
    ) || str_eq(term, "intron_variant") || str_eq(term, "mature_miRNA_variant") || str_eq(
        term,
        "NMD_transcript_variant",
    ) || str_eq(term, "non_coding_transcript_exon_variant") || str_eq(
        term,
        "non_coding_transcript_variant",
    ) || str_eq(term, "start_retained_variant") || str_eq(term, "stop_retained_variant")
        || str_eq(term, "synonymous_variant") || str_eq(term, "feature_elongation") || str_eq(
        term,
        "feature_truncation",
    ) || str_eq(term, "transcript_ablation") || str_eq(term, "transcript_amplification")
        || str_eq(term, "transcript_fusion") || str_eq(term, "transcript_translocation") {
        3
    } else if str_eq(term, "regulatory_region_variant") || str_eq(term, "TF_binding_site_variant")
        || str_eq(term, "regulatory_region_ablation") || str_eq(
        term,
        "regulatory_region_amplification",
    ) || str_eq(term, "regulatory_region_fusion") || str_eq(
        term,
        "regulatory_region_translocation",
    ) || str_eq(term, "TFBS_ablation") || str_eq(term, "TFBS_amplification") || str_eq(
        term,
        "TFBS_fusion",
    ) || str_eq(term, "TFBS_translocation") {
        4
    } else if str_eq(term, "upstream_gene_variant") || str_eq(term, "downstream_gene_variant")
        || str_eq(term, "intergenic_variant") {
        5
    } else {
        0
    }
}

/// The value of the first entry carrying the key, if any.
pub open spec fn spec_lookup(es: Seq<(String, String)>, t: Seq<char>) -> Option<Seq<char>>
    decreases es.len(),
{
    if es.len() == 0 {
        None
    } else if es[0].0@ == t {
        Some(es[0].1@)
    } else {
        spec_lookup(es.drop_first(), t)
    }
}

/// The externally loaded consequence-term-to-rank table.  Values are kept
/// as the strings they were loaded with and parsed at lookup, so that a
/// malformed value only matters for a term that is actually looked up.
pub struct SeverityTable {
    pub entries: Vec<(String, String)>,
}

impl SeverityTable {
    /// The rank of a term: 0 for a term the table does not carry (the
    /// most severe rank — a known anomaly of the format, kept as is),
    /// `None` for a term whose table value is not a decimal number.
    pub open spec fn spec_rank_of(&self, t: Seq<char>) -> Option<u8> {
        match spec_lookup(self.entries@, t) {
            None => Some(0u8),
            Some(v) => spec_parse_u8(v),
        }
    }

    pub fn new(entries: Vec<(String, String)>) -> (r: SeverityTable)
        ensures
            r.entries@ == entries@,
    {
        SeverityTable { entries }
    }

    /// Look a term's rank up; `None` only on a malformed table value.
    pub fn rank_of(&self, term: &str) -> (r: Option<u8>)
        ensures
            r == self.spec_rank_of(term@),
    {
        let n = self.entries.len();
        let mut i: usize = 0;
        proof {
            assert(self.entries@.subrange(0, n as int) =~= self.entries@);
        }
        while i < n
            invariant
                n == self.entries@.len(),
                i <= n,
                spec_lookup(self.entries@, term@) == spec_lookup(
                    self.entries@.subrange(i as int, n as int),
                    term@,
                ),
        decreases n - i,
        {
            let ghost tail = self.entries@.subrange(i as int, n as int);
            proof {
                assert(tail[0] == self.entries@[i as int]);
                assert(tail.drop_first() =~= self.entries@.subrange(i + 1, n as int));
            }
            if str_eq(self.entries[i].0.as_str(), term) {
                return parse_u8(self.entries[i].1.as_str());
            }
            i += 1;
        }
        proof {
            assert(self.entries@.subrange(n as int, n as int) =~= Seq::<(String, String)>::empty());
        }
        Some(0)
    }
}

/// Relies on serde_json's from_str: a JSON object with string keys and
/// string values parses into a map with pairwise distinct keys; any other
/// input, JSON of another shape included, is a parse error and gives
/// `None`.  The order of the returned pairs is not specified.
#[verifier::external_body]
pub fn parse_severity_json(s: &str) -> (r: Option<Vec<(String, String)>>)
    ensures
        r is Some ==> seq_views(r.unwrap()@.map_values(|e: (String, String)| e.0)).no_duplicates(),
{
    match serde_json::from_str::<std::collections::HashMap<String, String>>(s) {
        Ok(m) => Some(m.into_iter().collect()),
        Err(_) => None,
    }
}

/// The consequence terms of a record, in order: each annotation's
/// ampersand-separated terms, one annotation after the other.
pub open spec fn flat_terms(csqs: Seq<Seq<char>>) -> Seq<Seq<char>>
    decreases csqs.len(),
{
    if csqs.len() == 0 {
        Seq::<Seq<char>>::empty()
    } else {
        flat_terms(csqs.drop_last()) + split_at(csqs.last(), '&')
    }
}

/// Some term's rank is malformed in the table.
pub open spec fn any_bad_rank(ts: Seq<Seq<char>>, tbl: SeverityTable) -> bool {
    exists|i: int| 0 <= i < ts.len() && tbl.spec_rank_of(#[trigger] ts[i]) is None
}

/// One step of the most-severe fold: a strictly better rank takes over
/// the term, its rank and its group.
pub open spec fn spec_best_step(acc: (Seq<char>, u8, u8), t: Seq<char>, tbl: SeverityTable) -> (
    Seq<char>,
    u8,
    u8,
) {
    match tbl.spec_rank_of(t) {
        Some(rank) => if rank < acc.1 {
            (t, rank, spec_group_of(t))
        } else {
            acc
        },
        None => acc,
    }
}

/// The most severe term over a list, with its rank and group; the start
/// is the empty term at the sentinel rank, group unknown.
pub open spec fn spec_best_fold(ts: Seq<Seq<char>>, tbl: SeverityTable) -> (Seq<char>, u8, u8)
    decreases ts.len(),
{
    if ts.len() == 0 {
        (Seq::<char>::empty(), 255u8, 0u8)
    } else {
        spec_best_step(spec_best_fold(ts.drop_last(), tbl), ts.last(), tbl)
    }
}

/// The most severe consequence over a record's annotations: every
/// annotation is split at `&` into terms, and the term with the strictly
/// smallest rank wins, earlier terms winning ties.  `None` exactly when
/// some term's table value is not a decimal number.
pub fn most_severe(csqs: &Vec<String>, tbl: &SeverityTable) -> (r: Option<(String, u8, u8)>)
    ensures
        r is Some <==> !any_bad_rank(flat_terms(seq_views(csqs@)), *tbl),
        r is Some ==> (r.unwrap().0@, r.unwrap().1, r.unwrap().2) == spec_best_fold(
            flat_terms(seq_views(csqs@)),
            *tbl,
        ),
{
    let ghost cviews = seq_views(csqs@);
    let mut terms: Vec<String> = Vec::new();
    let mut i: usize = 0;
    proof {
        assert(seq_views(terms@) =~= flat_terms(cviews.subrange(0, 0)));
    }
    while i < csqs.len()
        invariant
            cviews == seq_views(csqs@),
            i <= csqs@.len(),
            seq_views(terms@) == flat_terms(cviews.subrange(0, i as int)),
        decreases csqs@.len() - i,
    {
        let parts = split_fields(csqs[i].as_str(), '&');
        let ghost pre = seq_views(terms@);
        let mut j: usize = 0;
        while j < parts.len()
            invariant
                pre == flat_terms(cviews.subrange(0, i as int)),
                j <= parts@.len(),
                i < csqs@.len(),
                cviews == seq_views(csqs@),
                seq_views(parts@) == split_at(cviews[i as int], '&'),
                seq_views(terms@) == pre + seq_views(parts@).subrange(0, j as int),
            decreases parts@.len() - j,
        {
            let ghost tpre = seq_views(terms@);
            let p = parts[j].clone();
            assert(p@ == seq_views(parts@)[j as int]);
            terms.push(p);
            proof {
                assert(seq_views(terms@) =~= tpre.push(seq_views(parts@)[j as int]));
                assert(seq_views(terms@) =~= pre + seq_views(parts@).subrange(0, j + 1));
            }
            j += 1;
        }
        proof {
            assert(seq_views(parts@).subrange(0, parts@.len() as int) =~= seq_views(parts@));
            let sub1 = cviews.subrange(0, i + 1);
            assert(sub1.drop_last() =~= cviews.subrange(0, i as int));
            assert(sub1.last() == cviews[i as int]);
            assert(seq_views(terms@) =~= flat_terms(cviews.subrange(0, i + 1)));
        }
        i += 1;
    }
    proof {
        assert(cviews.subrange(0, csqs@.len() as int) =~= cviews);
    }
    let ghost ts = seq_views(terms@);
    let mut best_term = String::new();
    let mut best_rank: u8 = 255;
    let mut best_group: u8 = 0;
    let n = terms.len();
    let mut k: usize = 0;
    proof {
        assert(ts.subrange(0, 0) =~= Seq::<Seq<char>>::empty());
    }
    while k < n
        invariant
            n == terms@.len(),
            k <= n,
            ts == seq_views(terms@),
            ts == flat_terms(seq_views(csqs@)),
            (best_term@, best_rank, best_group) == spec_best_fold(ts.subrange(0, k as int), *tbl),
            forall|m: int| 0 <= m < k ==> tbl.spec_rank_of(#[trigger] ts[m]) is Some,
        decreases n - k,
    {
        let ghost subk = ts.subrange(0, k as int);
        proof {
            assert(ts.subrange(0, k + 1).drop_last() =~= subk);
            assert(ts.subrange(0, k + 1).last() == ts[k as int]);
        }
        let t = &terms[k];
        match tbl.rank_of(t.as_str()) {
            None => {
                proof {
                    assert(tbl.spec_rank_of(ts[k as int]) is None);
                    assert(any_bad_rank(ts, *tbl)) by {
                        assert(0 <= k < ts.len() && tbl.spec_rank_of(ts[k as int]) is None);
                    }
                }
                return None;
            },
            Some(rank) => {
                if rank < best_rank {
                    best_group = group_of(t.as_str());
                    best_term = t.clone();
                    best_rank = rank;
                }
            },
        }
        k += 1;
    }
    proof {
        assert(ts.subrange(0, n as int) =~= ts);
    }
    Some((best_term, best_rank, best_group))
}

} // verus!
