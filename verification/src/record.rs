//! The interval record and the coalescing engine.
//!
//! A stream of candidate records is folded into a single live accumulator:
//! compatible candidates are absorbed (allele union, severity tie-break),
//! redundant ones are dropped, and anything else flushes the accumulator
//! and replaces it with the candidate.

use vstd::prelude::*;

use crate::textio::str_eq;

verus! {

/// Severity rank that is worse than any real rank; the empty sentinel
/// accumulator carries it so that any real candidate wins the tie-break.
pub const RANK_SENTINEL: u8 = 255;

/// Mathematical model of an interval record: text fields as character
/// sequences, alternate alleles as an unordered set.
pub ghost struct LineModel {
    pub chromosome: Seq<char>,
    pub start: u64,
    pub end: u64,
    pub id: Seq<char>,
    pub variety: Seq<char>,
    pub reference: Seq<char>,
    pub alts: Set<Seq<char>>,
    pub group: u8,
    pub severity: Seq<char>,
    pub severity_rank: u8,
}

/// One interval record flowing through the pipeline.
pub struct Line {
    pub chromosome: String,
    pub start: u64,
    pub end: u64,
    pub id: String,
    pub variety: String,
    pub reference: String,
    pub alts: Vec<String>,
    pub group: u8,
    pub severity: String,
    pub severity_rank: u8,
}

/// The views of a sequence of strings.
pub open spec fn seq_views(v: Seq<String>) -> Seq<Seq<char>> {
    v.map_values(|a: String| a@)
}

impl View for Line {
    type V = LineModel;

    open spec fn view(&self) -> LineModel {
        LineModel {
            chromosome: self.chromosome@,
            start: self.start,
            end: self.end,
            id: self.id@,
            variety: self.variety@,
            reference: self.reference@,
            alts: seq_views(self.alts@).to_set(),
            group: self.group,
            severity: self.severity@,
            severity_rank: self.severity_rank,
        }
    }
}

/// Which pipeline stage drives the engine; the two stages differ in their
/// compatibility predicate and in the guard on interval extension.
#[derive(Clone, Copy, PartialEq, Eq, Structural)]
pub enum Stage {
    /// Coalescing per-annotation records of one physical variant.
    Annotation,
    /// Merging records of the same coordinates across input partitions.
    CrossPartition,
}

/// Two records describe the same variant, by the fields of the given stage.
pub open spec fn spec_compatible(a: LineModel, b: LineModel, stage: Stage) -> bool {
    match stage {
        Stage::Annotation => a.chromosome == b.chromosome && a.id == b.id && a.start == b.start
            && a.reference == b.reference && a.variety == b.variety,
        Stage::CrossPartition => a.chromosome == b.chromosome && a.start == b.start && a.variety
            == b.variety && a.reference == b.reference,
    }
}

/// A later record under an already-seen id but another variety; it is
/// discarded rather than flushed.
pub open spec fn spec_redundant(a: LineModel, b: LineModel) -> bool {
    a.id == b.id && a.variety != b.variety
}

/// An accumulator is emitted only when it carries at least one allele.
pub open spec fn emittable(a: LineModel) -> bool {
    a.alts.len() > 0 && a.alts.finite()
}

/// The severity tie-break: when the candidate is strictly more severe the
/// accumulator adopts its annotation fields; the interval itself is extended
/// unconditionally in the cross-partition stage, and only when the candidate
/// reaches further in the annotation stage.
pub open spec fn spec_adopt(a: LineModel, b: LineModel, stage: Stage) -> LineModel {
    if b.severity_rank < a.severity_rank {
        let extend = stage == Stage::CrossPartition || b.end > a.end;
        LineModel {
            end: if extend {
                b.end
            } else {
                a.end
            },
            variety: if extend {
                b.variety
            } else {
                a.variety
            },
            group: b.group,
            severity: b.severity,
            severity_rank: b.severity_rank,
            ..a
        }
    } else {
        a
    }
}

/// Folding a compatible candidate into the accumulator: allele union plus
/// the severity tie-break.
pub open spec fn spec_absorb(a: LineModel, b: LineModel, stage: Stage) -> LineModel {
    LineModel { alts: a.alts.union(b.alts), ..spec_adopt(a, b, stage) }
}

/// One step of the engine: the new accumulator and the record flushed, if
/// any.  A candidate of `None` marks the end of the stream.
pub open spec fn spec_fold(a: LineModel, b: Option<LineModel>, stage: Stage) -> (
    LineModel,
    Option<LineModel>,
) {
    match b {
        Some(b) => {
            if spec_compatible(a, b, stage) {
                (spec_absorb(a, b, stage), None)
            } else if spec_redundant(a, b) {
                (a, None)
            } else {
                (
                    b,
                    if emittable(a) {
                        Some(a)
                    } else {
                        None
                    },
                )
            }
        },
        None => (
            a,
            if emittable(a) {
                Some(a)
            } else {
                None
            },
        ),
    }
}

/// The model of an optional record.
pub open spec fn opt_model(o: Option<Line>) -> Option<LineModel> {
    match o {
        Some(l) => Some(l@),
        None => None,
    }
}

/// Pushing an element that a sequence does not hold keeps it duplicate-free.
proof fn lemma_push_no_dup<A>(s: Seq<A>, x: A)
    requires
        s.no_duplicates(),
        !s.contains(x),
    ensures
        s.push(x).no_duplicates(),
{
    let t = s.push(x);
    assert forall|i: int, j: int| 0 <= i < t.len() && 0 <= j < t.len() && i != j implies t[i]
        != t[j] by {
        if i < s.len() && j < s.len() {
        } else if i < s.len() {
            assert(s[i] == t[i]);
        } else {
            assert(s[j] == t[j]);
        }
    }
}

/// The given strings with later repetitions removed.
pub fn dedup_strings(v: &Vec<String>) -> (r: Vec<String>)
    ensures
        seq_views(r@).no_duplicates(),
        seq_views(r@).to_set() == seq_views(v@).to_set(),
{
    let mut r: Vec<String> = Vec::new();
    let mut i: usize = 0;
    proof {
        assert(seq_views(r@).to_set() =~= seq_views(v@).subrange(0, 0).to_set());
    }
    while i < v.len()
        invariant
            i <= v@.len(),
            seq_views(r@).no_duplicates(),
            seq_views(r@).to_set() == seq_views(v@).subrange(0, i as int).to_set(),
        decreases v@.len() - i,
    {
        let ghost pre = seq_views(r@);
        let ghost x = seq_views(v@)[i as int];
        let a = v[i].clone();
        assert(a@ == x);
        if !vec_contains_string(&r, &a) {
            proof {
                lemma_push_no_dup(pre, a@);
            }
            r.push(a);
            proof {
                assert(seq_views(r@) =~= pre.push(x));
                assert(pre.push(x) =~= pre + seq![x]);
                Seq::<Seq<char>>::lemma_to_set_insert_commutes(pre, x);
            }
        } else {
            proof {
                assert(seq_views(r@).to_set().contains(x));
            }
        }
        proof {
            let sub = seq_views(v@).subrange(0, i as int);
            assert(seq_views(v@).subrange(0, i + 1) =~= sub.push(x));
            assert(sub.push(x) =~= sub + seq![x]);
            Seq::<Seq<char>>::lemma_to_set_insert_commutes(sub, x);
            assert(seq_views(r@).to_set() =~= seq_views(v@).subrange(0, i + 1).to_set());
        }
        i += 1;
    }
    proof {
        assert(seq_views(v@).subrange(0, v@.len() as int) =~= seq_views(v@));
    }
    r
}

/// Whether a vector of strings holds one whose view equals `s`'s.
pub fn vec_contains_string(v: &Vec<String>, s: &String) -> (r: bool)
    ensures
        r == seq_views(v@).contains(s@),
{
    let mut i: usize = 0;
    while i < v.len()
        invariant
            i <= v@.len(),
            forall|k: int| 0 <= k < i ==> seq_views(v@)[k] != s@,
        decreases v@.len() - i,
    {
        if str_eq(v[i].as_str(), s.as_str()) {
            assert(seq_views(v@)[i as int] == s@);
            return true;
        }
        i += 1;
    }
    false
}

impl Line {
    /// The alternate alleles in their stored order.
    pub open spec fn alt_views(&self) -> Seq<Seq<char>> {
        seq_views(self.alts@)
    }

    /// Well-formed: no alternate allele is stored twice.
    pub open spec fn wf(&self) -> bool {
        self.alt_views().no_duplicates()
    }

    /// The designated empty sentinel: never emitted, loses every severity
    /// tie-break.
    pub fn sentinel() -> (r: Line)
        ensures
            r.wf(),
            !emittable(r@),
            r@.severity_rank == RANK_SENTINEL,
            r@.chromosome == Seq::<char>::empty(),
            r@.id == Seq::<char>::empty(),
            r@.variety == Seq::<char>::empty(),
            r@.reference == Seq::<char>::empty(),
            r@.severity == Seq::<char>::empty(),
            r@.alts == Set::<Seq<char>>::empty(),
            r@.start == 1,
            r@.end == 0,
            r@.group == 0,
    {
        let r = Line {
            chromosome: String::new(),
            start: 1,
            end: 0,
            id: String::new(),
            variety: String::new(),
            reference: String::new(),
            alts: Vec::new(),
            group: 0,
            severity: String::new(),
            severity_rank: RANK_SENTINEL,
        };
        proof {
            assert(r@.alts =~= Set::<Seq<char>>::empty());
        }
        r
    }

    /// Same variant as `other` for the given stage's fields.
    pub fn compatible(&self, other: &Line, stage: Stage) -> (r: bool)
        ensures
            r == spec_compatible(self@, other@, stage),
    {
        match stage {
            Stage::Annotation => self.chromosome == other.chromosome && self.id == other.id
                && self.start == other.start && self.reference == other.reference && self.variety
                == other.variety,
            Stage::CrossPartition => self.chromosome == other.chromosome && self.start
                == other.start && self.variety == other.variety && self.reference
                == other.reference,
        }
    }

    /// Same id as `other` but another variety.
    pub fn redundant(&self, other: &Line) -> (r: bool)
        ensures
            r == spec_redundant(self@, other@),
    {
        self.id == other.id && !(self.variety == other.variety)
    }

    /// Fold a compatible candidate into this accumulator.
    fn absorb(&mut self, more: Line, stage: Stage)
        requires
            old(self).wf(),
        ensures
            final(self).wf(),
            final(self)@ == spec_absorb(old(self)@, more@, stage),
    {
        let ghost a0 = self@;
        let ghost svm = seq_views(more.alts@);
        let mut i: usize = 0;
        while i < more.alts.len()
            invariant
                i <= more.alts@.len(),
                svm == seq_views(more.alts@),
                self.alt_views().no_duplicates(),
                self.alt_views().to_set() == a0.alts.union(
                    svm.subrange(0, i as int).to_set(),
                ),
                self.chromosome@ == a0.chromosome,
                self.start == a0.start,
                self.end == a0.end,
                self.id@ == a0.id,
                self.variety@ == a0.variety,
                self.reference@ == a0.reference,
                self.group == a0.group,
                self.severity@ == a0.severity,
                self.severity_rank == a0.severity_rank,
            decreases more.alts@.len() - i,
        {
            let ghost pre = self.alt_views();
            let ghost x = svm[i as int];
            let a = more.alts[i].clone();
            assert(a@ == svm[i as int]);
            if !vec_contains_string(&self.alts, &a) {
                proof {
                    lemma_push_no_dup(pre, a@);
                }
                self.alts.push(a);
                proof {
                    assert(self.alt_views() =~= pre.push(x));
                    assert(pre.push(x) =~= pre + seq![x]);
                    Seq::<Seq<char>>::lemma_to_set_insert_commutes(pre, x);
                    assert(self.alt_views().to_set() == pre.to_set().insert(x));
                }
            } else {
                proof {
                    assert(self.alt_views().to_set().contains(x));
                }
            }
            proof {
                let sub = svm.subrange(0, i as int);
                assert(svm.subrange(0, i + 1) =~= sub.push(x));
                assert(sub.push(x) =~= sub + seq![x]);
                Seq::<Seq<char>>::lemma_to_set_insert_commutes(sub, x);
                assert(svm.subrange(0, i + 1).to_set() == sub.to_set().insert(x));
                assert(self.alt_views().to_set() =~= a0.alts.union(svm.subrange(0, i + 1).to_set()));
            }
            i += 1;
        }
        proof {
            assert(svm.subrange(0, more.alts@.len() as int) =~= svm);
            assert(self.alt_views().to_set() =~= a0.alts.union(more@.alts));
        }
        if more.severity_rank < self.severity_rank {
            match stage {
                Stage::CrossPartition => {
                    self.end = more.end;
                    self.variety = more.variety;
                },
                Stage::Annotation => {
                    if more.end > self.end {
                        self.end = more.end;
                        self.variety = more.variety;
                    }
                },
            }
            self.group = more.group;
            self.severity = more.severity;
            self.severity_rank = more.severity_rank;
        }
    }

    /// One engine step: absorb a compatible candidate, drop a redundant one,
    /// or flush the accumulator (when it carries alleles) and install the
    /// candidate in its place.  `None` ends the stream and flushes.
    pub fn merge(&mut self, more: Option<Line>, stage: Stage) -> (flushed: Option<Line>)
        requires
            old(self).wf(),
            more is Some ==> more.unwrap().wf(),
        ensures
            final(self).wf(),
            flushed is Some ==> flushed.unwrap().wf(),
            (final(self)@, opt_model(flushed)) == spec_fold(old(self)@, opt_model(more), stage),
    {
        broadcast use vstd::seq_lib::seq_to_set_is_finite;

        match more {
            Some(m) => {
                if self.compatible(&m, stage) {
                    self.absorb(m, stage);
                    None
                } else if self.redundant(&m) {
                    None
                } else {
                    let mut tmp = m;
                    core::mem::swap(self, &mut tmp);
                    if tmp.alts.len() > 0 {
                        proof {
                            assert(tmp@.alts.contains(tmp.alt_views()[0]));
                        }
                        Some(tmp)
                    } else {
                        proof {
                            assert(tmp@.alts =~= Set::<Seq<char>>::empty());
                        }
                        None
                    }
                }
            },
            None => {
                if self.alts.len() > 0 {
                    proof {
                        assert(self@.alts.contains(self.alt_views()[0]));
                    }
                    Some(self.duplicate())
                } else {
                    proof {
                        assert(self@.alts =~= Set::<Seq<char>>::empty());
                    }
                    None
                }
            },
        }
    }

    /// An independent copy with the same model.
    pub fn duplicate(&self) -> (r: Line)
        ensures
            r@ == self@,
            r.alt_views() == self.alt_views(),
    {
        let mut alts: Vec<String> = Vec::new();
        let mut i: usize = 0;
        while i < self.alts.len()
            invariant
                i <= self.alts@.len(),
                seq_views(alts@) =~= self.alt_views().subrange(0, i as int),
            decreases self.alts@.len() - i,
        {
            let ghost prevs = seq_views(alts@);
            let a = self.alts[i].clone();
            assert(a@ == self.alt_views()[i as int]);
            alts.push(a);
            proof {
                assert(seq_views(alts@) =~= prevs.push(self.alt_views()[i as int]));
                assert(prevs.push(self.alt_views()[i as int]) =~= self.alt_views().subrange(
                    0,
                    i + 1,
                ));
            }
            i += 1;
        }
        proof {
            assert(self.alt_views().subrange(0, self.alts@.len() as int) =~= self.alt_views());
        }
        let r = Line {
            chromosome: self.chromosome.clone(),
            start: self.start,
            end: self.end,
            id: self.id.clone(),
            variety: self.variety.clone(),
            reference: self.reference.clone(),
            alts,
            group: self.group,
            severity: self.severity.clone(),
            severity_rank: self.severity_rank,
        };
        proof {
            assert(seq_views(r.alts@) == seq_views(self.alts@));
            assert(r@ =~= self@);
        }
        r
    }
}

} // verus!
