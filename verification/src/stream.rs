//! Stream-level behaviour of the coalescing engine.
//!
//! `fold_all` plays the candidate stream through `spec_fold`; the proof
//! functions here state the engine's laws: how many records a stream emits,
//! that an accumulator's alleles are the union and its severity rank the
//! minimum over everything folded into it, and that a stream of mutually
//! distinct records passes through unchanged.

use vstd::prelude::*;

use crate::record::{
    emittable,
    spec_absorb,
    spec_adopt,
    spec_compatible,
    spec_fold,
    spec_redundant,
    LineModel,
    Stage,
    RANK_SENTINEL,
};

verus! {

/// The model of the engine's initial sentinel accumulator.
pub open spec fn sentinel_model() -> LineModel {
    LineModel {
        chromosome: Seq::<char>::empty(),
        start: 1,
        end: 0,
        id: Seq::<char>::empty(),
        variety: Seq::<char>::empty(),
        reference: Seq::<char>::empty(),
        alts: Set::<Seq<char>>::empty(),
        group: 0,
        severity: Seq::<char>::empty(),
        severity_rank: RANK_SENTINEL,
    }
}

/// An optional flushed record as a sequence of zero or one records.
pub open spec fn opt_seq(o: Option<LineModel>) -> Seq<LineModel> {
    match o {
        Some(l) => seq![l],
        None => Seq::<LineModel>::empty(),
    }
}

/// Play a whole candidate stream through the engine: the final accumulator
/// and everything emitted along the way.
pub open spec fn fold_all(a: LineModel, cs: Seq<LineModel>, stage: Stage) -> (
    LineModel,
    Seq<LineModel>,
)
    decreases cs.len(),
{
    if cs.len() == 0 {
        (a, Seq::<LineModel>::empty())
    } else {
        let step = spec_fold(a, Some(cs[0]), stage);
        let rest = fold_all(step.0, cs.drop_first(), stage);
        (rest.0, opt_seq(step.1) + rest.1)
    }
}

/// Everything a stream emits, the closing flush included.
pub open spec fn fold_close(a: LineModel, cs: Seq<LineModel>, stage: Stage) -> Seq<LineModel> {
    let run = fold_all(a, cs, stage);
    run.1 + opt_seq(spec_fold(run.0, None, stage).1)
}

/// Everything the engine emits for a stream, starting from the sentinel.
pub open spec fn fold_stream(cs: Seq<LineModel>, stage: Stage) -> Seq<LineModel> {
    fold_close(sentinel_model(), cs, stage)
}

/// The fields that decide whether a candidate joins the accumulator's run.
/// They are invariant under absorption.
pub open spec fn same_key(a: LineModel, b: LineModel) -> bool {
    a.chromosome == b.chromosome && a.start == b.start && a.id == b.id && a.reference
        == b.reference && a.variety == b.variety
}

/// A candidate that does not end the accumulator's run: it is either
/// absorbed or dropped as redundant.
pub open spec fn joins_run(a: LineModel, c: LineModel, stage: Stage) -> bool {
    spec_compatible(a, c, stage) || spec_redundant(a, c)
}

/// The number of new runs a stream starts, given the head of the current run.
pub open spec fn runs_from(head: LineModel, cs: Seq<LineModel>, stage: Stage) -> nat
    decreases cs.len(),
{
    if cs.len() == 0 {
        0
    } else if joins_run(head, cs[0], stage) {
        runs_from(head, cs.drop_first(), stage)
    } else {
        1 + runs_from(cs[0], cs.drop_first(), stage)
    }
}

/// The number of maximal runs of mutually compatible or redundant
/// consecutive candidates in a stream.
pub open spec fn num_runs(cs: Seq<LineModel>, stage: Stage) -> nat {
    if cs.len() == 0 {
        0nat
    } else {
        1 + runs_from(cs[0], cs.drop_first(), stage)
    }
}

/// The union of the allele sets of a stream of candidates.
pub open spec fn union_alts(cs: Seq<LineModel>) -> Set<Seq<char>>
    decreases cs.len(),
{
    if cs.len() == 0 {
        Set::<Seq<char>>::empty()
    } else {
        cs[0].alts.union(union_alts(cs.drop_first()))
    }
}

/// The minimum severity rank over a starting rank and a stream of candidates.
pub open spec fn min_rank(r: u8, cs: Seq<LineModel>) -> u8
    decreases cs.len(),
{
    if cs.len() == 0 {
        r
    } else if cs[0].severity_rank < r {
        min_rank(cs[0].severity_rank, cs.drop_first())
    } else {
        min_rank(r, cs.drop_first())
    }
}

/// A candidate that is well-shaped input for the engine: it carries at least
/// one allele, a sequence name and an identifier, so that it can never be
/// mistaken for the empty sentinel.
pub open spec fn proper(c: LineModel) -> bool {
    emittable(c) && c.chromosome.len() > 0 && c.id.len() > 0
}

/// Absorbing a compatible candidate keeps the accumulator's run key.
pub proof fn lemma_absorb_keeps_key(a: LineModel, b: LineModel, stage: Stage)
    requires
        spec_compatible(a, b, stage),
    ensures
        same_key(spec_absorb(a, b, stage), a),
{
}

/// Absorbing a compatible candidate keeps the accumulator emittable.
pub proof fn lemma_absorb_keeps_emittable(a: LineModel, b: LineModel, stage: Stage)
    requires
        emittable(a),
        b.alts.finite(),
    ensures
        emittable(spec_absorb(a, b, stage)),
{
    let u = spec_absorb(a, b, stage).alts;
    assert(u.finite());
    assert(a.alts.len() > 0);
    let x = a.alts.choose();
    assert(a.alts.contains(x));
    assert(u.contains(x));
}

/// Whether a candidate joins a run depends only on the run head's key.
pub proof fn lemma_runs_from_key(h1: LineModel, h2: LineModel, cs: Seq<LineModel>, stage: Stage)
    requires
        same_key(h1, h2),
    ensures
        runs_from(h1, cs, stage) == runs_from(h2, cs, stage),
    decreases cs.len(),
{
    if cs.len() > 0 {
        assert(joins_run(h1, cs[0], stage) == joins_run(h2, cs[0], stage));
        if joins_run(h1, cs[0], stage) {
            lemma_runs_from_key(h1, h2, cs.drop_first(), stage);
        }
    }
}

/// Core counting induction: starting from an emittable run head, a stream
/// makes the engine emit exactly one record per completed run, and leaves an
/// emittable accumulator behind.
proof fn lemma_count_from(acc: LineModel, cs: Seq<LineModel>, stage: Stage)
    requires
        emittable(acc),
        forall|i: int| 0 <= i < cs.len() ==> proper(#[trigger] cs[i]),
    ensures
        fold_all(acc, cs, stage).1.len() == runs_from(acc, cs, stage),
        emittable(fold_all(acc, cs, stage).0),
    decreases cs.len(),
{
    if cs.len() > 0 {
        let c = cs[0];
        let rest = cs.drop_first();
        assert(proper(cs[0]));
        assert(forall|i: int| 0 <= i < rest.len() ==> proper(#[trigger] rest[i]))
            by {
            assert(forall|i: int| 0 <= i < rest.len() ==> rest[i] == cs[i + 1]);
        }
        if spec_compatible(acc, c, stage) {
            let a1 = spec_absorb(acc, c, stage);
            lemma_absorb_keeps_emittable(acc, c, stage);
            lemma_absorb_keeps_key(acc, c, stage);
            lemma_count_from(a1, rest, stage);
            lemma_runs_from_key(a1, acc, rest, stage);
        } else if spec_redundant(acc, c) {
            lemma_count_from(acc, rest, stage);
        } else {
            lemma_count_from(c, rest, stage);
        }
    }
}

/// The number of records a stream makes the engine emit, the closing flush
/// included, is the number of maximal runs of consecutive candidates that
/// are mutually compatible or redundant.
pub proof fn lemma_emission_count(cs: Seq<LineModel>, stage: Stage)
    requires
        forall|i: int| 0 <= i < cs.len() ==> proper(#[trigger] cs[i]),
    ensures
        fold_stream(cs, stage).len() == num_runs(cs, stage),
{
    let s = sentinel_model();
    if cs.len() == 0 {
        assert(!emittable(s));
    } else {
        let c = cs[0];
        let rest = cs.drop_first();
        assert(proper(cs[0]));
        assert(!spec_compatible(s, c, stage));
        assert(!spec_redundant(s, c));
        assert(!emittable(s));
        assert(forall|i: int| 0 <= i < rest.len() ==> proper(#[trigger] rest[i]))
            by {
            assert(forall|i: int| 0 <= i < rest.len() ==> rest[i] == cs[i + 1]);
        }
        lemma_count_from(c, rest, stage);
        assert(fold_all(s, cs, stage).1 =~= fold_all(c, rest, stage).1);
        assert(emittable(fold_all(c, rest, stage).0));
    }
}

/// A run's accumulator gathers exactly the union of the alleles, the
/// minimum severity rank, and keeps its key: played against a stream of
/// candidates all compatible with it, the engine emits nothing and folds
/// everything into the accumulator.
pub proof fn lemma_run_absorbs(acc: LineModel, cs: Seq<LineModel>, stage: Stage)
    requires
        forall|i: int| 0 <= i < cs.len() ==> spec_compatible(
            acc,
            #[trigger] cs[i],
            stage,
        ),
    ensures
        fold_all(acc, cs, stage).1 == Seq::<LineModel>::empty(),
        fold_all(acc, cs, stage).0.alts == acc.alts.union(union_alts(cs)),
        fold_all(acc, cs, stage).0.severity_rank == min_rank(acc.severity_rank, cs),
        same_key(fold_all(acc, cs, stage).0, acc),
    decreases cs.len(),
{
    if cs.len() == 0 {
        assert(acc.alts.union(union_alts(cs)) =~= acc.alts);
    } else {
        let c = cs[0];
        let rest = cs.drop_first();
        assert(spec_compatible(acc, cs[0], stage));
        let a1 = spec_absorb(acc, c, stage);
        lemma_absorb_keeps_key(acc, c, stage);
        assert(forall|i: int| 0 <= i < rest.len() ==> spec_compatible(
            a1,
            #[trigger] rest[i],
            stage,
        )) by {
            assert(forall|i: int| 0 <= i < rest.len() ==> rest[i] == cs[i + 1]);
        }
        lemma_run_absorbs(a1, rest, stage);
        assert(fold_all(acc, cs, stage).1 =~= fold_all(a1, rest, stage).1);
        assert(a1.alts.union(union_alts(rest)) =~= acc.alts.union(union_alts(cs)));
        assert(fold_all(acc, cs, stage).0.alts == acc.alts.union(union_alts(cs)));
        assert(a1.severity_rank == if c.severity_rank < acc.severity_rank {
            c.severity_rank
        } else {
            acc.severity_rank
        });
    }
}

/// A stream whose consecutive records are mutually incompatible and
/// non-redundant passes through the engine unchanged: each record is
/// flushed verbatim.  The emitted output of a merge has this shape, so
/// re-merging it reproduces it record for record.
pub proof fn lemma_pass_through(acc: LineModel, cs: Seq<LineModel>, stage: Stage)
    requires
        emittable(acc),
        forall|i: int| 0 <= i < cs.len() ==> emittable(#[trigger] cs[i]),
        cs.len() > 0 ==> !joins_run(acc, cs[0], stage),
        forall|i: int| 0 <= i < cs.len() - 1 ==> !joins_run(
            #[trigger] cs[i],
            cs[i + 1],
            stage,
        ),
    ensures
        fold_close(acc, cs, stage) == seq![acc] + cs,
    decreases cs.len(),
{
    if cs.len() == 0 {
        assert(fold_close(acc, cs, stage) =~= seq![acc] + cs);
    } else {
        let c = cs[0];
        let rest = cs.drop_first();
        assert(forall|i: int| 0 <= i < rest.len() ==> emittable(#[trigger] rest[i]))
            by {
            assert(forall|i: int| 0 <= i < rest.len() ==> rest[i] == cs[i + 1]);
        }
        assert(forall|i: int| 0 <= i < rest.len() - 1 ==> !joins_run(
            #[trigger] rest[i],
            rest[i + 1],
            stage,
        )) by {
            assert(forall|i: int| 0 <= i < rest.len() ==> rest[i] == cs[i + 1]);
        }
        assert(rest.len() > 0 ==> !joins_run(c, rest[0], stage)) by {
            if rest.len() > 0 {
                assert(rest[0] == cs[1]);
            }
        }
        lemma_pass_through(c, rest, stage);
        assert(fold_close(acc, cs, stage) =~= seq![acc] + cs) by {
            assert(fold_close(acc, cs, stage) == seq![acc] + fold_close(c, rest, stage));
            assert(seq![acc] + (seq![c] + rest) =~= seq![acc] + cs);
        }
    }
}

/// Re-merging an already-merged stream with itself as the only input
/// reproduces it: the engine's idempotence on streams of mutually distinct
/// consecutive records.
pub proof fn lemma_remerge_idempotent(cs: Seq<LineModel>, stage: Stage)
    requires
        forall|i: int| 0 <= i < cs.len() ==> proper(#[trigger] cs[i]),
        forall|i: int| 0 <= i < cs.len() - 1 ==> !joins_run(
            #[trigger] cs[i],
            cs[i + 1],
            stage,
        ),
    ensures
        fold_stream(cs, stage) == cs,
{
    let s = sentinel_model();
    if cs.len() == 0 {
        assert(!emittable(s));
        assert(fold_stream(cs, stage) =~= cs);
    } else {
        let c = cs[0];
        let rest = cs.drop_first();
        assert(proper(cs[0]));
        assert(!spec_compatible(s, c, stage));
        assert(!spec_redundant(s, c));
        assert(!emittable(s));
        assert(forall|i: int| 0 <= i < rest.len() ==> emittable(#[trigger] rest[i]))
            by {
            assert(forall|i: int| 0 <= i < rest.len() ==> rest[i] == cs[i + 1]
                && proper(cs[i + 1]));
        }
        assert(forall|i: int| 0 <= i < rest.len() - 1 ==> !joins_run(
            #[trigger] rest[i],
            rest[i + 1],
            stage,
        )) by {
            assert(forall|i: int| 0 <= i < rest.len() ==> rest[i] == cs[i + 1]);
        }
        assert(rest.len() > 0 ==> !joins_run(c, rest[0], stage)) by {
            if rest.len() > 0 {
                assert(rest[0] == cs[1]);
            }
        }
        lemma_pass_through(c, rest, stage);
        assert(fold_stream(cs, stage) =~= cs) by {
            assert(fold_stream(cs, stage) == fold_close(c, rest, stage));
            assert(seq![c] + rest =~= cs);
        }
    }
}

/// Whether a candidate joins a run also depends only on the candidate's key.
pub proof fn lemma_joins_key(a: LineModel, b1: LineModel, b2: LineModel, stage: Stage)
    requires
        same_key(b1, b2),
    ensures
        joins_run(a, b1, stage) == joins_run(a, b2, stage),
{
}

/// What the engine emits keeps the shape it was emitted in: the records
/// carry alleles, a sequence name and an identifier, the first shares its
/// run key with the starting accumulator, and no record joins the run of
/// the one before it.
proof fn lemma_output_shape(acc: LineModel, cs: Seq<LineModel>, stage: Stage)
    requires
        proper(acc),
        forall|i: int| 0 <= i < cs.len() ==> proper(#[trigger] cs[i]),
    ensures
        ({
            let out = fold_close(acc, cs, stage);
            &&& out.len() > 0
            &&& same_key(out[0], acc)
            &&& forall|i: int| 0 <= i < out.len() ==> proper(#[trigger] out[i])
            &&& forall|i: int| 0 <= i < out.len() - 1 ==> !joins_run(
                #[trigger] out[i],
                out[i + 1],
                stage,
            )
        }),
    decreases cs.len(),
{
    let out = fold_close(acc, cs, stage);
    if cs.len() == 0 {
        assert(out =~= seq![acc]);
    } else {
        let c = cs[0];
        let rest = cs.drop_first();
        assert(proper(cs[0]));
        assert(forall|i: int| 0 <= i < rest.len() ==> proper(#[trigger] rest[i])) by {
            assert(forall|i: int| 0 <= i < rest.len() ==> rest[i] == cs[i + 1]);
        }
        if spec_compatible(acc, c, stage) {
            let a1 = spec_absorb(acc, c, stage);
            lemma_absorb_keeps_key(acc, c, stage);
            lemma_absorb_keeps_emittable(acc, c, stage);
            lemma_output_shape(a1, rest, stage);
            assert(out =~= fold_close(a1, rest, stage));
        } else if spec_redundant(acc, c) {
            lemma_output_shape(acc, rest, stage);
            assert(out =~= fold_close(acc, rest, stage));
        } else {
            lemma_output_shape(c, rest, stage);
            let inner = fold_close(c, rest, stage);
            assert(out =~= seq![acc] + inner);
            assert(out[0] == acc);
            assert forall|i: int| 0 <= i < out.len() - 1 implies !joins_run(
                #[trigger] out[i],
                out[i + 1],
                stage,
            ) by {
                if i == 0 {
                    assert(out[1] == inner[0]);
                    lemma_joins_key(acc, inner[0], c, stage);
                } else {
                    assert(out[i] == inner[i - 1]);
                    assert(out[i + 1] == inner[i]);
                }
            }
        }
    }
}

/// Re-merging what a merge emitted, with itself as the only input,
/// reproduces it record for record: full idempotence of the engine on its
/// own output.
pub proof fn lemma_merge_output_remerges(cs: Seq<LineModel>, stage: Stage)
    requires
        forall|i: int| 0 <= i < cs.len() ==> proper(#[trigger] cs[i]),
    ensures
        fold_stream(fold_stream(cs, stage), stage) == fold_stream(cs, stage),
{
    let s = sentinel_model();
    if cs.len() == 0 {
        assert(!emittable(s));
        assert(fold_stream(cs, stage) =~= Seq::<LineModel>::empty());
        assert(fold_stream(fold_stream(cs, stage), stage) =~= Seq::<LineModel>::empty());
    } else {
        let c = cs[0];
        let rest = cs.drop_first();
        assert(proper(cs[0]));
        assert(!spec_compatible(s, c, stage));
        assert(!spec_redundant(s, c));
        assert(!emittable(s));
        assert(forall|i: int| 0 <= i < rest.len() ==> proper(#[trigger] rest[i])) by {
            assert(forall|i: int| 0 <= i < rest.len() ==> rest[i] == cs[i + 1]);
        }
        let out = fold_close(c, rest, stage);
        assert(fold_stream(cs, stage) =~= out);
        lemma_output_shape(c, rest, stage);
        lemma_remerge_idempotent(out, stage);
    }
}

/// Folding a record into an accumulator that is its exact duplicate leaves
/// the accumulator unchanged and emits nothing.
pub proof fn lemma_fold_duplicate(a: LineModel, stage: Stage)
    ensures
        spec_fold(a, Some(a), stage) == (a, None::<LineModel>),
{
    assert(spec_compatible(a, a, stage));
    assert(a.alts.union(a.alts) =~= a.alts);
    assert(spec_adopt(a, a, stage) == a);
}

} // verus!
