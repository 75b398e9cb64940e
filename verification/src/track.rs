//! The fixed-step track expander: interval records, presented grouped by
//! chromosome and sorted by position, become one numeric value per base,
//! with a header line and a position reset on every chromosome change.

use vstd::prelude::*;

use crate::record::seq_views;
use crate::textio::str_eq;

verus! {

/// The header line announcing a chromosome's fixed-step run.
pub open spec fn header_spec(chr: Seq<char>) -> Seq<char> {
    "fixedStep  chrom="@ + chr + " start=1 step=1"@
}

/// The values one record emits when the running position is `p0`: one per
/// position up to `end`, `0` before `start`, the payload from there on.
pub open spec fn track_values(p0: u64, start: u64, end: u64, payload: Seq<char>) -> Seq<Seq<char>> {
    if p0 <= end {
        Seq::new(
            (end - p0 + 1) as nat,
            |k: int|
                if p0 + k < start {
                    "0"@
                } else {
                    payload
                },
        )
    } else {
        Seq::<Seq<char>>::empty()
    }
}

/// Where the running position stands after one record.
pub open spec fn next_pos(p0: u64, end: u64) -> int {
    if p0 <= end {
        end + 1
    } else {
        p0 as int
    }
}

/// Convert a 0-based half-open interval to the 1-based inclusive form the
/// track uses; a zero-length insertion interval is widened to one base.
pub fn convert_interval(start: u64, end: u64) -> (r: (u64, u64))
    requires
        start < u64::MAX,
    ensures
        r.0 == start + 1,
        r.1 == if start + 1 > end {
            end + 1
        } else {
            end as int
        },
{
    let s1 = start + 1;
    if s1 > end {
        (s1, end + 1)
    } else {
        (s1, end)
    }
}

/// The expander's running state: the chromosome under way and the next
/// 1-based position to emit.
pub struct Expander {
    pub current_chromosome: Option<String>,
    pub pos: u64,
}

impl Expander {
    /// Whether a record for this chromosome starts a new run.
    pub open spec fn spec_fresh(&self, chr: Seq<char>) -> bool {
        match self.current_chromosome {
            None => true,
            Some(c) => c@ != chr,
        }
    }

    pub fn new() -> (r: Expander)
        ensures
            r.current_chromosome is None,
            r.pos == 1,
    {
        Expander { current_chromosome: None, pos: 1 }
    }

    /// Expand one record: the header when the chromosome changes, then one
    /// value per base position through `end`.  The record's interval must
    /// already be 1-based inclusive.
    pub fn step(&mut self, chromosome: &str, start: u64, end: u64, payload: &str) -> (r: (
        Option<String>,
        Vec<String>,
    ))
        requires
            end < u64::MAX,
            old(self).pos >= 1,
        ensures
            ({
                let fresh = old(self).spec_fresh(chromosome@);
                let p0 = if fresh {
                    1u64
                } else {
                    old(self).pos
                };
                &&& (r.0 is Some) == fresh
                &&& (fresh ==> r.0.unwrap()@ == header_spec(chromosome@))
                &&& seq_views(r.1@) == track_values(p0, start, end, payload@)
                &&& final(self).pos == next_pos(p0, end)
                &&& final(self).pos >= 1
                &&& final(self).current_chromosome is Some
                &&& final(self).current_chromosome.unwrap()@ == chromosome@
            }),
    {
        let fresh = match &self.current_chromosome {
            None => true,
            Some(c) => !str_eq(c.as_str(), chromosome),
        };
        let header = if fresh {
            let mut h = "fixedStep  chrom=".to_owned();
            h.append(chromosome);
            h.append(" start=1 step=1");
            self.pos = 1;
            self.current_chromosome = Some(chromosome.to_owned());
            Some(h)
        } else {
            None
        };
        let ghost p0 = self.pos;
        let ghost vals = track_values(p0, start, end, payload@);
        let ghost chr_snap = self.current_chromosome;
        let mut values: Vec<String> = Vec::new();
        proof {
            assert(seq_views(values@) =~= vals.subrange(0, 0));
        }
        while self.pos <= end
            invariant
                end < u64::MAX,
                1 <= p0 <= self.pos,
                p0 <= end ==> self.pos <= end + 1,
                p0 > end ==> self.pos == p0,
                vals == track_values(p0, start, end, payload@),
                seq_views(values@) == vals.subrange(0, self.pos - p0),
                self.current_chromosome == chr_snap,
            decreases end + 1 - self.pos,
        {
            let ghost before = seq_views(values@);
            let v = if self.pos < start {
                "0".to_owned()
            } else {
                payload.to_owned()
            };
            proof {
                assert(vals[self.pos - p0] == if p0 + (self.pos - p0) < start {
                    "0"@
                } else {
                    payload@
                });
            }
            values.push(v);
            proof {
                assert(seq_views(values@) =~= before.push(vals[self.pos - p0]));
                assert(seq_views(values@) =~= vals.subrange(0, self.pos + 1 - p0));
            }
            self.pos += 1;
        }
        proof {
            if p0 <= end {
                assert(vals.subrange(0, vals.len() as int) =~= vals);
            } else {
                assert(seq_views(values@) =~= vals);
            }
        }
        (header, values)
    }
}

/// One interval with its payload, as the expander reads it: 1-based
/// inclusive coordinates.
pub ghost struct TrackSpan {
    pub start: u64,
    pub end: u64,
    pub payload: Seq<char>,
}

/// The values a whole chromosome's records emit, starting at position `p0`.
pub open spec fn expand_from(p0: u64, rs: Seq<TrackSpan>) -> Seq<Seq<char>>
    decreases rs.len(),
{
    if rs.len() == 0 {
        Seq::<Seq<char>>::empty()
    } else {
        track_values(p0, rs[0].start, rs[0].end, rs[0].payload) + expand_from(
            next_pos(p0, rs[0].end) as u64,
            rs.drop_first(),
        )
    }
}

/// Where the running position stands after a whole chromosome's records.
pub open spec fn final_pos(p0: u64, rs: Seq<TrackSpan>) -> int
    decreases rs.len(),
{
    if rs.len() == 0 {
        p0 as int
    } else {
        final_pos(next_pos(p0, rs[0].end) as u64, rs.drop_first())
    }
}

/// The largest end coordinate among a chromosome's records.
pub open spec fn max_end(rs: Seq<TrackSpan>) -> u64
    decreases rs.len(),
{
    if rs.len() == 0 {
        0
    } else {
        let m = max_end(rs.drop_first());
        if rs[0].end > m {
            rs[0].end
        } else {
            m
        }
    }
}

/// A chromosome's output has one value per position up to where the
/// running position ends.
proof fn lemma_expand_len(p0: u64, rs: Seq<TrackSpan>)
    requires
        forall|i: int| 0 <= i < rs.len() ==> (#[trigger] rs[i]).end < u64::MAX,
    ensures
        expand_from(p0, rs).len() == final_pos(p0, rs) - p0,
        final_pos(p0, rs) >= p0,
    decreases rs.len(),
{
    if rs.len() > 0 {
        assert(rs[0].end < u64::MAX);
        let np = next_pos(p0, rs[0].end) as u64;
        assert(forall|i: int|
            0 <= i < rs.drop_first().len() ==> (#[trigger] rs.drop_first()[i]).end < u64::MAX)
            by {
            assert(forall|i: int|
                0 <= i < rs.drop_first().len() ==> rs.drop_first()[i] == rs[i + 1]);
        }
        lemma_expand_len(np, rs.drop_first());
    }
}

/// The running position ends just past the largest end coordinate, or
/// where it started when no record reaches it.
proof fn lemma_final_pos(p0: u64, rs: Seq<TrackSpan>)
    requires
        p0 >= 1,
        forall|i: int| 0 <= i < rs.len() ==> (#[trigger] rs[i]).end < u64::MAX,
    ensures
        final_pos(p0, rs) == if max_end(rs) + 1 > p0 {
            max_end(rs) + 1
        } else {
            p0 as int
        },
    decreases rs.len(),
{
    if rs.len() > 0 {
        assert(rs[0].end < u64::MAX);
        let e0 = rs[0].end;
        let rest = rs.drop_first();
        let np = next_pos(p0, e0) as u64;
        assert(forall|i: int| 0 <= i < rest.len() ==> (#[trigger] rest[i]).end < u64::MAX) by {
            assert(forall|i: int| 0 <= i < rest.len() ==> rest[i] == rs[i + 1]);
        }
        lemma_final_pos(np, rest);
        let me = max_end(rest);
        assert(final_pos(p0, rs) == final_pos(np, rest));
        assert(max_end(rs) == if e0 > me {
            e0
        } else {
            me
        });
        assert(np as int == if p0 <= e0 {
            e0 + 1
        } else {
            p0 as int
        });
        if p0 <= e0 {
            if me > e0 {
                assert(final_pos(np, rest) == me + 1);
            } else {
                assert(me + 1 <= np as int);
                assert(final_pos(np, rest) == np as int);
            }
        } else {
            if me + 1 > np as int {
                assert(final_pos(np, rest) == me + 1);
            } else {
                assert(final_pos(np, rest) == np as int);
            }
        }
    }
}

/// A chromosome's output, started at position 1, has exactly one value
/// per position from 1 through the largest end coordinate among its
/// records; positions are emitted consecutively, each exactly once.
pub proof fn lemma_track_length(rs: Seq<TrackSpan>)
    requires
        forall|i: int| 0 <= i < rs.len() ==> (#[trigger] rs[i]).end < u64::MAX,
    ensures
        expand_from(1, rs).len() == max_end(rs),
{
    lemma_expand_len(1, rs);
    lemma_final_pos(1, rs);
}

/// The output tiles into one block per record, in order: record `i`'s
/// values stand exactly between the running positions before and after it,
/// so every position gets its value from exactly one record — `0` before
/// that record's start, the record's payload from there on.
pub proof fn lemma_track_blocks(p0: u64, rs: Seq<TrackSpan>, i: int)
    requires
        0 <= i < rs.len(),
        forall|j: int| 0 <= j < rs.len() ==> (#[trigger] rs[j]).end < u64::MAX,
    ensures
        ({
            let lo = final_pos(p0, rs.subrange(0, i));
            let hi = final_pos(p0, rs.subrange(0, i + 1));
            &&& p0 <= lo <= hi <= p0 + expand_from(p0, rs).len()
            &&& expand_from(p0, rs).subrange(lo - p0, hi - p0) == track_values(
                lo as u64,
                rs[i].start,
                rs[i].end,
                rs[i].payload,
            )
        }),
    decreases i,
{
    let e0 = rs[0].end;
    let rest = rs.drop_first();
    let np = next_pos(p0, e0) as u64;
    let block0 = track_values(p0, rs[0].start, e0, rs[0].payload);
    assert(rs[0].end < u64::MAX);
    assert(forall|j: int| 0 <= j < rest.len() ==> (#[trigger] rest[j]).end < u64::MAX) by {
        assert(forall|j: int| 0 <= j < rest.len() ==> rest[j] == rs[j + 1]);
    }
    assert(expand_from(p0, rs) == block0 + expand_from(np, rest));
    assert(block0.len() == np - p0);
    lemma_expand_len(np, rest);
    if i == 0 {
        assert(rs.subrange(0, 0) =~= Seq::<TrackSpan>::empty());
        let one = rs.subrange(0, 1);
        assert(one[0] == rs[0]);
        assert(one.drop_first() =~= Seq::<TrackSpan>::empty());
        assert(final_pos(p0, one) == final_pos(next_pos(p0, one[0].end) as u64, one.drop_first()));
        assert(next_pos(p0, one[0].end) as u64 == np);
        assert(final_pos(np, one.drop_first()) == np);
        assert(final_pos(p0, one) == np);
        assert(expand_from(p0, rs).subrange(0, np - p0) =~= block0);
    } else {
        lemma_track_blocks(np, rest, i - 1);
        let pre = rs.subrange(0, i);
        let cur = rs.subrange(0, i + 1);
        assert(pre[0] == rs[0]);
        assert(cur[0] == rs[0]);
        assert(pre.drop_first() =~= rest.subrange(0, i - 1));
        assert(cur.drop_first() =~= rest.subrange(0, i));
        assert(final_pos(p0, pre) == final_pos(np, rest.subrange(0, i - 1)));
        assert(final_pos(p0, cur) == final_pos(np, rest.subrange(0, i)));
        let lo = final_pos(np, rest.subrange(0, i - 1));
        let hi = final_pos(np, rest.subrange(0, i));
        assert(rest[i - 1] == rs[i]);
        assert(expand_from(p0, rs).subrange(lo - p0, hi - p0) =~= expand_from(np, rest).subrange(
            lo - np,
            hi - np,
        ));
    }
}

} // verus!
