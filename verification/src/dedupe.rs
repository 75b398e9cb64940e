//! The historical cross-partition strategy: plain duplicate removal by
//! identifier over a session of input files, first occurrence wins.

use vstd::prelude::*;

use crate::record::{seq_views, vec_contains_string};

verus! {

/// The identifiers already passed through, as a growing set.
pub struct IdDeduper {
    pub seen: Vec<String>,
}

impl IdDeduper {
    /// The set of identifiers seen so far.
    pub open spec fn seen_set(&self) -> Set<Seq<char>> {
        seq_views(self.seen@).to_set()
    }

    pub fn new() -> (r: IdDeduper)
        ensures
            r.seen_set() == Set::<Seq<char>>::empty(),
    {
        let r = IdDeduper { seen: Vec::new() };
        proof {
            assert(r.seen_set() =~= Set::<Seq<char>>::empty());
        }
        r
    }

    /// Whether a record under this identifier passes: true exactly on the
    /// first occurrence, and the identifier is remembered.
    pub fn first_sighting(&mut self, id: &String) -> (r: bool)
        ensures
            r == !old(self).seen_set().contains(id@),
            final(self).seen_set() == old(self).seen_set().insert(id@),
    {
        if vec_contains_string(&self.seen, id) {
            proof {
                assert(self.seen_set() =~= self.seen_set().insert(id@));
            }
            false
        } else {
            let ghost pre = seq_views(self.seen@);
            self.seen.push(id.clone());
            proof {
                assert(seq_views(self.seen@) =~= pre.push(id@));
                assert(pre.push(id@) =~= pre + seq![id@]);
                Seq::<Seq<char>>::lemma_to_set_insert_commutes(pre, id@);
            }
            true
        }
    }
}

} // verus!
