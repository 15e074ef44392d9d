//! Sorted set of pruned MMR positions and the offset shift it induces.
//!
//! Every entry is a position whose record has been physically removed from
//! the data file. For a live position `p`, the shift is the number of
//! removed records at positions strictly below `p`; it translates the
//! logical position into the record index actually on disk.

use vstd::prelude::*;

use crate::ordered::{count_below, find_idx, insert_sorted, lemma_insert_sorted, sorted_strict};

verus! {

/// Sorted collection of positions physically pruned from the data file.
pub struct PruneList {
    /// Pruned positions, strictly ascending; serializable state.
    pub pruned_nodes: Vec<u64>,
}

impl PruneList {
    /// Well-formed: strictly ascending, and positions are one-based.
    pub open spec fn wf(self) -> bool {
        &&& sorted_strict(self.pruned_nodes@)
        &&& forall|i: int| 0 <= i < self.pruned_nodes@.len() ==> #[trigger] self.pruned_nodes@[i]
            >= 1
    }

    /// Wrap an already sorted vector of pruned positions.
    pub fn new(pruned: Vec<u64>) -> (r: PruneList)
        ensures
            r.pruned_nodes@ == pruned@,
    {
        PruneList { pruned_nodes: pruned }
    }

    /// Count of physically removed records at positions strictly below
    /// `pos`, or none when `pos` itself is pruned and no longer
    /// addressable.
    pub fn get_shift(&self, pos: u64) -> (r: Option<u64>)
        requires
            self.wf(),
        ensures
            r == spec_shift(self.pruned_nodes@, pos),
    {
        let (found, idx) = find_idx(&self.pruned_nodes, pos);
        if found {
            None
        } else {
            Some(idx as u64)
        }
    }

    /// The index of `pos` in the prune list, if it is an entry.
    pub fn pruned_pos(&self, pos: u64) -> (r: Option<usize>)
        requires
            self.wf(),
        ensures
            r is Some <==> self.pruned_nodes@.contains(pos),
            r matches Some(i) ==> i < self.pruned_nodes@.len() && self.pruned_nodes@[i as int]
                == pos,
    {
        let (found, idx) = find_idx(&self.pruned_nodes, pos);
        if found {
            Some(idx)
        } else {
            None
        }
    }

    /// Record a newly pruned position; present positions are kept once.
    pub fn add(&mut self, pos: u64)
        requires
            old(self).wf(),
            pos >= 1,
        ensures
            final(self).wf(),
            final(self).pruned_nodes@ == (if old(self).pruned_nodes@.contains(pos) {
                old(self).pruned_nodes@
            } else {
                insert_sorted(old(self).pruned_nodes@, pos)
            }),
            forall|x: u64|
                final(self).pruned_nodes@.contains(x) <==> (old(self).pruned_nodes@.contains(x)
                    || x == pos),
    {
        let (found, idx) = find_idx(&self.pruned_nodes, pos);
        if !found {
            let ghost pre = self.pruned_nodes@;
            self.pruned_nodes.insert(idx, pos);
            proof {
                assert(self.pruned_nodes@ =~= insert_sorted(pre, pos));
                lemma_insert_sorted(pre, pos);
                assert forall|i: int| 0 <= i < self.pruned_nodes@.len() implies
                    #[trigger] self.pruned_nodes@[i] >= 1 by {
                    assert(self.pruned_nodes@.contains(self.pruned_nodes@[i]));
                    let x = self.pruned_nodes@[i];
                    if x != pos {
                        assert(pre.contains(x));
                        let k = choose|k: int| 0 <= k < pre.len() && pre[k] == x;
                        assert(pre[k] >= 1);
                    }
                }
            }
        }
    }
}

/// The shift at `pos` for a given sorted prune list: none when `pos` is
/// pruned, else the number of pruned positions strictly below `pos`.
pub open spec fn spec_shift(pruned: Seq<u64>, pos: u64) -> Option<u64> {
    if pruned.contains(pos) {
        None
    } else {
        Some(count_below(pruned, pos) as u64)
    }
}

} // verus!
