//! Durable ordered set of MMR positions scheduled for deletion.
//!
//! The log is fully cached in memory as a strictly ascending vector, and
//! every newly accepted position is also appended, encoded, to the log's
//! file image, so the set survives a restart. Positions already present
//! are skipped: appending is idempotent both in memory and on disk.

use vstd::prelude::*;

use crate::codec::{encode_u64_into, spec_encode_u64};
use crate::ordered::{
    find_idx, insert_sorted, lemma_insert_sorted, read_ordered_vec, sorted_strict,
};
use crate::StoreError;

verus! {

/// Removal log: cached sorted positions plus the backing file image.
pub struct RemoveLog {
    /// Ordered vector of MMR positions that should eventually be removed.
    pub removed: Vec<u64>,
    /// Byte image of the log file: encoded positions in append order.
    pub file: Vec<u8>,
}

/// Well-formed: strictly ascending one-based positions.
pub open spec fn rm_log_wf(r: RemoveLog) -> bool {
    &&& sorted_strict(r.removed@)
    &&& forall|i: int| 0 <= i < r.removed@.len() ==> #[trigger] r.removed@[i] >= 1
}

/// One step of appending to the log: the set and file image after `elmt`
/// is offered. A present position changes nothing; an absent one is
/// inserted at its sorted index and encoded at the end of the file.
pub open spec fn rm_step(removed: Seq<u64>, file: Seq<u8>, elmt: u64) -> (Seq<u64>, Seq<u8>) {
    if removed.contains(elmt) {
        (removed, file)
    } else {
        (insert_sorted(removed, elmt), file + spec_encode_u64(elmt))
    }
}

/// The log state after offering every element of `elmts` in order.
pub open spec fn rm_append(removed: Seq<u64>, file: Seq<u8>, elmts: Seq<u64>) -> (Seq<u64>, Seq<u8>)
    decreases elmts.len(),
{
    if elmts.len() == 0 {
        (removed, file)
    } else {
        let stepped = rm_step(removed, file, elmts[0]);
        rm_append(stepped.0, stepped.1, elmts.skip(1))
    }
}

/// Appending preserves order, only ever extends the file, and lands the
/// set exactly on the union of the old members and the offered elements.
pub proof fn lemma_rm_append(removed: Seq<u64>, file: Seq<u8>, elmts: Seq<u64>)
    requires
        sorted_strict(removed),
        forall|i: int| 0 <= i < removed.len() ==> #[trigger] removed[i] >= 1,
        forall|i: int| 0 <= i < elmts.len() ==> #[trigger] elmts[i] >= 1,
    ensures
        sorted_strict(rm_append(removed, file, elmts).0),
        forall|i: int| 0 <= i < rm_append(removed, file, elmts).0.len() ==> #[trigger] rm_append(
            removed,
            file,
            elmts,
        ).0[i] >= 1,
        forall|x: u64|
            rm_append(removed, file, elmts).0.contains(x) <==> (removed.contains(x)
                || elmts.contains(x)),
        (forall|i: int| 0 <= i < elmts.len() ==> removed.contains(#[trigger] elmts[i]))
            ==> rm_append(removed, file, elmts) == (removed, file),
    decreases elmts.len(),
{
    if elmts.len() > 0 {
        let e = elmts[0];
        let stepped = rm_step(removed, file, e);
        if !removed.contains(e) {
            lemma_insert_sorted(removed, e);
            assert forall|i: int| 0 <= i < stepped.0.len() implies #[trigger] stepped.0[i]
                >= 1 by {
                assert(stepped.0.contains(stepped.0[i]));
                let x = stepped.0[i];
                if x != e {
                    assert(removed.contains(x));
                    let k = choose|k: int| 0 <= k < removed.len() && removed[k] == x;
                    assert(removed[k] >= 1);
                }
            }
        }
        assert(forall|i: int| 0 <= i < elmts.len() - 1 ==> #[trigger] elmts.skip(1)[i] == elmts[
            i + 1
        ]);
        lemma_rm_append(stepped.0, stepped.1, elmts.skip(1));
        assert forall|x: u64|
            rm_append(removed, file, elmts).0.contains(x) <==> (removed.contains(x)
                || elmts.contains(x)) by {
            if elmts.contains(x) {
                let i = choose|i: int| 0 <= i < elmts.len() && elmts[i] == x;
                if i > 0 {
                    assert(elmts.skip(1)[i - 1] == x);
                }
            }
            if elmts.skip(1).contains(x) {
                let i = choose|i: int| 0 <= i < elmts.skip(1).len() && elmts.skip(1)[i] == x;
                assert(elmts[i + 1] == x);
            }
        }
        if forall|i: int| 0 <= i < elmts.len() ==> removed.contains(#[trigger] elmts[i]) {
            assert(removed.contains(e));
            assert(stepped == (removed, file));
        }
    }
}

impl RemoveLog {
    /// Open the log from its file image, caching the sorted set.
    pub fn open(bytes: Vec<u8>) -> (r: Result<RemoveLog, StoreError>)
        ensures
            bytes@.len() % 8 == 0 <==> r is Ok,
            r matches Ok(log) ==> sorted_strict(log.removed@) && log.file@ == bytes@ && (
            forall|x: u64|
                log.removed@.contains(x) <==> crate::ordered::image_holds(bytes@, x)),
    {
        let removed = match read_ordered_vec(&bytes) {
            Ok(v) => v,
            Err(e) => {
                return Err(e);
            },
        };
        Ok(RemoveLog { removed, file: bytes })
    }

    /// Truncate and empty the remove log, set and file both.
    pub fn truncate(&mut self)
        ensures
            final(self).removed@ == Seq::<u64>::empty(),
            final(self).file@ == Seq::<u8>::empty(),
            rm_log_wf(*final(self)),
    {
        self.removed = Vec::new();
        self.file = Vec::new();
    }

    /// Append new positions to the log, in memory and on file.
    ///
    /// Positions already present are skipped, so offering the same
    /// position twice leaves both the set and the file unchanged.
    pub fn append(&mut self, elmts: &Vec<u64>)
        requires
            rm_log_wf(*old(self)),
            forall|i: int| 0 <= i < elmts@.len() ==> #[trigger] elmts@[i] >= 1,
        ensures
            rm_log_wf(*final(self)),
            (final(self).removed@, final(self).file@) == rm_append(
                old(self).removed@,
                old(self).file@,
                elmts@,
            ),
            forall|x: u64|
                final(self).removed@.contains(x) <==> (old(self).removed@.contains(x)
                    || elmts@.contains(x)),
            (forall|i: int|
                0 <= i < elmts@.len() ==> old(self).removed@.contains(#[trigger] elmts@[i]))
                ==> final(self).removed@ == old(self).removed@ && final(self).file@ == old(
                self,
            ).file@,
    {
        proof {
            lemma_rm_append(old(self).removed@, old(self).file@, elmts@);
            assert(elmts@.skip(0) =~= elmts@);
        }
        let mut idx: usize = 0;
        while idx < elmts.len()
            invariant
                0 <= idx <= elmts@.len(),
                rm_log_wf(*self),
                forall|i: int| 0 <= i < elmts@.len() ==> #[trigger] elmts@[i] >= 1,
                rm_append(self.removed@, self.file@, elmts@.skip(idx as int)) == rm_append(
                    old(self).removed@,
                    old(self).file@,
                    elmts@,
                ),
            decreases elmts@.len() - idx,
        {
            let e = elmts[idx];
            let ghost rest = elmts@.skip(idx as int);
            proof {
                assert(rest[0] == e);
                assert(rest.skip(1) =~= elmts@.skip(idx as int + 1));
            }
            let (found, at) = find_idx(&self.removed, e);
            if !found {
                let ghost pre = self.removed@;
                self.removed.insert(at, e);
                encode_u64_into(&mut self.file, e);
                proof {
                    assert(self.removed@ =~= insert_sorted(pre, e));
                    lemma_insert_sorted(pre, e);
                    assert forall|i: int| 0 <= i < self.removed@.len() implies
                        #[trigger] self.removed@[i] >= 1 by {
                        assert(self.removed@.contains(self.removed@[i]));
                        let x = self.removed@[i];
                        if x != e {
                            let k = choose|k: int| 0 <= k < pre.len() && pre[k] == x;
                            assert(pre[k] >= 1);
                        }
                    }
                }
            }
            idx = idx + 1;
        }
        proof {
            assert(elmts@.skip(elmts@.len() as int) =~= Seq::<u64>::empty());
            lemma_rm_append(old(self).removed@, old(self).file@, elmts@);
        }
    }

    /// Whether the remove log currently includes the provided position.
    pub fn includes(&self, elmt: u64) -> (r: bool)
        requires
            rm_log_wf(*self),
        ensures
            r == self.removed@.contains(elmt),
    {
        let (found, _) = find_idx(&self.removed, elmt);
        found
    }

    /// Number of positions stored in the remove log.
    pub fn len(&self) -> (r: usize)
        ensures
            r == self.removed@.len(),
    {
        self.removed.len()
    }
}

} // verus!
