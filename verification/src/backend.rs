//! The composite PMMR store: buffer, data file, removal log, prune list.
//!
//! Every node record is addressed by its one-based MMR position. A read
//! resolves through four layers in order: the in-memory write buffer (the
//! records appended since the last sync), the removal log, the prune list,
//! and finally the memory-mapped data file, where the record of a live
//! position `p` lives at record index `p - 1 - shift(p)`.

use vstd::prelude::*;

use crate::append_file::{file_wf, keep_chunks, prune_offs_ok, AppendOnlyFile};
use crate::ordered::{
    count_below, insert_sorted, lemma_count_below_bound, lemma_count_below_split,
    lemma_insert_sorted, lemma_sorted_gap, read_ordered_vec, sorted_strict, vec_holds,
};
use crate::prune_list::PruneList;
use crate::remove_log::{rm_append, rm_log_wf, RemoveLog};
use crate::{StoreError, RM_LOG_MAX_NODES};

verus! {

/// Mathematical state of the whole store.
#[verifier::ext_equal]
pub struct StoreView {
    /// Byte image of the data file, everything written so far.
    pub file: Seq<u8>,
    /// Length covered by the data file's memory map, if any.
    pub mapped: Option<int>,
    /// The removal log's cached set, strictly ascending.
    pub removed: Seq<u64>,
    /// Byte image of the removal log file.
    pub rm_file: Seq<u8>,
    /// The prune list's positions, strictly ascending.
    pub pruned: Seq<u64>,
    /// Records appended since the last sync, in append order.
    pub buf: Seq<Seq<u8>>,
    /// Liveness mark per buffered record; removal clears it.
    pub buf_live: Seq<bool>,
    /// Count of records persisted to the data file before the buffer.
    pub buffer_index: int,
    /// Width in bytes of one node record: a 32-byte hash plus the sum.
    pub record_len: int,
}

/// The store's internal invariant.
pub open spec fn store_wf(v: StoreView) -> bool {
    &&& 32 <= v.record_len <= usize::MAX as int
    &&& sorted_strict(v.removed)
    &&& (forall|i: int| 0 <= i < v.removed.len() ==> #[trigger] v.removed[i] >= 1)
    &&& sorted_strict(v.pruned)
    &&& (forall|i: int| 0 <= i < v.pruned.len() ==> #[trigger] v.pruned[i] >= 1)
    &&& v.buf.len() == v.buf_live.len()
    &&& (forall|j: int| 0 <= j < v.buf.len() ==> #[trigger] v.buf[j].len() == v.record_len)
    &&& 0 <= v.buffer_index
    &&& v.buffer_index + v.buf.len() <= u64::MAX as int
    &&& v.file.len() as int % v.record_len == 0
    &&& v.file.len() <= usize::MAX
    &&& (match v.mapped {
        Some(m) => 0 <= m <= v.file.len(),
        None => true,
    })
}

/// Concatenation of a sequence of records.
pub open spec fn concat_recs(rs: Seq<Seq<u8>>) -> Seq<u8>
    decreases rs.len(),
{
    if rs.len() == 0 {
        Seq::empty()
    } else {
        concat_recs(rs.drop_last()) + rs.last()
    }
}

/// What a read of position `pos` resolves to in state `v`.
///
/// The four layers in resolution order: buffer, removal log, prune list,
/// mapped data file. A position whose record is not wholly inside the
/// mapped prefix reads as absent (a short read is a corrupt record).
pub open spec fn spec_get(v: StoreView, pos: u64) -> Option<Seq<u8>>
    recommends
        pos >= 1,
{
    if v.buffer_index < pos && pos <= v.buffer_index + v.buf.len() {
        let j = pos - 1 - v.buffer_index;
        if v.buf_live[j] {
            Some(v.buf[j])
        } else {
            None
        }
    } else if v.removed.contains(pos) {
        None
    } else if v.pruned.contains(pos) {
        None
    } else {
        let k = pos - 1 - count_below(v.pruned, pos);
        match v.mapped {
            Some(m) => if 0 <= k && (k + 1) * v.record_len <= m {
                Some(v.file.subrange(k * v.record_len, (k + 1) * v.record_len))
            } else {
                None
            },
            None => None,
        }
    }
}

/// State after appending `recs` at the write frontier.
pub open spec fn spec_append(v: StoreView, recs: Seq<Seq<u8>>) -> StoreView {
    StoreView {
        file: v.file + concat_recs(recs),
        buf: v.buf + recs,
        buf_live: v.buf_live + Seq::new(recs.len(), |i: int| true),
        ..v
    }
}

/// State after removing `ps`: buffered entries go dead, the removal log
/// absorbs the positions as a set.
pub open spec fn spec_remove(v: StoreView, ps: Seq<u64>) -> StoreView {
    StoreView {
        buf_live: Seq::new(
            v.buf_live.len(),
            |j: int| v.buf_live[j] && !ps.contains((v.buffer_index + j + 1) as u64),
        ),
        removed: rm_append(v.removed, v.rm_file, ps).0,
        rm_file: rm_append(v.removed, v.rm_file, ps).1,
        ..v
    }
}

/// Whether the removal log has outgrown the threshold: an explicit
/// `max_len`, or the default cap when `max_len` is zero.
pub open spec fn compact_due(v: StoreView, max_len: int) -> bool {
    ||| (max_len > 0 && v.removed.len() > max_len)
    ||| (max_len == 0 && v.removed.len() > RM_LOG_MAX_NODES)
}

/// A removal-log position already sits in the prune list: applying the
/// shift again would corrupt the rewrite, so compaction must not run.
pub open spec fn rm_log_overlaps(v: StoreView) -> bool {
    exists|i: int| 0 <= i < v.removed.len() && v.pruned.contains(#[trigger] v.removed[i])
}

/// Current byte offset of each removal-log position's record, in log
/// order: live index `p - 1 - shift(p)` times the record width.
pub open spec fn prune_offsets(v: StoreView) -> Seq<u64> {
    Seq::new(
        v.removed.len(),
        |i: int| ((v.removed[i] - 1 - count_below(v.pruned, v.removed[i])) * v.record_len) as u64,
    )
}

/// Every removal-log position addresses a whole record inside the file.
pub open spec fn offsets_in_range(v: StoreView) -> bool {
    forall|i: int| 0 <= i < v.removed.len() ==> (#[trigger] v.removed[i] - count_below(
        v.pruned,
        v.removed[i],
    )) * v.record_len <= v.file.len()
}

/// The prune list after absorbing `ps` in order, one sorted insert each.
pub open spec fn add_all(pruned: Seq<u64>, ps: Seq<u64>) -> Seq<u64>
    decreases ps.len(),
{
    if ps.len() == 0 {
        pruned
    } else {
        add_all(
            if pruned.contains(ps[0]) {
                pruned
            } else {
                insert_sorted(pruned, ps[0])
            },
            ps.skip(1),
        )
    }
}

/// State after `check_compact(max_len)`.
///
/// Below the threshold, on an overlap with the prune list, or with a
/// position beyond the file, nothing changes. Otherwise the data file
/// keeps only the chunks of live positions, the prune list absorbs the
/// removal log, the log is truncated, and the new file is mapped whole.
pub open spec fn spec_compact(v: StoreView, max_len: int) -> StoreView {
    if !compact_due(v, max_len) || rm_log_overlaps(v) || !offsets_in_range(v) {
        v
    } else {
        let file = keep_chunks(
            v.file,
            prune_offsets(v),
            v.record_len,
            0,
            v.file.len() as int / v.record_len,
        );
        StoreView {
            file: file,
            mapped: Some(file.len() as int),
            pruned: add_all(v.pruned, v.removed),
            removed: Seq::empty(),
            rm_file: Seq::empty(),
            ..v
        }
    }
}

/// State after a sync: the buffer is drained into the persisted count and
/// the map covers the whole file.
pub open spec fn spec_sync(v: StoreView) -> StoreView {
    StoreView {
        buffer_index: v.buffer_index + v.buf.len(),
        buf: Seq::empty(),
        buf_live: Seq::empty(),
        mapped: Some(v.file.len() as int),
        ..v
    }
}

/// PMMR persistent backend: stable position-indexed node storage with
/// append, layered reads, staged removal and compaction.
pub struct PMMRBackend {
    /// The node-record file, mmap-read and append-only.
    hashsum_file: AppendOnlyFile,
    /// Positions scheduled for removal, cached and durable.
    remove_log: RemoveLog,
    /// Positions already physically pruned from the data file.
    pruned_nodes: PruneList,
    /// Records appended since the last sync.
    buffer: Vec<Vec<u8>>,
    /// Liveness of each buffered record.
    buffer_live: Vec<bool>,
    /// Count of records persisted before the buffer.
    buffer_index: u64,
    /// Width of the sum encoding; records are `32 + sum_len` bytes.
    sum_len: usize,
}

impl View for PMMRBackend {
    type V = StoreView;

    closed spec fn view(&self) -> StoreView {
        StoreView {
            file: self.hashsum_file.data@,
            mapped: match self.hashsum_file.mapped {
                Some(m) => Some(m as int),
                None => None,
            },
            removed: self.remove_log.removed@,
            rm_file: self.remove_log.file@,
            pruned: self.pruned_nodes.pruned_nodes@,
            buf: Seq::new(self.buffer@.len(), |j: int| self.buffer@[j]@),
            buf_live: self.buffer_live@,
            buffer_index: self.buffer_index as int,
            record_len: 32 + self.sum_len,
        }
    }
}

impl PMMRBackend {
    /// The invariant, tied to the concrete representation.
    pub closed spec fn wf(self) -> bool {
        &&& store_wf(self@)
        &&& file_wf(self.hashsum_file)
        &&& rm_log_wf(self.remove_log)
        &&& self.pruned_nodes.wf()
        &&& self.sum_len + 32 <= usize::MAX
    }

    /// Width in bytes of one node record.
    pub fn record_len(&self) -> (r: usize)
        requires
            self.wf(),
        ensures
            r == self@.record_len,
    {
        32 + self.sum_len
    }

    /// Open a backend over the byte images of its three files.
    ///
    /// `sum_len` is the width of the sum encoding of the stored type. The
    /// data image must be whole records, and the two position files must
    /// decode to one-based positions; anything else is corruption. The
    /// data file is mapped at once, so persisted records are readable
    /// immediately after open.
    ///
    /// After a reopen that follows a compaction, `buffer_index` counts
    /// the records physically on disk, which is smaller than the highest
    /// position ever appended: the append frontier re-bases. Callers that
    /// need the original position space across restarts must track it
    /// themselves.
    pub fn new(sum_len: usize, data: Vec<u8>, rm_log: Vec<u8>, pruned: Vec<u8>) -> (r: Result<
        PMMRBackend,
        StoreError,
    >)
        requires
            sum_len + 32 <= usize::MAX,
        ensures
            r matches Ok(b) ==> {
                &&& b.wf()
                &&& store_wf(b@)
                &&& b@.record_len == 32 + sum_len
                &&& b@.file == data@
                &&& b@.mapped == Some(data@.len() as int)
                &&& b@.buffer_index == data@.len() as int / (32 + sum_len as int)
                &&& b@.buf == Seq::<Seq<u8>>::empty()
                &&& b@.buf_live == Seq::<bool>::empty()
                &&& b@.rm_file == rm_log@
                &&& (forall|x: u64|
                    b@.removed.contains(x) <==> crate::ordered::image_holds(rm_log@, x))
                &&& (forall|x: u64|
                    b@.pruned.contains(x) <==> crate::ordered::image_holds(pruned@, x))
            },
            r is Err ==> !(data@.len() as int % (32 + sum_len as int) == 0 && rm_log@.len() % 8 == 0
                && pruned@.len() % 8 == 0 && !crate::ordered::image_holds(rm_log@, 0u64)
                && !crate::ordered::image_holds(pruned@, 0u64)),
    {
        let record_len = 32 + sum_len;
        if data.len() % record_len != 0 {
            return Err(StoreError::Corruption);
        }
        let buffer_index = (data.len() / record_len) as u64;
        let rm = match RemoveLog::open(rm_log) {
            Ok(rm) => rm,
            Err(e) => {
                return Err(e);
            },
        };
        if rm.removed.len() > 0 && rm.removed[0] == 0 {
            proof {
                assert(rm.removed@.contains(0u64));
            }
            return Err(StoreError::Corruption);
        }
        let pruned_vec = match read_ordered_vec(&pruned) {
            Ok(v) => v,
            Err(e) => {
                return Err(e);
            },
        };
        if pruned_vec.len() > 0 && pruned_vec[0] == 0 {
            proof {
                assert(pruned_vec@.contains(0u64));
            }
            return Err(StoreError::Corruption);
        }
        proof {
            assert forall|i: int| 0 <= i < rm.removed@.len() implies #[trigger] rm.removed@[i]
                >= 1 by {
                if rm.removed@[i] == 0 {
                    if i > 0 {
                        assert(rm.removed@[0] < rm.removed@[i]);
                    }
                }
            }
            assert forall|i: int| 0 <= i < pruned_vec@.len() implies #[trigger] pruned_vec@[i]
                >= 1 by {
                if pruned_vec@[i] == 0 {
                    if i > 0 {
                        assert(pruned_vec@[0] < pruned_vec@[i]);
                    }
                }
            }
        }
        let mut hs_file = AppendOnlyFile::open(data);
        hs_file.sync();
        let backend = PMMRBackend {
            hashsum_file: hs_file,
            remove_log: rm,
            pruned_nodes: PruneList::new(pruned_vec),
            buffer: Vec::new(),
            buffer_live: Vec::new(),
            buffer_index,
            sum_len,
        };
        proof {
            assert(backend@.buf =~= Seq::<Seq<u8>>::empty());
        }
        Ok(backend)
    }

    /// Count of records persisted to the data file before the buffer.
    pub fn buffer_index(&self) -> (r: u64)
        ensures
            r == self@.buffer_index,
    {
        self.buffer_index
    }

    /// Number of records currently buffered.
    pub fn buffer_len(&self) -> (r: usize)
        ensures
            r == self@.buf.len(),
    {
        self.buffer.len()
    }

    /// Current size of the data file in bytes.
    pub fn data_size(&self) -> (r: u64)
        ensures
            r == self@.file.len(),
    {
        self.hashsum_file.size()
    }

    /// The full byte image of the data file, for the shell to persist.
    pub fn data_file_bytes(&self) -> (r: &Vec<u8>)
        ensures
            r@ == self@.file,
    {
        &self.hashsum_file.data
    }

    /// The byte image of the removal log file.
    pub fn rm_log_bytes(&self) -> (r: &Vec<u8>)
        ensures
            r@ == self@.rm_file,
    {
        &self.remove_log.file
    }

    /// Number of positions in the removal log.
    pub fn rm_log_len(&self) -> (r: usize)
        ensures
            r == self@.removed.len(),
    {
        self.remove_log.len()
    }

    /// The prune list as a file image, rewritten at each compaction.
    pub fn pruned_file_bytes(&self) -> (r: Vec<u8>)
        ensures
            r@ == crate::ordered::encode_all(self@.pruned),
    {
        crate::ordered::write_vec(&self.pruned_nodes.pruned_nodes)
    }

    /// Append records at `position`, the current write frontier plus one.
    ///
    /// The records land in the buffer, where reads see them at once, and
    /// their bytes go to the data file unsynced. A position off the
    /// frontier is refused and the state is untouched.
    pub fn append(&mut self, position: u64, data: Vec<Vec<u8>>) -> (r: Result<(), StoreError>)
        requires
            old(self).wf(),
            forall|i: int| 0 <= i < data@.len() ==> #[trigger] data@[i]@.len() == old(
                self,
            )@.record_len,
            data@.len() <= u64::MAX - old(self)@.buffer_index - old(self)@.buf.len(),
        ensures
            final(self).wf(),
            r is Ok <==> position == old(self)@.buffer_index + old(self)@.buf.len() + 1,
            r is Ok ==> final(self)@ == spec_append(
                old(self)@,
                Seq::new(data@.len(), |i: int| data@[i]@),
            ),
            r is Err ==> final(self)@ == old(self)@,
    {
        let frontier = self.buffer_index + self.buffer.len() as u64;
        if !(position >= 1 && position - 1 == frontier) {
            return Err(StoreError::PositionMismatch);
        }
        let ghost recs = Seq::new(data@.len(), |i: int| data@[i]@);
        let ghost pre = self@;
        let mut i: usize = 0;
        while i < data.len()
            invariant
                0 <= i <= data@.len(),
                recs == Seq::new(data@.len(), |j: int| data@[j]@),
                forall|j: int| 0 <= j < data@.len() ==> #[trigger] data@[j]@.len()
                    == pre.record_len,
                pre == old(self)@,
                old(self).wf(),
                self.hashsum_file.data@ == pre.file + concat_recs(recs.take(i as int)),
                self.hashsum_file.data@.len() <= usize::MAX,
                self.hashsum_file.mapped == old(self).hashsum_file.mapped,
                self.buffer@.len() == pre.buf.len() + i,
                Seq::new(self.buffer@.len(), |j: int| self.buffer@[j]@) =~= pre.buf + recs.take(
                    i as int,
                ),
                self.buffer_live@ =~= pre.buf_live + Seq::new(i as nat, |j: int| true),
                self.remove_log == old(self).remove_log,
                self.pruned_nodes == old(self).pruned_nodes,
                self.buffer_index == old(self).buffer_index,
                self.sum_len == old(self).sum_len,
            decreases data@.len() - i,
        {
            let rec = data[i].clone();
            proof {
                assert(rec@ == recs[i as int]);
            }
            self.buffer.push(rec);
            self.buffer_live.push(true);
            self.hashsum_file.append(&data[i]);
            i = i + 1;
            proof {
                assert(recs.take(i as int).drop_last() =~= recs.take(i as int - 1));
                assert(self.hashsum_file.data@ =~= pre.file + concat_recs(recs.take(i as int)));
                assert forall|t: int| 0 <= t < self.buffer@.len() implies #[trigger] self.buffer@[
                    t
                ]@ == (pre.buf + recs.take(i as int))[t] by {
                    if t < pre.buf.len() + i - 1 {
                        assert(self.buffer@[t]@ == (pre.buf + recs.take(i as int - 1))[t]);
                    } else {
                        assert(self.buffer@[t]@ == recs[i as int - 1]);
                    }
                }
                assert(Seq::new(self.buffer@.len(), |j: int| self.buffer@[j]@) =~= pre.buf
                    + recs.take(i as int));
                assert(self.buffer_live@ =~= pre.buf_live + Seq::new(i as nat, |j: int| true));
            }
        }
        proof {
            assert(recs.take(recs.len() as int) =~= recs);
            assert(self@ =~= spec_append(pre, recs));
            lemma_concat_recs_len(recs, pre.record_len);
            vstd::arithmetic::div_mod::lemma_mod_multiples_vanish(
                recs.len() as int,
                pre.file.len() as int,
                pre.record_len,
            );
            assert(pre.record_len * recs.len() == recs.len() * pre.record_len)
                by (nonlinear_arith);
        }
        Ok(())
    }

    /// Drain the buffer into the persisted count and remap the file.
    ///
    /// After a sync every previously appended record is served from the
    /// data file.
    pub fn sync(&mut self)
        requires
            old(self).wf(),
        ensures
            final(self).wf(),
            final(self)@ == spec_sync(old(self)@),
    {
        self.buffer_index = self.buffer_index + self.buffer.len() as u64;
        self.buffer = Vec::new();
        self.buffer_live = Vec::new();
        self.hashsum_file.sync();
        proof {
            let post = spec_sync(old(self)@);
            assert(self@.buf =~= post.buf);
            assert(self@.buf_live =~= post.buf_live);
            assert(self@.file == post.file);
            assert(self@.mapped == post.mapped);
            assert(self@.removed == post.removed);
            assert(self@.rm_file == post.rm_file);
            assert(self@.pruned == post.pruned);
            assert(self@.buffer_index == post.buffer_index);
            assert(self@.record_len == post.record_len);
            assert(self@ =~= post);
        }
    }

    /// Read the record at `position` through the four layers.
    pub fn get(&self, position: u64) -> (r: Option<Vec<u8>>)
        requires
            self.wf(),
            position >= 1,
        ensures
            match r {
                Some(rec) => spec_get(self@, position) == Some(rec@),
                None => spec_get(self@, position) is None,
            },
    {
        let record_len = 32 + self.sum_len;
        // First, the temporary write buffer.
        if position > self.buffer_index && position - self.buffer_index <= self.buffer.len()
            as u64 {
            let j = (position - 1 - self.buffer_index) as usize;
            if self.buffer_live[j] {
                return Some(self.buffer[j].clone());
            } else {
                return None;
            }
        }
        // Second, the removal log.
        if self.remove_log.includes(position) {
            return None;
        }
        // Third, the prune list, for the offset shift.
        let shift = match self.pruned_nodes.get_shift(position) {
            None => {
                return None;
            },
            Some(s) => s,
        };
        proof {
            lemma_count_below_bound(self@.pruned, position);
        }
        // Must be on disk at the shifted offset, if the map covers it.
        let k = position - 1 - shift;
        let m = match self.hashsum_file.mapped {
            None => {
                return None;
            },
            Some(m) => m,
        };
        if m < record_len || k > ((m - record_len) / record_len) as u64 {
            proof {
                lemma_chunk_fit(k as int, record_len as int, m as int);
            }
            return None;
        }
        proof {
            lemma_chunk_fit(k as int, record_len as int, m as int);
            assert(k as int * record_len as int + record_len as int == (k as int + 1)
                * record_len as int) by (nonlinear_arith);
            assert(k as int * record_len as int >= 0) by (nonlinear_arith)
                requires k as int >= 0, record_len as int >= 0;
        }
        let offset = (k as usize) * record_len;
        let data = self.hashsum_file.read(offset, record_len);
        if data.len() == record_len {
            Some(data)
        } else {
            None
        }
    }

    /// Remove positions: buffered ones go dead at once, and all of them
    /// are recorded durably in the removal log.
    pub fn remove(&mut self, positions: Vec<u64>) -> (r: Result<(), StoreError>)
        requires
            old(self).wf(),
            forall|i: int| 0 <= i < positions@.len() ==> #[trigger] positions@[i] >= 1,
        ensures
            final(self).wf(),
            r is Ok,
            final(self)@ == spec_remove(old(self)@, positions@),
    {
        let ghost pre = self@;
        let n = self.buffer_live.len();
        let mut fresh_live: Vec<bool> = Vec::new();
        let mut j: usize = 0;
        while j < n
            invariant
                0 <= j <= n,
                n == self.buffer_live@.len(),
                self@ == pre,
                self.wf(),
                rm_log_wf(self.remove_log),
                fresh_live@ =~= Seq::new(
                    j as nat,
                    |t: int| pre.buf_live[t] && !positions@.contains(
                        (pre.buffer_index + t + 1) as u64,
                    ),
                ),
            decreases n - j,
        {
            let p64 = self.buffer_index + 1 + j as u64;
            let dead = vec_holds(&positions, p64);
            fresh_live.push(self.buffer_live[j] && !dead);
            j = j + 1;
            proof {
                assert(fresh_live@ =~= Seq::new(
                    j as nat,
                    |t: int| pre.buf_live[t] && !positions@.contains(
                        (pre.buffer_index + t + 1) as u64,
                    ),
                ));
            }
        }
        self.buffer_live = fresh_live;
        self.remove_log.append(&positions);
        proof {
            assert(self@ =~= spec_remove(pre, positions@));
        }
        Ok(())
    }

    /// Compact the data file if the removal log has outgrown `max_len`
    /// (zero selects the default cap).
    ///
    /// The file is rewritten without the removed records, the prune list
    /// absorbs the removed positions, and the removal log is truncated.
    /// If a logged position is already pruned, compaction aborts without
    /// side effect (a previous compaction likely failed). If a logged
    /// position addresses bytes beyond the data file, the store is
    /// corrupt: the call reports it and changes nothing.
    #[verifier::rlimit(100)]
    pub fn check_compact(&mut self, max_len: usize) -> (r: Result<(), StoreError>)
        requires
            old(self).wf(),
        ensures
            final(self).wf(),
            final(self)@ == spec_compact(old(self)@, max_len as int),
            r is Ok <==> !(compact_due(old(self)@, max_len as int) && !rm_log_overlaps(
                old(self)@,
            ) && !offsets_in_range(old(self)@)),
            r is Err ==> final(self)@ == old(self)@,
    {
        let ghost pre = self@;
        if !(max_len > 0 && self.remove_log.len() > max_len || max_len == 0
            && self.remove_log.len() > RM_LOG_MAX_NODES) {
            return Ok(());
        }
        // 0. Abort when a logged position is already in the prune list:
        // a previous compaction likely failed, and re-applying the shift
        // would corrupt the rewrite.
        let rmlen = self.remove_log.len();
        let mut i: usize = 0;
        while i < rmlen
            invariant
                0 <= i <= rmlen,
                self.wf(),
                self@ == pre,
                rmlen == pre.removed.len(),
                forall|t: int| 0 <= t < i ==> !pre.pruned.contains(#[trigger] pre.removed[t]),
            decreases rmlen - i,
        {
            if self.pruned_nodes.pruned_pos(self.remove_log.removed[i]).is_some() {
                proof {
                    assert(rm_log_overlaps(pre));
                }
                return Ok(());
            }
            i = i + 1;
        }
        proof {
            assert(!rm_log_overlaps(pre));
        }
        // 1. Collect the byte offset of every removed record, in log
        // order, and save a compacted copy of the data file.
        let record_len = 32 + self.sum_len;
        let flen = self.hashsum_file.data.len();
        let mut to_rm: Vec<u64> = Vec::new();
        let mut i: usize = 0;
        while i < rmlen
            invariant
                0 <= i <= rmlen,
                self.wf(),
                self@ == pre,
                rmlen == pre.removed.len(),
                record_len == pre.record_len,
                flen == pre.file.len(),
                compact_due(pre, max_len as int),
                forall|t: int| 0 <= t < rmlen ==> !pre.pruned.contains(#[trigger] pre.removed[t]),
                to_rm@ =~= prune_offsets(pre).take(i as int),
                forall|t: int| 0 <= t < i ==> (#[trigger] pre.removed[t] - count_below(
                    pre.pruned,
                    pre.removed[t],
                )) * pre.record_len <= pre.file.len(),
            decreases rmlen - i,
        {
            let pos = self.remove_log.removed[i];
            let shift = match self.pruned_nodes.get_shift(pos) {
                Some(s) => s,
                None => {
                    // Unreachable: no logged position is pruned here.
                    proof {
                        assert(pre.pruned.contains(pre.removed[i as int]));
                        assert(false);
                    }
                    return Err(StoreError::Corruption);
                },
            };
            proof {
                lemma_count_below_bound(pre.pruned, pos);
            }
            let k = pos - 1 - shift;
            if flen < record_len || k > ((flen - record_len) / record_len) as u64 {
                proof {
                    lemma_chunk_fit(k as int, record_len as int, flen as int);
                    assert((pre.removed[i as int] - count_below(pre.pruned, pre.removed[i as int]))
                        * pre.record_len > pre.file.len());
                    assert(!offsets_in_range(pre));
                    assert(!rm_log_overlaps(pre));
                }
                return Err(StoreError::Corruption);
            }
            proof {
                lemma_chunk_fit(k as int, record_len as int, flen as int);
                assert(k as int * record_len + record_len == (k as int + 1) * record_len)
                    by (nonlinear_arith);
                assert(k as int * record_len >= 0) by (nonlinear_arith)
                    requires k as int >= 0, record_len as int >= 0;
            }
            let off = k * (record_len as u64);
            to_rm.push(off);
            i = i + 1;
            proof {
                assert(to_rm@ =~= prune_offsets(pre).take(i as int));
            }
        }
        proof {
            assert(offsets_in_range(pre));
            assert(to_rm@ =~= prune_offsets(pre));
            lemma_prune_offsets_ok(pre);
        }
        let new_data = self.hashsum_file.save_prune(&to_rm, record_len as u64);
        proof {
            assert(pre.removed.skip(0) =~= pre.removed);
        }
        // 2. Absorb the removed positions into the prune list.
        let mut i: usize = 0;
        while i < rmlen
            invariant
                0 <= i <= rmlen,
                rmlen == pre.removed.len(),
                self.pruned_nodes.wf(),
                self.hashsum_file == old(self).hashsum_file,
                self.remove_log == old(self).remove_log,
                self.buffer == old(self).buffer,
                self.buffer_live == old(self).buffer_live,
                self.buffer_index == old(self).buffer_index,
                self.sum_len == old(self).sum_len,
                old(self).wf(),
                pre == old(self)@,
                forall|t: int| 0 <= t < rmlen ==> #[trigger] pre.removed[t] >= 1,
                add_all(self.pruned_nodes.pruned_nodes@, pre.removed.skip(i as int)) == add_all(
                    pre.pruned,
                    pre.removed,
                ),
            decreases rmlen - i,
        {
            let ghost rest = pre.removed.skip(i as int);
            proof {
                assert(rest[0] == pre.removed[i as int]);
                assert(rest.skip(1) =~= pre.removed.skip(i as int + 1));
            }
            let pos = self.remove_log.removed[i];
            self.pruned_nodes.add(pos);
            i = i + 1;
        }
        proof {
            assert(pre.removed.skip(rmlen as int) =~= Seq::<u64>::empty());
            lemma_add_all(pre.pruned, pre.removed);
        }
        // 3. Swap the compacted copy in as the data file and map it.
        self.hashsum_file = AppendOnlyFile::open(new_data);
        self.hashsum_file.sync();
        // 4. Truncate the removal log.
        self.remove_log.truncate();
        proof {
            let post = spec_compact(pre, max_len as int);
            let nchunks = pre.file.len() as int / pre.record_len;
            assert(nchunks * pre.record_len == pre.file.len()) by (nonlinear_arith)
                requires
                    nchunks == pre.file.len() as int / pre.record_len,
                    pre.file.len() as int % pre.record_len == 0,
                    pre.record_len > 0;
            let offs = prune_offsets(pre);
            assert(forall|t: int| 0 <= t < offs.len() ==> #[trigger] offs[t] >= 0 * pre.record_len);
            crate::append_file::lemma_keep_chunks_len(
                pre.file,
                offs,
                pre.record_len,
                0,
                nchunks,
            );
            let cb0 = count_below(offs, 0u64) as int;
            let cbn = count_below(offs, (nchunks * pre.record_len) as u64) as int;
            crate::ordered::lemma_count_below_split(offs, 0u64);
            crate::ordered::lemma_count_below_split(offs, (nchunks * pre.record_len) as u64);
            assert(cb0 == 0) by {
                if cb0 > 0 {
                    assert(offs[0] < 0u64);
                }
            }
            assert(cbn == offs.len()) by {
                if cbn < offs.len() {
                    assert(offs[cbn] >= (nchunks * pre.record_len) as u64);
                    assert(offs[cbn] + pre.record_len <= pre.file.len());
                }
            }
            let drops = cbn - cb0;
            assert(self@.file.len() == nchunks * pre.record_len - drops * pre.record_len);
            assert(nchunks * pre.record_len - drops * pre.record_len == (nchunks - drops)
                * pre.record_len) by (nonlinear_arith);
            assert(self@.file.len() == (nchunks - drops) * pre.record_len);
            vstd::arithmetic::div_mod::lemma_mod_multiples_vanish(
                nchunks - drops,
                0,
                pre.record_len,
            );
            assert(pre.record_len * (nchunks - drops) == (nchunks - drops) * pre.record_len)
                by (nonlinear_arith);
            assert(self@.file.len() as int % pre.record_len == 0);
            assert(self@ =~= post);
        }
        Ok(())
    }
}

/// The live index `p - 1 - shift(p)` grows strictly along non-pruned
/// positions: between two live positions there are never enough pruned
/// ones to close the gap.
pub proof fn lemma_live_index_mono(pruned: Seq<u64>, q: u64, p: u64)
    requires
        sorted_strict(pruned),
        forall|i: int| 0 <= i < pruned.len() ==> #[trigger] pruned[i] >= 1,
        1 <= q < p,
        !pruned.contains(q),
    ensures
        count_below(pruned, p) - count_below(pruned, q) < p - q,
        q - 1 - count_below(pruned, q) < p - 1 - count_below(pruned, p),
{
    lemma_count_below_split(pruned, q);
    lemma_count_below_split(pruned, p);
    let cq = count_below(pruned, q) as int;
    let cp = count_below(pruned, p) as int;
    assert(cq <= cp) by {
        if cp < cq {
            assert(pruned[cp] < q);
            assert(pruned[cp] >= p);
        }
    }
    if cp > cq {
        // The entries counted between the two bounds all lie in (q, p).
        assert(pruned[cq] >= q);
        assert(pruned[cq] != q) by {
            if pruned[cq] == q {
                assert(pruned.contains(q));
            }
        }
        lemma_sorted_gap(pruned, cq, cp - 1);
        assert(pruned[cp - 1] >= pruned[cq] + (cp - 1 - cq));
        assert(pruned[cp - 1] < p);
    }
    lemma_count_below_bound(pruned, q);
}

/// With no overlap between removal log and prune list, the computed
/// byte offsets are strictly ascending, aligned, and positive.
pub proof fn lemma_prune_offsets_ok(v: StoreView)
    requires
        store_wf(v),
        !rm_log_overlaps(v),
        offsets_in_range(v),
    ensures
        prune_offs_ok(v.file, prune_offsets(v), v.record_len),
    decreases v.removed.len(),
{
    let offs = prune_offsets(v);
    let rl = v.record_len;
    assert forall|i: int| 0 <= i < v.removed.len() implies count_below(v.pruned, v.removed[i])
        <= v.removed[i] - 1 by {
        lemma_count_below_bound(v.pruned, v.removed[i]);
    }
    assert forall|i: int, j: int| 0 <= i < j < offs.len() implies offs[i] < offs[j] by {
        let a = v.removed[i];
        let b = v.removed[j];
        assert(!v.pruned.contains(a) && !v.pruned.contains(b));
        lemma_live_index_mono(v.pruned, a, b);
        let ka = a - 1 - count_below(v.pruned, a);
        let kb = b - 1 - count_below(v.pruned, b);
        assert(ka * rl < kb * rl) by (nonlinear_arith)
            requires 0 <= ka < kb, rl > 0;
        assert((kb + 1) * rl <= v.file.len());
        assert(kb * rl < (kb + 1) * rl) by (nonlinear_arith)
            requires rl > 0, kb >= 0;
        assert(0 <= ka * rl && kb * rl <= u64::MAX as int) by (nonlinear_arith)
            requires
                0 <= ka,
                rl > 0,
                ka * rl < kb * rl,
                kb * rl < (kb + 1) * rl,
                (kb + 1) * rl <= v.file.len(),
                v.file.len() <= u64::MAX;
        assert(offs[i] == (ka * rl) as u64 && offs[j] == (kb * rl) as u64);
    }
    assert forall|i: int| 0 <= i < offs.len() implies #[trigger] offs[i] % (rl as u64) == 0
        && offs[i] + rl <= v.file.len() by {
        let p = v.removed[i];
        assert(!v.pruned.contains(p));
        let k = p - 1 - count_below(v.pruned, p);
        assert((k + 1) * rl <= v.file.len());
        assert(k * rl + rl == (k + 1) * rl && 0 <= k * rl) by (nonlinear_arith)
            requires k >= 0, rl > 0;
        assert(k * rl <= u64::MAX as int);
        assert(offs[i] == (k * rl) as u64);
        vstd::arithmetic::div_mod::lemma_mod_multiples_vanish(k, 0, rl);
        assert(rl * k == k * rl) by (nonlinear_arith);
        assert((k * rl) % rl == 0);
        assert(offs[i] as int % rl == 0);
        assert((rl as u64) as int == rl);
        assert(offs[i] % (rl as u64) == 0);
    }
}

/// Absorbing positions keeps the prune list sorted and one-based, and
/// lands it on the union of the members.
pub proof fn lemma_add_all(pruned: Seq<u64>, ps: Seq<u64>)
    requires
        sorted_strict(pruned),
        forall|i: int| 0 <= i < pruned.len() ==> #[trigger] pruned[i] >= 1,
        forall|i: int| 0 <= i < ps.len() ==> #[trigger] ps[i] >= 1,
    ensures
        sorted_strict(add_all(pruned, ps)),
        forall|i: int| 0 <= i < add_all(pruned, ps).len() ==> #[trigger] add_all(pruned, ps)[i]
            >= 1,
        forall|x: u64|
            add_all(pruned, ps).contains(x) <==> (pruned.contains(x) || ps.contains(x)),
    decreases ps.len(),
{
    if ps.len() > 0 {
        let e = ps[0];
        let stepped = if pruned.contains(e) {
            pruned
        } else {
            insert_sorted(pruned, e)
        };
        if !pruned.contains(e) {
            lemma_insert_sorted(pruned, e);
            assert forall|i: int| 0 <= i < stepped.len() implies #[trigger] stepped[i] >= 1 by {
                assert(stepped.contains(stepped[i]));
                let x = stepped[i];
                if x != e {
                    assert(pruned.contains(x));
                    let k = choose|k: int| 0 <= k < pruned.len() && pruned[k] == x;
                    assert(pruned[k] >= 1);
                }
            }
        }
        assert(forall|i: int| 0 <= i < ps.len() - 1 ==> #[trigger] ps.skip(1)[i] == ps[i + 1]);
        lemma_add_all(stepped, ps.skip(1));
        assert forall|x: u64|
            add_all(pruned, ps).contains(x) <==> (pruned.contains(x) || ps.contains(x)) by {
            if ps.contains(x) {
                let i = choose|i: int| 0 <= i < ps.len() && ps[i] == x;
                if i > 0 {
                    assert(ps.skip(1)[i - 1] == x);
                }
            }
            if ps.skip(1).contains(x) {
                let i = choose|i: int| 0 <= i < ps.skip(1).len() && ps.skip(1)[i] == x;
                assert(ps[i + 1] == x);
            }
        }
    }
}

/// Total byte length of `n` uniform records.
pub proof fn lemma_concat_recs_len(rs: Seq<Seq<u8>>, rl: int)
    requires
        forall|i: int| 0 <= i < rs.len() ==> #[trigger] rs[i].len() == rl,
    ensures
        concat_recs(rs).len() == rs.len() * rl,
    decreases rs.len(),
{
    if rs.len() == 0 {
    } else {
        assert(forall|i: int| 0 <= i < rs.len() - 1 ==> #[trigger] rs.drop_last()[i] == rs[i]);
        lemma_concat_recs_len(rs.drop_last(), rl);
        assert((rs.len() - 1) * rl + rl == rs.len() * rl) by (nonlinear_arith);
    }
}

/// A record slice of `concat_recs` is the record itself.
pub proof fn lemma_concat_recs_index(rs: Seq<Seq<u8>>, rl: int, j: int)
    requires
        forall|i: int| 0 <= i < rs.len() ==> #[trigger] rs[i].len() == rl,
        0 <= j < rs.len(),
        rl >= 0,
    ensures
        concat_recs(rs).len() == rs.len() * rl,
        concat_recs(rs).subrange(j * rl, (j + 1) * rl) == rs[j],
    decreases rs.len(),
{
    lemma_concat_recs_len(rs, rl);
    assert(forall|i: int| 0 <= i < rs.len() - 1 ==> #[trigger] rs.drop_last()[i] == rs[i]);
    if j == rs.len() - 1 {
        lemma_concat_recs_len(rs.drop_last(), rl);
        assert(j * rl == concat_recs(rs.drop_last()).len());
        assert((j + 1) * rl == j * rl + rl) by (nonlinear_arith);
        assert(concat_recs(rs).subrange(j * rl, (j + 1) * rl) =~= rs[j]);
    } else {
        lemma_concat_recs_index(rs.drop_last(), rl, j);
        assert((j + 1) * rl <= (rs.len() - 1) * rl) by (nonlinear_arith)
            requires j + 1 <= rs.len() - 1, rl >= 0;
        assert(j * rl >= 0) by (nonlinear_arith)
            requires j >= 0, rl >= 0;
        assert(j * rl + rl == (j + 1) * rl) by (nonlinear_arith);
        assert((rs.len() - 1) * rl <= rs.len() * rl) by (nonlinear_arith)
            requires rl >= 0;
        assert(concat_recs(rs.drop_last()).len() == (rs.len() - 1) * rl);
        assert(concat_recs(rs).subrange(j * rl, (j + 1) * rl) =~= concat_recs(
            rs.drop_last(),
        ).subrange(j * rl, (j + 1) * rl));
    }
}

/// Fitting a whole chunk under `m` is the same as staying at or below the
/// last whole-chunk index.
proof fn lemma_chunk_fit(k: int, rl: int, m: int)
    requires
        rl > 0,
        k >= 0,
        m >= 0,
    ensures
        (k + 1) * rl <= m <==> (m >= rl && k <= (m - rl) / rl),
{
    if (k + 1) * rl <= m {
        assert(rl <= (k + 1) * rl) by (nonlinear_arith)
            requires k >= 0, rl > 0;
        assert(k * rl <= m - rl) by (nonlinear_arith)
            requires (k + 1) * rl <= m;
        vstd::arithmetic::div_mod::lemma_div_is_ordered(k * rl, m - rl, rl);
        assert(k * rl / rl == k) by (nonlinear_arith)
            requires rl > 0;
    }
    if m >= rl && k <= (m - rl) / rl {
        vstd::arithmetic::div_mod::lemma_fundamental_div_mod(m - rl, rl);
        assert(k * rl <= ((m - rl) / rl) * rl) by (nonlinear_arith)
            requires rl > 0, k <= (m - rl) / rl;
        assert(((m - rl) / rl) * rl <= m - rl) by {
            vstd::arithmetic::div_mod::lemma_fundamental_div_mod(m - rl, rl);
            vstd::arithmetic::div_mod::lemma_mod_bound(m - rl, rl);
            assert(rl * ((m - rl) / rl) == ((m - rl) / rl) * rl) by (nonlinear_arith);
        }
        assert((k + 1) * rl == k * rl + rl) by (nonlinear_arith);
    }
}

} // verus!
