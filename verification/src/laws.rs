//! Laws of the store, proved over the state transformers.
//!
//! Each proof function states a property of the backend that spans one or
//! more operations: what a read returns after an append, a removal, a
//! sync or a compaction, and when a compaction is a no-op.

use vstd::prelude::*;

use crate::backend::{
    add_all, compact_due, concat_recs, lemma_add_all, lemma_concat_recs_index,
    lemma_concat_recs_len,
    lemma_live_index_mono, lemma_prune_offsets_ok, offsets_in_range, prune_offsets,
    rm_log_overlaps, spec_append, spec_compact, spec_get, spec_remove, spec_sync, store_wf,
    StoreView,
};
use crate::append_file::{keep_chunks, lemma_keep_chunks_len, lemma_keep_chunks_split};
use crate::ordered::{
    count_below, insert_sorted, lemma_count_below_bound, lemma_count_below_insert,
    lemma_count_below_split, lemma_insert_sorted, lemma_sorted_gap, sorted_strict,
};
use crate::remove_log::{lemma_rm_append, rm_append};

verus! {

/// Absorbing a disjoint sorted batch into a sorted list adds its count
/// below any bound.
pub proof fn lemma_count_below_add_all(pruned: Seq<u64>, ps: Seq<u64>, x: u64)
    requires
        sorted_strict(pruned),
        sorted_strict(ps),
        forall|i: int| 0 <= i < ps.len() ==> !pruned.contains(#[trigger] ps[i]),
    ensures
        count_below(add_all(pruned, ps), x) == count_below(pruned, x) + count_below(ps, x),
    decreases ps.len(),
{
    if ps.len() == 0 {
    } else {
        let e = ps[0];
        assert(!pruned.contains(e));
        let stepped = insert_sorted(pruned, e);
        lemma_insert_sorted(pruned, e);
        lemma_count_below_insert(pruned, e, x);
        assert(forall|i: int| 0 <= i < ps.len() - 1 ==> #[trigger] ps.skip(1)[i] == ps[i + 1]);
        assert forall|i: int| 0 <= i < ps.skip(1).len() implies !stepped.contains(
            #[trigger] ps.skip(1)[i],
        ) by {
            assert(ps.skip(1)[i] == ps[i + 1]);
            assert(ps[0] < ps[i + 1]);
        }
        lemma_count_below_add_all(stepped, ps.skip(1), x);
        assert(seq![e] + ps.skip(1) =~= ps);
        crate::ordered::lemma_count_below_concat(seq![e], ps.skip(1), x);
        assert(count_below(seq![e], x) == (if e < x {
            1int
        } else {
            0int
        })) by {
            let s1 = seq![e];
            assert(s1.len() == 1 && s1.last() == e);
            assert(s1.drop_last() =~= Seq::<u64>::empty());
            assert(count_below(Seq::<u64>::empty(), x) == 0);
        }
    }
}

/// Strictly ascending aligned offsets climb by at least one record width
/// per index.
proof fn lemma_aligned_gap(offs: Seq<u64>, rl: int, i: int, j: int)
    requires
        rl > 0,
        sorted_strict(offs),
        forall|t: int| 0 <= t < offs.len() ==> #[trigger] offs[t] % (rl as u64) == 0,
        rl <= u64::MAX as int,
        0 <= i <= j < offs.len(),
    ensures
        offs[j] >= offs[i] + (j - i) * rl,
    decreases j - i,
{
    if i < j {
        lemma_aligned_gap(offs, rl, i, j - 1);
        let a = offs[j - 1] as int;
        let b = offs[j] as int;
        assert(a < b);
        vstd::arithmetic::div_mod::lemma_fundamental_div_mod(a, rl);
        vstd::arithmetic::div_mod::lemma_fundamental_div_mod(b, rl);
        assert((rl as u64) as int == rl);
        assert(a % rl == 0 && b % rl == 0);
        let qa = a / rl;
        let qb = b / rl;
        assert(b >= a + rl) by (nonlinear_arith)
            requires
                a == qa * rl + 0,
                b == qb * rl + 0,
                a < b,
                rl > 0;
        assert((j - 1 - i) * rl + rl == (j - i) * rl) by (nonlinear_arith);
        assert(offs[j] as int >= offs[i] as int + (j - i) * rl);
    } else {
        assert((j - i) * rl == 0) by (nonlinear_arith)
            requires i == j;
    }
}

/// Append/get round trip before a sync: every record appended at the
/// write frontier is returned by a read of its position, straight from
/// the buffer.
pub proof fn lemma_append_then_get(v: StoreView, recs: Seq<Seq<u8>>, j: int)
    requires
        store_wf(v),
        v.buffer_index + v.buf.len() + recs.len() <= u64::MAX as int,
        0 <= j < recs.len(),
    ensures
        spec_get(spec_append(v, recs), (v.buffer_index + v.buf.len() + 1 + j) as u64) == Some(
            recs[j],
        ),
{
    let post = spec_append(v, recs);
    let pos = (v.buffer_index + v.buf.len() + 1 + j) as u64;
    assert(post.buf_live[v.buf.len() + j] == true);
    assert(post.buf[v.buf.len() + j] == recs[j]);
}

/// Removal is visible at once: a read of any removed position returns
/// nothing, whether the record was still buffered or already on disk.
pub proof fn lemma_remove_then_get(v: StoreView, ps: Seq<u64>, p: u64)
    requires
        store_wf(v),
        forall|i: int| 0 <= i < ps.len() ==> #[trigger] ps[i] >= 1,
        ps.contains(p),
    ensures
        spec_get(spec_remove(v, ps), p) is None,
{
    let post = spec_remove(v, ps);
    lemma_rm_append(v.removed, v.rm_file, ps);
    if v.buffer_index < p <= v.buffer_index + v.buf.len() {
        let j = p - 1 - v.buffer_index;
        assert((v.buffer_index + j + 1) as u64 == p);
        assert(post.buf_live[j] == false);
    } else {
        assert(post.removed.contains(p));
    }
}

/// A removed position stays invisible through compaction: afterwards the
/// removal log no longer holds it, but the prune list does.
pub proof fn lemma_removed_gone_after_compact(v: StoreView, max_len: int, p: u64)
    requires
        store_wf(v),
        v.removed.contains(p),
        v.buffer_index < p <= v.buffer_index + v.buf.len() ==> !v.buf_live[p - 1
            - v.buffer_index],
    ensures
        spec_get(spec_compact(v, max_len), p) is None,
{
    let post = spec_compact(v, max_len);
    if post == v {
        if v.buffer_index < p <= v.buffer_index + v.buf.len() {
        } else {
            assert(v.removed.contains(p));
        }
    } else {
        lemma_add_all(v.pruned, v.removed);
        assert(post.pruned.contains(p));
        if post.buffer_index < p <= post.buffer_index + post.buf.len() {
        }
    }
}

/// Sum-width addressing: a live position `p` on disk is read at byte
/// offset `k * record_len`, where `k = p - 1 - shift(p)` and the shift
/// counts exactly the pruned positions strictly below `p`.
pub proof fn lemma_sum_width_addressing(v: StoreView, p: u64)
    requires
        store_wf(v),
        p >= 1,
        !(v.buffer_index < p <= v.buffer_index + v.buf.len()),
        !v.removed.contains(p),
        !v.pruned.contains(p),
    ensures
        ({
            let k = p - 1 - count_below(v.pruned, p);
            // The shift counts the pruned positions below p, and nothing else.
            &&& (forall|i: int| 0 <= i < v.pruned.len() ==> (#[trigger] v.pruned[i] < p <==> i
                < count_below(v.pruned, p)))
            // A read resolves to the whole-record slice at k * record_len.
            &&& (spec_get(v, p) matches Some(rec) ==> v.mapped matches Some(m) && (k + 1)
                * v.record_len <= m && rec == v.file.subrange(k * v.record_len, (k + 1)
                * v.record_len))
        }),
{
    lemma_count_below_split(v.pruned, p);
    lemma_count_below_bound(v.pruned, p);
    let c = count_below(v.pruned, p) as int;
    assert forall|i: int| 0 <= i < v.pruned.len() implies (#[trigger] v.pruned[i] < p <==> i
        < c) by {
        if v.pruned[i] < p && i >= c {
            assert(v.pruned[i] >= p);
        }
    }
}

/// The store is flushed up to its frontier: every pruned position lies
/// at or below `buffer_index`, the file holds exactly the live persisted
/// records followed by the buffered ones, and its tail is their bytes.
/// This is the steady state that `append` and `sync` maintain between
/// compactions.
pub open spec fn flushed_frontier(v: StoreView) -> bool {
    &&& (forall|i: int| 0 <= i < v.pruned.len() ==> #[trigger] v.pruned[i] <= v.buffer_index)
    &&& v.file.len() == (v.buffer_index + v.buf.len() - v.pruned.len()) * v.record_len
    &&& v.file.skip(v.file.len() - v.buf.len() * v.record_len) == concat_recs(v.buf)
}

/// Record concatenation distributes over appending batches.
proof fn lemma_concat_recs_app(a: Seq<Seq<u8>>, b: Seq<Seq<u8>>)
    ensures
        concat_recs(a + b) == concat_recs(a) + concat_recs(b),
    decreases b.len(),
{
    if b.len() == 0 {
        assert(a + b =~= a);
        assert(concat_recs(b) =~= Seq::<u8>::empty());
        assert(concat_recs(a) + concat_recs(b) =~= concat_recs(a));
    } else {
        assert((a + b).drop_last() =~= a + b.drop_last());
        assert((a + b).last() == b.last());
        lemma_concat_recs_app(a, b.drop_last());
        assert(concat_recs(a) + concat_recs(b) =~= (concat_recs(a) + concat_recs(b.drop_last()))
            + b.last());
    }
}

/// Appending whole records at the frontier keeps the store flushed: the
/// file still ends in exactly the buffered records.
pub proof fn lemma_append_preserves_flushed(v: StoreView, recs: Seq<Seq<u8>>)
    requires
        store_wf(v),
        flushed_frontier(v),
        forall|i: int| 0 <= i < recs.len() ==> #[trigger] recs[i].len() == v.record_len,
    ensures
        flushed_frontier(spec_append(v, recs)),
{
    let post = spec_append(v, recs);
    let rl = v.record_len;
    let nb = v.buf.len() as int;
    let k = recs.len() as int;
    crate::backend::lemma_concat_recs_len(recs, rl);
    assert(post.file.len() == (v.buffer_index + (nb + k) - v.pruned.len()) * rl)
        by (nonlinear_arith)
        requires
            post.file.len() == v.file.len() + k * rl,
            v.file.len() == (v.buffer_index + nb - v.pruned.len()) * rl;
    let s0 = v.file.len() - nb * rl;
    assert(post.file.len() - (nb + k) * rl == s0) by (nonlinear_arith)
        requires
            post.file.len() == v.file.len() + k * rl,
            s0 == v.file.len() - nb * rl;
    lemma_concat_recs_app(v.buf, recs);
    assert(s0 >= 0) by {
        let np = v.pruned.len() as int;
        if np > 0 {
            lemma_sorted_gap(v.pruned, 0, np - 1);
            assert(v.pruned[np - 1] >= v.pruned[0] + np - 1);
            assert(v.pruned[np - 1] <= v.buffer_index);
        }
        assert((v.buffer_index + nb - np) * rl - nb * rl == (v.buffer_index - np) * rl && 0
            <= (v.buffer_index - np) * rl) by (nonlinear_arith)
            requires v.buffer_index - np >= 0, rl > 0;
    }
    assert(post.file.skip(s0) =~= v.file.skip(s0) + concat_recs(recs));
    assert(post.file.skip(s0) == concat_recs(post.buf));
}

/// A sync keeps the store flushed: the buffer empties and the persisted
/// count absorbs it.
pub proof fn lemma_sync_preserves_flushed(v: StoreView)
    requires
        store_wf(v),
        flushed_frontier(v),
    ensures
        flushed_frontier(spec_sync(v)),
{
    let post = spec_sync(v);
    assert(post.file.skip(post.file.len() as int) =~= Seq::<u8>::empty());
    assert(concat_recs(post.buf) =~= Seq::<u8>::empty());
}

/// Append/get round trip after a sync: a live buffered record is served
/// from the data file at its shifted offset once the buffer is drained.
pub proof fn lemma_sync_then_get(v: StoreView, j: int)
    requires
        store_wf(v),
        flushed_frontier(v),
        0 <= j < v.buf.len(),
        v.buf_live[j],
        !v.removed.contains((v.buffer_index + 1 + j) as u64),
    ensures
        spec_get(spec_sync(v), (v.buffer_index + 1 + j) as u64) == Some(v.buf[j]),
{
    let post = spec_sync(v);
    let bi = v.buffer_index;
    let rl = v.record_len;
    let nb = v.buf.len() as int;
    let np = v.pruned.len() as int;
    let p = (bi + 1 + j) as u64;
    assert(p == bi + 1 + j);
    assert(!(post.buffer_index < p));
    assert(!v.pruned.contains(p)) by {
        if v.pruned.contains(p) {
            let i = choose|i: int| 0 <= i < v.pruned.len() && v.pruned[i] == p;
            assert(v.pruned[i] <= bi);
        }
    }
    assert(count_below(v.pruned, p) == np) by {
        lemma_count_below_split(v.pruned, p);
        if count_below(v.pruned, p) < np {
            assert(v.pruned[count_below(v.pruned, p) as int] >= p);
            assert(v.pruned[count_below(v.pruned, p) as int] <= bi);
        }
    }
    assert(np <= bi) by {
        if np > 0 {
            lemma_sorted_gap(v.pruned, 0, np - 1);
            assert(v.pruned[np - 1] >= v.pruned[0] + np - 1);
            assert(v.pruned[np - 1] <= bi);
        }
    }
    let k = p - 1 - count_below(v.pruned, p);
    assert(k == bi + j - np);
    assert((k + 1) * rl <= v.file.len() && k * rl + rl == (k + 1) * rl && 0 <= k * rl && (bi - np)
        * rl + j * rl == k * rl && v.file.len() - nb * rl == (bi - np) * rl)
        by (nonlinear_arith)
        requires
            k == bi + j - np,
            0 <= j < nb,
            0 <= np <= bi,
            rl > 0,
            v.file.len() == (bi + nb - np) * rl;
    lemma_concat_recs_index(v.buf, rl, j);
    let s0 = v.file.len() - nb * rl;
    assert(v.file.subrange(k * rl, (k + 1) * rl) =~= v.file.skip(s0).subrange(
        j * rl,
        (j + 1) * rl,
    )) by {
        assert((j + 1) * rl == j * rl + rl) by (nonlinear_arith);
        assert(forall|t: int| 0 <= t < v.file.len() - s0 ==> #[trigger] v.file.skip(s0)[t]
            == v.file[t + s0]);
    }
    assert(v.file.subrange(k * rl, (k + 1) * rl) == v.buf[j]);
}

/// Length of the compacted data file: one record width less per removed
/// position.
proof fn lemma_compact_file_len(v: StoreView, max_len: int)
    requires
        store_wf(v),
        compact_due(v, max_len),
        !rm_log_overlaps(v),
        offsets_in_range(v),
    ensures
        spec_compact(v, max_len).file.len() == (v.file.len() as int / v.record_len
            - v.removed.len()) * v.record_len,
{
    let rl = v.record_len;
    let n = v.file.len() as int / rl;
    let offs = prune_offsets(v);
    let nr = v.removed.len() as int;
    assert(n * rl == v.file.len()) by (nonlinear_arith)
        requires
            n == v.file.len() as int / rl,
            v.file.len() as int % rl == 0,
            rl > 0;
    lemma_prune_offsets_ok(v);
    assert(forall|t: int| 0 <= t < offs.len() ==> #[trigger] offs[t] >= 0 * rl);
    lemma_keep_chunks_len(v.file, offs, rl, 0, n);
    lemma_count_below_split(offs, 0u64);
    lemma_count_below_split(offs, (n * rl) as u64);
    let cb0 = count_below(offs, 0u64) as int;
    let cbn = count_below(offs, (n * rl) as u64) as int;
    assert(cb0 == 0) by {
        if cb0 > 0 {
            assert(offs[0] < 0u64);
        }
    }
    assert(cbn == nr) by {
        if cbn < nr {
            assert(offs[cbn] >= (n * rl) as u64);
            assert(offs[cbn] + rl <= v.file.len());
        }
    }
    assert(n * rl - nr * rl == (n - nr) * rl) by (nonlinear_arith);
}

/// Positional stability across compaction: a position that is neither
/// removed nor pruned reads the same bytes before and after
/// `check_compact`, provided the data file was synced whole.
pub proof fn lemma_compact_stability(v: StoreView, max_len: int, p: u64)
    requires
        store_wf(v),
        p >= 1,
        !v.removed.contains(p),
        !v.pruned.contains(p),
        v.mapped == Some(v.file.len() as int),
    ensures
        spec_get(spec_compact(v, max_len), p) == spec_get(v, p),
{
    let post = spec_compact(v, max_len);
    if compact_due(v, max_len) && !rm_log_overlaps(v) && offsets_in_range(v) {
        let rl = v.record_len;
        let n = v.file.len() as int / rl;
        let offs = prune_offsets(v);
        let nr = v.removed.len() as int;
        assert(n * rl == v.file.len()) by (nonlinear_arith)
            requires
                n == v.file.len() as int / rl,
                v.file.len() as int % rl == 0,
                rl > 0;
        lemma_prune_offsets_ok(v);
        lemma_add_all(v.pruned, v.removed);
        lemma_compact_file_len(v, max_len);
        assert(!post.pruned.contains(p));
        if v.buffer_index < p <= v.buffer_index + v.buf.len() {
            // The buffer is untouched by compaction.
        } else {
            lemma_count_below_add_all(v.pruned, v.removed, p);
            lemma_count_below_bound(v.pruned, p);
            lemma_count_below_split(v.removed, p);
            lemma_count_below_split(offs, (n * rl) as u64);
            let cbp = count_below(v.pruned, p) as int;
            let cbr = count_below(v.removed, p) as int;
            let k1 = p - 1 - cbp;
            let k2 = p - 1 - (cbp + cbr);
            assert(count_below(post.pruned, p) == cbp + cbr);
            lemma_count_below_bound(post.pruned, p);
            assert(0 <= k2 && k2 == k1 - cbr && cbr <= nr);
            if (k1 + 1) * rl <= v.file.len() {
                // The record is on disk before compaction; it survives at
                // the same position, shifted down by the removed records
                // in front of it.
                assert(k1 < n) by (nonlinear_arith)
                    requires (k1 + 1) * rl <= n * rl, rl > 0;
                assert(0 <= k1 * rl && k1 * rl + rl == (k1 + 1) * rl) by (nonlinear_arith)
                    requires k1 >= 0, rl > 0;
                let xoff = (k1 * rl) as u64;
                assert(xoff == k1 * rl);
                assert forall|i: int| 0 <= i < nr implies ((v.removed[i] < p ==> offs[i] < xoff)
                    && (v.removed[i] > p ==> offs[i] > xoff)) by {
                    let q = v.removed[i];
                    assert(!v.pruned.contains(q));
                    assert(q >= 1);
                    lemma_count_below_bound(v.pruned, q);
                    let kq = q - 1 - count_below(v.pruned, q);
                    assert((kq + 1) * rl <= v.file.len());
                    assert(0 <= kq * rl && kq * rl + rl == (kq + 1) * rl) by (nonlinear_arith)
                        requires kq >= 0, rl > 0;
                    assert(offs[i] == (kq * rl) as u64);
                    if q < p {
                        lemma_live_index_mono(v.pruned, q, p);
                        assert(kq * rl < k1 * rl) by (nonlinear_arith)
                            requires kq < k1, rl > 0;
                    }
                    if q > p {
                        lemma_live_index_mono(v.pruned, p, q);
                        assert(k1 * rl < kq * rl) by (nonlinear_arith)
                            requires k1 < kq, rl > 0;
                    }
                }
                lemma_count_below_split(offs, xoff);
                let c = count_below(offs, xoff) as int;
                assert(c == cbr) by {
                    if c < cbr {
                        assert(offs[c] >= xoff);
                        assert(v.removed[c] < p);
                    }
                    if c > cbr {
                        assert(offs[cbr] < xoff);
                        assert(v.removed[cbr] >= p && v.removed[cbr] != p);
                    }
                }
                assert(!offs.contains(xoff)) by {
                    if offs.contains(xoff) {
                        let i = choose|i: int| 0 <= i < offs.len() && offs[i] == xoff;
                        assert(v.removed[i] != p);
                        if v.removed[i] < p {
                            assert(offs[i] < xoff);
                        } else {
                            assert(offs[i] > xoff);
                        }
                    }
                }
                // Split the kept walk around the chunk of p.
                lemma_keep_chunks_split(v.file, offs, rl, 0, k1, n);
                lemma_keep_chunks_split(v.file, offs, rl, k1, k1 + 1, n);
                let front = keep_chunks(v.file, offs, rl, 0, k1);
                let chunk = v.file.subrange(k1 * rl, k1 * rl + rl);
                let back = keep_chunks(v.file, offs, rl, k1 + 1, n);
                assert(keep_chunks(v.file, offs, rl, k1 + 1, k1 + 1) == Seq::<u8>::empty());
                assert(keep_chunks(v.file, offs, rl, k1, k1 + 1) =~= chunk);
                assert(post.file == front + (chunk + back));
                assert(forall|t: int| 0 <= t < offs.len() ==> #[trigger] offs[t] >= 0 * rl);
                lemma_keep_chunks_len(v.file, offs, rl, 0, k1);
                lemma_count_below_split(offs, 0u64);
                assert(count_below(offs, 0u64) == 0) by {
                    if count_below(offs, 0u64) > 0 {
                        assert(offs[0] < 0u64);
                    }
                }
                assert(front.len() == k1 * rl - c * rl);
                assert(front.len() == k2 * rl) by (nonlinear_arith)
                    requires
                        front.len() == k1 * rl - cbr * rl,
                        k2 == k1 - cbr;
                assert(post.file.subrange(k2 * rl, k2 * rl + rl) =~= chunk);
                // The shifted chunk stays inside the compacted file.
                assert(k2 + 1 <= n - nr) by {
                    if cbr == nr {
                        assert(k2 + 1 == k1 + 1 - nr <= n - nr);
                    } else {
                        assert(offs[cbr] > xoff);
                        let b = offs[cbr] as int;
                        vstd::arithmetic::div_mod::lemma_fundamental_div_mod(b, rl);
                        assert(b % rl == 0);
                        assert(rl * (b / rl) == (b / rl) * rl) by (nonlinear_arith);
                        assert(b == (b / rl) * rl);
                        assert(b >= (k1 + 1) * rl) by (nonlinear_arith)
                            requires
                                b == (b / rl) * rl,
                                b > k1 * rl,
                                k1 * rl + rl == (k1 + 1) * rl,
                                rl > 0;
                        lemma_aligned_gap(offs, rl, cbr, nr - 1);
                        assert(offs[nr - 1] + rl <= n * rl);
                        assert(k1 + 1 + (nr - 1 - cbr) + 1 <= n) by (nonlinear_arith)
                            requires
                                offs[nr - 1] >= offs[cbr] + (nr - 1 - cbr) * rl,
                                offs[cbr] >= (k1 + 1) * rl,
                                offs[nr - 1] + rl <= n * rl,
                                rl > 0;
                    }
                }
                assert((k2 + 1) * rl <= (n - nr) * rl) by (nonlinear_arith)
                    requires k2 + 1 <= n - nr, rl > 0;
                assert(k2 * rl + rl == (k2 + 1) * rl) by (nonlinear_arith);
                assert(spec_get(post, p) == Some(chunk));
                assert(spec_get(v, p) == Some(chunk));
            } else {
                // The position lies beyond the synced file before
                // compaction; it still does afterwards.
                assert(spec_get(v, p) is None);
                assert(k1 >= n) by (nonlinear_arith)
                    requires (k1 + 1) * rl > n * rl, rl > 0, k1 >= 0;
                assert(k2 + 1 > n - nr);
                assert((k2 + 1) * rl > (n - nr) * rl) by (nonlinear_arith)
                    requires k2 + 1 > n - nr, rl > 0;
                assert(spec_get(post, p) is None);
            }
        }
    }
}

/// One step of the store's write path: a batch appended at the frontier,
/// or a sync.
pub enum StoreEvent {
    Append(Seq<Seq<u8>>),
    Sync,
}

/// The state after one event.
pub open spec fn apply_event(v: StoreView, e: StoreEvent) -> StoreView {
    match e {
        StoreEvent::Append(recs) => spec_append(v, recs),
        StoreEvent::Sync => spec_sync(v),
    }
}

/// The state after a whole run of events.
pub open spec fn run_events(v: StoreView, es: Seq<StoreEvent>) -> StoreView
    decreases es.len(),
{
    if es.len() == 0 {
        v
    } else {
        run_events(apply_event(v, es[0]), es.skip(1))
    }
}

/// All records the run appends, in append order.
pub open spec fn appended_records(es: Seq<StoreEvent>) -> Seq<Seq<u8>>
    decreases es.len(),
{
    if es.len() == 0 {
        Seq::empty()
    } else {
        (match es[0] {
            StoreEvent::Append(recs) => recs,
            StoreEvent::Sync => Seq::empty(),
        }) + appended_records(es.skip(1))
    }
}

/// Every appended record in the run is one record wide.
pub open spec fn events_sized(es: Seq<StoreEvent>, rl: int) -> bool {
    forall|i: int| 0 <= i < es.len() ==> match #[trigger] es[i] {
        StoreEvent::Append(recs) => forall|j: int|
            0 <= j < recs.len() ==> #[trigger] recs[j].len() == rl,
        StoreEvent::Sync => true,
    }
}

/// A store just opened over empty file images.
pub open spec fn fresh_store(v: StoreView) -> bool {
    &&& store_wf(v)
    &&& v.file.len() == 0
    &&& v.mapped == Some(0int)
    &&& v.removed.len() == 0
    &&& v.pruned.len() == 0
    &&& v.buf.len() == 0
    &&& v.buffer_index == 0
}

/// What holds of a fresh store driven only by appends and syncs, with
/// `rs` the records appended so far: nothing is removed or pruned, the
/// file is their bytes, the buffer their unsynced tail, and the map
/// covers exactly the synced records.
pub open spec fn write_path_inv(v: StoreView, rs: Seq<Seq<u8>>, rl: int) -> bool {
    &&& store_wf(v)
    &&& v.record_len == rl
    &&& v.removed.len() == 0
    &&& v.pruned.len() == 0
    &&& v.buffer_index + v.buf.len() == rs.len()
    &&& v.buf == rs.skip(v.buffer_index)
    &&& (forall|j: int| 0 <= j < v.buf_live.len() ==> v.buf_live[j] == true)
    &&& v.file == concat_recs(rs)
    &&& v.mapped == Some(v.buffer_index * rl)
    &&& (forall|i: int| 0 <= i < rs.len() ==> #[trigger] rs[i].len() == rl)
}

/// The write-path invariant survives a whole run of events.
proof fn lemma_run_events_inv(v: StoreView, es: Seq<StoreEvent>, rs: Seq<Seq<u8>>, rl: int)
    requires
        write_path_inv(v, rs, rl),
        events_sized(es, rl),
        rs.len() + appended_records(es).len() <= u64::MAX,
        (rs.len() + appended_records(es).len()) * rl <= usize::MAX,
    ensures
        write_path_inv(run_events(v, es), rs + appended_records(es), rl),
    decreases es.len(),
{
    lemma_concat_recs_len(rs, rl);
    if es.len() == 0 {
        assert(rs + appended_records(es) =~= rs);
    } else {
        let head = (match es[0] {
            StoreEvent::Append(recs) => recs,
            StoreEvent::Sync => Seq::<Seq<u8>>::empty(),
        });
        let v1 = apply_event(v, es[0]);
        let rs1 = rs + head;
        assert(appended_records(es) == head + appended_records(es.skip(1)));
        assert((rs.len() + head.len()) * rl <= (rs.len() + appended_records(es).len()) * rl
            && rs.len() * rl <= (rs.len() + head.len()) * rl) by (nonlinear_arith)
            requires rl > 0, head.len() <= appended_records(es).len();
        assert(write_path_inv(v1, rs1, rl)) by {
            match es[0] {
                StoreEvent::Append(recs) => {
                    lemma_concat_recs_app(rs, recs);
                    lemma_concat_recs_len(rs1, rl);
                    assert(forall|j: int| 0 <= j < recs.len() ==> #[trigger] recs[j].len() == rl);
                    assert forall|i: int| 0 <= i < rs1.len() implies #[trigger] rs1[i].len()
                        == rl by {
                        if i < rs.len() {
                            assert(rs1[i] == rs[i]);
                        } else {
                            assert(rs1[i] == recs[i - rs.len()]);
                        }
                    }
                    assert(forall|j: int| 0 <= j < v1.buf_live.len() ==> v1.buf_live[j] == true);
                    assert(v1.buf =~= rs1.skip(v1.buffer_index));
                    assert(0 <= v1.buffer_index * rl && v1.buffer_index * rl <= v1.file.len())
                        by (nonlinear_arith)
                        requires
                            v1.file.len() == rs1.len() * rl,
                            0 <= v1.buffer_index <= rs1.len(),
                            rl > 0;
                    vstd::arithmetic::div_mod::lemma_mod_multiples_vanish(rs1.len() as int, 0, rl);
                    assert(rl * rs1.len() == rs1.len() * rl) by (nonlinear_arith);
                    assert(v1.file.len() as int % rl == 0);
                },
                StoreEvent::Sync => {
                    assert(v1.buf =~= rs1.skip(v1.buffer_index));
                    assert(rs1 =~= rs);
                    lemma_concat_recs_len(rs1, rl);
                },
            }
        }
        assert(events_sized(es.skip(1), rl)) by {
            assert(forall|i: int| 0 <= i < es.len() - 1 ==> #[trigger] es.skip(1)[i] == es[i
                + 1]);
        }
        lemma_run_events_inv(v1, es.skip(1), rs1, rl);
        assert(rs1 + appended_records(es.skip(1)) =~= rs + appended_records(es));
    }
}

/// Under the write-path invariant, every appended record is read back at
/// its position, from the buffer or from the mapped file.
proof fn lemma_write_path_get(v: StoreView, rs: Seq<Seq<u8>>, rl: int, p: u64)
    requires
        write_path_inv(v, rs, rl),
        1 <= p <= rs.len(),
    ensures
        spec_get(v, p) == Some(rs[p - 1]),
{
    let bi = v.buffer_index;
    if bi < p {
        assert(v.buf[p - 1 - bi] == rs.skip(bi)[p - 1 - bi]);
    } else {
        assert(count_below(v.pruned, p) == 0) by {
            crate::ordered::lemma_count_below_le_len(v.pruned, p);
        }
        assert(!v.removed.contains(p) && !v.pruned.contains(p)) by {
            if v.removed.contains(p) {
                let i = choose|i: int| 0 <= i < v.removed.len() && v.removed[i] == p;
            }
            if v.pruned.contains(p) {
                let i = choose|i: int| 0 <= i < v.pruned.len() && v.pruned[i] == p;
            }
        }
        let k = p - 1;
        assert((k + 1) * rl <= bi * rl) by (nonlinear_arith)
            requires k + 1 <= bi, rl > 0;
        lemma_concat_recs_index(rs, rl, k as int);
        assert(spec_get(v, p) == Some(v.file.subrange(k * rl, (k + 1) * rl)));
    }
}

/// Append/get round trip over a whole history: starting from a fresh
/// store, after any interleaving of frontier appends and syncs, a read
/// of position `p` returns the `p`-th record ever appended.
pub proof fn lemma_append_get_history(v0: StoreView, es: Seq<StoreEvent>, p: u64)
    requires
        fresh_store(v0),
        events_sized(es, v0.record_len),
        appended_records(es).len() <= u64::MAX,
        appended_records(es).len() * v0.record_len <= usize::MAX,
        1 <= p <= appended_records(es).len(),
    ensures
        spec_get(run_events(v0, es), p) == Some(appended_records(es)[p - 1]),
{
    let rl = v0.record_len;
    assert(write_path_inv(v0, Seq::empty(), rl)) by {
        assert(v0.buf =~= Seq::<Seq<u8>>::empty().skip(0));
        assert(v0.file =~= concat_recs(Seq::empty()));
        assert(0 * rl == 0) by (nonlinear_arith);
    }
    assert((0 + appended_records(es).len()) * rl == appended_records(es).len() * rl);
    lemma_run_events_inv(v0, es, Seq::empty(), rl);
    assert(Seq::<Seq<u8>>::empty() + appended_records(es) =~= appended_records(es));
    lemma_write_path_get(run_events(v0, es), appended_records(es), rl, p);
}

/// The removal log after a whole run of append calls, batch by batch.
pub open spec fn rm_run(removed: Seq<u64>, file: Seq<u8>, batches: Seq<Seq<u64>>) -> (
    Seq<u64>,
    Seq<u8>,
)
    decreases batches.len(),
{
    if batches.len() == 0 {
        (removed, file)
    } else {
        let stepped = rm_append(removed, file, batches[0]);
        rm_run(stepped.0, stepped.1, batches.skip(1))
    }
}

/// The removal log is a set over its whole history: starting from any
/// well-formed state, after any sequence of append calls the cached
/// vector is strictly ascending and holds a position exactly when some
/// batch offered it or it was already there.
pub proof fn lemma_rm_history(removed: Seq<u64>, file: Seq<u8>, batches: Seq<Seq<u64>>, x: u64)
    requires
        sorted_strict(removed),
        forall|i: int| 0 <= i < removed.len() ==> #[trigger] removed[i] >= 1,
        forall|i: int, j: int| 0 <= i < batches.len() && 0 <= j < batches[i].len()
            ==> #[trigger] batches[i][j] >= 1,
    ensures
        sorted_strict(rm_run(removed, file, batches).0),
        rm_run(removed, file, batches).0.contains(x) <==> (removed.contains(x) || exists|i: int|
            0 <= i < batches.len() && #[trigger] batches[i].contains(x)),
    decreases batches.len(),
{
    if batches.len() > 0 {
        let b0 = batches[0];
        assert(forall|j: int| 0 <= j < b0.len() ==> #[trigger] b0[j] >= 1);
        lemma_rm_append(removed, file, b0);
        let stepped = rm_append(removed, file, b0);
        assert(forall|i: int| 0 <= i < batches.len() - 1 ==> #[trigger] batches.skip(1)[i]
            == batches[i + 1]);
        assert forall|i: int, j: int|
            0 <= i < batches.skip(1).len() && 0 <= j < batches.skip(1)[i].len() implies
            #[trigger] batches.skip(1)[i][j] >= 1 by {
            assert(batches.skip(1)[i] == batches[i + 1]);
        }
        lemma_rm_history(stepped.0, stepped.1, batches.skip(1), x);
        assert((removed.contains(x) || exists|i: int|
            0 <= i < batches.len() && #[trigger] batches[i].contains(x)) <==> (stepped.0.contains(
            x,
        ) || exists|i: int|
            0 <= i < batches.skip(1).len() && #[trigger] batches.skip(1)[i].contains(x))) by {
            if exists|i: int| 0 <= i < batches.len() && #[trigger] batches[i].contains(x) {
                let i = choose|i: int| 0 <= i < batches.len() && #[trigger] batches[i].contains(
                    x,
                );
                if i > 0 {
                    assert(batches.skip(1)[i - 1].contains(x));
                }
            }
            if exists|i: int|
                0 <= i < batches.skip(1).len() && #[trigger] batches.skip(1)[i].contains(x) {
                let i = choose|i: int|
                    0 <= i < batches.skip(1).len() && #[trigger] batches.skip(1)[i].contains(x);
                assert(batches[i + 1].contains(x));
            }
        }
    }
}

/// Compaction never touches the write buffer: a read of any buffered
/// position, live or dead, returns the same thing after `check_compact`,
/// whether or not the map was current and whether or not compaction ran.
pub proof fn lemma_compact_preserves_buffered(v: StoreView, max_len: int, p: u64)
    requires
        store_wf(v),
        v.buffer_index < p <= v.buffer_index + v.buf.len(),
    ensures
        spec_get(spec_compact(v, max_len), p) == spec_get(v, p),
{
    let post = spec_compact(v, max_len);
    assert(post.buf == v.buf && post.buf_live == v.buf_live && post.buffer_index
        == v.buffer_index);
}

/// Compaction threshold: with no stale overlap and in-range offsets,
/// `check_compact` leaves the store untouched exactly when the removal
/// log is within bounds, and otherwise truncates the removal log. (On a
/// log position past the end of the file, the call itself reports
/// corruption rather than pretending a no-op: see its `ensures`.)
pub proof fn lemma_compact_threshold(v: StoreView, max_len: int)
    requires
        store_wf(v),
        !rm_log_overlaps(v),
        offsets_in_range(v),
    ensures
        !compact_due(v, max_len) ==> spec_compact(v, max_len) == v,
        compact_due(v, max_len) ==> spec_compact(v, max_len).removed.len() == 0 && spec_compact(
            v,
            max_len,
        ) != v,
{
    if compact_due(v, max_len) {
        let post = spec_compact(v, max_len);
        assert(post.removed.len() == 0);
        assert(v.removed.len() > 0);
        assert(post.removed != v.removed);
    }
}

} // verus!
