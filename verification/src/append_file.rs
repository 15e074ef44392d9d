//! In-memory model of the append-only node-record file.
//!
//! The real file accepts only appends and serves random reads through a
//! read-only memory map that is recreated at each sync; the shell around the
//! library performs those system calls. Here the file is its byte image:
//! `data` is everything ever written, and `mapped` is the length the memory
//! map covers — the file length at the last sync, or absent before the
//! first one. Reads only ever see the mapped prefix.

use vstd::prelude::*;

use crate::ordered::{count_below, sorted_strict};

verus! {

/// Append-only byte store with reads limited to the last synced prefix.
pub struct AppendOnlyFile {
    /// Every byte written so far, in write order.
    pub data: Vec<u8>,
    /// Length covered by the current memory map, if one exists.
    pub mapped: Option<usize>,
}

/// The mapped prefix never exceeds the file, and only grows at a sync.
pub open spec fn file_wf(f: AppendOnlyFile) -> bool {
    match f.mapped {
        Some(m) => m <= f.data@.len(),
        None => true,
    }
}

/// The chunks of `data` kept by a prune pass: walking chunk indices `j` up
/// to `n`, a chunk is dropped when its byte offset is listed in `offs`.
pub open spec fn keep_chunks(data: Seq<u8>, offs: Seq<u64>, plen: int, j: int, n: int) -> Seq<u8>
    decreases n - j,
{
    if j >= n {
        Seq::empty()
    } else {
        (if offs.contains((j * plen) as u64) {
            Seq::<u8>::empty()
        } else {
            data.subrange(j * plen, j * plen + plen)
        }) + keep_chunks(data, offs, plen, j + 1, n)
    }
}

/// Offsets usable by a prune pass over `data`: strictly ascending, aligned
/// to the record length, and each addressing a whole record inside `data`.
pub open spec fn prune_offs_ok(data: Seq<u8>, offs: Seq<u64>, plen: int) -> bool {
    &&& sorted_strict(offs)
    &&& forall|i: int| 0 <= i < offs.len() ==> #[trigger] offs[i] % (plen as u64) == 0
    &&& forall|i: int| 0 <= i < offs.len() ==> #[trigger] offs[i] + plen <= data.len()
}

/// A kept walk splits at any midpoint.
pub proof fn lemma_keep_chunks_split(data: Seq<u8>, offs: Seq<u64>, plen: int, j: int, t: int, n: int)
    requires
        j <= t <= n,
    ensures
        keep_chunks(data, offs, plen, j, n) == keep_chunks(data, offs, plen, j, t) + keep_chunks(
            data,
            offs,
            plen,
            t,
            n,
        ),
    decreases t - j,
{
    if j == t {
        assert(keep_chunks(data, offs, plen, j, t) + keep_chunks(data, offs, plen, t, n) =~=
            keep_chunks(data, offs, plen, j, n));
    } else {
        lemma_keep_chunks_split(data, offs, plen, j + 1, t, n);
        assert(keep_chunks(data, offs, plen, j, t) + keep_chunks(data, offs, plen, t, n) =~=
            keep_chunks(data, offs, plen, j, n));
    }
}

/// With aligned strictly ascending offsets, the count of offsets below the
/// next chunk boundary grows by one exactly at a listed chunk.
pub proof fn lemma_count_below_step(offs: Seq<u64>, plen: int, j: int)
    requires
        plen > 0,
        j >= 0,
        sorted_strict(offs),
        forall|i: int| 0 <= i < offs.len() ==> #[trigger] offs[i] % (plen as u64) == 0,
        (j + 1) * plen <= u64::MAX as int,
    ensures
        count_below(offs, ((j + 1) * plen) as u64) == count_below(offs, (j * plen) as u64) + (
        if offs.contains((j * plen) as u64) {
            1int
        } else {
            0int
        }),
    decreases offs.len(),
{
    crate::ordered::lemma_count_below_split(offs, (j * plen) as u64);
    crate::ordered::lemma_count_below_split(offs, ((j + 1) * plen) as u64);
    crate::ordered::lemma_sorted_contains(offs, (j * plen) as u64);
    let a = count_below(offs, (j * plen) as u64) as int;
    let b = count_below(offs, ((j + 1) * plen) as u64) as int;
    assert(j * plen < (j + 1) * plen) by (nonlinear_arith)
        requires plen > 0, j >= 0;
    assert(a <= b) by {
        if b < a {
            assert(offs[b as int] < (j * plen) as u64);
            assert(offs[b as int] >= ((j + 1) * plen) as u64);
        }
    }
    // No offset lies strictly between the two boundaries, by alignment.
    assert forall|i: int| 0 <= i < offs.len() && offs[i] >= (j * plen) as u64 implies !(
    offs[i] < ((j + 1) * plen) as u64 && offs[i] != (j * plen) as u64) by {
        if offs[i] < ((j + 1) * plen) as u64 && offs[i] != (j * plen) as u64 {
            let o = offs[i] as int;
            let q = o / plen;
            assert(plen <= (j + 1) * plen) by (nonlinear_arith)
                requires plen > 0, j >= 0;
            assert((plen as u64) as int == plen);
            assert(o % plen == 0);
            vstd::arithmetic::div_mod::lemma_fundamental_div_mod(o, plen);
            assert(o == q * plen);
            assert(j * plen < q * plen && q * plen < (j + 1) * plen);
            assert(j < q && q < j + 1) by (nonlinear_arith)
                requires j * plen < q * plen, q * plen < (j + 1) * plen, plen > 0;
        }
    }
    if offs.contains((j * plen) as u64) {
        assert(offs[a] == (j * plen) as u64);
        assert(b >= a + 1);
        if b > a + 1 {
            assert(offs[a + 1] >= (j * plen) as u64 && offs[a] < offs[a + 1]);
            assert(offs[a + 1] < ((j + 1) * plen) as u64);
        }
    } else {
        if b > a {
            assert(offs[a] >= (j * plen) as u64);
            assert(offs[a] < ((j + 1) * plen) as u64);
            assert(offs[a] != (j * plen) as u64);
        }
    }
}

/// Length of a kept walk: every listed chunk in the window is dropped,
/// every other chunk contributes `plen` bytes.
pub proof fn lemma_keep_chunks_len(data: Seq<u8>, offs: Seq<u64>, plen: int, j: int, n: int)
    requires
        plen > 0,
        0 <= j <= n,
        n * plen <= data.len(),
        data.len() <= u64::MAX as int,
        prune_offs_ok(data, offs, plen),
        forall|i: int| 0 <= i < offs.len() ==> #[trigger] offs[i] >= j * plen,
    ensures
        keep_chunks(data, offs, plen, j, n).len() == (n - j) * plen - (count_below(
            offs,
            (n * plen) as u64,
        ) - count_below(offs, (j * plen) as u64)) * plen,
    decreases n - j,
{
    let cb_j = count_below(offs, (j * plen) as u64) as int;
    let cb_n = count_below(offs, (n * plen) as u64) as int;
    crate::ordered::lemma_count_below_split(offs, (j * plen) as u64);
    crate::ordered::lemma_count_below_split(offs, (n * plen) as u64);
    assert(cb_j == 0) by {
        if cb_j > 0 {
            assert(offs[0] < (j * plen) as u64);
        }
    }
    if j == n {
    } else {
        assert((j + 1) * plen <= n * plen && j * plen >= 0 && n * plen <= data.len())
            by (nonlinear_arith)
            requires plen > 0, 0 <= j < n, n * plen <= data.len();
        lemma_count_below_step(offs, plen, j);
        crate::ordered::lemma_count_below_split(offs, ((j + 1) * plen) as u64);
        let c = count_below(offs, ((j + 1) * plen) as u64) as int;
        let tail = offs.skip(c);
        assert(forall|i: int| 0 <= i < tail.len() ==> #[trigger] tail[i] == offs[i + c]);
        assert(sorted_strict(tail));
        assert(forall|i: int| 0 <= i < tail.len() ==> #[trigger] tail[i] % (plen as u64) == 0);
        assert(forall|i: int| 0 <= i < tail.len() ==> #[trigger] tail[i] + plen <= data.len());
        assert(forall|i: int| 0 <= i < tail.len() ==> #[trigger] tail[i] >= (j + 1) * plen);
        lemma_keep_chunks_len(data, tail, plen, j + 1, n);
        // The kept walk from j+1 on sees only offsets at or past (j+1)*plen,
        // and those are exactly the entries of `tail`.
        assert forall|x: u64| (j + 1) * plen <= x implies
            (offs.contains(x) <==> tail.contains(x)) by {
            lemma_skip_members(offs, count_below(offs, ((j + 1) * plen) as u64) as int, x);
        }
        lemma_keep_chunks_same_offs(data, offs, tail, plen, j + 1, n);
        assert forall|x: u64| tail.contains(x) implies count_below(tail, x) + count_below(
            offs,
            ((j + 1) * plen) as u64,
        ) == count_below(offs, x) by {
            lemma_skip_count(offs, count_below(offs, ((j + 1) * plen) as u64) as int, x);
        }
        assert(count_below(tail, (n * plen) as u64) == cb_n - count_below(
            offs,
            ((j + 1) * plen) as u64,
        )) by {
            lemma_skip_count(offs, count_below(offs, ((j + 1) * plen) as u64) as int,
                (n * plen) as u64);
        }
        let head_len: int = if offs.contains((j * plen) as u64) {
            0int
        } else {
            plen
        };
        let dropped: int = if offs.contains((j * plen) as u64) {
            1int
        } else {
            0int
        };
        let rest_len = keep_chunks(data, offs, plen, j + 1, n).len() as int;
        let rest_drops = cb_n - c;
        assert(j * plen + plen == (j + 1) * plen) by (nonlinear_arith);
        assert(data.subrange(j * plen, j * plen + plen).len() == plen);
        assert(count_below(tail, ((j + 1) * plen) as u64) == 0) by {
            crate::ordered::lemma_count_below_split(tail, ((j + 1) * plen) as u64);
            if count_below(tail, ((j + 1) * plen) as u64) > 0 {
                assert(tail[0] < ((j + 1) * plen) as u64);
            }
        }
        assert(keep_chunks(data, offs, plen, j, n).len() == head_len + rest_len);
        assert(count_below(tail, (n * plen) as u64) as int == rest_drops);
        assert(rest_len == (n - j - 1) * plen - rest_drops * plen);
        assert(c == cb_j + dropped);
        assert(head_len + rest_len == (n - j) * plen - (cb_n - cb_j) * plen) by (nonlinear_arith)
            requires
                rest_len == (n - j - 1) * plen - rest_drops * plen,
                rest_drops == cb_n - cb_j - dropped,
                head_len + dropped * plen == plen,
                0 <= dropped,
                plen > 0;
    }
}

/// Dropping a prefix of the offset list does not change which members lie
/// at or past any value dominating the dropped prefix.
proof fn lemma_skip_members(offs: Seq<u64>, c: int, x: u64)
    requires
        sorted_strict(offs),
        0 <= c <= offs.len(),
        forall|i: int| 0 <= i < c ==> #[trigger] offs[i] < x,
    ensures
        offs.contains(x) <==> offs.skip(c).contains(x),
{
    if offs.contains(x) {
        let i = choose|i: int| 0 <= i < offs.len() && offs[i] == x;
        assert(i >= c);
        assert(offs.skip(c)[i - c] == x);
    }
    if offs.skip(c).contains(x) {
        let i = choose|i: int| 0 <= i < offs.skip(c).len() && offs.skip(c)[i] == x;
        assert(offs[i + c] == x);
    }
}

/// Counting below `x` in a suffix loses exactly the dropped prefix, when
/// every dropped entry is below `x`.
proof fn lemma_skip_count(offs: Seq<u64>, c: int, x: u64)
    requires
        sorted_strict(offs),
        0 <= c <= offs.len(),
        forall|i: int| 0 <= i < c ==> #[trigger] offs[i] < x,
    ensures
        count_below(offs.skip(c), x) == count_below(offs, x) - c,
{
    crate::ordered::lemma_count_below_split(offs, x);
    crate::ordered::lemma_count_below_split(offs.skip(c), x);
    let cb = count_below(offs, x) as int;
    let cbs = count_below(offs.skip(c), x) as int;
    assert(cb >= c) by {
        if cb < c {
            assert(offs[cb] < x);
        }
    }
    assert(forall|i: int| 0 <= i < offs.len() - c ==> #[trigger] offs.skip(c)[i] == offs[i + c]);
    if cbs < cb - c {
        assert(offs.skip(c)[cbs] == offs[cbs + c] < x);
    }
    if cbs > cb - c {
        assert(offs.skip(c)[cb - c] == offs[cb] >= x);
        assert(offs.skip(c)[cb - c] < x);
    }
}

/// Two offset lists that agree on all offsets at or past `j * plen` give
/// the same kept walk from `j`.
proof fn lemma_keep_chunks_same_offs(
    data: Seq<u8>,
    offs1: Seq<u64>,
    offs2: Seq<u64>,
    plen: int,
    j: int,
    n: int,
)
    requires
        plen > 0,
        j >= 0,
        n * plen <= u64::MAX as int,
        forall|x: u64| j * plen <= x ==> (offs1.contains(x) <==> offs2.contains(x)),
    ensures
        keep_chunks(data, offs1, plen, j, n) == keep_chunks(data, offs2, plen, j, n),
    decreases n - j,
{
    if j < n {
        assert(0 <= j * plen && j * plen <= (j + 1) * plen && (j + 1) * plen <= n * plen)
            by (nonlinear_arith)
            requires plen > 0, 0 <= j < n;
        lemma_keep_chunks_same_offs(data, offs1, offs2, plen, j + 1, n);
        assert(offs1.contains((j * plen) as u64) <==> offs2.contains((j * plen) as u64));
    }
}

impl AppendOnlyFile {
    /// Open a file image. As on disk, no memory map exists yet.
    pub fn open(existing: Vec<u8>) -> (r: AppendOnlyFile)
        ensures
            r.data@ == existing@,
            r.mapped is None,
            file_wf(r),
    {
        AppendOnlyFile { data: existing, mapped: None }
    }

    /// Append bytes at the end. They stay invisible to `read` until `sync`.
    pub fn append(&mut self, buf: &Vec<u8>)
        ensures
            final(self).data@ == old(self).data@ + buf@,
            final(self).data@.len() <= usize::MAX,
            final(self).mapped == old(self).mapped,
            file_wf(*old(self)) ==> file_wf(*final(self)),
    {
        let mut i: usize = 0;
        while i < buf.len()
            invariant
                0 <= i <= buf@.len(),
                self.data@ == old(self).data@ + buf@.take(i as int),
                self.mapped == old(self).mapped,
            decreases buf@.len() - i,
        {
            self.data.push(buf[i]);
            i = i + 1;
            proof {
                assert(self.data@ =~= old(self).data@ + buf@.take(i as int));
            }
        }
        proof {
            assert(buf@.take(buf@.len() as int) =~= buf@);
        }
        let _len: usize = self.data.len();
    }

    /// Re-create the memory map over the whole current file length.
    ///
    /// The shell pairs this with the real fsync and mmap calls.
    pub fn sync(&mut self)
        ensures
            final(self).data@ == old(self).data@,
            final(self).mapped == Some(old(self).data@.len() as usize),
            old(self).data@.len() <= usize::MAX,
            file_wf(*final(self)),
    {
        let len = self.data.len();
        self.mapped = Some(len);
    }

    /// Copy `length` bytes at `offset` out of the mapped prefix.
    ///
    /// Without a map, or past its end, nothing is readable and the copy is
    /// empty; the caller treats a short read as a corrupt record.
    pub fn read(&self, offset: usize, length: usize) -> (r: Vec<u8>)
        requires
            file_wf(*self),
        ensures
            match self.mapped {
                Some(m) => if offset + length <= m {
                    r@ == self.data@.subrange(offset as int, offset as int + length as int)
                } else {
                    r@ == Seq::<u8>::empty()
                },
                None => r@ == Seq::<u8>::empty(),
            },
    {
        match self.mapped {
            None => Vec::new(),
            Some(m) => {
                if offset > m || length > m - offset {
                    return Vec::new();
                }
                let mut r: Vec<u8> = Vec::new();
                let mut i: usize = 0;
                while i < length
                    invariant
                        0 <= i <= length,
                        offset + length <= m <= self.data@.len(),
                        r@ == self.data@.subrange(offset as int, offset as int + i as int),
                    decreases length - i,
                {
                    r.push(self.data[offset + i]);
                    i = i + 1;
                    proof {
                        assert(r@ =~= self.data@.subrange(
                            offset as int,
                            offset as int + i as int,
                        ));
                    }
                }
                r
            },
        }
    }

    /// Current size of the file in bytes, mapped or not.
    pub fn size(&self) -> (r: u64)
        ensures
            r == self.data@.len(),
    {
        self.data.len() as u64
    }

    /// The compacted copy of the file: its bytes with the record at each
    /// listed offset left out. The shell writes the result to the
    /// transient prune file and renames it over the data file.
    pub fn save_prune(&self, prune_offs: &Vec<u64>, prune_len: u64) -> (r: Vec<u8>)
        requires
            prune_len > 0,
            prune_len <= usize::MAX as u64,
            self.data@.len() as int % (prune_len as int) == 0,
            prune_offs_ok(self.data@, prune_offs@, prune_len as int),
        ensures
            r@ == keep_chunks(
                self.data@,
                prune_offs@,
                prune_len as int,
                0,
                self.data@.len() as int / (prune_len as int),
            ),
    {
        let plen = prune_len as usize;
        let total = self.data.len();
        let n = total / plen;
        let ghost nn = n as int;
        let ghost pl = prune_len as int;
        proof {
            assert(nn * pl == total as int) by (nonlinear_arith)
                requires
                    nn == total as int / pl,
                    total as int % pl == 0,
                    pl > 0;
        }
        let mut out: Vec<u8> = Vec::new();
        let mut j: usize = 0;
        let mut k: usize = 0;
        proof {
            crate::ordered::lemma_count_below_split(prune_offs@, 0u64);
            if count_below(prune_offs@, 0u64) > 0 {
                assert(prune_offs@[0] < 0u64);
            }
        }
        while j < n
            invariant
                0 <= j <= n,
                k <= prune_offs@.len(),
                nn == n as int,
                pl == prune_len as int,
                plen == prune_len,
                prune_len > 0,
                nn * pl == self.data@.len(),
                total == self.data@.len(),
                prune_offs_ok(self.data@, prune_offs@, pl),
                k == count_below(prune_offs@, (j as int * pl) as u64),
                out@ == keep_chunks(self.data@, prune_offs@, pl, 0, j as int),
            decreases n - j,
        {
            proof {
                assert(0 <= j as int * pl && (j as int + 1) * pl <= nn * pl) by (nonlinear_arith)
                    requires pl > 0, 0 <= (j as int) < nn;
                assert(j as int * pl + pl == (j as int + 1) * pl) by (nonlinear_arith);
                crate::ordered::lemma_count_below_split(prune_offs@, (j as int * pl) as u64);
                crate::ordered::lemma_sorted_contains(prune_offs@, (j as int * pl) as u64);
                lemma_count_below_step(prune_offs@, pl, j as int);
            }
            let here = (j * plen) as u64;
            proof {
                assert(here == (j as int * pl) as u64);
            }
            let skip_here = k < prune_offs.len() && prune_offs[k] == here;
            proof {
                assert(skip_here == prune_offs@.contains((j as int * pl) as u64));
            }
            if skip_here {
                k = k + 1;
            } else {
                let start = j * plen;
                let mut i: usize = 0;
                let ghost out_pre = out@;
                proof {
                    assert(out@ =~= out_pre + self.data@.subrange(
                        start as int,
                        start as int,
                    ));
                }
                while i < plen
                    invariant
                        0 <= i <= plen,
                        start == j * plen,
                        start + plen <= total,
                        total == self.data@.len(),
                        out@ == out_pre + self.data@.subrange(
                            start as int,
                            start as int + i as int,
                        ),
                    decreases plen - i,
                {
                    out.push(self.data[start + i]);
                    i = i + 1;
                    proof {
                        assert(out@ =~= out_pre + self.data@.subrange(
                            start as int,
                            start as int + i as int,
                        ));
                    }
                }
            }
            let ghost j0 = j as int;
            j = j + 1;
            proof {
                lemma_keep_chunks_split(self.data@, prune_offs@, pl, 0, j0, j0 + 1);
                assert(keep_chunks(self.data@, prune_offs@, pl, j0 + 1, j0 + 1)
                    == Seq::<u8>::empty());
                assert(keep_chunks(self.data@, prune_offs@, pl, j0, j0 + 1) =~= (
                if prune_offs@.contains((j0 * pl) as u64) {
                    Seq::<u8>::empty()
                } else {
                    self.data@.subrange(j0 * pl, j0 * pl + pl)
                }));
                assert(out@ =~= keep_chunks(self.data@, prune_offs@, pl, 0, j as int));
            }
        }
        out
    }
}

} // verus!
