//! Sorted sequences of MMR positions, and their on-disk form.
//!
//! The removal log and the prune list are strictly ascending vectors of
//! 64-bit positions. This module holds the ordering specifications shared
//! by both, the search and insertion primitives over them, and the
//! load/store helpers that turn a file image into such a vector and back.

use vstd::prelude::*;

use crate::codec::{
    decode_u64, encode_u64_into, lemma_codec_round_trip, spec_decode_u64, spec_encode_u64,
};
use crate::StoreError;

verus! {

/// The sequence is strictly ascending (sorted with no duplicates).
pub open spec fn sorted_strict(s: Seq<u64>) -> bool {
    forall|i: int, j: int| 0 <= i < j < s.len() ==> s[i] < s[j]
}

/// How many entries of `s` are strictly below `x`.
pub open spec fn count_below(s: Seq<u64>, x: u64) -> nat
    decreases s.len(),
{
    if s.len() == 0 {
        0
    } else {
        count_below(s.drop_last(), x) + if s.last() < x {
            1nat
        } else {
            0nat
        }
    }
}

/// `s` with `x` inserted at its sorted position.
pub open spec fn insert_sorted(s: Seq<u64>, x: u64) -> Seq<u64> {
    s.take(count_below(s, x) as int) + seq![x] + s.skip(count_below(s, x) as int)
}

/// In a strictly ascending sequence, `count_below(s, x)` is the first index
/// whose entry is at least `x`, so it splits `s` into a prefix below `x`
/// and a suffix at or above `x`.
pub proof fn lemma_count_below_split(s: Seq<u64>, x: u64)
    requires
        sorted_strict(s),
    ensures
        count_below(s, x) <= s.len(),
        forall|i: int| 0 <= i < count_below(s, x) ==> s[i] < x,
        forall|i: int| count_below(s, x) <= i < s.len() ==> s[i] >= x,
    decreases s.len(),
{
    if s.len() > 0 {
        lemma_count_below_split(s.drop_last(), x);
        assert(forall|i: int| 0 <= i < s.len() - 1 ==> s.drop_last()[i] == #[trigger] s[i]);
        if s.last() < x {
            assert(count_below(s.drop_last(), x) == s.len() - 1) by {
                if count_below(s.drop_last(), x) < s.len() - 1 {
                    assert(s.drop_last()[count_below(s.drop_last(), x) as int] >= x);
                    assert(s[count_below(s.drop_last(), x) as int] < s[s.len() - 1]);
                }
            }
        }
    }
}

/// Counting below never exceeds the length, with no ordering assumption.
pub proof fn lemma_count_below_le_len(s: Seq<u64>, x: u64)
    ensures
        count_below(s, x) <= s.len(),
    decreases s.len(),
{
    if s.len() > 0 {
        lemma_count_below_le_len(s.drop_last(), x);
    }
}

/// Membership in a strictly ascending sequence is decided at the split index.
pub proof fn lemma_sorted_contains(s: Seq<u64>, x: u64)
    requires
        sorted_strict(s),
    ensures
        s.contains(x) <==> (count_below(s, x) < s.len() && s[count_below(s, x) as int] == x),
{
    lemma_count_below_split(s, x);
    if s.contains(x) {
        let i = choose|i: int| 0 <= i < s.len() && s[i] == x;
        assert(count_below(s, x) <= i);
        if count_below(s, x) < i {
            assert(s[count_below(s, x) as int] < s[i]);
        }
    }
}

/// Inserting an absent entry at its split index keeps the sequence strictly
/// ascending and adds exactly that entry to its set of members.
pub proof fn lemma_insert_sorted(s: Seq<u64>, x: u64)
    requires
        sorted_strict(s),
        !s.contains(x),
    ensures
        sorted_strict(insert_sorted(s, x)),
        insert_sorted(s, x).len() == s.len() + 1,
        forall|y: u64| insert_sorted(s, x).contains(y) <==> (s.contains(y) || y == x),
{
    let c = count_below(s, x) as int;
    let t = insert_sorted(s, x);
    lemma_count_below_split(s, x);
    lemma_sorted_contains(s, x);
    assert(forall|i: int| 0 <= i < c ==> t[i] == s[i]);
    assert(t[c] == x);
    assert(forall|i: int| c < i < t.len() ==> t[i] == s[i - 1]);
    assert(forall|i: int| c <= i < s.len() ==> s[i] > x);
    assert forall|y: u64| t.contains(y) implies (s.contains(y) || y == x) by {
        let i = choose|i: int| 0 <= i < t.len() && t[i] == y;
        if i < c {
            assert(s[i] == y);
        } else if i > c {
            assert(s[i - 1] == y);
        }
    }
    assert forall|y: u64| s.contains(y) || y == x implies t.contains(y) by {
        if y == x {
            assert(t[c] == y);
        } else {
            let i = choose|i: int| 0 <= i < s.len() && s[i] == y;
            if i < c {
                assert(t[i] == y);
            } else {
                assert(t[i + 1] == y);
            }
        }
    }
}

/// Two strictly ascending sequences with the same members are equal.
pub proof fn lemma_sorted_unique(a: Seq<u64>, b: Seq<u64>)
    requires
        sorted_strict(a),
        sorted_strict(b),
        forall|x: u64| a.contains(x) <==> b.contains(x),
    ensures
        a == b,
    decreases a.len(),
{
    if a.len() == 0 {
        if b.len() > 0 {
            assert(b.contains(b[0]));
            assert(a.contains(b[0]));
            assert(false);
        }
        assert(a =~= b);
    } else {
        assert(a.contains(a.last()));
        assert(b.contains(a.last()));
        assert(b.len() > 0);
        // The two maxima coincide.
        assert(a.last() <= b.last()) by {
            let i = choose|i: int| 0 <= i < b.len() && b[i] == a.last();
            if i < b.len() - 1 {
                assert(b[i] < b.last());
            }
        }
        assert(b.last() <= a.last()) by {
            assert(a.contains(b.last()));
            let i = choose|i: int| 0 <= i < a.len() && a[i] == b.last();
            if i < a.len() - 1 {
                assert(a[i] < a.last());
            }
        }
        assert forall|x: u64| a.drop_last().contains(x) <==> b.drop_last().contains(x) by {
            if a.drop_last().contains(x) {
                let i = choose|i: int| 0 <= i < a.len() - 1 && a[i] == x;
                assert(x < a.last());
                assert(b.contains(x));
                let j = choose|j: int| 0 <= j < b.len() && b[j] == x;
                assert(j < b.len() - 1);
                assert(b.drop_last()[j] == x);
            }
            if b.drop_last().contains(x) {
                let j = choose|j: int| 0 <= j < b.len() - 1 && b[j] == x;
                assert(x < b.last());
                assert(a.contains(x));
                let i = choose|i: int| 0 <= i < a.len() && a[i] == x;
                assert(i < a.len() - 1);
                assert(a.drop_last()[i] == x);
            }
        }
        lemma_sorted_unique(a.drop_last(), b.drop_last());
        assert(a =~= a.drop_last().push(a.last()));
        assert(b =~= b.drop_last().push(b.last()));
        assert(a == b);
    }
}

/// Strictly ascending integers grow at least as fast as their indices.
pub proof fn lemma_sorted_gap(s: Seq<u64>, i: int, j: int)
    requires
        sorted_strict(s),
        0 <= i <= j < s.len(),
    ensures
        s[j] >= s[i] + (j - i),
    decreases j - i,
{
    if i < j {
        lemma_sorted_gap(s, i, j - 1);
    }
}

/// In a strictly ascending sequence of one-based positions, fewer than `x`
/// entries lie strictly below `x`.
pub proof fn lemma_count_below_bound(s: Seq<u64>, x: u64)
    requires
        sorted_strict(s),
        forall|i: int| 0 <= i < s.len() ==> #[trigger] s[i] >= 1,
    ensures
        count_below(s, x) <= x,
        x >= 1 ==> count_below(s, x) <= x - 1,
{
    lemma_count_below_split(s, x);
    let c = count_below(s, x) as int;
    if c > 0 {
        lemma_sorted_gap(s, 0, c - 1);
        assert(s[c - 1] >= s[0] + c - 1 >= c);
        assert(s[c - 1] < x);
    }
}

/// Counting below a bound distributes over concatenation.
pub proof fn lemma_count_below_concat(a: Seq<u64>, b: Seq<u64>, x: u64)
    ensures
        count_below(a + b, x) == count_below(a, x) + count_below(b, x),
    decreases b.len(),
{
    if b.len() == 0 {
        assert(a + b =~= a);
    } else {
        assert((a + b).drop_last() =~= a + b.drop_last());
        assert((a + b).last() == b.last());
        lemma_count_below_concat(a, b.drop_last(), x);
    }
}

/// A sorted insert adds one to the count below `x` exactly when the new
/// entry is below `x`.
pub proof fn lemma_count_below_insert(s: Seq<u64>, e: u64, x: u64)
    ensures
        count_below(insert_sorted(s, e), x) == count_below(s, x) + (if e < x {
            1int
        } else {
            0int
        }),
{
    let c = count_below(s, e) as int;
    lemma_count_below_le_len(s, e);
    lemma_count_below_concat(s.take(c) + seq![e], s.skip(c), x);
    lemma_count_below_concat(s.take(c), seq![e], x);
    lemma_count_below_concat(s.take(c), s.skip(c), x);
    assert(s.take(c) + s.skip(c) =~= s);
    assert(count_below(seq![e], x) == (if e < x {
        1int
    } else {
        0int
    })) by {
        let s1 = seq![e];
        assert(s1.len() == 1 && s1.last() == e);
        assert(s1.drop_last() =~= Seq::<u64>::empty());
        assert(count_below(Seq::<u64>::empty(), x) == 0);
    }
}

/// Whether an (unsorted) vector of positions holds `x`.
pub fn vec_holds(v: &Vec<u64>, x: u64) -> (r: bool)
    ensures
        r == v@.contains(x),
{
    let mut i: usize = 0;
    while i < v.len()
        invariant
            0 <= i <= v@.len(),
            forall|k: int| 0 <= k < i ==> v@[k] != x,
        decreases v@.len() - i,
    {
        if v[i] == x {
            return true;
        }
        i = i + 1;
    }
    false
}

/// Index of the first entry at least `x`, and whether `x` is present.
///
/// Binary search over a strictly ascending vector.
pub fn find_idx(v: &Vec<u64>, x: u64) -> (r: (bool, usize))
    requires
        sorted_strict(v@),
    ensures
        r.1 == count_below(v@, x),
        r.1 <= v@.len(),
        r.0 == v@.contains(x),
        r.0 ==> r.1 < v@.len() && v@[r.1 as int] == x,
{
    proof {
        lemma_count_below_split(v@, x);
        lemma_sorted_contains(v@, x);
    }
    let mut lo: usize = 0;
    let mut hi: usize = v.len();
    while lo < hi
        invariant
            lo <= hi <= v@.len(),
            sorted_strict(v@),
            forall|i: int| 0 <= i < lo ==> v@[i] < x,
            forall|i: int| hi <= i < v@.len() ==> v@[i] >= x,
        decreases hi - lo,
    {
        let mid = lo + (hi - lo) / 2;
        if v[mid] < x {
            lo = mid + 1;
        } else {
            hi = mid;
        }
    }
    proof {
        if count_below(v@, x) < lo {
            assert(v@[count_below(v@, x) as int] < x);
        }
        if lo < count_below(v@, x) {
            assert(v@[lo as int] < x);
        }
    }
    if lo < v.len() && v[lo] == x {
        (true, lo)
    } else {
        (false, lo)
    }
}

/// The scalar stored in chunk `i` of a file image.
pub open spec fn chunk_scalar(bytes: Seq<u8>, i: int) -> u64 {
    spec_decode_u64(bytes.subrange(i * 8, i * 8 + 8))
}

/// Whether some chunk of the file image decodes to `x`.
pub open spec fn image_holds(bytes: Seq<u8>, x: u64) -> bool {
    exists|i: int| 0 <= i < bytes.len() / 8 && chunk_scalar(bytes, i) == x
}

/// Load a file image as a strictly ascending vector of positions.
///
/// The image must be a whole number of 8-byte scalars; anything else is
/// corruption. Scalars are inserted at their sorted index, so duplicates in
/// the file are absorbed and the result is sorted even if the file is not.
pub fn read_ordered_vec(bytes: &Vec<u8>) -> (r: Result<Vec<u64>, StoreError>)
    ensures
        bytes@.len() % 8 == 0 <==> r is Ok,
        r matches Ok(v) ==> sorted_strict(v@) && (forall|x: u64|
            v@.contains(x) <==> image_holds(bytes@, x)),
{
    let n = bytes.len();
    if n % 8 != 0 {
        return Err(StoreError::Corruption);
    }
    let count = n / 8;
    let mut ovec: Vec<u64> = Vec::new();
    let mut k: usize = 0;
    while k < count
        invariant
            0 <= k <= count,
            count == bytes@.len() / 8,
            bytes@.len() % 8 == 0,
            bytes@.len() == n,
            sorted_strict(ovec@),
            forall|x: u64|
                ovec@.contains(x) <==> exists|i: int|
                    0 <= i < k && chunk_scalar(bytes@, i) == x,
        decreases count - k,
    {
        proof {
            assert(k * 8 + 8 <= count * 8 <= bytes@.len()) by (nonlinear_arith)
                requires k < count, count == bytes@.len() / 8, bytes@.len() % 8 == 0;
        }
        let elmt = decode_u64(bytes, k * 8);
        let (found, idx) = find_idx(&ovec, elmt);
        let ghost pre = ovec@;
        proof {
            assert(elmt == chunk_scalar(bytes@, k as int));
        }
        if !found {
            ovec.insert(idx, elmt);
            proof {
                assert(ovec@ =~= insert_sorted(pre, elmt));
                lemma_insert_sorted(pre, elmt);
            }
        }
        k = k + 1;
        proof {
            assert(ovec@.contains(elmt));
            assert forall|x: u64| ovec@.contains(x) implies exists|i: int|
                0 <= i < k && chunk_scalar(bytes@, i) == x by {
                if x == elmt {
                    assert(chunk_scalar(bytes@, k - 1) == x);
                } else {
                    assert(pre.contains(x));
                    let i = choose|i: int| 0 <= i < k - 1 && chunk_scalar(bytes@, i) == x;
                    assert(0 <= i < k && chunk_scalar(bytes@, i) == x);
                }
            }
            assert forall|x: u64| (exists|i: int|
                0 <= i < k && chunk_scalar(bytes@, i) == x) implies ovec@.contains(x) by {
                let i = choose|i: int| 0 <= i < k && chunk_scalar(bytes@, i) == x;
                if i == k - 1 {
                    assert(x == elmt);
                } else {
                    assert(pre.contains(x));
                }
            }
        }
    }
    Ok(ovec)
}

/// The concatenated encodings of all entries of `s`, in order.
pub open spec fn encode_all(s: Seq<u64>) -> Seq<u8>
    decreases s.len(),
{
    if s.len() == 0 {
        Seq::empty()
    } else {
        encode_all(s.drop_last()) + spec_encode_u64(s.last())
    }
}

/// An image of encoded entries is as long as their count says.
pub proof fn lemma_encode_all_len(s: Seq<u64>)
    ensures
        encode_all(s).len() == 8 * s.len(),
    decreases s.len(),
{
    if s.len() > 0 {
        lemma_encode_all_len(s.drop_last());
    }
}

/// Chunk `i` of an image of encoded entries decodes back to entry `i`.
pub proof fn lemma_encode_all_chunk(s: Seq<u64>, i: int)
    requires
        0 <= i < s.len(),
    ensures
        encode_all(s).len() == 8 * s.len(),
        chunk_scalar(encode_all(s), i) == s[i],
    decreases s.len(),
{
    lemma_encode_all_len(s);
    let bytes = encode_all(s);
    if i == s.len() - 1 {
        lemma_encode_all_len(s.drop_last());
        assert(bytes.subrange(i * 8, i * 8 + 8) =~= spec_encode_u64(s.last()));
        lemma_codec_round_trip(s.last());
    } else {
        lemma_encode_all_chunk(s.drop_last(), i);
        lemma_encode_all_len(s.drop_last());
        assert(bytes.subrange(i * 8, i * 8 + 8) =~= encode_all(s.drop_last()).subrange(
            i * 8,
            i * 8 + 8,
        ));
    }
}

/// Store/load round trip: the image written for a strictly ascending
/// vector decodes, and holds exactly that vector's members — so loading
/// it returns the vector itself, sorted orders being unique.
pub proof fn lemma_store_load_round_trip(v: Seq<u64>, w: Seq<u64>)
    requires
        sorted_strict(v),
        sorted_strict(w),
        forall|x: u64| w.contains(x) <==> image_holds(encode_all(v), x),
    ensures
        encode_all(v).len() % 8 == 0,
        w == v,
{
    lemma_encode_all_len(v);
    assert forall|x: u64| v.contains(x) <==> image_holds(encode_all(v), x) by {
        if v.contains(x) {
            let i = choose|i: int| 0 <= i < v.len() && v[i] == x;
            lemma_encode_all_chunk(v, i);
        }
        if image_holds(encode_all(v), x) {
            let i = choose|i: int|
                0 <= i < encode_all(v).len() / 8 && chunk_scalar(encode_all(v), i) == x;
            lemma_encode_all_chunk(v, i);
        }
    }
    lemma_sorted_unique(w, v);
}

/// Store a vector of positions as a file image: the encodings of the
/// entries, concatenated in vector order.
pub fn write_vec(v: &Vec<u64>) -> (r: Vec<u8>)
    ensures
        r@ == encode_all(v@),
{
    let mut out: Vec<u8> = Vec::new();
    let mut k: usize = 0;
    while k < v.len()
        invariant
            0 <= k <= v@.len(),
            out@ == encode_all(v@.take(k as int)),
        decreases v@.len() - k,
    {
        encode_u64_into(&mut out, v[k]);
        k = k + 1;
        proof {
            assert(v@.take(k as int).drop_last() =~= v@.take(k as int - 1));
        }
    }
    proof {
        assert(v@.take(v@.len() as int) =~= v@);
    }
    out
}

} // verus!
