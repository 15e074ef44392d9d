//! Fixed-width big-endian encoding of 64-bit scalars.
//!
//! Positions in the removal log and the prune list file are stored as
//! consecutive 8-byte big-endian integers, so a stream of them is
//! self-delimiting: a file decodes iff its length is a multiple of 8.

use vstd::prelude::*;

verus! {

/// Byte `i` (0 = most significant) of the big-endian encoding of `v`.
pub open spec fn u64_byte(v: u64, i: int) -> u8 {
    (v >> (((7 - i) * 8) as u64)) as u8
}

/// The 8-byte big-endian encoding of `v`.
pub open spec fn spec_encode_u64(v: u64) -> Seq<u8> {
    Seq::new(8, |i: int| u64_byte(v, i))
}

/// The scalar read back from 8 big-endian bytes.
pub open spec fn spec_decode_u64(s: Seq<u8>) -> u64
    recommends
        s.len() == 8,
{
    (((s[0] as u64) << 56) | ((s[1] as u64) << 48) | ((s[2] as u64) << 40) | ((s[3] as u64) << 32)
        | ((s[4] as u64) << 24) | ((s[5] as u64) << 16) | ((s[6] as u64) << 8) | (s[7] as u64))
}

/// Decoding inverts encoding: the 8 bytes of `v` read back as `v`.
pub proof fn lemma_codec_round_trip(v: u64)
    ensures
        spec_decode_u64(spec_encode_u64(v)) == v,
{
    let s = spec_encode_u64(v);
    assert(s[0] == (v >> 56) as u8);
    assert(s[1] == (v >> 48) as u8);
    assert(s[2] == (v >> 40) as u8);
    assert(s[3] == (v >> 32) as u8);
    assert(s[4] == (v >> 24) as u8);
    assert(s[5] == (v >> 16) as u8);
    assert(s[6] == (v >> 8) as u8);
    assert(s[7] == (v >> 0) as u8);
    assert((((v >> 56) as u8 as u64) << 56) | (((v >> 48) as u8 as u64) << 48)
        | (((v >> 40) as u8 as u64) << 40) | (((v >> 32) as u8 as u64) << 32)
        | (((v >> 24) as u8 as u64) << 24) | (((v >> 16) as u8 as u64) << 16)
        | (((v >> 8) as u8 as u64) << 8) | ((v >> 0) as u8 as u64) == v) by (bit_vector);
}

/// Append the 8-byte big-endian encoding of `v` to `out`.
pub fn encode_u64_into(out: &mut Vec<u8>, v: u64)
    ensures
        final(out)@ == old(out)@ + spec_encode_u64(v),
{
    out.push((v >> 56) as u8);
    out.push((v >> 48) as u8);
    out.push((v >> 40) as u8);
    out.push((v >> 32) as u8);
    out.push((v >> 24) as u8);
    out.push((v >> 16) as u8);
    out.push((v >> 8) as u8);
    out.push(v as u8);
    proof {
        assert(v as u8 == (v >> 0) as u8) by (bit_vector);
        assert(out@ =~= old(out)@ + spec_encode_u64(v));
    }
}

/// The 8-byte big-endian encoding of `v` as a fresh vector.
pub fn encode_u64(v: u64) -> (r: Vec<u8>)
    ensures
        r@ == spec_encode_u64(v),
{
    let mut out: Vec<u8> = Vec::new();
    encode_u64_into(&mut out, v);
    proof {
        assert(out@ =~= spec_encode_u64(v));
    }
    out
}

/// Read the 8-byte big-endian scalar stored at `off` in `bytes`.
pub fn decode_u64(bytes: &Vec<u8>, off: usize) -> (r: u64)
    requires
        off + 8 <= bytes@.len(),
    ensures
        r == spec_decode_u64(bytes@.subrange(off as int, off as int + 8)),
{
    let n = bytes.len();
    let r = ((bytes[off] as u64) << 56) | ((bytes[off + 1] as u64) << 48)
        | ((bytes[off + 2] as u64) << 40) | ((bytes[off + 3] as u64) << 32)
        | ((bytes[off + 4] as u64) << 24) | ((bytes[off + 5] as u64) << 16)
        | ((bytes[off + 6] as u64) << 8) | (bytes[off + 7] as u64);
    proof {
        let s = bytes@.subrange(off as int, off as int + 8);
        assert(s[0] == bytes@[off as int]);
        assert(s[7] == bytes@[off as int + 7]);
    }
    r
}

} // verus!
