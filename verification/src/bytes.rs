//! Big-endian integer encoding and decoding over byte sequences.

use vstd::prelude::*;

verus! {

/// Value of the big-endian unsigned integer stored in `s[i..i+4]`.
pub open spec fn be_u32_at(s: Seq<u8>, i: int) -> int {
    s[i] * 0x100_0000 + s[i + 1] * 0x1_0000 + s[i + 2] * 0x100 + s[i + 3]
}

/// Value of the big-endian unsigned integer stored in `s[i..i+8]`.
pub open spec fn be_u64_at(s: Seq<u8>, i: int) -> int {
    be_u32_at(s, i) * 0x1_0000_0000 + be_u32_at(s, i + 4)
}

/// The four big-endian bytes of `v`.
pub open spec fn u32_be_bytes(v: u32) -> Seq<u8> {
    seq![(v / 0x100_0000) as u8, (v / 0x1_0000 % 0x100) as u8, (v / 0x100 % 0x100) as u8, (v % 0x100) as u8]
}

/// The eight big-endian bytes of `v`.
pub open spec fn u64_be_bytes(v: u64) -> Seq<u8> {
    u32_be_bytes((v / 0x1_0000_0000) as u32) + u32_be_bytes((v % 0x1_0000_0000) as u32)
}

pub proof fn lemma_u32_be_roundtrip(v: u32)
    ensures
        u32_be_bytes(v).len() == 4,
        be_u32_at(u32_be_bytes(v), 0) == v,
{
    let s = u32_be_bytes(v);
    assert(s[0] == v / 0x100_0000);
    assert(s[1] == v / 0x1_0000 % 0x100);
    assert(s[2] == v / 0x100 % 0x100);
    assert(s[3] == v % 0x100);
    assert(v / 0x100_0000 * 0x100_0000 + v / 0x1_0000 % 0x100 * 0x1_0000 + v / 0x100 % 0x100 * 0x100
        + v % 0x100 == v) by (nonlinear_arith);
}

pub proof fn lemma_u64_be_roundtrip(v: u64)
    ensures
        u64_be_bytes(v).len() == 8,
        be_u64_at(u64_be_bytes(v), 0) == v,
{
    let hi = (v / 0x1_0000_0000) as u32;
    let lo = (v % 0x1_0000_0000) as u32;
    lemma_u32_be_roundtrip(hi);
    lemma_u32_be_roundtrip(lo);
    let s = u64_be_bytes(v);
    assert(s.subrange(0, 4) =~= u32_be_bytes(hi));
    assert(s.subrange(4, 8) =~= u32_be_bytes(lo));
    assert(be_u32_at(s, 0) == be_u32_at(u32_be_bytes(hi), 0));
    assert(be_u32_at(s, 4) == be_u32_at(u32_be_bytes(lo), 0));
    assert(v / 0x1_0000_0000 * 0x1_0000_0000 + v % 0x1_0000_0000 == v) by (nonlinear_arith);
}

/// A big-endian value read from bytes fits its width.
pub proof fn lemma_be_bounds(s: Seq<u8>, i: int)
    requires
        0 <= i,
        i + 8 <= s.len(),
    ensures
        0 <= be_u32_at(s, i) <= u32::MAX,
        0 <= be_u32_at(s, i + 4) <= u32::MAX,
        0 <= be_u64_at(s, i) <= u64::MAX,
{
    let a = be_u32_at(s, i);
    let b = be_u32_at(s, i + 4);
    assert(0 <= a * 0x1_0000_0000 + b <= u64::MAX) by (nonlinear_arith)
        requires
            0 <= a <= u32::MAX,
            0 <= b <= u32::MAX,
    ;
}

/// Reads the big-endian `u32` at `data[pos..pos+4]`.
pub fn read_u32_be(data: &[u8], pos: usize) -> (r: u32)
    requires
        pos + 4 <= data@.len(),
    ensures
        r == be_u32_at(data@, pos as int),
{
    let n = data.len();
    let b0 = data[pos] as u32;
    let b1 = data[pos + 1] as u32;
    let b2 = data[pos + 2] as u32;
    let b3 = data[pos + 3] as u32;
    assert((b0 << 24u32) | (b1 << 16u32) | (b2 << 8u32) | b3 == b0 * 0x100_0000 + b1 * 0x1_0000
        + b2 * 0x100 + b3) by (bit_vector)
        requires
            b0 < 256,
            b1 < 256,
            b2 < 256,
            b3 < 256,
    ;
    (b0 << 24u32) | (b1 << 16u32) | (b2 << 8u32) | b3
}

/// Reads the big-endian `u64` at `data[pos..pos+8]`.
pub fn read_u64_be(data: &[u8], pos: usize) -> (r: u64)
    requires
        pos + 8 <= data@.len(),
    ensures
        r == be_u64_at(data@, pos as int),
{
    let n = data.len();
    let hi = read_u32_be(data, pos) as u64;
    let lo = read_u32_be(data, pos + 4) as u64;
    assert((hi << 32u64) | lo == hi * 0x1_0000_0000 + lo) by (bit_vector)
        requires
            hi <= 0xffff_ffff,
            lo <= 0xffff_ffff,
    ;
    (hi << 32u64) | lo
}

/// Appends the four big-endian bytes of `v` to `out`.
pub fn push_u32_be(out: &mut Vec<u8>, v: u32)
    ensures
        final(out)@ == old(out)@ + u32_be_bytes(v),
{
    out.push((v >> 24u32) as u8);
    out.push(((v >> 16u32) & 0xff) as u8);
    out.push(((v >> 8u32) & 0xff) as u8);
    out.push((v & 0xff) as u8);
    assert(v >> 24u32 == v / 0x100_0000) by (bit_vector);
    assert((v >> 16u32) & 0xff == v / 0x1_0000 % 0x100) by (bit_vector);
    assert((v >> 8u32) & 0xff == v / 0x100 % 0x100) by (bit_vector);
    assert(v & 0xff == v % 0x100) by (bit_vector);
    assert(out@ =~= old(out)@ + u32_be_bytes(v));
}

/// Appends the eight big-endian bytes of `v` to `out`.
pub fn push_u64_be(out: &mut Vec<u8>, v: u64)
    ensures
        final(out)@ == old(out)@ + u64_be_bytes(v),
{
    let hi = (v >> 32u64) as u32;
    let lo = (v & 0xffff_ffff) as u32;
    assert(v >> 32u64 == v / 0x1_0000_0000) by (bit_vector);
    assert(v & 0xffff_ffff == v % 0x1_0000_0000) by (bit_vector);
    let ghost start = out@;
    push_u32_be(out, hi);
    push_u32_be(out, lo);
    assert(out@ =~= start + u64_be_bytes(v));
}

/// The eight big-endian bytes of `v`, as an array.
pub fn u64_to_be_array(v: u64) -> (r: [u8; 8])
    ensures
        r@ == u64_be_bytes(v),
{
    let mut out: Vec<u8> = Vec::new();
    push_u64_be(&mut out, v);
    assert(out@ =~= u64_be_bytes(v));
    [out[0], out[1], out[2], out[3], out[4], out[5], out[6], out[7]]
}

} // verus!
