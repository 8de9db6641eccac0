//! AES-256-CTR encryption engine with random access by file offset.

use vstd::prelude::*;
use aes::cipher::{KeyIvInit, StreamCipher};
use crate::bytes::{be_u64_at, lemma_u64_be_roundtrip, u64_be_bytes, u64_to_be_array};
use crate::common::{covered, regions_within, Region, RegionKind};

verus! {

/// What AES-256 gives when it encrypts the 16-byte block `block` under `key`.
pub uninterp spec fn aes256_encrypt_block(key: Seq<u8>, block: Seq<u8>) -> Seq<u8>;

/// Counter block `j` of CTR mode with a 64-bit big-endian counter: the first
/// eight bytes of the IV, then its last eight bytes read as a big-endian
/// number plus `j`, wrapping at 2^64.
#[verifier::opaque]
pub open spec fn ctr64be_block(iv: Seq<u8>, j: int) -> Seq<u8> {
    iv.subrange(0, 8) + u64_be_bytes(((be_u64_at(iv, 8) + j) % 0x1_0000_0000_0000_0000) as u64)
}

/// `StreamCipher::apply_keystream` of `ctr::Ctr64BE<aes::Aes256>`, on a cipher
/// freshly built from `key` and `iv`: each byte is XORed with the keystream
/// byte at its position (the keystream of a fresh cipher outlasts any slice,
/// so the call does not panic).
#[verifier::external_body]
fn aes256_ctr64be_apply_keystream(key: &[u8; 32], iv: &[u8; 16], data: &mut [u8])
    ensures
        final(data)@.len() == old(data)@.len(),
        forall|i: int| 0 <= i < old(data)@.len() ==> #[trigger] final(data)@[i] == old(data)@[i]
            ^ aes256_encrypt_block(key@, ctr64be_block(iv@, i / 16))[i % 16],
{
    let mut cipher = ctr::Ctr64BE::<aes::Aes256>::new(key.into(), iv.into());
    cipher.apply_keystream(data);
}

/// Keystream byte that protects file offset `o`: AES-256 of the nonce followed
/// by the big-endian block index `o / 16`, at position `o % 16`.
#[verifier::opaque]
pub open spec fn file_keystream(key: Seq<u8>, nonce: Seq<u8>, o: int) -> u8 {
    aes256_encrypt_block(key, nonce + u64_be_bytes((o / 16) as u64))[o % 16]
}

/// `data`, lying at file offset `offset`, XORed with the file keystream.
pub open spec fn spec_transform(key: Seq<u8>, nonce: Seq<u8>, offset: int, data: Seq<u8>) -> Seq<u8> {
    Seq::new(data.len(), |i: int| data[i] ^ file_keystream(key, nonce, offset + i))
}

/// The crypto engine for in-place encryption and decryption.
pub struct CryptoEngine {
    /// The 256-bit AES key.
    key: [u8; 32],
    /// The 8-byte nonce (fixed per file).
    nonce: [u8; 8],
}

impl View for CryptoEngine {
    /// Key and nonce.
    type V = (Seq<u8>, Seq<u8>);

    closed spec fn view(&self) -> (Seq<u8>, Seq<u8>) {
        (self.key@, self.nonce@)
    }
}

proof fn lemma_block_split(off: int, b: int, s: int, i: int)
    requires
        off == 16 * b + s,
        0 <= s < 16,
        0 <= b,
        0 <= i,
    ensures
        (off + i) / 16 == b + (s + i) / 16,
        (off + i) % 16 == (s + i) % 16,
{
    assert((off + i) / 16 == b + (s + i) / 16 && (off + i) % 16 == (s + i) % 16) by (nonlinear_arith)
        requires
            off == 16 * b + s,
            0 <= s < 16,
            0 <= b,
            0 <= i,
    ;
}

/// The CTR keystream byte at buffer position `skip + t`, for the IV of block
/// `b`, is the file keystream byte at offset `16 * b + skip + t`.
proof fn lemma_keystream_at(key: Seq<u8>, nonce: Seq<u8>, iv: Seq<u8>, b: u64, skip: int, t: int)
    requires
        iv == nonce + u64_be_bytes(b),
        nonce.len() == 8,
        b <= u64::MAX / 16,
        0 <= skip < 16,
        0 <= t <= usize::MAX,
    ensures
        aes256_encrypt_block(key, ctr64be_block(iv, (skip + t) / 16))[(skip + t) % 16]
            == file_keystream(key, nonce, 16 * b + skip + t),
{
    reveal(ctr64be_block);
    reveal(file_keystream);
    lemma_u64_be_roundtrip(b);
    assert(iv.subrange(0, 8) =~= nonce);
    assert(iv.subrange(8, 16) =~= u64_be_bytes(b));
    assert(be_u64_at(iv, 8) == be_u64_at(u64_be_bytes(b), 0));
    lemma_block_split(16 * b + skip, b as int, skip, t);
    let j = (skip + t) / 16;
    assert(b + j < 0x1_0000_0000_0000_0000);
    assert((be_u64_at(iv, 8) + j) % 0x1_0000_0000_0000_0000 == b + j);
    assert(ctr64be_block(iv, j) =~= nonce + u64_be_bytes(((16 * b + skip + t) / 16) as u64));
}

impl CryptoEngine {
    /// Creates an engine with the given key and nonce.
    pub fn new(key: [u8; 32], nonce: [u8; 8]) -> (e: Self)
        ensures
            e@ == (key@, nonce@),
    {
        CryptoEngine { key, nonce }
    }

    /// The 16-byte IV of block `block_idx`: nonce, then the big-endian index.
    fn build_iv(&self, block_idx: u64) -> (iv: [u8; 16])
        ensures
            iv@ == self.nonce@ + u64_be_bytes(block_idx),
    {
        let c = u64_to_be_array(block_idx);
        let iv = [
            self.nonce[0], self.nonce[1], self.nonce[2], self.nonce[3], self.nonce[4], self.nonce[5],
            self.nonce[6], self.nonce[7], c[0], c[1], c[2], c[3], c[4], c[5], c[6], c[7],
        ];
        assert(iv@ =~= self.nonce@ + u64_be_bytes(block_idx));
        iv
    }

    /// XORs `data[start..start+len]`, lying at file offset `global_offset`,
    /// with the file keystream.
    fn xor_range(&self, global_offset: u64, data: &mut [u8], start: usize, len: usize)
        requires
            start + len <= old(data)@.len(),
        ensures
            final(data)@ == old(data)@.subrange(0, start as int) + spec_transform(self@.0, self@.1,
                global_offset as int, old(data)@.subrange(start as int, start + len))
                + old(data)@.subrange(start + len, old(data)@.len() as int),
    {
        let ghost d0 = data@;
        if len == 0 {
            assert(data@ =~= d0.subrange(0, start as int) + spec_transform(self@.0, self@.1,
                global_offset as int, d0.subrange(start as int, start + len))
                + d0.subrange(start + len, d0.len() as int));
            return;
        }
        let block_idx = global_offset / 16;
        let skip = (global_offset % 16) as usize;
        let iv = self.build_iv(block_idx);
        assert(self@.1.len() == 8);
        let mut buf: Vec<u8> = Vec::new();
        let mut k: usize = 0;
        while k < skip
            invariant
                0 <= k <= skip,
                skip < 16,
                buf@.len() == k,
            decreases skip - k,
        {
            buf.push(0u8);
            k = k + 1;
        }
        let mut j: usize = 0;
        while j < len
            invariant
                data@ == d0,
                start + len <= d0.len(),
                0 <= j <= len,
                skip < 16,
                buf@.len() == skip + j,
                forall|u: int| skip <= u < skip + j ==> #[trigger] buf@[u] == d0[start + u - skip],
            decreases len - j,
        {
            buf.push(data[start + j]);
            j = j + 1;
        }
        let ghost b0 = buf@;
        aes256_ctr64be_apply_keystream(&self.key, &iv, buf.as_mut_slice());
        let ghost b1 = buf@;
        let dlen = data.len();
        let blen = buf.len();
        proof {
            assert(global_offset == 16 * block_idx + skip);
        }
        let mut m: usize = 0;
        while m < len
            invariant
                start + len <= d0.len(),
                data@.len() == d0.len(),
                dlen == d0.len(),
                blen == b1.len(),
                0 <= m <= len,
                skip < 16,
                global_offset == 16 * block_idx + skip,
                block_idx <= u64::MAX / 16,
                iv@ == self@.1 + u64_be_bytes(block_idx),
                self@.1.len() == 8,
                buf@ == b1,
                b1.len() == skip + len,
                forall|u: int| skip <= u < skip + len ==> #[trigger] b0[u] == d0[start + u - skip],
                forall|u: int| 0 <= u < b1.len() ==> #[trigger] b1[u] == b0[u] ^ aes256_encrypt_block(self@.0, ctr64be_block(iv@, u / 16))[u % 16],
                forall|u: int| start <= u < start + m ==> #[trigger] data@[u] == d0[u] ^ file_keystream(self@.0, self@.1, global_offset + (u - start)),
                forall|u: int| 0 <= u < start ==> #[trigger] data@[u] == d0[u],
                forall|u: int| start + len <= u < d0.len() ==> #[trigger] data@[u] == d0[u],
            decreases len - m,
        {
            proof {
                let t = m as int;
                lemma_keystream_at(self@.0, self@.1, iv@, block_idx, skip as int, t);
                assert(b1[skip + t] == b0[skip + t] ^ aes256_encrypt_block(self@.0, ctr64be_block(iv@, (skip + t) / 16))[(skip + t) % 16]);
                assert(b0[skip + t] == d0[start + t]);
            }
            data[start + m] = buf[skip + m];
            m = m + 1;
        }
        assert(data@ =~= d0.subrange(0, start as int) + spec_transform(self@.0, self@.1,
            global_offset as int, d0.subrange(start as int, start + len))
            + d0.subrange(start + len, d0.len() as int));
    }

    /// Encrypts or decrypts (the same XOR) `data`, lying at file offset
    /// `global_offset`, in place.
    pub fn process_block(&self, global_offset: u64, data: &mut [u8])
        ensures
            final(data)@ == spec_transform(self@.0, self@.1, global_offset as int, old(data)@),
    {
        let ghost d0 = data@;
        let n = data.len();
        self.xor_range(global_offset, data, 0, n);
        assert(d0.subrange(0, 0) + spec_transform(self@.0, self@.1, global_offset as int, d0.subrange(0, n as int))
            + d0.subrange(n as int, n as int) =~= spec_transform(self@.0, self@.1, global_offset as int, d0));
    }

    /// Processes one buffer of a region lying at file offset `offset`:
    /// scrubbed (filled with spaces) when `scrub`, otherwise encrypted or
    /// decrypted in place.
    pub fn process_buffer(&self, buffer: &mut [u8], offset: u64, scrub: bool)
        ensures
            final(buffer)@ == (if scrub {
                Seq::new(old(buffer)@.len(), |i: int| 0x20u8)
            } else {
                spec_transform(self@.0, self@.1, offset as int, old(buffer)@)
            }),
    {
        if scrub {
            let n = buffer.len();
            let ghost d0 = buffer@;
            fill_range(buffer, 0, n, 0x20);
            assert(buffer@ =~= Seq::new(d0.len(), |i: int| 0x20u8));
        } else {
            self.process_block(offset, buffer);
        }
    }

    /// Processes regions whose data lie one after the other in `data`:
    /// metadata regions are scrubbed (filled with spaces) when
    /// `scrub_metadata`, every other region is encrypted or decrypted at its
    /// file offset.
    pub fn process_regions(&self, regions: &[Region], data: &mut [u8], scrub_metadata: bool)
        requires
            regions_total(regions@) <= old(data)@.len(),
        ensures
            final(data)@ == spec_process_regions(self@.0, self@.1, regions@, old(data)@, scrub_metadata),
    {
        let ghost d0 = data@;
        let dlen = data.len();
        let mut data_offset: usize = 0;
        let mut k: usize = 0;
        proof {
            assert(regions@.subrange(0, 0) =~= Seq::<Region>::empty());
        }
        while k < regions.len()
            invariant
                0 <= k <= regions@.len(),
                regions_total(regions@) <= d0.len(),
                dlen == d0.len(),
                data_offset == regions_total(regions@.subrange(0, k as int)),
                data@ == spec_process_regions(self@.0, self@.1, regions@.subrange(0, k as int), d0, scrub_metadata),
            decreases regions@.len() - k,
        {
            proof {
                let pre = regions@.subrange(0, k as int + 1);
                assert(pre.drop_last() =~= regions@.subrange(0, k as int));
                lemma_regions_total_prefix(regions@, k as int + 1);
                lemma_process_regions_len(self@.0, self@.1, regions@.subrange(0, k as int), d0, scrub_metadata);
            }
            let region = regions[k];
            let ghost before = data@;
            if scrub_metadata && region.kind == RegionKind::Metadata {
                fill_range(data, data_offset, region.len, 0x20);
                assert(data@ =~= before.subrange(0, data_offset as int) + region_bytes(self@.0, self@.1, region,
                    before.subrange(data_offset as int, data_offset + region.len), scrub_metadata)
                    + before.subrange(data_offset + region.len, before.len() as int));
            } else {
                self.xor_range(region.offset, data, data_offset, region.len);
            }
            data_offset = data_offset + region.len;
            k = k + 1;
        }
        assert(regions@.subrange(0, regions@.len() as int) =~= regions@);
    }

}


/// Sets `data[start..start+len]` to `byte`.
fn fill_range(data: &mut [u8], start: usize, len: usize, byte: u8)
    requires
        start + len <= old(data)@.len(),
    ensures
        final(data)@ == old(data)@.subrange(0, start as int) + Seq::new(len as nat, |i: int| byte)
            + old(data)@.subrange(start + len, old(data)@.len() as int),
{
    let ghost d0 = data@;
    let dlen = data.len();
    let mut i: usize = 0;
    while i < len
        invariant
            dlen == d0.len(),
            start + len <= d0.len(),
            data@.len() == d0.len(),
            0 <= i <= len,
            forall|u: int| start <= u < start + i ==> #[trigger] data@[u] == byte,
            forall|u: int| 0 <= u < start ==> #[trigger] data@[u] == d0[u],
            forall|u: int| start + len <= u < d0.len() ==> #[trigger] data@[u] == d0[u],
        decreases len - i,
    {
        data[start + i] = byte;
        i = i + 1;
    }
    assert(data@ =~= d0.subrange(0, start as int) + Seq::new(len as nat, |i: int| byte)
        + d0.subrange(start + len, d0.len() as int));
}

/// Total length of `regions`.
pub open spec fn regions_total(regions: Seq<Region>) -> int
    decreases regions.len(),
{
    if regions.len() == 0 {
        0
    } else {
        regions_total(regions.drop_last()) + regions.last().len
    }
}

proof fn lemma_regions_total_prefix(regions: Seq<Region>, k: int)
    requires
        0 <= k <= regions.len(),
    ensures
        0 <= regions_total(regions.subrange(0, k)) <= regions_total(regions),
    decreases regions.len(),
{
    if regions.len() > 0 {
        if k == regions.len() {
            assert(regions.subrange(0, k) =~= regions);
            lemma_regions_total_prefix(regions.drop_last(), k - 1);
        } else {
            assert(regions.drop_last().subrange(0, k) =~= regions.subrange(0, k));
            lemma_regions_total_prefix(regions.drop_last(), k);
        }
    }
}

/// The bytes a region becomes: spaces for a scrubbed metadata region,
/// otherwise its data XORed with the file keystream at its offset.
pub open spec fn region_bytes(key: Seq<u8>, nonce: Seq<u8>, r: Region, input: Seq<u8>, scrub_metadata: bool) -> Seq<u8> {
    if scrub_metadata && r.kind == RegionKind::Metadata {
        Seq::new(input.len(), |i: int| 0x20u8)
    } else {
        spec_transform(key, nonce, r.offset as int, input)
    }
}

/// `data` after each region, in turn, has been processed where its bytes lie
/// (the regions' data follow one another from the start of `data`).
pub open spec fn spec_process_regions(key: Seq<u8>, nonce: Seq<u8>, regions: Seq<Region>, data: Seq<u8>, scrub_metadata: bool) -> Seq<u8>
    decreases regions.len(),
{
    if regions.len() == 0 {
        data
    } else {
        let prev = spec_process_regions(key, nonce, regions.drop_last(), data, scrub_metadata);
        let a = regions_total(regions.drop_last());
        let b = a + regions.last().len;
        prev.subrange(0, a) + region_bytes(key, nonce, regions.last(), prev.subrange(a, b), scrub_metadata)
            + prev.subrange(b, prev.len() as int)
    }
}

proof fn lemma_process_regions_len(key: Seq<u8>, nonce: Seq<u8>, regions: Seq<Region>, data: Seq<u8>, scrub_metadata: bool)
    requires
        regions_total(regions) <= data.len(),
    ensures
        spec_process_regions(key, nonce, regions, data, scrub_metadata).len() == data.len(),
    decreases regions.len(),
{
    if regions.len() > 0 {
        lemma_regions_total_prefix(regions, regions.len() - 1);
        assert(regions.subrange(0, regions.len() - 1) =~= regions.drop_last());
        lemma_process_regions_len(key, nonce, regions.drop_last(), data, scrub_metadata);
    }
}


// ============================================================================
// Laws
// ============================================================================

/// Encryption and decryption are the same operation: processing data twice
/// at the same offset gives it back.
pub proof fn lemma_transform_involution(key: Seq<u8>, nonce: Seq<u8>, offset: int, data: Seq<u8>)
    ensures
        spec_transform(key, nonce, offset, spec_transform(key, nonce, offset, data)) == data,
{
    let once = spec_transform(key, nonce, offset, data);
    let twice = spec_transform(key, nonce, offset, once);
    assert forall|i: int| 0 <= i < data.len() implies twice[i] == data[i] by {
        let x = data[i];
        let k = file_keystream(key, nonce, offset + i);
        assert((x ^ k) ^ k == x) by (bit_vector);
    }
    assert(twice =~= data);
}

/// Random access: the bytes `a..b` of processed data are what processing
/// those bytes alone, at their own offset, gives.
pub proof fn lemma_transform_random_access(key: Seq<u8>, nonce: Seq<u8>, offset: int, data: Seq<u8>, a: int, b: int)
    requires
        0 <= a <= b <= data.len(),
    ensures
        spec_transform(key, nonce, offset, data).subrange(a, b) == spec_transform(key, nonce, offset + a, data.subrange(a, b)),
{
    assert forall|i: int| 0 <= i < b - a implies #[trigger] spec_transform(key, nonce, offset, data).subrange(a, b)[i]
        == spec_transform(key, nonce, offset + a, data.subrange(a, b))[i] by {
        assert(offset + (a + i) == (offset + a) + i);
    }
    assert(spec_transform(key, nonce, offset, data).subrange(a, b) =~= spec_transform(key, nonce, offset + a, data.subrange(a, b)));
}

/// Processing data piece by piece, each piece at its own offset, gives what
/// processing it at once gives.
pub proof fn lemma_transform_split(key: Seq<u8>, nonce: Seq<u8>, offset: int, a: Seq<u8>, b: Seq<u8>)
    ensures
        spec_transform(key, nonce, offset, a + b) == spec_transform(key, nonce, offset, a) + spec_transform(
            key,
            nonce,
            offset + a.len(),
            b,
        ),
{
    let whole = spec_transform(key, nonce, offset, a + b);
    let parts = spec_transform(key, nonce, offset, a) + spec_transform(key, nonce, offset + a.len(), b);
    assert forall|i: int| 0 <= i < whole.len() implies whole[i] == parts[i] by {
        if i >= a.len() {
            assert((offset + a.len()) + (i - a.len()) == offset + i);
        }
    }
    assert(whole =~= parts);
}

/// Processing regions leaves the bytes past their data untouched, and what it
/// makes of the bytes before depends on those bytes alone.
proof fn lemma_process_regions_local(key: Seq<u8>, nonce: Seq<u8>, regions: Seq<Region>, x: Seq<u8>, y: Seq<u8>, scrub_metadata: bool)
    requires
        regions_total(regions) <= x.len(),
        x.len() == y.len(),
        x.subrange(0, regions_total(regions)) == y.subrange(0, regions_total(regions)),
    ensures
        spec_process_regions(key, nonce, regions, x, scrub_metadata).subrange(regions_total(regions), x.len() as int)
            == x.subrange(regions_total(regions), x.len() as int),
        spec_process_regions(key, nonce, regions, x, scrub_metadata).subrange(0, regions_total(regions))
            == spec_process_regions(key, nonce, regions, y, scrub_metadata).subrange(0, regions_total(regions)),
    decreases regions.len(),
{
    lemma_process_regions_len(key, nonce, regions, x, scrub_metadata);
    lemma_process_regions_len(key, nonce, regions, y, scrub_metadata);
    if regions.len() == 0 {
        assert(spec_process_regions(key, nonce, regions, x, scrub_metadata) == x);
    } else {
        let rs = regions.drop_last();
        let r = regions.last();
        let a = regions_total(rs);
        let b = a + r.len;
        lemma_regions_total_prefix(regions, regions.len() - 1);
        assert(regions.subrange(0, regions.len() - 1) =~= rs);
        assert(x.subrange(0, a) =~= x.subrange(0, b).subrange(0, a));
        assert(y.subrange(0, a) =~= y.subrange(0, b).subrange(0, a));
        lemma_process_regions_local(key, nonce, rs, x, y, scrub_metadata);
        lemma_process_regions_local(key, nonce, rs, y, y, scrub_metadata);
        lemma_process_regions_len(key, nonce, rs, x, scrub_metadata);
        lemma_process_regions_len(key, nonce, rs, y, scrub_metadata);
        let px = spec_process_regions(key, nonce, rs, x, scrub_metadata);
        let py = spec_process_regions(key, nonce, rs, y, scrub_metadata);
        let n = x.len() as int;
        assert(px.subrange(a, b) =~= px.subrange(a, n).subrange(0, b - a));
        assert(x.subrange(a, b) =~= x.subrange(a, n).subrange(0, b - a));
        assert(py.subrange(a, b) =~= py.subrange(a, n).subrange(0, b - a));
        assert(y.subrange(a, b) =~= y.subrange(a, n).subrange(0, b - a));
        assert(x.subrange(a, b) =~= x.subrange(0, b).subrange(a, b));
        assert(y.subrange(a, b) =~= y.subrange(0, b).subrange(a, b));
        assert(px.subrange(b, n) =~= px.subrange(a, n).subrange(b - a, n - a));
        assert(x.subrange(b, n) =~= x.subrange(a, n).subrange(b - a, n - a));
        let fx = spec_process_regions(key, nonce, regions, x, scrub_metadata);
        let fy = spec_process_regions(key, nonce, regions, y, scrub_metadata);
        assert(fx.subrange(b, n) =~= x.subrange(b, n));
        assert(px.subrange(a, b) == x.subrange(a, b));
        assert(py.subrange(a, b) == y.subrange(a, b));
        assert(px.subrange(a, b) == py.subrange(a, b));
        let rb = region_bytes(key, nonce, r, px.subrange(a, b), scrub_metadata);
        assert(rb == region_bytes(key, nonce, r, py.subrange(a, b), scrub_metadata));
        assert(rb.len() == b - a);
        assert(fx.subrange(0, b) =~= px.subrange(0, a) + rb);
        assert(fy.subrange(0, b) =~= py.subrange(0, a) + rb);
        assert(fx.subrange(0, b) =~= fy.subrange(0, b));
    }
}

/// Decrypting what was encrypted restores it: without scrubbing, processing
/// the same regions twice gives the data back.
pub proof fn lemma_process_regions_involution(key: Seq<u8>, nonce: Seq<u8>, regions: Seq<Region>, data: Seq<u8>)
    requires
        regions_total(regions) <= data.len(),
    ensures
        spec_process_regions(key, nonce, regions, spec_process_regions(key, nonce, regions, data, false), false) == data,
    decreases regions.len(),
{
    if regions.len() > 0 {
        let rs = regions.drop_last();
        let r = regions.last();
        let a = regions_total(rs);
        let b = a + r.len;
        let n = data.len() as int;
        lemma_regions_total_prefix(regions, regions.len() - 1);
        assert(regions.subrange(0, regions.len() - 1) =~= rs);
        let p = spec_process_regions(key, nonce, rs, data, false);
        lemma_process_regions_len(key, nonce, rs, data, false);
        lemma_process_regions_local(key, nonce, rs, data, data, false);
        let y = spec_process_regions(key, nonce, regions, data, false);
        lemma_process_regions_len(key, nonce, regions, data, false);
        let q = spec_process_regions(key, nonce, rs, y, false);
        lemma_process_regions_len(key, nonce, rs, y, false);
        // `y` and `p` agree before `a`
        assert(y.subrange(0, a) =~= p.subrange(0, a));
        lemma_process_regions_local(key, nonce, rs, y, p, false);
        lemma_process_regions_involution(key, nonce, rs, data);
        lemma_process_regions_local(key, nonce, rs, p, p, false);
        // bytes of the last region
        assert(p.subrange(a, b) =~= p.subrange(a, n).subrange(0, b - a));
        assert(data.subrange(a, b) =~= data.subrange(a, n).subrange(0, b - a));
        assert(y.subrange(a, b) =~= spec_transform(key, nonce, r.offset as int, p.subrange(a, b)));
        assert(q.subrange(a, b) =~= q.subrange(a, n).subrange(0, b - a));
        assert(y.subrange(a, b) =~= y.subrange(a, n).subrange(0, b - a));
        lemma_transform_involution(key, nonce, r.offset as int, data.subrange(a, b));
        let z = spec_process_regions(key, nonce, regions, y, false);
        assert(q.subrange(0, a) =~= spec_process_regions(key, nonce, rs, p, false).subrange(0, a));
        assert(data.subrange(0, a) =~= spec_process_regions(key, nonce, rs, p, false).subrange(0, a));
        assert(q.subrange(b, n) =~= q.subrange(a, n).subrange(b - a, n - a));
        assert(y.subrange(b, n) =~= y.subrange(a, n).subrange(b - a, n - a));
        assert(p.subrange(b, n) =~= p.subrange(a, n).subrange(b - a, n - a));
        assert(data.subrange(b, n) =~= data.subrange(a, n).subrange(b - a, n - a));
        assert(z =~= data);
    }
}

// ============================================================================
// Processing a file in place
// ============================================================================

/// `file` with region `r` processed where it lies.
pub open spec fn process_in_place(key: Seq<u8>, nonce: Seq<u8>, file: Seq<u8>, r: Region, scrub_metadata: bool) -> Seq<u8> {
    let a = r.offset as int;
    let b = a + r.len;
    file.subrange(0, a) + region_bytes(key, nonce, r, file.subrange(a, b), scrub_metadata) + file.subrange(
        b,
        file.len() as int,
    )
}

/// `file` with each region, in turn, processed where it lies: what a run
/// makes of a file.
pub open spec fn process_all_in_place(
    key: Seq<u8>,
    nonce: Seq<u8>,
    file: Seq<u8>,
    regions: Seq<Region>,
    scrub_metadata: bool,
) -> Seq<u8>
    decreases regions.len(),
{
    if regions.len() == 0 {
        file
    } else {
        process_in_place(
            key,
            nonce,
            process_all_in_place(key, nonce, file, regions.drop_last(), scrub_metadata),
            regions.last(),
            scrub_metadata,
        )
    }
}

/// Number of regions that cover byte `p`.
pub open spec fn cover_count(regions: Seq<Region>, p: int) -> nat
    decreases regions.len(),
{
    if regions.len() == 0 {
        0
    } else {
        cover_count(regions.drop_last(), p) + if regions.last().offset <= p < regions.last().offset
            + regions.last().len {
            1nat
        } else {
            0nat
        }
    }
}

/// The keystream byte `k` applied `n` times by XOR.
pub open spec fn xor_times(k: u8, n: nat) -> u8 {
    if n % 2 == 1 {
        k
    } else {
        0u8
    }
}

/// Without scrubbing, each byte of a processed file is the original byte
/// XORed with its keystream byte once per region that covers it.
proof fn lemma_in_place_bytes(key: Seq<u8>, nonce: Seq<u8>, file: Seq<u8>, regions: Seq<Region>)
    requires
        regions_within(regions, file.len() as int),
    ensures
        process_all_in_place(key, nonce, file, regions, false).len() == file.len(),
        forall|p: int| 0 <= p < file.len() ==> #[trigger] process_all_in_place(key, nonce, file, regions, false)[p]
            == file[p] ^ xor_times(file_keystream(key, nonce, p), cover_count(regions, p)),
    decreases regions.len(),
{
    if regions.len() == 0 {
        assert forall|p: int| 0 <= p < file.len() implies #[trigger] file[p] == file[p] ^ xor_times(
            file_keystream(key, nonce, p),
            0,
        ) by {
            let x = file[p];
            assert(x == x ^ 0u8) by (bit_vector);
        }
    } else {
        let rs = regions.drop_last();
        let r = regions.last();
        assert(regions_within(rs, file.len() as int)) by {
            assert forall|i: int| 0 <= i < rs.len() implies #[trigger] rs[i].offset + rs[i].len <= file.len() by {
                assert(rs[i] == regions[i]);
            }
        }
        assert(regions[regions.len() - 1].offset + regions[regions.len() - 1].len <= file.len());
        lemma_in_place_bytes(key, nonce, file, rs);
        let prev = process_all_in_place(key, nonce, file, rs, false);
        let res = process_all_in_place(key, nonce, file, regions, false);
        let a = r.offset as int;
        let b = a + r.len;
        assert(prev.subrange(a, b).len() == b - a);
        assert(region_bytes(key, nonce, r, prev.subrange(a, b), false).len() == b - a);
        assert(res.len() == file.len());
        assert forall|p: int| 0 <= p < file.len() implies #[trigger] res[p] == file[p] ^ xor_times(
            file_keystream(key, nonce, p),
            cover_count(regions, p),
        ) by {
            let k = file_keystream(key, nonce, p);
            let c = cover_count(rs, p);
            let x = file[p];
            assert(prev[p] == x ^ xor_times(k, c));
            if a <= p < b {
                assert(res[p] == spec_transform(key, nonce, a, prev.subrange(a, b))[p - a]);
                assert(a + (p - a) == p);
                assert(res[p] == prev[p] ^ k);
                let y = xor_times(k, c);
                let z = xor_times(k, c + 1);
                if c % 2 == 1 {
                    assert(y == k && z == 0);
                    assert((x ^ k) ^ k == x ^ 0u8) by (bit_vector);
                } else {
                    assert(y == 0 && z == k);
                    assert((x ^ 0u8) ^ k == x ^ k) by (bit_vector);
                }
            } else {
                assert(res[p] == prev[p]);
            }
        }
    }
}

/// Decrypting what was encrypted in place restores the file: without
/// scrubbing, processing the same regions of a file twice gives it back,
/// whether or not the regions overlap.
pub proof fn lemma_in_place_involution(key: Seq<u8>, nonce: Seq<u8>, file: Seq<u8>, regions: Seq<Region>)
    requires
        regions_within(regions, file.len() as int),
    ensures
        process_all_in_place(key, nonce, process_all_in_place(key, nonce, file, regions, false), regions, false) == file,
{
    let once = process_all_in_place(key, nonce, file, regions, false);
    lemma_in_place_bytes(key, nonce, file, regions);
    lemma_in_place_bytes(key, nonce, once, regions);
    let twice = process_all_in_place(key, nonce, once, regions, false);
    assert forall|p: int| 0 <= p < file.len() implies twice[p] == file[p] by {
        let x = file[p];
        let y = xor_times(file_keystream(key, nonce, p), cover_count(regions, p));
        assert(once[p] == x ^ y);
        assert(twice[p] == (x ^ y) ^ y);
        assert((x ^ y) ^ y == x) by (bit_vector);
    }
    assert(twice =~= file);
}

proof fn lemma_cover_count_remove(s: Seq<Region>, j: int, p: int)
    requires
        0 <= j < s.len(),
    ensures
        cover_count(s, p) == cover_count(s.remove(j), p) + if s[j].offset <= p < s[j].offset + s[j].len {
            1nat
        } else {
            0nat
        },
    decreases s.len(),
{
    if j == s.len() - 1 {
        assert(s.remove(j) =~= s.drop_last());
    } else {
        lemma_cover_count_remove(s.drop_last(), j, p);
        assert(s.remove(j).drop_last() =~= s.drop_last().remove(j));
        assert(s.remove(j).last() == s.last());
    }
}

/// The same regions, in any order, cover each byte as often.
proof fn lemma_cover_count_perm(a: Seq<Region>, b: Seq<Region>, p: int)
    requires
        b.to_multiset() == a.to_multiset(),
    ensures
        cover_count(a, p) == cover_count(b, p),
    decreases a.len(),
{
    broadcast use vstd::seq_lib::group_to_multiset_ensures;
    if a.len() == 0 {
        assert(b.to_multiset().len() == 0);
        assert(b.len() == 0);
    } else {
        let x = a.last();
        let a2 = a.drop_last();
        assert(a2.push(x) =~= a);
        assert(a.to_multiset() =~= a2.to_multiset().insert(x));
        assert(a.to_multiset().count(x) > 0);
        assert(b.contains(x));
        let j = choose|j: int| 0 <= j < b.len() && b[j] == x;
        let b2 = b.remove(j);
        assert(b2.to_multiset() =~= b.to_multiset().remove(x));
        assert(a2.to_multiset() =~= a.to_multiset().remove(x));
        lemma_cover_count_perm(a2, b2, p);
        lemma_cover_count_remove(b, j, p);
    }
}

/// Without scrubbing, the order in which regions are processed in place does
/// not matter: the same regions in any order give the same file.
pub proof fn lemma_in_place_order_free(key: Seq<u8>, nonce: Seq<u8>, file: Seq<u8>, a: Seq<Region>, b: Seq<Region>)
    requires
        regions_within(a, file.len() as int),
        b.to_multiset() == a.to_multiset(),
    ensures
        process_all_in_place(key, nonce, file, a, false) == process_all_in_place(key, nonce, file, b, false),
{
    broadcast use vstd::seq_lib::group_to_multiset_ensures;
    assert(regions_within(b, file.len() as int)) by {
        assert forall|i: int| 0 <= i < b.len() implies #[trigger] b[i].offset + b[i].len <= file.len() by {
            assert(b.contains(b[i]));
            assert(b.to_multiset().count(b[i]) > 0);
            assert(a.contains(b[i]));
            let j = choose|j: int| 0 <= j < a.len() && a[j] == b[i];
            assert(a[j].offset + a[j].len <= file.len());
        }
    }
    lemma_in_place_bytes(key, nonce, file, a);
    lemma_in_place_bytes(key, nonce, file, b);
    let pa = process_all_in_place(key, nonce, file, a, false);
    let pb = process_all_in_place(key, nonce, file, b, false);
    assert forall|p: int| 0 <= p < file.len() implies pa[p] == pb[p] by {
        lemma_cover_count_perm(a, b, p);
    }
    assert(pa =~= pb);
}

/// Processing regions in place changes no byte outside them, whatever is
/// made of the bytes inside (scrubbed or not).
pub proof fn lemma_in_place_outside(
    key: Seq<u8>,
    nonce: Seq<u8>,
    file: Seq<u8>,
    regions: Seq<Region>,
    scrub_metadata: bool,
)
    requires
        regions_within(regions, file.len() as int),
    ensures
        process_all_in_place(key, nonce, file, regions, scrub_metadata).len() == file.len(),
        forall|p: int| 0 <= p < file.len() && !covered(regions, p) ==> #[trigger] process_all_in_place(
            key,
            nonce,
            file,
            regions,
            scrub_metadata,
        )[p] == file[p],
    decreases regions.len(),
{
    if regions.len() > 0 {
        let rs = regions.drop_last();
        let r = regions.last();
        assert(regions_within(rs, file.len() as int)) by {
            assert forall|i: int| 0 <= i < rs.len() implies #[trigger] rs[i].offset + rs[i].len <= file.len() by {
                assert(rs[i] == regions[i]);
            }
        }
        assert(regions[regions.len() - 1].offset + regions[regions.len() - 1].len <= file.len());
        lemma_in_place_outside(key, nonce, file, rs, scrub_metadata);
        let prev = process_all_in_place(key, nonce, file, rs, scrub_metadata);
        let res = process_all_in_place(key, nonce, file, regions, scrub_metadata);
        let a = r.offset as int;
        let b = a + r.len;
        assert(region_bytes(key, nonce, r, prev.subrange(a, b), scrub_metadata).len() == b - a);
        assert(res.len() == file.len());
        assert forall|p: int| 0 <= p < file.len() && !covered(regions, p) implies #[trigger] res[p] == file[p] by {
            if a <= p < b {
                assert(regions[regions.len() - 1] == r);
                assert(covered(regions, p));
            }
            if covered(rs, p) {
                let j = choose|j: int| 0 <= j < rs.len() && rs[j].offset <= p < #[trigger] rs[j].offset + rs[j].len;
                assert(rs[j] == regions[j]);
                assert(covered(regions, p));
            }
            assert(res[p] == prev[p]);
        }
    }
}

} // verus!
