//! The write-ahead log (format v2): encoding, validation and recovery
//! planning.
//!
//! Before any region is modified in place, the original bytes of every region
//! are written to `<file>.wal`:
//!
//! ```text
//! "WALV0002" (8) | entry count (4, BE)
//! entry*: offset (8, BE) | length (4, BE) | data (length)
//! CRC32 of everything before it (4, BE)
//! ```
//!
//! A log that validates is replayed to undo a half-finished run; a log that
//! does not (the crash came while it was being written) is discarded, since
//! the file itself was not touched yet.

use vstd::prelude::*;
use crate::bytes::{be_u32_at, be_u64_at, lemma_be_bounds, lemma_u32_be_roundtrip, lemma_u64_be_roundtrip, push_u32_be, push_u64_be, read_u32_be, read_u64_be, u32_be_bytes, u64_be_bytes};
use crate::common::{covered, regions_within, Region};
use crate::error::{unexpected_eof, AppError};

verus! {

broadcast use vstd::array::group_array_axioms;

/// Magic number of the log: "WALV0002".
pub const WAL_MAGIC_V2: [u8; 8] = [0x57u8, 0x41u8, 0x4cu8, 0x56u8, 0x30u8, 0x30u8, 0x30u8, 0x32u8];

/// Size of the log header (magic and entry count).
pub const WAL_HEADER_SIZE: usize = 12;

/// A log holding no more than this many bytes has not got past its header
/// and checksum, so there is nothing to recover from it.
pub const WAL_MIN_RECOVERABLE_LEN: u64 = 16;

/// One saved region: where it lies in the file and its original bytes.
#[derive(Debug, Clone)]
pub struct WalEntry {
    /// Byte offset of the region in the target file.
    pub offset: u64,
    /// Original bytes of the region.
    pub data: Vec<u8>,
}

/// An entry as a pair of its offset and its bytes.
pub open spec fn entry_view(e: WalEntry) -> (u64, Seq<u8>) {
    (e.offset, e.data@)
}

/// The entries of `v` as pairs of offset and bytes.
pub open spec fn entries_view(v: Seq<WalEntry>) -> Seq<(u64, Seq<u8>)> {
    v.map_values(|e: WalEntry| entry_view(e))
}

// ============================================================================
// Checksum
// ============================================================================

/// One bit step of the reflected CRC-32: shift right, folding in the
/// polynomial 0xEDB88320 when the bit shifted out is set.
pub open spec fn crc32_bit(c: u32) -> u32 {
    if c & 1 == 1 {
        (c >> 1) ^ 0xEDB8_8320
    } else {
        c >> 1
    }
}

/// The CRC register after taking in byte `b` (eight bit steps).
pub open spec fn crc32_byte(c: u32, b: u8) -> u32 {
    let x = c ^ (b as u32);
    crc32_bit(crc32_bit(crc32_bit(crc32_bit(crc32_bit(crc32_bit(crc32_bit(crc32_bit(x))))))))
}

/// The CRC register after taking in `data`, starting from all ones.
pub open spec fn crc32_register(data: Seq<u8>) -> u32
    decreases data.len(),
{
    if data.len() == 0 {
        0xFFFF_FFFF
    } else {
        crc32_byte(crc32_register(data.drop_last()), data.last())
    }
}

/// The CRC-32 (IEEE 802.3) checksum of `data`: the final register,
/// complemented.
#[verifier::opaque]
pub open spec fn crc32_of(data: Seq<u8>) -> u32 {
    crc32_register(data) ^ 0xFFFF_FFFF
}

/// `crc32fast::hash`: the CRC-32 (IEEE) of `data`.
#[verifier::external_body]
fn crc32(data: &[u8]) -> (r: u32)
    ensures
        r == crc32_of(data@),
{
    crc32fast::hash(data)
}

// ============================================================================
// Format
// ============================================================================

/// Whether every entry fits the format (its length is stored in 32 bits), and
/// there are no more entries than the 32-bit count can hold.
pub open spec fn entries_encodable(es: Seq<(u64, Seq<u8>)>) -> bool {
    &&& es.len() <= u32::MAX
    &&& forall|i: int| 0 <= i < es.len() ==> #[trigger] es[i].1.len() <= u32::MAX
}

/// The bytes of one entry.
pub open spec fn entry_bytes(e: (u64, Seq<u8>)) -> Seq<u8> {
    u64_be_bytes(e.0) + u32_be_bytes(e.1.len() as u32) + e.1
}

/// The bytes of a run of entries.
pub open spec fn entries_bytes(es: Seq<(u64, Seq<u8>)>) -> Seq<u8>
    decreases es.len(),
{
    if es.len() == 0 {
        Seq::empty()
    } else {
        entries_bytes(es.drop_last()) + entry_bytes(es.last())
    }
}

/// The log without its checksum: header and entries.
pub open spec fn wal_body(es: Seq<(u64, Seq<u8>)>) -> Seq<u8> {
    WAL_MAGIC_V2@ + u32_be_bytes(es.len() as u32) + entries_bytes(es)
}

/// The complete log for `es`.
pub open spec fn wal_file(es: Seq<(u64, Seq<u8>)>) -> Seq<u8> {
    wal_body(es) + u32_be_bytes(crc32_of(wal_body(es)))
}

/// How reading a log fails.
pub enum WalFail {
    /// The log ends inside a structure (reported as `AppError::Io` with
    /// `UnexpectedEof`).
    Eof,
    /// Wrong magic, wrong checksum or trailing bytes
    /// (`AppError::WalChecksumError`).
    Checksum,
}

/// Reads `k` entries starting at `pos`: the entries and the position after
/// them, or `None` when the bytes end first.
pub open spec fn parse_entries(b: Seq<u8>, pos: int, k: nat) -> Option<(Seq<(u64, Seq<u8>)>, int)>
    decreases k,
{
    if k == 0 {
        Some((Seq::empty(), pos))
    } else {
        match parse_entries(b, pos, (k - 1) as nat) {
            None => None,
            Some((es, p)) => {
                if p + 12 > b.len() {
                    None
                } else {
                    let len = be_u32_at(b, p + 8);
                    if p + 12 + len > b.len() {
                        None
                    } else {
                        Some((es.push((be_u64_at(b, p) as u64, b.subrange(p + 12, p + 12 + len))), p + 12 + len))
                    }
                }
            },
        }
    }
}

/// What reading the log `b` gives: its entries, or how it fails. The
/// checks come in this order: magic, entries, checksum, trailing bytes.
pub open spec fn spec_read_wal(b: Seq<u8>) -> Result<Seq<(u64, Seq<u8>)>, WalFail> {
    if b.len() < 8 {
        Err(WalFail::Eof)
    } else if b.subrange(0, 8) != WAL_MAGIC_V2@ {
        Err(WalFail::Checksum)
    } else if b.len() < 12 {
        Err(WalFail::Eof)
    } else {
        match parse_entries(b, 12, be_u32_at(b, 8) as nat) {
            None => Err(WalFail::Eof),
            Some((es, p)) => {
                if p + 4 > b.len() {
                    Err(WalFail::Eof)
                } else if be_u32_at(b, p) != crc32_of(b.subrange(0, p)) {
                    Err(WalFail::Checksum)
                } else if p + 4 != b.len() {
                    Err(WalFail::Checksum)
                } else {
                    Ok(es)
                }
            },
        }
    }
}

/// Whether `e` reports the failure `f`.
pub open spec fn wal_fail_matches(e: AppError, f: WalFail) -> bool {
    match f {
        WalFail::Eof => e is Io,
        WalFail::Checksum => e is WalChecksumError,
    }
}

// ============================================================================
// Writing
// ============================================================================

/// The log header for `entry_count` entries.
pub fn wal_header(entry_count: u32) -> (r: Vec<u8>)
    ensures
        r@ == WAL_MAGIC_V2@ + u32_be_bytes(entry_count),
{
    let mut out: Vec<u8> = Vec::new();
    let mut i: usize = 0;
    while i < 8
        invariant
            0 <= i <= 8,
            out@ == WAL_MAGIC_V2@.subrange(0, i as int),
        decreases 8 - i,
    {
        out.push(WAL_MAGIC_V2[i]);
        i = i + 1;
        assert(out@ =~= WAL_MAGIC_V2@.subrange(0, i as int));
    }
    assert(WAL_MAGIC_V2@.subrange(0, 8) =~= WAL_MAGIC_V2@);
    push_u32_be(&mut out, entry_count);
    out
}

/// The header of an entry: its offset and length.
pub fn wal_entry_header(offset: u64, len: u32) -> (r: Vec<u8>)
    ensures
        r@ == u64_be_bytes(offset) + u32_be_bytes(len),
{
    let mut out: Vec<u8> = Vec::new();
    push_u64_be(&mut out, offset);
    push_u32_be(&mut out, len);
    assert(out@ =~= u64_be_bytes(offset) + u32_be_bytes(len));
    out
}

/// The checksum that closes a log whose bytes so far are `body`.
pub fn wal_footer(body: &[u8]) -> (r: Vec<u8>)
    ensures
        r@ == u32_be_bytes(crc32_of(body@)),
{
    let crc = crc32(body);
    let mut out: Vec<u8> = Vec::new();
    push_u32_be(&mut out, crc);
    assert(out@ =~= u32_be_bytes(crc));
    out
}

/// Encodes a complete log holding `entries`.
pub fn encode_wal(entries: &[WalEntry]) -> (r: Vec<u8>)
    requires
        entries_encodable(entries_view(entries@)),
    ensures
        r@ == wal_file(entries_view(entries@)),
{
    let ghost es = entries_view(entries@);
    let n = entries.len();
    let mut out = wal_header(n as u32);
    let mut i: usize = 0;
    while i < n
        invariant
            n == entries@.len(),
            es == entries_view(entries@),
            entries_encodable(es),
            0 <= i <= n,
            out@ == WAL_MAGIC_V2@ + u32_be_bytes(n as u32) + entries_bytes(es.take(i as int)),
        decreases n - i,
    {
        let e = &entries[i];
        assert(es[i as int] == entry_view(entries@[i as int]));
        let len = e.data.len();
        assert(es[i as int].1.len() <= u32::MAX);
        let h = wal_entry_header(e.offset, len as u32);
        let ghost before = out@;
        let mut j: usize = 0;
        while j < 12
            invariant
                0 <= j <= 12,
                h@.len() == 12,
                out@ == before + h@.subrange(0, j as int),
            decreases 12 - j,
        {
            out.push(h[j]);
            j = j + 1;
            assert(out@ =~= before + h@.subrange(0, j as int));
        }
        let m = e.data.len();
        let mut j: usize = 0;
        while j < m
            invariant
                0 <= j <= m,
                m == e.data@.len(),
                out@ == before + h@ + e.data@.subrange(0, j as int),
            decreases m - j,
        {
            out.push(e.data[j]);
            j = j + 1;
            assert(out@ =~= before + h@ + e.data@.subrange(0, j as int));
        }
        proof {
            lemma_u64_be_roundtrip(e.offset);
            lemma_u32_be_roundtrip(len as u32);
            assert(e.data@.subrange(0, m as int) =~= e.data@);
            assert(es.take(i + 1).drop_last() =~= es.take(i as int));
            assert(es.take(i + 1).last() == es[i as int]);
            assert(entry_bytes(es[i as int]) =~= h@ + e.data@);
        }
        i = i + 1;
        assert(out@ =~= WAL_MAGIC_V2@ + u32_be_bytes(n as u32) + entries_bytes(es.take(i as int)));
    }
    assert(es.take(n as int) =~= es);
    let footer = wal_footer(out.as_slice());
    let ghost body = out@;
    let mut j: usize = 0;
    while j < 4
        invariant
            0 <= j <= 4,
            footer@.len() == 4,
            out@ == body + footer@.subrange(0, j as int),
        decreases 4 - j,
    {
        out.push(footer[j]);
        j = j + 1;
        assert(out@ =~= body + footer@.subrange(0, j as int));
    }
    proof {
        lemma_u32_be_roundtrip(crc32_of(body));
        assert(footer@.subrange(0, 4) =~= footer@);
        assert(body =~= wal_body(es));
    }
    out
}

// ============================================================================
// Reading
// ============================================================================

/// Whether `b` starts with the log magic.
fn starts_with_magic(b: &[u8]) -> (r: bool)
    requires
        b@.len() >= 8,
    ensures
        r == (b@.subrange(0, 8) == WAL_MAGIC_V2@),
{
    let mut i: usize = 0;
    while i < 8
        invariant
            0 <= i <= 8,
            b@.len() >= 8,
            forall|j: int| 0 <= j < i ==> b@[j] == WAL_MAGIC_V2@[j],
        decreases 8 - i,
    {
        if b[i] != WAL_MAGIC_V2[i] {
            assert(b@.subrange(0, 8)[i as int] != WAL_MAGIC_V2@[i as int]);
            return false;
        }
        i = i + 1;
    }
    assert(b@.subrange(0, 8) =~= WAL_MAGIC_V2@);
    true
}

/// Once the bytes run out, reading more entries cannot succeed.
proof fn lemma_parse_entries_none(b: Seq<u8>, pos: int, k: nat, m: nat)
    requires
        k <= m,
        parse_entries(b, pos, k) is None,
    ensures
        parse_entries(b, pos, m) is None,
    decreases m - k,
{
    if k < m {
        lemma_parse_entries_none(b, pos, k + 1, m);
    }
}

/// Validates a complete log and returns its entries.
pub fn read_and_validate(bytes: &[u8]) -> (r: Result<Vec<WalEntry>, AppError>)
    ensures
        match spec_read_wal(bytes@) {
            Ok(es) => r matches Ok(v) && entries_view(v@) == es,
            Err(f) => r matches Err(e) && wal_fail_matches(e, f),
        },
{
    let n = bytes.len();
    if n < 8 {
        return Err(AppError::Io(unexpected_eof()));
    }
    if !starts_with_magic(bytes) {
        return Err(AppError::WalChecksumError);
    }
    if n < 12 {
        return Err(AppError::Io(unexpected_eof()));
    }
    let count = read_u32_be(bytes, 8);
    let mut entries: Vec<WalEntry> = Vec::new();
    let mut pos: usize = 12;
    let mut k: u32 = 0;
    while k < count
        invariant
            n == bytes@.len(),
            n >= 12,
            bytes@.subrange(0, 8) == WAL_MAGIC_V2@,
            12 <= pos <= n,
            k <= count,
            count == be_u32_at(bytes@, 8),
            parse_entries(bytes@, 12, k as nat) == Some((entries_view(entries@), pos as int)),
        decreases count - k,
    {
        if n - pos < 12 {
            proof {
                lemma_parse_entries_none(bytes@, 12, (k + 1) as nat, count as nat);
            }
            return Err(AppError::Io(unexpected_eof()));
        }
        let offset = read_u64_be(bytes, pos);
        let len = read_u32_be(bytes, pos + 8) as usize;
        if n - pos - 12 < len {
            proof {
                lemma_parse_entries_none(bytes@, 12, (k + 1) as nat, count as nat);
            }
            return Err(AppError::Io(unexpected_eof()));
        }
        let data = vstd::slice::slice_to_vec(&bytes[pos + 12..pos + 12 + len]);
        let ghost old_entries = entries@;
        entries.push(WalEntry { offset, data });
        proof {
            assert(entries_view(entries@) =~= entries_view(old_entries).push(
                (be_u64_at(bytes@, pos as int) as u64, bytes@.subrange(pos + 12, pos + 12 + len)),
            ));
        }
        pos = pos + 12 + len;
        k = k + 1;
    }
    if n - pos < 4 {
        return Err(AppError::Io(unexpected_eof()));
    }
    let stored = read_u32_be(bytes, pos);
    let calculated = crc32(&bytes[0..pos]);
    if stored != calculated {
        return Err(AppError::WalChecksumError);
    }
    if pos + 4 != n {
        return Err(AppError::WalChecksumError);
    }
    Ok(entries)
}

// ============================================================================
// Recovery
// ============================================================================

/// Whether a log of `wal_len` bytes calls for recovery: it must hold more
/// than its header and checksum.
pub fn needs_recovery(wal_len: u64) -> (r: bool)
    ensures
        r == (wal_len > 16),
{
    wal_len > WAL_MIN_RECOVERABLE_LEN
}

/// What to do with a log found next to a file.
pub enum WalRecovery {
    /// The log is complete: write these saved regions back, then delete it.
    Restore(Vec<WalEntry>),
    /// The log is incomplete or corrupted (the crash came while it was being
    /// written, before the file was touched): delete it.
    Discard,
}

/// Decides what to do with the log whose bytes are `wal`.
pub fn plan_recovery(wal: &[u8]) -> (r: WalRecovery)
    ensures
        match spec_read_wal(wal@) {
            Ok(es) => r matches WalRecovery::Restore(v) && entries_view(v@) == es,
            Err(_) => r is Discard,
        },
{
    match read_and_validate(wal) {
        Ok(entries) => WalRecovery::Restore(entries),
        Err(_) => WalRecovery::Discard,
    }
}

/// `file` after writing `data` at `offset` (the file grows, with zero bytes
/// in any gap, when the write reaches past its end).
pub open spec fn write_at(file: Seq<u8>, offset: int, data: Seq<u8>) -> Seq<u8> {
    let end = if offset + data.len() > file.len() { offset + data.len() } else { file.len() as int };
    Seq::new(end as nat, |i: int|
        if offset <= i < offset + data.len() {
            data[i - offset]
        } else if i < file.len() {
            file[i]
        } else {
            0u8
        })
}

/// `file` after the entries of a log are written back in order.
pub open spec fn apply_entries(file: Seq<u8>, es: Seq<(u64, Seq<u8>)>) -> Seq<u8>
    decreases es.len(),
{
    if es.len() == 0 {
        file
    } else {
        let f = apply_entries(file, es.drop_last());
        write_at(f, es.last().0 as int, es.last().1)
    }
}

/// The entries that save `regions` of `orig`, in order.
pub open spec fn backup_entries(orig: Seq<u8>, regions: Seq<Region>) -> Seq<(u64, Seq<u8>)> {
    regions.map_values(|r: Region| (r.offset, orig.subrange(r.offset as int, r.offset + r.len)))
}

proof fn lemma_apply_backup(orig: Seq<u8>, regions: Seq<Region>, cur: Seq<u8>)
    requires
        regions_within(regions, orig.len() as int),
        cur.len() == orig.len(),
    ensures
        apply_entries(cur, backup_entries(orig, regions)).len() == orig.len(),
        forall|i: int| 0 <= i < orig.len() ==> #[trigger] apply_entries(cur, backup_entries(orig, regions))[i]
            == if covered(regions, i) { orig[i] } else { cur[i] },
    decreases regions.len(),
{
    let es = backup_entries(orig, regions);
    if regions.len() > 0 {
        let rs = regions.drop_last();
        let r = regions.last();
        assert(es.drop_last() =~= backup_entries(orig, rs));
        assert(regions_within(rs, orig.len() as int)) by {
            assert forall|i: int| 0 <= i < rs.len() implies #[trigger] rs[i].offset + rs[i].len <= orig.len() by {
                assert(rs[i] == regions[i]);
            }
        }
        lemma_apply_backup(orig, rs, cur);
        let f = apply_entries(cur, backup_entries(orig, rs));
        assert(regions[regions.len() - 1].offset + regions[regions.len() - 1].len <= orig.len());
        let d = orig.subrange(r.offset as int, r.offset + r.len);
        assert(es.last() == (r.offset, d));
        assert forall|i: int| 0 <= i < orig.len() implies #[trigger] apply_entries(cur, es)[i]
            == if covered(regions, i) { orig[i] } else { cur[i] } by {
            if r.offset <= i < r.offset + r.len {
                assert(covered(regions, i)) by {
                    assert(regions[regions.len() - 1] == r);
                }
            } else {
                if covered(regions, i) {
                    let j = choose|j: int| 0 <= j < regions.len() && regions[j].offset <= i < #[trigger] regions[j].offset
                        + regions[j].len;
                    assert(j != regions.len() - 1);
                    assert(rs[j] == regions[j]);
                    assert(covered(rs, i));
                } else {
                    if covered(rs, i) {
                        let j = choose|j: int| 0 <= j < rs.len() && rs[j].offset <= i < #[trigger] rs[j].offset + rs[j].len;
                        assert(rs[j] == regions[j]);
                        assert(covered(regions, i));
                    }
                }
            }
        }
    }
}

// ============================================================================
// Laws
// ============================================================================

/// A log written for some entries reads back as exactly those entries.
pub proof fn lemma_wal_roundtrip(es: Seq<(u64, Seq<u8>)>)
    requires
        entries_encodable(es),
    ensures
        spec_read_wal(wal_file(es)) == Ok::<Seq<(u64, Seq<u8>)>, WalFail>(es),
{
    let b = wal_file(es);
    let body = wal_body(es);
    lemma_u32_be_roundtrip(es.len() as u32);
    assert(b.subrange(0, 8) =~= WAL_MAGIC_V2@);
    assert(be_u32_at(b, 8) == es.len());
    lemma_parse_wal_entries(es, es.len() as nat);
    assert(es.take(es.len() as int) =~= es);
    let p: int = 12 + entries_bytes(es).len() as int;
    assert(body.len() == p);
    assert(b.subrange(0, p) =~= body);
    lemma_u32_be_roundtrip(crc32_of(body));
    assert(be_u32_at(b, p) == be_u32_at(u32_be_bytes(crc32_of(body)), 0));
}

/// The entries' bytes follow the 12-byte header in the log.
proof fn lemma_wal_file_entries(es: Seq<(u64, Seq<u8>)>)
    ensures
        wal_file(es).len() == 16 + entries_bytes(es).len(),
        wal_file(es).subrange(12, 12 + entries_bytes(es).len() as int) == entries_bytes(es),
{
    lemma_u32_be_roundtrip(es.len() as u32);
    lemma_u32_be_roundtrip(crc32_of(wal_body(es)));
    assert(wal_file(es).subrange(12, 12 + entries_bytes(es).len() as int) =~= entries_bytes(es));
}

/// Entry `k - 1` sits right after the first `k - 1` entries in the log.
proof fn lemma_wal_entry_at(es: Seq<(u64, Seq<u8>)>, k: nat)
    requires
        0 < k <= es.len(),
    ensures
        ({
            let p: int = 12 + entries_bytes(es.take(k - 1)).len() as int;
            let eb = entry_bytes(es[k - 1]);
            &&& p + eb.len() <= wal_file(es).len()
            &&& wal_file(es).subrange(p, p + eb.len() as int) == eb
            &&& entries_bytes(es.take(k as int)) == entries_bytes(es.take(k - 1)) + eb
        }),
{
    let j = k - 1;
    let b = wal_file(es);
    let big = entries_bytes(es);
    let pre_j = entries_bytes(es.take(j));
    let pre_k = entries_bytes(es.take(k as int));
    let eb = entry_bytes(es[j]);
    assert(es.take(k as int).drop_last() =~= es.take(j));
    assert(es.take(k as int).last() == es[j]);
    assert(pre_k == pre_j + eb);
    lemma_entries_bytes_prefix(es, k);
    lemma_wal_file_entries(es);
    let x: int = pre_j.len() as int;
    let y: int = pre_k.len() as int;
    assert(big.subrange(x, y) =~= eb) by {
        assert(pre_k.subrange(x, y) =~= eb);
    }
    assert(b.subrange(12 + x, 12 + y) =~= big.subrange(x, y)) by {
        assert(b.subrange(12 + x, 12 + y) =~= b.subrange(12, 12 + big.len() as int).subrange(x, y));
    }
}

/// The first `k` entries of a log read back as the first `k` entries written.
#[verifier::spinoff_prover]
#[verifier::rlimit(40)]
proof fn lemma_parse_wal_entries(es: Seq<(u64, Seq<u8>)>, k: nat)
    requires
        entries_encodable(es),
        k <= es.len(),
    ensures
        parse_entries(wal_file(es), 12, k) == Some((es.take(k as int), 12 + entries_bytes(es.take(k as int)).len() as int)),
    decreases k,
{
    let b = wal_file(es);
    if k == 0 {
        assert(es.take(0) =~= Seq::<(u64, Seq<u8>)>::empty());
    } else {
        let j = (k - 1) as nat;
        lemma_parse_wal_entries(es, j);
        lemma_wal_entry_at(es, k);
        let p: int = 12 + entries_bytes(es.take(j as int)).len() as int;
        let e = es[j as int];
        let eb = entry_bytes(e);
        assert(e.1.len() <= u32::MAX);
        lemma_u64_be_roundtrip(e.0);
        lemma_u32_be_roundtrip(e.1.len() as u32);
        assert(b[p] == eb[0] && b[p + 1] == eb[1] && b[p + 2] == eb[2] && b[p + 3] == eb[3]) by {
            assert(b.subrange(p, p + eb.len() as int)[0] == eb[0]);
            assert(b.subrange(p, p + eb.len() as int)[1] == eb[1]);
            assert(b.subrange(p, p + eb.len() as int)[2] == eb[2]);
            assert(b.subrange(p, p + eb.len() as int)[3] == eb[3]);
        }
        assert(b[p + 4] == eb[4] && b[p + 5] == eb[5] && b[p + 6] == eb[6] && b[p + 7] == eb[7]) by {
            assert(b.subrange(p, p + eb.len() as int)[4] == eb[4]);
            assert(b.subrange(p, p + eb.len() as int)[5] == eb[5]);
            assert(b.subrange(p, p + eb.len() as int)[6] == eb[6]);
            assert(b.subrange(p, p + eb.len() as int)[7] == eb[7]);
        }
        assert(b[p + 8] == eb[8] && b[p + 9] == eb[9] && b[p + 10] == eb[10] && b[p + 11] == eb[11]) by {
            assert(b.subrange(p, p + eb.len() as int)[8] == eb[8]);
            assert(b.subrange(p, p + eb.len() as int)[9] == eb[9]);
            assert(b.subrange(p, p + eb.len() as int)[10] == eb[10]);
            assert(b.subrange(p, p + eb.len() as int)[11] == eb[11]);
        }
        assert(be_u64_at(eb, 0) == be_u64_at(u64_be_bytes(e.0), 0));
        assert(be_u32_at(eb, 8) == be_u32_at(u32_be_bytes(e.1.len() as u32), 0));
        assert(be_u64_at(b, p) == e.0);
        assert(be_u32_at(b, p + 8) == e.1.len());
        assert(b.subrange(p + 12, p + 12 + e.1.len()) =~= e.1) by {
            assert(b.subrange(p + 12, p + 12 + e.1.len()) =~= b.subrange(p, p + eb.len() as int).subrange(12, eb.len() as int));
        }
        assert(es.take(j as int).push((be_u64_at(b, p) as u64, b.subrange(p + 12, p + 12 + e.1.len()))) =~= es.take(k as int));
    }
}

/// The bytes of the first `k` entries begin the bytes of all entries.
proof fn lemma_entries_bytes_prefix(es: Seq<(u64, Seq<u8>)>, k: nat)
    requires
        k <= es.len(),
    ensures
        entries_bytes(es.take(k as int)).len() <= entries_bytes(es).len(),
        entries_bytes(es.take(k as int)) == entries_bytes(es).subrange(0, entries_bytes(es.take(k as int)).len() as int),
    decreases es.len(),
{
    if k == es.len() {
        assert(es.take(k as int) =~= es);
    } else {
        let rs = es.drop_last();
        assert(rs.take(k as int) =~= es.take(k as int));
        lemma_entries_bytes_prefix(rs, k);
        let a = entries_bytes(es.take(k as int));
        assert(entries_bytes(es) == entries_bytes(rs) + entry_bytes(es.last()));
        assert(a =~= entries_bytes(es).subrange(0, a.len() as int));
    }
}

/// A log cut short anywhere (the crash came while it was being written) never
/// validates.
pub proof fn lemma_wal_truncated_rejected(es: Seq<(u64, Seq<u8>)>, m: int)
    requires
        entries_encodable(es),
        0 <= m < wal_file(es).len(),
    ensures
        spec_read_wal(wal_file(es).take(m)) is Err,
{
    let b = wal_file(es);
    let t = b.take(m);
    lemma_wal_roundtrip(es);
    if m >= 12 {
        assert(t.subrange(0, 8) =~= b.subrange(0, 8));
        assert(be_u32_at(t, 8) == be_u32_at(b, 8));
        let count = be_u32_at(b, 8) as nat;
        if parse_entries(t, 12, count) is Some {
            lemma_parse_entries_prefix(b, m, 12, count);
        }
    }
}

/// Reading entries from a prefix of the bytes gives what reading the whole
/// bytes gives, when it gives anything.
proof fn lemma_parse_entries_prefix(b: Seq<u8>, m: int, pos: int, k: nat)
    requires
        0 <= pos,
        0 <= m <= b.len(),
        parse_entries(b.take(m), pos, k) is Some,
    ensures
        parse_entries(b, pos, k) == parse_entries(b.take(m), pos, k),
        pos <= (parse_entries(b, pos, k)->0).1,
        k > 0 ==> (parse_entries(b, pos, k)->0).1 <= m,
    decreases k,
{
    let t = b.take(m);
    if k > 0 {
        let j = (k - 1) as nat;
        lemma_parse_entries_prefix(b, m, pos, j);
        let p = (parse_entries(t, pos, j)->0).1;
        assert(p + 12 <= m);
        assert(be_u32_at(t, p + 8) == be_u32_at(b, p + 8));
        assert(be_u64_at(t, p) == be_u64_at(b, p));
        let len = be_u32_at(b, p + 8);
        assert(t.subrange(p + 12, p + 12 + len) =~= b.subrange(p + 12, p + 12 + len));
    }
}

/// Recovery undoes a crashed run: a log that saved `regions` of the original
/// file validates and gives back those entries, and writing them back over the
/// file, whatever was made of those regions in the meantime, restores the
/// original bytes.
pub proof fn lemma_wal_recovery_restores(orig: Seq<u8>, regions: Seq<Region>, cur: Seq<u8>)
    requires
        regions_within(regions, orig.len() as int),
        entries_encodable(backup_entries(orig, regions)),
        cur.len() == orig.len(),
        forall|i: int| 0 <= i < orig.len() && !covered(regions, i) ==> cur[i] == orig[i],
    ensures
        spec_read_wal(wal_file(backup_entries(orig, regions))) == Ok::<Seq<(u64, Seq<u8>)>, WalFail>(
            backup_entries(orig, regions),
        ),
        apply_entries(cur, backup_entries(orig, regions)) == orig,
{
    lemma_wal_roundtrip(backup_entries(orig, regions));
    lemma_apply_backup(orig, regions, cur);
    assert(apply_entries(cur, backup_entries(orig, regions)) =~= orig);
}

} // verus!
