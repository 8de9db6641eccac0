//! The encryption/decryption workflow.
//!
//! A task runs in two phases for crash safety: first the original bytes of
//! every region are saved to the write-ahead log (unless it is turned off),
//! then the regions are processed in place; finally the footer is appended
//! (encryption) or removed (decryption). The decisions of a run live here in
//! [`TaskFlow`], a state machine that is told what happened and answers what
//! to do next; the caller performs the file I/O.

use vstd::prelude::*;
use crate::bytes::{be_u64_at, lemma_u64_be_roundtrip, u64_be_bytes};
use crate::common::{covered, regions_within, EncryptionConfig, FileFooter, OperationMode, Region, RegionKind, FOOTER_MAGIC, FOOTER_VERSION, footer_magic_ok};
use crate::crypto::engine::{lemma_in_place_involution, lemma_in_place_order_free, lemma_in_place_outside, process_all_in_place, regions_total};
use crate::crypto::engine::CryptoEngine;
use crate::crypto::key_deriv::{derive_keys, key_material};
use crate::error::AppError;
use crate::io::locker::ProcessStage;
use crate::io::wal::{apply_entries, backup_entries, entries_encodable, lemma_wal_recovery_restores, needs_recovery, spec_read_wal, wal_file, WalFail};
use crate::parsers::mkv::{lemma_minimal_mkv_scans, minimal_mkv_file, minimal_mkv_region};
use crate::parsers::mp4::{lemma_minimal_mp4_scans, minimal_mp4_file, minimal_mp4_region};
use crate::parsers::{spec_collect, sort_regions_by_offset, stable_sorted_by_offset, ContainerFormat, ParseFail};

verus! {

broadcast use vstd::array::group_array_axioms;

// ============================================================================
// Statistics
// ============================================================================

/// `Duration::ZERO`.
#[verifier::external_body]
fn zero_duration() -> std::time::Duration {
    std::time::Duration::ZERO
}

/// Performance statistics of a task.
#[derive(Debug)]
pub struct TaskStats {
    /// Total file size in bytes.
    pub file_size: u64,
    /// Total bytes to encrypt/decrypt.
    pub data_size: u64,
    /// Number of I-frames found.
    pub iframe_count: usize,
    /// Number of audio samples found.
    pub audio_count: usize,
    /// Number of metadata regions found.
    pub metadata_count: usize,
    /// Time spent parsing the container.
    pub parse_time: std::time::Duration,
    /// Time spent on key derivation (Argon2).
    pub kdf_time: std::time::Duration,
    /// Time spent writing the write-ahead log.
    pub wal_time: std::time::Duration,
    /// Time spent on file reads and writes.
    pub io_time: std::time::Duration,
    /// Time spent encrypting/decrypting.
    pub crypto_time: std::time::Duration,
    /// Total elapsed time.
    pub total_time: std::time::Duration,
}

impl Clone for TaskStats {
    fn clone(&self) -> (s: Self)
        ensures
            s.file_size == self.file_size,
            s.data_size == self.data_size,
            s.iframe_count == self.iframe_count,
            s.audio_count == self.audio_count,
            s.metadata_count == self.metadata_count,
    {
        TaskStats {
            file_size: self.file_size,
            data_size: self.data_size,
            iframe_count: self.iframe_count,
            audio_count: self.audio_count,
            metadata_count: self.metadata_count,
            parse_time: self.parse_time,
            kdf_time: self.kdf_time,
            wal_time: self.wal_time,
            io_time: self.io_time,
            crypto_time: self.crypto_time,
            total_time: self.total_time,
        }
    }
}

impl Default for TaskStats {
    fn default() -> (s: Self)
        ensures
            s.file_size == 0,
            s.data_size == 0,
            s.iframe_count == 0,
            s.audio_count == 0,
            s.metadata_count == 0,
    {
        TaskStats {
            file_size: 0,
            data_size: 0,
            iframe_count: 0,
            audio_count: 0,
            metadata_count: 0,
            parse_time: zero_duration(),
            kdf_time: zero_duration(),
            wal_time: zero_duration(),
            io_time: zero_duration(),
            crypto_time: zero_duration(),
            total_time: zero_duration(),
        }
    }
}

/// Number of regions of kind `k` in `rs`.
pub open spec fn count_kind(rs: Seq<Region>, k: RegionKind) -> nat
    decreases rs.len(),
{
    if rs.len() == 0 {
        0
    } else {
        count_kind(rs.drop_last(), k) + if rs.last().kind == k { 1nat } else { 0nat }
    }
}

proof fn lemma_count_kind_le(rs: Seq<Region>, k: RegionKind)
    ensures
        count_kind(rs, k) <= rs.len(),
    decreases rs.len(),
{
    if rs.len() > 0 {
        lemma_count_kind_le(rs.drop_last(), k);
    }
}

/// Counts the I-frames, audio samples and metadata regions of `regions`.
pub fn count_region_kinds(regions: &[Region]) -> (r: (usize, usize, usize))
    ensures
        r.0 == count_kind(regions@, RegionKind::VideoIFrame),
        r.1 == count_kind(regions@, RegionKind::AudioSample),
        r.2 == count_kind(regions@, RegionKind::Metadata),
{
    let mut iframes: usize = 0;
    let mut audio: usize = 0;
    let mut metadata: usize = 0;
    let n = regions.len();
    let mut i: usize = 0;
    while i < n
        invariant
            n == regions@.len(),
            0 <= i <= n,
            iframes == count_kind(regions@.take(i as int), RegionKind::VideoIFrame),
            audio == count_kind(regions@.take(i as int), RegionKind::AudioSample),
            metadata == count_kind(regions@.take(i as int), RegionKind::Metadata),
        decreases n - i,
    {
        proof {
            assert(regions@.take(i + 1).drop_last() =~= regions@.take(i as int));
            lemma_count_kind_le(regions@.take(i as int), RegionKind::VideoIFrame);
            lemma_count_kind_le(regions@.take(i as int), RegionKind::AudioSample);
            lemma_count_kind_le(regions@.take(i as int), RegionKind::Metadata);
        }
        match regions[i].kind {
            RegionKind::VideoIFrame => iframes = iframes + 1,
            RegionKind::AudioSample => audio = audio + 1,
            RegionKind::Metadata => metadata = metadata + 1,
        }
        i = i + 1;
    }
    assert(regions@.take(n as int) =~= regions@);
    (iframes, audio, metadata)
}

/// Total length of `regions`, or `None` when it exceeds `u64::MAX`.
pub fn total_region_bytes(regions: &[Region]) -> (r: Option<u64>)
    ensures
        match r {
            Some(t) => t == regions_total(regions@),
            None => regions_total(regions@) > u64::MAX,
        },
{
    let n = regions.len();
    let mut total: u64 = 0;
    let mut i: usize = 0;
    while i < n
        invariant
            n == regions@.len(),
            0 <= i <= n,
            total == regions_total(regions@.take(i as int)),
        decreases n - i,
    {
        assert(regions@.take(i + 1).drop_last() =~= regions@.take(i as int));
        let len = regions[i].len as u64;
        if len > u64::MAX - total {
            proof {
                lemma_regions_total_grows(regions@, i + 1);
            }
            return None;
        }
        total = total + len;
        i = i + 1;
    }
    assert(regions@.take(n as int) =~= regions@);
    Some(total)
}

/// The total of a prefix never exceeds the total.
proof fn lemma_regions_total_grows(rs: Seq<Region>, k: int)
    requires
        0 <= k <= rs.len(),
    ensures
        regions_total(rs.take(k)) <= regions_total(rs),
    decreases rs.len(),
{
    if k < rs.len() {
        assert(rs.drop_last().take(k) =~= rs.take(k));
        lemma_regions_total_grows(rs.drop_last(), k);
    } else {
        assert(rs.take(k) =~= rs);
    }
}

// ============================================================================
// File state and footer
// ============================================================================

/// Whether a file whose last (up to 73) bytes are `tail` is encrypted: it is
/// long enough to hold a footer and the footer starts with the magic.
pub open spec fn spec_is_encrypted(tail: Seq<u8>) -> bool {
    tail.len() >= FileFooter::SIZE && footer_magic_ok(tail)
}

/// Detects whether a file is encrypted from its last bytes: `tail` holds the
/// last 73 bytes of the file, or the whole file when it is shorter.
pub fn detect_file_state(tail: &[u8]) -> (r: bool)
    ensures
        r == spec_is_encrypted(tail@),
{
    if tail.len() < FileFooter::SIZE {
        return false;
    }
    let mut i: usize = 0;
    while i < 8
        invariant
            0 <= i <= 8,
            tail@.len() >= 73,
            forall|j: int| 0 <= j < i ==> tail@[j] == FOOTER_MAGIC@[j],
        decreases 8 - i,
    {
        if tail[i] != FOOTER_MAGIC[i] {
            assert(tail@.subrange(0, 8)[i as int] != FOOTER_MAGIC@[i as int]);
            return false;
        }
        i = i + 1;
    }
    assert(tail@.subrange(0, 8) =~= FOOTER_MAGIC@);
    true
}

/// Checks that the operation suits the state of the file: a file is not
/// encrypted twice, and only an encrypted file is decrypted.
pub fn validate_state(is_encrypted: bool, operation: OperationMode) -> (r: Result<(), AppError>)
    ensures
        is_encrypted && operation == OperationMode::Encrypt ==> r matches Err(AppError::AlreadyEncrypted),
        !is_encrypted && operation == OperationMode::Decrypt ==> r matches Err(AppError::NotEncrypted),
        !(is_encrypted && operation == OperationMode::Encrypt) && !(!is_encrypted && operation
            == OperationMode::Decrypt) ==> r is Ok,
{
    match (is_encrypted, operation) {
        (true, OperationMode::Encrypt) => Err(AppError::AlreadyEncrypted),
        (false, OperationMode::Decrypt) => Err(AppError::NotEncrypted),
        _ => Ok(()),
    }
}

/// The part of the key material that checks a password: the MAC key, the
/// last 32 of the 64 bytes derived from the password and the salt. Its
/// footer copy lets decryption refuse a wrong password before it changes a
/// byte.
pub open spec fn password_check(password: Seq<u8>, salt: Seq<u8>) -> Seq<u8> {
    key_material(password, salt).subrange(32, 64)
}

/// The encryption key derived from the password and the salt.
pub open spec fn encryption_key(password: Seq<u8>, salt: Seq<u8>) -> Seq<u8> {
    key_material(password, salt).subrange(0, 32)
}

/// The footer appended to an encrypted file of `original_len` bytes: the
/// magic, the version, the salt, the nonce, the length and the password
/// check.
pub open spec fn spec_footer(salt: Seq<u8>, nonce: Seq<u8>, original_len: u64, check: Seq<u8>) -> Seq<u8> {
    FOOTER_MAGIC@ + seq![FOOTER_VERSION] + salt + nonce + u64_be_bytes(original_len) + check
}

/// The footer appended to an encrypted file of `original_len` bytes.
pub fn build_footer(salt: [u8; 16], nonce: [u8; 8], original_len: u64, check: [u8; 32]) -> (r: [u8; 73])
    ensures
        r@ == spec_footer(salt@, nonce@, original_len, check@),
{
    let footer = FileFooter::new(salt, nonce, original_len, check);
    footer.to_bytes()
}

/// Encryption marks the file and decryption can undo the mark: once the
/// footer is appended, the file's last bytes read as encrypted, they parse
/// as a footer that records the original length, and cutting the file to
/// that length gives back the bytes it had.
pub proof fn lemma_footer_marks_file(file: Seq<u8>, salt: Seq<u8>, nonce: Seq<u8>, check: Seq<u8>)
    requires
        salt.len() == 16,
        nonce.len() == 8,
        check.len() == 32,
        file.len() <= u64::MAX,
    ensures
        ({
            let marked = file + spec_footer(salt, nonce, file.len() as u64, check);
            let tail = marked.subrange(marked.len() - 73, marked.len() as int);
            &&& marked.len() == file.len() + 73
            &&& spec_is_encrypted(tail)
            &&& be_u64_at(tail, 33) == file.len()
            &&& marked.take(be_u64_at(tail, 33)) == file
        }),
{
    let f = spec_footer(salt, nonce, file.len() as u64, check);
    let marked = file + f;
    let tail = marked.subrange(marked.len() - 73, marked.len() as int);
    lemma_u64_be_roundtrip(file.len() as u64);
    assert(tail =~= f);
    assert(tail.subrange(0, 8) =~= FOOTER_MAGIC@);
    assert(tail.subrange(33, 41) =~= u64_be_bytes(file.len() as u64));
    assert(be_u64_at(tail, 33) == be_u64_at(u64_be_bytes(file.len() as u64), 0));
    assert(marked.take(file.len() as int) =~= file);
}

// ============================================================================
// Batching
// ============================================================================

/// The batches that `chunk_regions` makes of `rs`: regions are taken in
/// order, and a new batch starts when the next region would take the current
/// (non-empty) batch past `max` bytes.
pub open spec fn spec_chunks(rs: Seq<Region>, max: nat) -> Seq<Seq<Region>>
    decreases rs.len(),
{
    if rs.len() == 0 {
        Seq::empty()
    } else {
        let bs = spec_chunks(rs.drop_last(), max);
        let r = rs.last();
        if bs.len() == 0 {
            seq![seq![r]]
        } else if regions_total(bs.last()) + r.len > max {
            bs.push(seq![r])
        } else {
            bs.update(bs.len() - 1, bs.last().push(r))
        }
    }
}

/// All batches, one after the other.
pub open spec fn flatten(bs: Seq<Seq<Region>>) -> Seq<Region>
    decreases bs.len(),
{
    if bs.len() == 0 {
        Seq::empty()
    } else {
        flatten(bs.drop_last()) + bs.last()
    }
}

/// Splits `regions` into batches of about `max_batch_size` bytes, in order,
/// never splitting a region.
pub fn chunk_regions(regions: Vec<Region>, max_batch_size: usize) -> (batches: Vec<Vec<Region>>)
    ensures
        batches@.len() == spec_chunks(regions@, max_batch_size as nat).len(),
        forall|i: int| 0 <= i < batches@.len() ==> #[trigger] batches@[i]@ == spec_chunks(regions@, max_batch_size as nat)[i],
{
    let mut batches: Vec<Vec<Region>> = Vec::new();
    let mut current: Vec<Region> = Vec::new();
    let mut current_size: usize = 0;
    let n = regions.len();
    let ghost max = max_batch_size as nat;
    let mut i: usize = 0;
    while i < n
        invariant
            n == regions@.len(),
            max == max_batch_size as nat,
            0 <= i <= n,
            current_size == regions_total(current@),
            chunk_state(spec_chunks(regions@.take(i as int), max), batches@, current@),
            current@.len() == 0 ==> i == 0,
            current@.len() > 1 ==> current_size <= max_batch_size,
        decreases n - i,
    {
        let region = regions[i];
        let ghost prev = spec_chunks(regions@.take(i as int), max);
        let ghost batches0 = batches@;
        let ghost cur0 = current@;
        proof {
            assert(regions@.take(i + 1).drop_last() =~= regions@.take(i as int));
            assert(regions@.take(i + 1).last() == region);
        }
        let over = region.len > max_batch_size || current_size > max_batch_size - region.len;
        assert(over == (regions_total(cur0) + region.len > max));
        if over && current.len() > 0 {
            batches.push(current);
            current = Vec::new();
            current_size = 0;
        }
        let ghost before = current@;
        current.push(region);
        proof {
            assert(current@.drop_last() =~= before);
            assert(current@.last() == region);
            assert(regions_total(current@) == regions_total(before) + region.len);
            let bs = spec_chunks(regions@.take(i + 1), max);
            if cur0.len() == 0 {
                assert(prev.len() == 0);
                assert(bs == seq![seq![region]]);
                assert(current@ =~= seq![region]);
            } else if over {
                assert(bs == prev.push(seq![region]));
                assert(current@ =~= seq![region]);
                assert forall|j: int| 0 <= j < batches@.len() implies #[trigger] batches@[j]@ == bs[j] by {
                    if j < batches0.len() {
                        assert(batches@[j] == batches0[j]);
                    }
                }
            } else {
                assert(bs == prev.update(prev.len() - 1, prev.last().push(region)));
                assert forall|j: int| 0 <= j < batches@.len() implies #[trigger] batches@[j]@ == bs[j] by {
                    assert(bs[j] == prev[j]);
                }
            }
        }
        current_size = current_size + region.len;
        i = i + 1;
    }
    if current.len() > 0 {
        batches.push(current);
    }
    assert(regions@.take(n as int) =~= regions@);
    batches
}

/// How the batches closed so far and the open one stand for the batches of
/// the regions seen so far.
pub open spec fn chunk_state(bs: Seq<Seq<Region>>, closed: Seq<Vec<Region>>, open: Seq<Region>) -> bool {
    if open.len() == 0 {
        &&& closed.len() == 0
        &&& bs.len() == 0
    } else {
        &&& bs.len() == closed.len() + 1
        &&& forall|j: int| 0 <= j < closed.len() ==> #[trigger] closed[j]@ == bs[j]
        &&& bs.last() == open
    }
}

/// Batching keeps every region, in order, and puts each in exactly one batch.
pub proof fn lemma_chunks_flatten(rs: Seq<Region>, max: nat)
    ensures
        flatten(spec_chunks(rs, max)) == rs,
        forall|i: int| 0 <= i < spec_chunks(rs, max).len() ==> #[trigger] spec_chunks(rs, max)[i].len() > 0,
    decreases rs.len(),
{
    if rs.len() > 0 {
        let prev = spec_chunks(rs.drop_last(), max);
        lemma_chunks_flatten(rs.drop_last(), max);
        let r = rs.last();
        let bs = spec_chunks(rs, max);
        assert(rs.drop_last().push(r) =~= rs);
        if prev.len() == 0 {
            assert(flatten(prev) == rs.drop_last());
            assert(bs == seq![seq![r]]);
            assert(bs.drop_last() =~= Seq::<Seq<Region>>::empty());
            assert(flatten(bs) == flatten(bs.drop_last()) + bs.last());
            assert(flatten(bs) =~= rs);
        } else if regions_total(prev.last()) + r.len > max {
            assert(bs == prev.push(seq![r]));
            assert(bs.drop_last() =~= prev);
            assert(flatten(bs) == flatten(bs.drop_last()) + bs.last());
            assert(flatten(bs) =~= rs);
        } else {
            let last = prev.last().push(r);
            assert(bs == prev.update(prev.len() - 1, last));
            assert(bs.drop_last() =~= prev.drop_last());
            assert(flatten(bs) == flatten(bs.drop_last()) + bs.last());
            assert(flatten(prev) == flatten(prev.drop_last()) + prev.last());
            assert(flatten(bs) =~= rs);
            assert forall|i: int| 0 <= i < bs.len() implies #[trigger] bs[i].len() > 0 by {
                if i < bs.len() - 1 {
                    assert(bs[i] == prev[i]);
                }
            }
        }
    }
}

/// A batch goes past the size limit only when it holds a single region.
pub proof fn lemma_chunks_within_limit(rs: Seq<Region>, max: nat)
    ensures
        forall|i: int| 0 <= i < spec_chunks(rs, max).len() ==> (regions_total(#[trigger] spec_chunks(rs, max)[i]) <= max
            || spec_chunks(rs, max)[i].len() == 1),
    decreases rs.len(),
{
    if rs.len() > 0 {
        let prev = spec_chunks(rs.drop_last(), max);
        lemma_chunks_within_limit(rs.drop_last(), max);
        let r = rs.last();
        let bs = spec_chunks(rs, max);
        if prev.len() == 0 {
            assert(bs == seq![seq![r]]);
        } else if regions_total(prev.last()) + r.len > max {
            assert(bs == prev.push(seq![r]));
            assert forall|i: int| 0 <= i < bs.len() implies (regions_total(#[trigger] bs[i]) <= max || bs[i].len() == 1) by {
                if i < prev.len() {
                    assert(bs[i] == prev[i]);
                }
            }
        } else {
            let last = prev.last().push(r);
            assert(bs == prev.update(prev.len() - 1, last));
            assert(last.drop_last() =~= prev.last());
            assert(regions_total(last) == regions_total(prev.last()) + r.len);
            assert forall|i: int| 0 <= i < bs.len() implies (regions_total(#[trigger] bs[i]) <= max || bs[i].len() == 1) by {
                if i < prev.len() - 1 {
                    assert(bs[i] == prev[i]);
                }
            }
        }
    }
}

/// Each batch but the last is closed only because the next region would have
/// taken it past the size limit.
#[verifier::rlimit(40)]
pub proof fn lemma_chunks_greedy(rs: Seq<Region>, max: nat)
    ensures
        forall|i: int| 0 <= i < spec_chunks(rs, max).len() - 1 ==> regions_total(#[trigger] spec_chunks(rs, max)[i])
            + spec_chunks(rs, max)[i + 1][0].len > max,
    decreases rs.len(),
{
    if rs.len() > 0 {
        let prev = spec_chunks(rs.drop_last(), max);
        lemma_chunks_greedy(rs.drop_last(), max);
        lemma_chunks_flatten(rs.drop_last(), max);
        let r = rs.last();
        let bs = spec_chunks(rs, max);
        if prev.len() == 0 {
            assert(bs == seq![seq![r]]);
        } else if regions_total(prev.last()) + r.len > max {
            assert(bs == prev.push(seq![r]));
            assert forall|i: int| 0 <= i < bs.len() - 1 implies regions_total(#[trigger] bs[i]) + bs[i + 1][0].len > max by {
                assert(bs[i] == prev[i]);
                if i + 1 < prev.len() {
                    assert(bs[i + 1] == prev[i + 1]);
                } else {
                    assert(bs[i + 1] == seq![r]);
                }
            }
        } else {
            let last = prev.last().push(r);
            assert(bs == prev.update(prev.len() - 1, last));
            assert forall|i: int| 0 <= i < bs.len() - 1 implies regions_total(#[trigger] bs[i]) + bs[i + 1][0].len > max by {
                assert(bs[i] == prev[i]);
                if i + 1 < prev.len() - 1 {
                    assert(bs[i + 1] == prev[i + 1]);
                } else {
                    assert(prev[i + 1].len() > 0);
                    assert(bs[i + 1][0] == prev[i + 1][0]);
                }
            }
        }
    }
}

// ============================================================================
// Pieces of a region for the in-place loop
// ============================================================================

/// One piece of the in-place loop: `len` bytes of the file at `offset`, read
/// into the buffer, processed and written back.
#[derive(Debug, Clone, Copy)]
pub struct FileSpan {
    /// File offset of the first byte.
    pub offset: u64,
    /// Number of bytes.
    pub len: usize,
}

/// Whether file offset `p` lies in `s`.
pub open spec fn span_has(s: FileSpan, p: int) -> bool {
    s.offset <= p < s.offset + s.len
}

/// `spans` cut the `len` bytes at `offset` into pieces one after the other,
/// each of `max` bytes but the last, which holds the rest (and is not empty).
pub open spec fn tiles(spans: Seq<FileSpan>, offset: int, len: int, max: int) -> bool {
    &&& (spans.len() == 0 <==> len == 0)
    &&& spans.len() > 0 ==> spans[0].offset == offset
    &&& spans.len() > 0 ==> spans.last().offset + spans.last().len == offset + len
    &&& forall|i: int| 0 <= i < spans.len() ==> 0 < #[trigger] spans[i].len <= max
    &&& forall|i: int| 0 <= i < spans.len() - 1 ==> #[trigger] spans[i].len == max
    &&& forall|i: int| 0 <= i < spans.len() - 1 ==> spans[i + 1].offset == #[trigger] spans[i].offset + spans[i].len
}

/// The pieces, of at most `max` bytes, in which the `len` bytes at file
/// offset `offset` are read, processed and written back.
pub fn region_spans(offset: u64, len: usize, max: usize) -> (v: Vec<FileSpan>)
    requires
        max > 0,
        offset + len <= u64::MAX,
    ensures
        tiles(v@, offset as int, len as int, max as int),
{
    let mut v: Vec<FileSpan> = Vec::new();
    let mut done: usize = 0;
    while done < len
        invariant
            done <= len,
            max > 0,
            offset + len <= u64::MAX,
            v@.len() == 0 <==> done == 0,
            v@.len() > 0 ==> v@[0].offset == offset,
            v@.len() > 0 ==> v@.last().offset + v@.last().len == offset + done,
            v@.len() > 0 && done < len ==> v@.last().len == max,
            forall|i: int| 0 <= i < v@.len() ==> 0 < #[trigger] v@[i].len <= max,
            forall|i: int| 0 <= i < v@.len() - 1 ==> #[trigger] v@[i].len == max,
            forall|i: int| 0 <= i < v@.len() - 1 ==> v@[i + 1].offset == #[trigger] v@[i].offset + v@[i].len,
        decreases len - done,
    {
        let remaining = len - done;
        let n = if remaining < max { remaining } else { max };
        let ghost before = v@;
        v.push(FileSpan { offset: offset + done as u64, len: n });
        proof {
            assert forall|i: int| 0 <= i < v@.len() - 1 implies #[trigger] v@[i].len == max by {
                assert(v@[i] == before[i]);
            }
            assert forall|i: int| 0 <= i < v@.len() - 1 implies v@[i + 1].offset == #[trigger] v@[i].offset + v@[i].len by {
                assert(v@[i] == before[i]);
                if i + 1 < before.len() {
                    assert(v@[i + 1] == before[i + 1]);
                }
            }
        }
        done = done + n;
    }
    v
}

/// Pieces that tile a range come in order: each ends where a later one may
/// start, at the earliest.
proof fn lemma_spans_ordered(spans: Seq<FileSpan>, offset: int, len: int, max: int, i: int, j: int)
    requires
        tiles(spans, offset, len, max),
        0 <= i < j < spans.len(),
    ensures
        spans[i].offset + spans[i].len <= spans[j].offset,
    decreases j - i,
{
    if j > i + 1 {
        lemma_spans_ordered(spans, offset, len, max, i, j - 1);
        assert(spans[j].offset == spans[j - 1].offset + spans[j - 1].len);
        assert(0 < spans[j - 1].len);
    } else {
        assert(spans[i + 1].offset == spans[i].offset + spans[i].len);
    }
}

/// Every byte before the end of piece `k` lies in one of the pieces up to `k`.
proof fn lemma_spans_cover_prefix(spans: Seq<FileSpan>, offset: int, len: int, max: int, k: int, p: int)
    requires
        tiles(spans, offset, len, max),
        0 <= k < spans.len(),
        offset <= p < spans[k].offset + spans[k].len,
    ensures
        exists|i: int| 0 <= i <= k && #[trigger] span_has(spans[i], p),
    decreases k,
{
    if p >= spans[k].offset {
        assert(span_has(spans[k], p));
    } else {
        assert(k > 0);
        assert(spans[k].offset == spans[k - 1].offset + spans[k - 1].len);
        lemma_spans_cover_prefix(spans, offset, len, max, k - 1, p);
        let i = choose|i: int| 0 <= i <= k - 1 && #[trigger] span_has(spans[i], p);
        assert(0 <= i <= k && span_has(spans[i], p));
    }
}

/// The pieces of a region cover each of its bytes exactly once, and no byte
/// outside it.
pub proof fn lemma_spans_cover_once(spans: Seq<FileSpan>, offset: int, len: int, max: int, p: int)
    requires
        tiles(spans, offset, len, max),
    ensures
        offset <= p < offset + len ==> exists|i: int| 0 <= i < spans.len() && #[trigger] span_has(spans[i], p),
        forall|i: int, j: int|
            0 <= i < j < spans.len() ==> !(#[trigger] span_has(spans[i], p) && #[trigger] span_has(spans[j], p)),
        !(offset <= p < offset + len) ==> forall|i: int| 0 <= i < spans.len() ==> !#[trigger] span_has(spans[i], p),
{
    if offset <= p < offset + len {
        lemma_spans_cover_prefix(spans, offset, len, max, spans.len() - 1, p);
    }
    assert forall|i: int, j: int| 0 <= i < j < spans.len() implies !(#[trigger] span_has(spans[i], p)
        && #[trigger] span_has(spans[j], p)) by {
        lemma_spans_ordered(spans, offset, len, max, i, j);
    }
    assert forall|i: int| 0 <= i < spans.len() implies spans[0].offset <= spans[i].offset && spans[i].offset
        + spans[i].len <= spans.last().offset + spans.last().len by {
        if i > 0 {
            lemma_spans_ordered(spans, offset, len, max, 0, i);
        }
        if i < spans.len() - 1 {
            lemma_spans_ordered(spans, offset, len, max, i, spans.len() - 1);
        }
    }
}

// ============================================================================
// The run as a state machine
// ============================================================================

/// Where a run stands: what the flow waits to be told next.
#[derive(Debug, Clone, Copy, PartialEq, Eq, Structural)]
pub enum TaskStep {
    /// The lock is held; waiting for what was found of a log left by an
    /// earlier session.
    Locked,
    /// Waiting for the last bytes of the file.
    FileOpened,
    /// Waiting for the regions the parser found.
    Analyzing,
    /// Waiting for the salt and nonce of the key.
    KeySetup,
    /// Waiting for the write-ahead log to be complete.
    Backup,
    /// Waiting for the regions to be processed in place.
    Processing,
    /// Waiting for the footer to be appended or removed.
    Finalizing,
    /// The run ended successfully.
    Done,
    /// The run was refused.
    Failed,
}

/// What the caller reports to the flow.
pub enum TaskEvent {
    /// The lock was taken; `wal_len` is the size of the log found next to
    /// the file, if there is one.
    LockTaken { wal_len: Option<u64> },
    /// The last (up to 73) bytes of the file were read.
    TailRead { tail: Vec<u8> },
    /// The parser found these regions.
    RegionsFound { regions: Vec<Region> },
    /// The salt and nonce of the key: fresh ones (encryption), or those of
    /// the footer together with its password check (decryption).
    KeyInputs { salt: [u8; 16], nonce: [u8; 8], stored_check: Option<[u8; 32]> },
    /// The write-ahead log is complete and synced.
    BackupWritten,
    /// Every region was processed in place and the file synced.
    RegionsProcessed,
    /// The footer was appended or removed.
    FooterUpdated,
}

/// What the flow asks the caller to do next.
pub enum TaskAction {
    /// Replay the log (or discard it when it does not validate), release the
    /// lock and report the end of the run.
    Recover,
    /// Open the file and read its last (up to 73) bytes.
    ReadTail,
    /// Parse the file for the regions to process.
    Parse,
    /// There is nothing to do: release the lock and report the end.
    FinishEmpty,
    /// Report the start of the work (`total_bytes` to process), then supply
    /// the salt and nonce: those of the footer with its password check when
    /// `from_footer` (decryption), else fresh ones.
    SetupKey { from_footer: bool, total_bytes: u64 },
    /// Write the log: save the original bytes of these regions, in this
    /// order, then sync it.
    WriteBackup { regions: Vec<Region> },
    /// Record the `Processing` stage in the lock file, then process these
    /// regions in place with `engine`, in this order (by offset), reporting
    /// each region's length as progress, then sync the file.
    ProcessRegions { regions: Vec<Region>, engine: CryptoEngine },
    /// Record the `Finalizing` stage in the lock file, then append the footer
    /// made of `salt`, `nonce` and `check` when `append` (encryption), else
    /// remove the footer (decryption).
    UpdateFooter { append: bool, salt: [u8; 16], nonce: [u8; 8], check: [u8; 32] },
    /// Delete the log when `remove_wal`, release the lock and report the end.
    Release { remove_wal: bool },
    /// Release the lock (a log, if any, stays) and end the run with `error`.
    Stop { error: AppError },
}

/// Whether the action ends the run with the lock released.
pub open spec fn releases_lock(a: TaskAction) -> bool {
    a is Recover || a is FinishEmpty || a is Release || a is Stop
}

/// Whether `e` is what a flow at `step` waits for.
pub open spec fn event_expected(step: TaskStep, e: TaskEvent) -> bool {
    match e {
        TaskEvent::LockTaken { .. } => step == TaskStep::Locked,
        TaskEvent::TailRead { .. } => step == TaskStep::FileOpened,
        TaskEvent::RegionsFound { .. } => step == TaskStep::Analyzing,
        TaskEvent::KeyInputs { .. } => step == TaskStep::KeySetup,
        TaskEvent::BackupWritten => step == TaskStep::Backup,
        TaskEvent::RegionsProcessed => step == TaskStep::Processing,
        TaskEvent::FooterUpdated => step == TaskStep::Finalizing,
    }
}

/// Whether a log of this size (if any) left by an earlier session calls for
/// recovery.
pub open spec fn spec_recovery_needed(wal_len: Option<u64>) -> bool {
    wal_len matches Some(l) && l > 16
}

/// Whether the step lies between taking the lock and the end of the work.
pub open spec fn working(step: TaskStep) -> bool {
    step == TaskStep::FileOpened || step == TaskStep::Analyzing || step == TaskStep::KeySetup || step
        == TaskStep::Backup || step == TaskStep::Processing || step == TaskStep::Finalizing
}

/// Whether the key is set up (the steps after `KeySetup` up to the footer).
pub open spec fn keyed(step: TaskStep) -> bool {
    step == TaskStep::Backup || step == TaskStep::Processing || step == TaskStep::Finalizing
}

/// Whether `a` is `b` sorted stably by offset: the same regions, reordered.
pub open spec fn sorted_version(a: Seq<Region>, b: Seq<Region>) -> bool {
    stable_sorted_by_offset(a, b) && b.to_multiset() == a.to_multiset()
}

/// The regions the parser found, with their tallies.
struct Found {
    regions: Vec<Region>,
    iframe_count: usize,
    audio_count: usize,
    metadata_count: usize,
    data_size: u64,
}

/// Whether the tallies are those of the regions.
spec fn found_wf(f: Found) -> bool {
    &&& f.iframe_count == count_kind(f.regions@, RegionKind::VideoIFrame)
    &&& f.audio_count == count_kind(f.regions@, RegionKind::AudioSample)
    &&& f.metadata_count == count_kind(f.regions@, RegionKind::Metadata)
    &&& f.data_size == regions_total(f.regions@)
}

/// The decisions of one run of a task.
pub struct TaskFlow {
    operation: OperationMode,
    password: Option<String>,
    use_wal: bool,
    scrub_metadata: bool,
    step: TaskStep,
    found: Found,
    salt: [u8; 16],
    nonce: [u8; 8],
    key: [u8; 32],
    check: [u8; 32],
}

impl TaskFlow {
    pub closed spec fn spec_step(&self) -> TaskStep {
        self.step
    }

    pub closed spec fn spec_operation(&self) -> OperationMode {
        self.operation
    }

    /// The password, as characters.
    pub closed spec fn spec_password(&self) -> Option<Seq<char>> {
        match self.password {
            Some(p) => Some(p@),
            None => None,
        }
    }

    /// The bytes of the password (UTF-8).
    pub open spec fn spec_password_bytes(&self) -> Seq<u8> {
        vstd::utf8::encode_utf8(self.spec_password()->0)
    }

    pub closed spec fn spec_use_wal(&self) -> bool {
        self.use_wal
    }

    pub closed spec fn spec_scrub_metadata(&self) -> bool {
        self.scrub_metadata
    }

    /// The regions found by the parser (empty before).
    pub closed spec fn spec_regions(&self) -> Seq<Region> {
        self.found.regions@
    }

    /// The salt, nonce, encryption key and password check of the run (once
    /// the key is set up).
    pub closed spec fn spec_salt(&self) -> Seq<u8> {
        self.salt@
    }

    pub closed spec fn spec_nonce(&self) -> Seq<u8> {
        self.nonce@
    }

    pub closed spec fn spec_key(&self) -> Seq<u8> {
        self.key@
    }

    pub closed spec fn spec_check(&self) -> Seq<u8> {
        self.check@
    }

    /// The flow's invariant: a recovery run never gets to the key, the backup
    /// step is reached only with the log on, a run at work has a password,
    /// and once the key is set up it is the one derived from the password and
    /// the salt.
    #[verifier::type_invariant]
    closed spec fn inv(&self) -> bool {
        &&& working(self.step) ==> self.password is Some
        &&& (self.step == TaskStep::KeySetup || keyed(self.step)) ==> self.operation != OperationMode::Recover
        &&& self.step == TaskStep::Backup ==> self.use_wal
        &&& keyed(self.step) ==> self.key@ == encryption_key(self.spec_password_bytes(), self.salt@)
            && self.check@ == password_check(self.spec_password_bytes(), self.salt@)
        &&& found_wf(self.found)
    }

    /// A new run of a task with this configuration, whose lock is about to
    /// be taken.
    pub fn new(config: &EncryptionConfig) -> (f: Self)
        ensures
            f.spec_step() == TaskStep::Locked,
            f.spec_operation() == config.operation,
            f.spec_password() == match config.password {
                Some(p) => Some(p@),
                None => None::<Seq<char>>,
            },
            f.spec_use_wal() == !config.no_wal,
            f.spec_scrub_metadata() == config.scrub_metadata,
            f.spec_regions() == Seq::<Region>::empty(),
    {
        let password = match &config.password {
            Some(p) => Some(p.clone()),
            None => None,
        };
        TaskFlow {
            operation: config.operation,
            password,
            use_wal: !config.no_wal,
            scrub_metadata: config.scrub_metadata,
            step: TaskStep::Locked,
            found: Found { regions: Vec::new(), iframe_count: 0, audio_count: 0, metadata_count: 0, data_size: 0 },
            salt: [0u8; 16],
            nonce: [0u8; 8],
            key: [0u8; 32],
            check: [0u8; 32],
        }
    }

    /// The step the run is at.
    pub fn step(&self) -> (s: TaskStep)
        ensures
            s == self.spec_step(),
    {
        self.step
    }

    /// Whether `next` may be told `event` now: it is what the run waits for,
    /// and regions found add up to at most `u64::MAX` bytes.
    pub fn accepts(&self, event: &TaskEvent) -> (b: bool)
        ensures
            b == (event_expected(self.spec_step(), *event) && (*event matches TaskEvent::RegionsFound { regions }
                ==> regions_total(regions@) <= u64::MAX)),
    {
        match event {
            TaskEvent::LockTaken { .. } => self.step == TaskStep::Locked,
            TaskEvent::TailRead { .. } => self.step == TaskStep::FileOpened,
            TaskEvent::RegionsFound { regions } => self.step == TaskStep::Analyzing && total_region_bytes(
                regions.as_slice(),
            ).is_some(),
            TaskEvent::KeyInputs { .. } => self.step == TaskStep::KeySetup,
            TaskEvent::BackupWritten => self.step == TaskStep::Backup,
            TaskEvent::RegionsProcessed => self.step == TaskStep::Processing,
            TaskEvent::FooterUpdated => self.step == TaskStep::Finalizing,
        }
    }

    /// Whether a region of this kind is scrubbed (filled with spaces) rather
    /// than encrypted or decrypted.
    pub fn scrubs(&self, kind: RegionKind) -> (r: bool)
        ensures
            r == (self.spec_scrub_metadata() && kind == RegionKind::Metadata),
    {
        self.scrub_metadata && kind == RegionKind::Metadata
    }

    /// The statistics the flow knows: the region counts and the number of
    /// bytes to process (sizes and times are the caller's to fill in).
    pub fn stats(&self) -> (s: TaskStats)
        ensures
            s.file_size == 0,
            s.data_size == regions_total(self.spec_regions()),
            s.iframe_count == count_kind(self.spec_regions(), RegionKind::VideoIFrame),
            s.audio_count == count_kind(self.spec_regions(), RegionKind::AudioSample),
            s.metadata_count == count_kind(self.spec_regions(), RegionKind::Metadata),
    {
        proof {
            use_type_invariant(self);
        }
        let mut s = TaskStats::default();
        s.data_size = self.found.data_size;
        s.iframe_count = self.found.iframe_count;
        s.audio_count = self.found.audio_count;
        s.metadata_count = self.found.metadata_count;
        s
    }

    /// Takes in what happened and answers what to do next.
    ///
    /// The order of the checks is that of a run: an earlier session's log
    /// (only recovery may proceed, and it stops there), the password, the
    /// state of the file, the regions found (recovery without a log has
    /// nothing to do once the file has been read and parsed), the key and
    /// (decryption) the password check, then the two
    /// phases (log, in-place processing) and the footer. A refusal releases
    /// the lock.
    pub fn next(&mut self, event: TaskEvent) -> (r: TaskAction)
        requires
            event_expected(old(self).spec_step(), event),
            event matches TaskEvent::RegionsFound { regions } ==> regions_total(regions@) <= u64::MAX,
        ensures
            final(self).spec_operation() == old(self).spec_operation(),
            final(self).spec_password() == old(self).spec_password(),
            final(self).spec_use_wal() == old(self).spec_use_wal(),
            final(self).spec_scrub_metadata() == old(self).spec_scrub_metadata(),
            !(event is RegionsFound) ==> final(self).spec_regions() == old(self).spec_regions(),
            match event {
                TaskEvent::LockTaken { wal_len } => {
                    if spec_recovery_needed(wal_len) && old(self).spec_operation() != OperationMode::Recover {
                        r matches TaskAction::Stop { error: AppError::PreviousSessionFailed }
                            && final(self).spec_step() == TaskStep::Failed
                    } else if spec_recovery_needed(wal_len) {
                        r is Recover && final(self).spec_step() == TaskStep::Done
                    } else if old(self).spec_password() is None {
                        r matches TaskAction::Stop { error: AppError::InvalidPassword } && final(self).spec_step()
                            == TaskStep::Failed
                    } else {
                        r is ReadTail && final(self).spec_step() == TaskStep::FileOpened
                    }
                },
                TaskEvent::TailRead { tail } => {
                    if spec_is_encrypted(tail@) && old(self).spec_operation() == OperationMode::Encrypt {
                        r matches TaskAction::Stop { error: AppError::AlreadyEncrypted } && final(self).spec_step()
                            == TaskStep::Failed
                    } else if !spec_is_encrypted(tail@) && old(self).spec_operation() == OperationMode::Decrypt {
                        r matches TaskAction::Stop { error: AppError::NotEncrypted } && final(self).spec_step()
                            == TaskStep::Failed
                    } else {
                        r is Parse && final(self).spec_step() == TaskStep::Analyzing
                    }
                },
                TaskEvent::RegionsFound { regions } => {
                    &&& final(self).spec_regions() == regions@
                    &&& if regions@.len() == 0 || old(self).spec_operation() == OperationMode::Recover {
                        r is FinishEmpty && final(self).spec_step() == TaskStep::Done
                    } else {
                        &&& r matches TaskAction::SetupKey { from_footer, total_bytes }
                        &&& from_footer == (old(self).spec_operation() == OperationMode::Decrypt)
                        &&& total_bytes == regions_total(regions@)
                        &&& final(self).spec_step() == TaskStep::KeySetup
                    }
                },
                TaskEvent::KeyInputs { salt, nonce, stored_check } => {
                    let pw = old(self).spec_password_bytes();
                    if pw.len() > u32::MAX {
                        r matches TaskAction::Stop { error: AppError::Crypto(_) } && final(self).spec_step()
                            == TaskStep::Failed
                    } else if old(self).spec_operation() == OperationMode::Decrypt && !(stored_check matches Some(
                        c,
                    ) && c@ == password_check(pw, salt@)) {
                        // a wrong password is refused before any byte changes
                        r matches TaskAction::Stop { error: AppError::AuthenticationFailed }
                            && final(self).spec_step() == TaskStep::Failed
                    } else {
                        &&& final(self).spec_salt() == salt@
                        &&& final(self).spec_nonce() == nonce@
                        &&& final(self).spec_key() == encryption_key(pw, salt@)
                        &&& final(self).spec_check() == password_check(pw, salt@)
                        &&& if old(self).spec_use_wal() {
                            &&& r matches TaskAction::WriteBackup { regions }
                            &&& regions@ == old(self).spec_regions()
                            &&& final(self).spec_step() == TaskStep::Backup
                        } else {
                            &&& r matches TaskAction::ProcessRegions { regions, engine }
                            &&& sorted_version(old(self).spec_regions(), regions@)
                            &&& regions_total(regions@) == regions_total(old(self).spec_regions())
                            &&& engine@ == (encryption_key(pw, salt@), nonce@)
                            &&& final(self).spec_step() == TaskStep::Processing
                        }
                    }
                },
                TaskEvent::BackupWritten => {
                    &&& r matches TaskAction::ProcessRegions { regions, engine }
                    &&& sorted_version(old(self).spec_regions(), regions@)
                    &&& regions_total(regions@) == regions_total(old(self).spec_regions())
                    &&& engine@ == (encryption_key(old(self).spec_password_bytes(), old(self).spec_salt()), old(
                        self,
                    ).spec_nonce())
                    &&& final(self).spec_step() == TaskStep::Processing
                },
                TaskEvent::RegionsProcessed => {
                    &&& r matches TaskAction::UpdateFooter { append, salt, nonce, check }
                    &&& append == (old(self).spec_operation() == OperationMode::Encrypt)
                    &&& salt@ == old(self).spec_salt()
                    &&& nonce@ == old(self).spec_nonce()
                    &&& check@ == password_check(old(self).spec_password_bytes(), old(self).spec_salt())
                    &&& final(self).spec_step() == TaskStep::Finalizing
                },
                TaskEvent::FooterUpdated => {
                    &&& r matches TaskAction::Release { remove_wal }
                    &&& remove_wal == old(self).spec_use_wal()
                    &&& final(self).spec_step() == TaskStep::Done
                },
            },
            // with the log on, no region is touched before the log is complete
            (r is ProcessRegions) && old(self).spec_use_wal() ==> old(self).spec_step() == TaskStep::Backup,
            // a run that ends, well or refused, releases its lock
            final(self).spec_step() == TaskStep::Done || final(self).spec_step() == TaskStep::Failed
                ==> releases_lock(r),
    {
        proof {
            use_type_invariant(&*self);
        }
        match event {
            TaskEvent::LockTaken { wal_len } => {
                let recovery = match wal_len {
                    Some(len) => needs_recovery(len),
                    None => false,
                };
                if recovery {
                    if self.operation != OperationMode::Recover {
                        self.step = TaskStep::Failed;
                        return TaskAction::Stop { error: AppError::PreviousSessionFailed };
                    }
                    self.step = TaskStep::Done;
                    return TaskAction::Recover;
                }
                if self.password.is_none() {
                    self.step = TaskStep::Failed;
                    return TaskAction::Stop { error: AppError::InvalidPassword };
                }
                self.step = TaskStep::FileOpened;
                TaskAction::ReadTail
            },
            TaskEvent::TailRead { tail } => {
                let is_encrypted = detect_file_state(tail.as_slice());
                match validate_state(is_encrypted, self.operation) {
                    Err(e) => {
                        self.step = TaskStep::Failed;
                        TaskAction::Stop { error: e }
                    },
                    Ok(()) => {
                        self.step = TaskStep::Analyzing;
                        TaskAction::Parse
                    },
                }
            },
            TaskEvent::RegionsFound { regions } => {
                let (iframes, audio, metadata) = count_region_kinds(regions.as_slice());
                let total = match total_region_bytes(regions.as_slice()) {
                    Some(t) => t,
                    None => 0,
                };
                let empty = regions.len() == 0;
                self.found = Found { regions, iframe_count: iframes, audio_count: audio, metadata_count: metadata, data_size: total };
                if empty || self.operation == OperationMode::Recover {
                    self.step = TaskStep::Done;
                    return TaskAction::FinishEmpty;
                }
                self.step = TaskStep::KeySetup;
                TaskAction::SetupKey { from_footer: self.operation == OperationMode::Decrypt, total_bytes: total }
            },
            TaskEvent::KeyInputs { salt, nonce, stored_check } => {
                let keys = match &self.password {
                    Some(p) => derive_keys(p.as_str(), &salt),
                    None => {
                        self.step = TaskStep::Failed;
                        return TaskAction::Stop { error: AppError::InvalidPassword };
                    },
                };
                let keys = match keys {
                    Ok(k) => k,
                    Err(e) => {
                        self.step = TaskStep::Failed;
                        return TaskAction::Stop { error: e };
                    },
                };
                proof {
                    assert(keys.enc_key@ =~= (keys.enc_key@ + keys.mac_key@).subrange(0, 32));
                    assert(keys.mac_key@ =~= (keys.enc_key@ + keys.mac_key@).subrange(32, 64));
                }
                if self.operation == OperationMode::Decrypt {
                    let ok = match &stored_check {
                        Some(c) => same_32(c, &keys.mac_key),
                        None => false,
                    };
                    if !ok {
                        self.step = TaskStep::Failed;
                        return TaskAction::Stop { error: AppError::AuthenticationFailed };
                    }
                }
                self.salt = salt;
                self.nonce = nonce;
                self.key = keys.enc_key;
                self.check = keys.mac_key;
                if self.use_wal {
                    self.step = TaskStep::Backup;
                    TaskAction::WriteBackup { regions: vstd::slice::slice_to_vec(self.found.regions.as_slice()) }
                } else {
                    self.step = TaskStep::Processing;
                    let regions = self.sorted_regions();
                    TaskAction::ProcessRegions { regions, engine: CryptoEngine::new(self.key, self.nonce) }
                }
            },
            TaskEvent::BackupWritten => {
                self.step = TaskStep::Processing;
                let regions = self.sorted_regions();
                TaskAction::ProcessRegions { regions, engine: CryptoEngine::new(self.key, self.nonce) }
            },
            TaskEvent::RegionsProcessed => {
                self.step = TaskStep::Finalizing;
                TaskAction::UpdateFooter {
                    append: self.operation == OperationMode::Encrypt,
                    salt: self.salt,
                    nonce: self.nonce,
                    check: self.check,
                }
            },
            TaskEvent::FooterUpdated => {
                self.step = TaskStep::Done;
                TaskAction::Release { remove_wal: self.use_wal }
            },
        }
    }

    /// The regions found, sorted by offset for sequential access.
    fn sorted_regions(&self) -> (r: Vec<Region>)
        ensures
            sorted_version(self.spec_regions(), r@),
            regions_total(r@) == regions_total(self.spec_regions()),
    {
        let mut v = vstd::slice::slice_to_vec(self.found.regions.as_slice());
        sort_regions_by_offset(&mut v);
        proof {
            lemma_regions_total_perm(self.found.regions@, v@);
        }
        v
    }

    /// The stage the lock file should record at this point of the run.
    pub fn lock_stage(&self) -> (s: ProcessStage)
        ensures
            s == match self.spec_step() {
                TaskStep::Processing => ProcessStage::Processing { current_offset: 0 },
                TaskStep::Finalizing | TaskStep::Done => ProcessStage::Finalizing,
                _ => ProcessStage::Initializing,
            },
    {
        match self.step {
            TaskStep::Processing => ProcessStage::Processing { current_offset: 0 },
            TaskStep::Finalizing | TaskStep::Done => ProcessStage::Finalizing,
            _ => ProcessStage::Initializing,
        }
    }
}

/// Whether two 32-byte values are equal.
fn same_32(a: &[u8; 32], b: &[u8; 32]) -> (r: bool)
    ensures
        r == (a@ == b@),
{
    let mut i: usize = 0;
    while i < 32
        invariant
            0 <= i <= 32,
            forall|j: int| 0 <= j < i ==> a@[j] == b@[j],
        decreases 32 - i,
    {
        if a[i] != b[i] {
            return false;
        }
        i = i + 1;
    }
    assert(a@ =~= b@);
    true
}

/// Removing a region takes its length off the total.
proof fn lemma_regions_total_remove(s: Seq<Region>, j: int)
    requires
        0 <= j < s.len(),
    ensures
        regions_total(s) == regions_total(s.remove(j)) + s[j].len,
    decreases s.len(),
{
    if j == s.len() - 1 {
        assert(s.remove(j) =~= s.drop_last());
    } else {
        lemma_regions_total_remove(s.drop_last(), j);
        assert(s.remove(j).drop_last() =~= s.drop_last().remove(j));
        assert(s.remove(j).last() == s.last());
    }
}

/// The same regions, in any order, have the same total length.
proof fn lemma_regions_total_perm(a: Seq<Region>, b: Seq<Region>)
    requires
        b.to_multiset() == a.to_multiset(),
    ensures
        regions_total(a) == regions_total(b),
    decreases a.len(),
{
    broadcast use vstd::seq_lib::group_to_multiset_ensures;
    if a.len() == 0 {
        assert(b.to_multiset().len() == 0);
        assert(b.len() == 0);
    } else {
        let x = a.last();
        let a2 = a.drop_last();
        assert(a2.push(x) =~= a);
        assert(a.to_multiset() =~= a2.to_multiset().insert(x));
        assert(a.to_multiset().count(x) > 0);
        assert(b.contains(x));
        let j = choose|j: int| 0 <= j < b.len() && b[j] == x;
        let b2 = b.remove(j);
        assert(b2.to_multiset() =~= b.to_multiset().remove(x));
        assert(a2.to_multiset() =~= a.to_multiset().remove(x));
        lemma_regions_total_perm(a2, b2);
        lemma_regions_total_remove(b, j);
    }
}

// ============================================================================
// Crash safety
// ============================================================================

/// Decryption gives back what encryption made: a file whose regions were
/// encrypted in place under the key derived from the password and a salt,
/// and which then got its footer, reads as encrypted; the same password
/// passes the footer's password check; and the key derived from it and the
/// salt recorded in the footer, with the recorded nonce, applied to the same
/// regions of the file cut back to the recorded length, restores the
/// original bytes.
pub proof fn lemma_encrypt_then_decrypt(
    password: Seq<u8>,
    salt: Seq<u8>,
    nonce: Seq<u8>,
    file: Seq<u8>,
    regions: Seq<Region>,
)
    requires
        salt.len() == 16,
        nonce.len() == 8,
        key_material(password, salt).len() == 64,
        file.len() <= u64::MAX,
        regions_within(regions, file.len() as int),
    ensures
        ({
            let enc = process_all_in_place(encryption_key(password, salt), nonce, file, regions, false)
                + spec_footer(salt, nonce, file.len() as u64, password_check(password, salt));
            let tail = enc.subrange(enc.len() - 73, enc.len() as int);
            &&& spec_is_encrypted(tail)
            &&& password_check(password, tail.subrange(9, 25)) == tail.subrange(41, 73)
            &&& process_all_in_place(
                encryption_key(password, tail.subrange(9, 25)),
                tail.subrange(25, 33),
                enc.take(be_u64_at(tail, 33)),
                regions,
                false,
            ) == file
        }),
{
    let key = encryption_key(password, salt);
    let check = password_check(password, salt);
    let processed = process_all_in_place(key, nonce, file, regions, false);
    lemma_in_place_outside(key, nonce, file, regions, false);
    lemma_footer_marks_file(processed, salt, nonce, check);
    let enc = processed + spec_footer(salt, nonce, file.len() as u64, check);
    let tail = enc.subrange(enc.len() - 73, enc.len() as int);
    assert(tail =~= spec_footer(salt, nonce, file.len() as u64, check));
    assert(tail.subrange(9, 25) =~= salt);
    assert(tail.subrange(25, 33) =~= nonce);
    assert(tail.subrange(41, 73) =~= check);
    lemma_in_place_involution(key, nonce, file, regions);
}

/// Whether what a scan of `file` finds depends neither on the bytes of the
/// regions it found nor on a footer appended: every file that agrees with
/// `file` outside those regions, followed by 73 bytes that begin with the
/// footer magic, scans alike. It holds of files whose structure lies
/// outside the regions it describes and whose top-level walks either stop
/// before the end of the file or end exactly there, where the footer then
/// stops them (`mkv::lemma_footer_ends_walks`,
/// `mp4::lemma_footer_ends_box_walk`); the minimal MKV and MP4 files meet it
/// (`lemma_minimal_mkv_rescan_stable`, `lemma_minimal_mp4_rescan_stable`).
#[verifier::opaque]
pub open spec fn rescan_stable(fmt: ContainerFormat, file: Seq<u8>, enc_audio: bool, regions: Seq<Region>) -> bool {
    forall|body: Seq<u8>, tail: Seq<u8>|
        #![trigger spec_collect(fmt, body + tail, enc_audio, false)]
        body.len() == file.len() && tail.len() == 73 && footer_magic_ok(tail) && (forall|p: int|
            0 <= p < file.len() && !covered(regions, p) ==> body[p] == file[p]) ==> spec_collect(
            fmt,
            body + tail,
            enc_audio,
            false,
        ) == spec_collect(fmt, file, enc_audio, false)
}

/// A scan of an encrypted file finds what the scan of the original found: on
/// files whose scan does not depend on the bytes of the regions found nor on
/// an appended footer, the file with those regions encrypted in place (in
/// any order) and a footer appended scans to the same regions.
pub proof fn lemma_rescan_finds_same_regions(
    fmt: ContainerFormat,
    enc_audio: bool,
    key: Seq<u8>,
    nonce: Seq<u8>,
    footer: Seq<u8>,
    file: Seq<u8>,
    found: Seq<Region>,
    regions: Seq<Region>,
)
    requires
        spec_collect(fmt, file, enc_audio, false) == Ok::<Seq<Region>, ParseFail>(found),
        regions_within(found, file.len() as int),
        rescan_stable(fmt, file, enc_audio, found),
        regions.to_multiset() == found.to_multiset(),
        footer.len() == 73,
        footer_magic_ok(footer),
    ensures
        spec_collect(fmt, process_all_in_place(key, nonce, file, regions, false) + footer, enc_audio, false)
            == Ok::<Seq<Region>, ParseFail>(found),
{
    reveal(rescan_stable);
    lemma_in_place_order_free(key, nonce, file, found, regions);
    lemma_in_place_outside(key, nonce, file, found, false);
    let processed = process_all_in_place(key, nonce, file, found, false);
    assert(processed.len() == file.len());
    assert forall|p: int| 0 <= p < file.len() && !covered(found, p) implies processed[p] == file[p] by {}
    assert(spec_collect(fmt, processed + footer, enc_audio, false) == spec_collect(fmt, file, enc_audio, false));
}

/// A whole run encrypts and a whole run decrypts back: on files whose scan
/// does not depend on the bytes of the regions found, encrypting the regions
/// the scan finds (in whatever order the run processes them) and appending
/// the footer gives a file that reads as encrypted, whose scan finds the same
/// regions, whose footer accepts the same password, and which decrypting
/// those regions (in whatever order) under the footer's salt and nonce, cut
/// back to the recorded length, turns back into the original file.
pub proof fn lemma_run_round_trip(
    fmt: ContainerFormat,
    enc_audio: bool,
    password: Seq<u8>,
    salt: Seq<u8>,
    nonce: Seq<u8>,
    file: Seq<u8>,
    found: Seq<Region>,
    enc_regions: Seq<Region>,
    dec_regions: Seq<Region>,
)
    requires
        spec_collect(fmt, file, enc_audio, false) == Ok::<Seq<Region>, ParseFail>(found),
        regions_within(found, file.len() as int),
        rescan_stable(fmt, file, enc_audio, found),
        enc_regions.to_multiset() == found.to_multiset(),
        dec_regions.to_multiset() == found.to_multiset(),
        salt.len() == 16,
        nonce.len() == 8,
        key_material(password, salt).len() == 64,
        file.len() <= u64::MAX,
    ensures
        ({
            let enc = process_all_in_place(encryption_key(password, salt), nonce, file, enc_regions, false)
                + spec_footer(salt, nonce, file.len() as u64, password_check(password, salt));
            let tail = enc.subrange(enc.len() - 73, enc.len() as int);
            &&& spec_collect(fmt, enc, enc_audio, false) == Ok::<Seq<Region>, ParseFail>(found)
            &&& spec_is_encrypted(tail)
            &&& password_check(password, tail.subrange(9, 25)) == tail.subrange(41, 73)
            &&& process_all_in_place(
                encryption_key(password, tail.subrange(9, 25)),
                tail.subrange(25, 33),
                enc.take(be_u64_at(tail, 33)),
                dec_regions,
                false,
            ) == file
        }),
{
    let key = encryption_key(password, salt);
    let check = password_check(password, salt);
    let footer = spec_footer(salt, nonce, file.len() as u64, check);
    let processed = process_all_in_place(key, nonce, file, found, false);
    assert(process_all_in_place(key, nonce, file, enc_regions, false) == processed) by {
        lemma_in_place_order_free(key, nonce, file, found, enc_regions);
    }
    let enc = processed + footer;
    assert(spec_collect(fmt, enc, enc_audio, false) == Ok::<Seq<Region>, ParseFail>(found)) by {
        assert(footer.subrange(0, 8) =~= FOOTER_MAGIC@);
        lemma_rescan_finds_same_regions(fmt, enc_audio, key, nonce, footer, file, found, found);
    }
    let tail = enc.subrange(enc.len() - 73, enc.len() as int);
    assert(spec_is_encrypted(tail) && password_check(password, tail.subrange(9, 25)) == tail.subrange(41, 73)
        && process_all_in_place(encryption_key(password, tail.subrange(9, 25)), tail.subrange(25, 33), enc.take(
        be_u64_at(tail, 33)), found, false) == file) by {
        lemma_encrypt_then_decrypt(password, salt, nonce, file, found);
    }
    assert(tail.subrange(9, 25) == salt && tail.subrange(25, 33) == nonce && enc.take(be_u64_at(tail, 33))
        == processed) by {
        lemma_in_place_outside(key, nonce, file, found, false);
        lemma_footer_marks_file(processed, salt, nonce, check);
        assert(tail =~= footer);
        assert(tail.subrange(9, 25) =~= salt);
        assert(tail.subrange(25, 33) =~= nonce);
    }
    assert(process_all_in_place(key, nonce, processed, found, false) == process_all_in_place(key, nonce, processed,
        dec_regions, false)) by {
        lemma_in_place_outside(key, nonce, file, found, false);
        lemma_in_place_order_free(key, nonce, processed, found, dec_regions);
    }
}

/// The minimal MKV file (a Segment with a video and an audio track and one
/// keyframe) meets the premise of the run laws: its scan finds its keyframe
/// region, inside the file, and every file that agrees with it outside that
/// region, followed by a footer, scans alike.
pub proof fn lemma_minimal_mkv_rescan_stable()
    ensures
        spec_collect(ContainerFormat::Mkv, minimal_mkv_file(), false, false) == Ok::<Seq<Region>, ParseFail>(
            seq![minimal_mkv_region()],
        ),
        regions_within(seq![minimal_mkv_region()], minimal_mkv_file().len() as int),
        rescan_stable(ContainerFormat::Mkv, minimal_mkv_file(), false, seq![minimal_mkv_region()]),
{
    reveal(rescan_stable);
    reveal(spec_collect);
    let f = minimal_mkv_file();
    let r = minimal_mkv_region();
    assert(f.len() == 58);
    let t = FOOTER_MAGIC@ + Seq::new(65, |i: int| 0u8);
    assert(FOOTER_MAGIC@.len() == 8);
    assert(t.subrange(0, 8) =~= FOOTER_MAGIC@);
    lemma_minimal_mkv_scans(f, t);
    assert forall|body: Seq<u8>, tail: Seq<u8>|
        #![trigger spec_collect(ContainerFormat::Mkv, body + tail, false, false)]
        body.len() == f.len() && tail.len() == 73 && footer_magic_ok(tail) && (forall|p: int|
            0 <= p < f.len() && !covered(seq![r], p) ==> body[p] == f[p]) implies spec_collect(
        ContainerFormat::Mkv,
        body + tail,
        false,
        false,
    ) == spec_collect(ContainerFormat::Mkv, f, false, false) by {
        assert forall|i: int| 0 <= i < 42 implies body[i] == f[i] by {
            if covered(seq![r], i) {
                let j = choose|j: int| 0 <= j < 1 && seq![r][j].offset <= i < #[trigger] seq![r][j].offset + seq![r][j].len;
                assert(seq![r][j] == r);
            }
        }
        lemma_minimal_mkv_scans(body, tail);
    }
}

/// Encrypting the minimal MKV file and decrypting it again gives it back,
/// whatever the password, salt and nonce: the encrypted file (its keyframe
/// encrypted in place, the footer appended) reads as encrypted, its scan
/// finds the same keyframe, its footer accepts the password, and decrypting
/// that keyframe under the footer's salt and nonce, cut back to the recorded
/// length, restores the file.
pub proof fn lemma_minimal_mkv_round_trip(password: Seq<u8>, salt: Seq<u8>, nonce: Seq<u8>)
    requires
        salt.len() == 16,
        nonce.len() == 8,
        key_material(password, salt).len() == 64,
    ensures
        ({
            let file = minimal_mkv_file();
            let regions = seq![minimal_mkv_region()];
            let enc = process_all_in_place(encryption_key(password, salt), nonce, file, regions, false)
                + spec_footer(salt, nonce, file.len() as u64, password_check(password, salt));
            let tail = enc.subrange(enc.len() - 73, enc.len() as int);
            &&& spec_collect(ContainerFormat::Mkv, enc, false, false) == Ok::<Seq<Region>, ParseFail>(regions)
            &&& spec_is_encrypted(tail)
            &&& password_check(password, tail.subrange(9, 25)) == tail.subrange(41, 73)
            &&& process_all_in_place(
                encryption_key(password, tail.subrange(9, 25)),
                tail.subrange(25, 33),
                enc.take(be_u64_at(tail, 33)),
                regions,
                false,
            ) == file
        }),
{
    let regions = seq![minimal_mkv_region()];
    lemma_minimal_mkv_rescan_stable();
    lemma_run_round_trip(
        ContainerFormat::Mkv,
        false,
        password,
        salt,
        nonce,
        minimal_mkv_file(),
        regions,
        regions,
        regions,
    );
}

/// The minimal MP4 file (one video track of one keyframe sample) meets the
/// premise of the run laws: its scan finds its keyframe region, inside the
/// file, and every file that agrees with it outside that region, followed by
/// a footer, scans alike.
pub proof fn lemma_minimal_mp4_rescan_stable()
    ensures
        spec_collect(ContainerFormat::Mp4, minimal_mp4_file(), false, false) == Ok::<Seq<Region>, ParseFail>(
            seq![minimal_mp4_region()],
        ),
        regions_within(seq![minimal_mp4_region()], minimal_mp4_file().len() as int),
        rescan_stable(ContainerFormat::Mp4, minimal_mp4_file(), false, seq![minimal_mp4_region()]),
{
    reveal(rescan_stable);
    reveal(spec_collect);
    let f = minimal_mp4_file();
    let r = minimal_mp4_region();
    assert(f.len() == 188);
    lemma_minimal_mp4_scans(f, Seq::new(73, |i: int| 0u8));
    assert forall|body: Seq<u8>, tail: Seq<u8>|
        #![trigger spec_collect(ContainerFormat::Mp4, body + tail, false, false)]
        body.len() == f.len() && tail.len() == 73 && footer_magic_ok(tail) && (forall|p: int|
            0 <= p < f.len() && !covered(seq![r], p) ==> body[p] == f[p]) implies spec_collect(
        ContainerFormat::Mp4,
        body + tail,
        false,
        false,
    ) == spec_collect(ContainerFormat::Mp4, f, false, false) by {
        assert forall|i: int| 0 <= i < 172 implies body[i] == f[i] by {
            if covered(seq![r], i) {
                let j = choose|j: int| 0 <= j < 1 && seq![r][j].offset <= i < #[trigger] seq![r][j].offset + seq![r][j].len;
                assert(seq![r][j] == r);
            }
        }
        lemma_minimal_mp4_scans(body, tail);
    }
}

/// Encrypting the minimal MP4 file and decrypting it again gives it back,
/// whatever the password, salt and nonce (as for the minimal MKV file).
#[verifier::spinoff_prover]
pub proof fn lemma_minimal_mp4_round_trip(password: Seq<u8>, salt: Seq<u8>, nonce: Seq<u8>)
    requires
        salt.len() == 16,
        nonce.len() == 8,
        key_material(password, salt).len() == 64,
    ensures
        ({
            let file = minimal_mp4_file();
            let regions = seq![minimal_mp4_region()];
            let enc = process_all_in_place(encryption_key(password, salt), nonce, file, regions, false)
                + spec_footer(salt, nonce, file.len() as u64, password_check(password, salt));
            let tail = enc.subrange(enc.len() - 73, enc.len() as int);
            &&& spec_collect(ContainerFormat::Mp4, enc, false, false) == Ok::<Seq<Region>, ParseFail>(regions)
            &&& spec_is_encrypted(tail)
            &&& password_check(password, tail.subrange(9, 25)) == tail.subrange(41, 73)
            &&& process_all_in_place(
                encryption_key(password, tail.subrange(9, 25)),
                tail.subrange(25, 33),
                enc.take(be_u64_at(tail, 33)),
                regions,
                false,
            ) == file
        }),
{
    let regions = seq![minimal_mp4_region()];
    assert(minimal_mp4_file().len() == 188);
    lemma_minimal_mp4_rescan_stable();
    lemma_run_round_trip(
        ContainerFormat::Mp4,
        false,
        password,
        salt,
        nonce,
        minimal_mp4_file(),
        regions,
        regions,
        regions,
    );
}

/// A crash in the middle of processing loses nothing: whichever regions were
/// processed in place when the run stopped (any first `k` of them, scrubbed
/// or not), the log written before them validates and writing its entries
/// back gives the original file.
pub proof fn lemma_crash_during_processing_recovers(
    key: Seq<u8>,
    nonce: Seq<u8>,
    orig: Seq<u8>,
    regions: Seq<Region>,
    k: int,
    scrub_metadata: bool,
)
    requires
        regions_within(regions, orig.len() as int),
        entries_encodable(backup_entries(orig, regions)),
        0 <= k <= regions.len(),
    ensures
        spec_read_wal(wal_file(backup_entries(orig, regions))) == Ok::<Seq<(u64, Seq<u8>)>, WalFail>(
            backup_entries(orig, regions),
        ),
        apply_entries(
            process_all_in_place(key, nonce, orig, regions.take(k), scrub_metadata),
            backup_entries(orig, regions),
        ) == orig,
{
    let done = regions.take(k);
    assert(regions_within(done, orig.len() as int)) by {
        assert forall|i: int| 0 <= i < done.len() implies #[trigger] done[i].offset + done[i].len <= orig.len() by {
            assert(done[i] == regions[i]);
        }
    }
    lemma_in_place_outside(key, nonce, orig, done, scrub_metadata);
    let cur = process_all_in_place(key, nonce, orig, done, scrub_metadata);
    assert forall|p: int| 0 <= p < orig.len() && !covered(regions, p) implies cur[p] == orig[p] by {
        if covered(done, p) {
            let j = choose|j: int| 0 <= j < done.len() && done[j].offset <= p < #[trigger] done[j].offset + done[j].len;
            assert(done[j] == regions[j]);
            assert(covered(regions, p));
        }
    }
    lemma_wal_recovery_restores(orig, regions, cur);
}

} // verus!
