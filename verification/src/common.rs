//! Core domain model: regions, the on-disk footer, configuration and the
//! progress callback interface.

use vstd::prelude::*;
use crate::bytes::{be_u32_at, be_u64_at, lemma_be_bounds, lemma_u64_be_roundtrip, push_u64_be, read_u64_be, u32_be_bytes, u64_be_bytes};
use crate::error::AppError;

verus! {

broadcast use vstd::array::group_array_axioms;

// ============================================================================
// Region types
// ============================================================================

/// Kind of region to process.
#[derive(Debug, Clone, Copy, PartialEq, Eq, Structural)]
pub enum RegionKind {
    /// Video I-frame (keyframe).
    VideoIFrame,
    /// Audio sample.
    AudioSample,
    /// Metadata (title, GPS, ...).
    Metadata,
}

/// A region of the file to process.
#[derive(Debug, Clone, Copy)]
pub struct Region {
    /// Byte offset from the start of the file.
    pub offset: u64,
    /// Length of the region in bytes.
    pub len: usize,
    /// Type of content in this region.
    pub kind: RegionKind,
}

/// Whether every region lies inside a file of `len` bytes.
pub open spec fn regions_within(regions: Seq<Region>, len: int) -> bool {
    forall|i: int| 0 <= i < regions.len() ==> #[trigger] regions[i].offset + regions[i].len <= len
}

/// Whether byte `i` lies in one of `regions`.
pub open spec fn covered(regions: Seq<Region>, i: int) -> bool {
    exists|j: int| 0 <= j < regions.len() && regions[j].offset <= i < #[trigger] regions[j].offset + regions[j].len
}

// ============================================================================
// File footer (on-disk format)
// ============================================================================

/// Magic number of encrypted files: "RUST_ENC".
pub const FOOTER_MAGIC: [u8; 8] = [0x52u8, 0x55u8, 0x53u8, 0x54u8, 0x5fu8, 0x45u8, 0x4eu8, 0x43u8];

/// Current footer version.
pub const FOOTER_VERSION: u8 = 1;

/// Footer stored at the end of encrypted files.
///
/// Layout (73 bytes): magic (8) | version (1) | salt (16) | nonce (8) |
/// original length (8, big-endian) | checksum (32).
///
/// The checksum field holds the password check: the last 32 of the 64 bytes
/// that Argon2id derives from the password and the salt (the first 32 are
/// the AES key). Decryption compares it before touching the file and refuses
/// a wrong password. Footers whose checksum holds a sample of the file's
/// first 32 bytes instead, as older files of this format carry, fail that
/// comparison: such files are refused with `AuthenticationFailed`.
#[derive(Debug, Clone, Copy)]
pub struct FileFooter {
    /// Magic number: "RUST_ENC".
    pub magic: [u8; 8],
    /// Footer format version.
    pub version: u8,
    /// Salt used for key derivation.
    pub salt: [u8; 16],
    /// Nonce for AES-CTR.
    pub nonce: [u8; 8],
    /// Original file length before the footer was appended.
    pub original_len: u64,
    /// Password check derived with the key (see above).
    pub checksum: [u8; 32],
}

/// The 73 bytes that encode `f`.
pub open spec fn footer_bytes(f: FileFooter) -> Seq<u8> {
    f.magic@ + seq![f.version] + f.salt@ + f.nonce@ + u64_be_bytes(f.original_len) + f.checksum@
}

/// Whether `b` starts with the footer magic.
pub open spec fn footer_magic_ok(b: Seq<u8>) -> bool {
    b.len() >= 8 && b.subrange(0, 8) == FOOTER_MAGIC@
}

/// Copies `src[start..start+16]`.
fn take16(src: &[u8], start: usize) -> (r: [u8; 16])
    requires
        start + 16 <= src@.len(),
    ensures
        r@ == src@.subrange(start as int, start + 16),
{
    let n = src.len();
    let mut out = [0u8; 16];
    for i in 0..16
        invariant
            start + 16 <= src@.len(),
            n == src@.len(),
            out@.len() == 16,
            forall|j: int| 0 <= j < i ==> out@[j] == src@[start + j],
    {
        out[i] = src[start + i];
    }
    assert(out@ =~= src@.subrange(start as int, start + 16));
    out
}

/// Copies `src[start..start+32]`.
fn take32(src: &[u8], start: usize) -> (r: [u8; 32])
    requires
        start + 32 <= src@.len(),
    ensures
        r@ == src@.subrange(start as int, start + 32),
{
    let n = src.len();
    let mut out = [0u8; 32];
    for i in 0..32
        invariant
            start + 32 <= src@.len(),
            n == src@.len(),
            out@.len() == 32,
            forall|j: int| 0 <= j < i ==> out@[j] == src@[start + j],
    {
        out[i] = src[start + i];
    }
    assert(out@ =~= src@.subrange(start as int, start + 32));
    out
}

/// Copies `src[start..start+8]`.
fn take8(src: &[u8], start: usize) -> (r: [u8; 8])
    requires
        start + 8 <= src@.len(),
    ensures
        r@ == src@.subrange(start as int, start + 8),
{
    let r = [src[start], src[start + 1], src[start + 2], src[start + 3], src[start + 4],
        src[start + 5], src[start + 6], src[start + 7]];
    assert(r@ =~= src@.subrange(start as int, start + 8));
    r
}

impl FileFooter {
    /// Size of the footer in bytes.
    pub const SIZE: usize = 73;

    /// Creates a footer with the current magic and version.
    pub fn new(salt: [u8; 16], nonce: [u8; 8], original_len: u64, checksum: [u8; 32]) -> (f: Self)
        ensures
            f.magic == FOOTER_MAGIC,
            f.version == FOOTER_VERSION,
            f.salt == salt,
            f.nonce == nonce,
            f.original_len == original_len,
            f.checksum == checksum,
    {
        Self { magic: FOOTER_MAGIC, version: FOOTER_VERSION, salt, nonce, original_len, checksum }
    }

    /// Serialises the footer.
    pub fn to_bytes(&self) -> (r: [u8; 73])
        ensures
            r@ == footer_bytes(*self),
    {
        let mut v: Vec<u8> = Vec::new();
        let mut i: usize = 0;
        while i < 8
            invariant
                0 <= i <= 8,
                v@ == self.magic@.subrange(0, i as int),
            decreases 8 - i,
        {
            v.push(self.magic[i]);
            i = i + 1;
            assert(v@ =~= self.magic@.subrange(0, i as int));
        }
        v.push(self.version);
        let ghost prefix = v@;
        i = 0;
        while i < 16
            invariant
                0 <= i <= 16,
                v@ == prefix + self.salt@.subrange(0, i as int),
            decreases 16 - i,
        {
            v.push(self.salt[i]);
            i = i + 1;
            assert(v@ =~= prefix + self.salt@.subrange(0, i as int));
        }
        let ghost prefix = v@;
        i = 0;
        while i < 8
            invariant
                0 <= i <= 8,
                v@ == prefix + self.nonce@.subrange(0, i as int),
            decreases 8 - i,
        {
            v.push(self.nonce[i]);
            i = i + 1;
            assert(v@ =~= prefix + self.nonce@.subrange(0, i as int));
        }
        push_u64_be(&mut v, self.original_len);
        let ghost prefix = v@;
        i = 0;
        while i < 32
            invariant
                0 <= i <= 32,
                v@ == prefix + self.checksum@.subrange(0, i as int),
            decreases 32 - i,
        {
            v.push(self.checksum[i]);
            i = i + 1;
            assert(v@ =~= prefix + self.checksum@.subrange(0, i as int));
        }
        assert(self.magic@.subrange(0, 8) =~= self.magic@);
        assert(self.salt@.subrange(0, 16) =~= self.salt@);
        assert(self.nonce@.subrange(0, 8) =~= self.nonce@);
        assert(self.checksum@.subrange(0, 32) =~= self.checksum@);
        assert(v@ =~= footer_bytes(*self));
        let mut out = [0u8; 73];
        let mut j: usize = 0;
        while j < 73
            invariant
                0 <= j <= 73,
                v@.len() == 73,
                out@.len() == 73,
                forall|k: int| 0 <= k < j ==> out@[k] == v@[k],
            decreases 73 - j,
        {
            out[j] = v[j];
            j = j + 1;
        }
        assert(out@ =~= v@);
        out
    }

    /// Parses a footer from the first 73 bytes of `bytes`.
    pub fn from_bytes(bytes: &[u8]) -> (r: Result<Self, AppError>)
        ensures
            bytes@.len() < 73 ==> (r matches Err(AppError::InvalidStructure(m))
                && m@ == "Footer too short"@),
            bytes@.len() >= 73 && !footer_magic_ok(bytes@) ==> (r matches Err(
                AppError::NotEncrypted,
            )),
            bytes@.len() >= 73 && footer_magic_ok(bytes@) ==> (r matches Ok(f) && footer_bytes(f)
                == bytes@.subrange(0, 73)),
    {
        if bytes.len() < 73 {
            return Err(AppError::InvalidStructure(String::from_str("Footer too short")));
        }
        let magic = take8(bytes, 0);
        let mut same = true;
        let mut i: usize = 0;
        assert(magic@.subrange(0, 0) =~= FOOTER_MAGIC@.subrange(0, 0));
        while i < 8
            invariant
                0 <= i <= 8,
                magic@ == bytes@.subrange(0, 8),
                same == (magic@.subrange(0, i as int) == FOOTER_MAGIC@.subrange(0, i as int)),
            decreases 8 - i,
        {
            if magic[i] != FOOTER_MAGIC[i] {
                same = false;
            }
            proof {
                assert(magic@.subrange(0, i + 1) == magic@.subrange(0, i as int).push(magic@[i as int]));
                assert(FOOTER_MAGIC@.subrange(0, i + 1) == FOOTER_MAGIC@.subrange(0, i as int).push(
                    FOOTER_MAGIC@[i as int]));
                if magic@.subrange(0, i + 1) == FOOTER_MAGIC@.subrange(0, i + 1) {
                    assert(magic@.subrange(0, i + 1)[i as int] == FOOTER_MAGIC@.subrange(0, i + 1)[i as int]);
                    assert(magic@.subrange(0, i as int) =~= magic@.subrange(0, i + 1).subrange(0, i as int));
                    assert(FOOTER_MAGIC@.subrange(0, i as int) =~= FOOTER_MAGIC@.subrange(0, i + 1).subrange(0, i as int));
                }
            }
            i = i + 1;
        }
        assert(magic@.subrange(0, 8) =~= magic@);
        assert(FOOTER_MAGIC@.subrange(0, 8) =~= FOOTER_MAGIC@);
        if !same {
            return Err(AppError::NotEncrypted);
        }
        let version = bytes[8];
        let salt = take16(bytes, 9);
        let nonce = take8(bytes, 25);
        let original_len = read_u64_be(bytes, 33);
        let checksum = take32(bytes, 41);
        let f = FileFooter { magic, version, salt, nonce, original_len, checksum };
        proof {
            lemma_be_bounds(bytes@, 33);
            lemma_u64_be_bytes_of_read(bytes@, 33);
            assert(footer_bytes(f) =~= bytes@.subrange(0, 73));
        }
        Ok(f)
    }
}

/// The big-endian bytes of a `u64` read from `s[i..i+8]` are `s[i..i+8]`.
proof fn lemma_u64_be_bytes_of_read(s: Seq<u8>, i: int)
    requires
        0 <= i,
        i + 8 <= s.len(),
    ensures
        u64_be_bytes(be_u64_at(s, i) as u64) == s.subrange(i, i + 8),
{
    lemma_be_bounds(s, i);
    let v = be_u64_at(s, i) as u64;
    let hi = be_u32_at(s, i);
    let lo = be_u32_at(s, i + 4);
    assert(v / 0x1_0000_0000 == hi && v % 0x1_0000_0000 == lo) by (nonlinear_arith)
        requires
            v == hi * 0x1_0000_0000 + lo,
            0 <= lo <= u32::MAX,
            0 <= hi,
    ;
    lemma_u32_be_bytes_of_read(s, i);
    lemma_u32_be_bytes_of_read(s, i + 4);
    assert(u64_be_bytes(v) =~= s.subrange(i, i + 8));
}

proof fn lemma_u32_be_bytes_of_read(s: Seq<u8>, i: int)
    requires
        0 <= i,
        i + 4 <= s.len(),
    ensures
        0 <= be_u32_at(s, i) <= u32::MAX,
        u32_be_bytes(be_u32_at(s, i) as u32) == s.subrange(i, i + 4),
{
    let a = s[i] as int;
    let b = s[i + 1] as int;
    let c = s[i + 2] as int;
    let d = s[i + 3] as int;
    let v = be_u32_at(s, i);
    assert(v / 0x100_0000 == a && v / 0x1_0000 % 0x100 == b && v / 0x100 % 0x100 == c && v % 0x100
        == d && 0 <= v <= u32::MAX) by (nonlinear_arith)
        requires
            v == a * 0x100_0000 + b * 0x1_0000 + c * 0x100 + d,
            0 <= a < 256,
            0 <= b < 256,
            0 <= c < 256,
            0 <= d < 256,
    ;
    assert(u32_be_bytes(v as u32) =~= s.subrange(i, i + 4));
}

/// Serialising a footer and parsing the result gives the footer back: its
/// bytes are 73 long and carry the magic (so parsing accepts them), and the
/// only footer that serialises to them is the footer itself.
pub proof fn lemma_footer_roundtrip(f: FileFooter, g: FileFooter)
    requires
        f.magic == FOOTER_MAGIC,
    ensures
        footer_bytes(f).len() == 73,
        footer_magic_ok(footer_bytes(f)),
        footer_bytes(g) == footer_bytes(f).subrange(0, 73) ==> g == f,
{
    lemma_u64_be_roundtrip(f.original_len);
    lemma_u64_be_roundtrip(g.original_len);
    let bf = footer_bytes(f);
    assert(bf.subrange(0, 8) =~= f.magic@);
    assert(bf.subrange(0, 73) =~= bf);
    if footer_bytes(g) == bf {
        let bg = footer_bytes(g);
        assert(bg.subrange(0, 8) =~= g.magic@);
        assert(bg.subrange(9, 25) =~= g.salt@);
        assert(bf.subrange(9, 25) =~= f.salt@);
        assert(bg.subrange(25, 33) =~= g.nonce@);
        assert(bf.subrange(25, 33) =~= f.nonce@);
        assert(bg.subrange(33, 41) =~= u64_be_bytes(g.original_len));
        assert(bf.subrange(33, 41) =~= u64_be_bytes(f.original_len));
        assert(bg.subrange(41, 73) =~= g.checksum@);
        assert(bf.subrange(41, 73) =~= f.checksum@);
        assert(bg[8] == g.version);
        assert(bf[8] == f.version);
        assert(g.magic@ == f.magic@);
        assert(g.salt@ == f.salt@);
        assert(g.nonce@ == f.nonce@);
        assert(g.checksum@ == f.checksum@);
        assert(g.magic =~= f.magic);
        assert(g.salt =~= f.salt);
        assert(g.nonce =~= f.nonce);
        assert(g.checksum =~= f.checksum);
        assert(be_u64_at(u64_be_bytes(g.original_len), 0) == be_u64_at(u64_be_bytes(f.original_len), 0));
    }
}

// ============================================================================
// Configuration
// ============================================================================

/// Operation mode of a task.
#[derive(Debug, Clone, Copy, PartialEq, Eq, Structural)]
pub enum OperationMode {
    /// Encrypt the file.
    Encrypt,
    /// Decrypt the file.
    Decrypt,
    /// Recover from a crashed session.
    Recover,
}

impl OperationMode {
    /// The name under which the mode is stored in lock files.
    pub fn as_str(&self) -> (s: &'static str)
        ensures
            s@ == operation_mode_name(*self),
    {
        match self {
            OperationMode::Encrypt => "encrypt",
            OperationMode::Decrypt => "decrypt",
            OperationMode::Recover => "recover",
        }
    }

    /// The mode stored in a lock file under `name`, if any.
    pub fn from_name(name: &str) -> (r: Option<OperationMode>)
        ensures
            r matches Some(m) ==> operation_mode_name(m) == name@,
            r is None ==> (forall|m: OperationMode| operation_mode_name(m) != name@),
    {
        let s = String::from_str(name);
        if s == String::from_str("encrypt") {
            Some(OperationMode::Encrypt)
        } else if s == String::from_str("decrypt") {
            Some(OperationMode::Decrypt)
        } else if s == String::from_str("recover") {
            Some(OperationMode::Recover)
        } else {
            None
        }
    }
}

/// Lock-file name of each mode.
pub open spec fn operation_mode_name(m: OperationMode) -> Seq<char> {
    match m {
        OperationMode::Encrypt => "encrypt"@,
        OperationMode::Decrypt => "decrypt"@,
        OperationMode::Recover => "recover"@,
    }
}

/// Configuration of an encryption/decryption task.
#[derive(Debug, Clone)]
pub struct EncryptionConfig {
    /// Password; if `None` the task fails with `InvalidPassword`.
    pub password: Option<String>,
    /// Whether to encrypt audio tracks.
    pub encrypt_audio: bool,
    /// Whether to scrub sensitive metadata.
    pub scrub_metadata: bool,
    /// Operation mode.
    pub operation: OperationMode,
    /// Skip the write-ahead log (faster, not crash-safe).
    pub no_wal: bool,
}

impl Default for EncryptionConfig {
    fn default() -> (c: Self)
        ensures
            c.password is None,
            !c.encrypt_audio,
            !c.scrub_metadata,
            c.operation == OperationMode::Encrypt,
            !c.no_wal,
    {
        EncryptionConfig {
            password: None,
            encrypt_audio: false,
            scrub_metadata: false,
            operation: OperationMode::Encrypt,
            no_wal: false,
        }
    }
}

// ============================================================================
// Progress handler
// ============================================================================

/// Callback interface for progress updates; implementations must be
/// thread-safe so that tasks can run in background threads.
pub trait ProgressHandler: Send + Sync {
    /// A task starts; `total_bytes` is the amount of work.
    fn on_start(&self, total_bytes: u64, message: &str);

    /// Incremental progress.
    fn on_progress(&self, delta_bytes: u64);

    /// The current phase changed.
    fn on_message(&self, message: &str);

    /// The task completed successfully.
    fn on_finish(&self);

    /// A non-fatal error occurred.
    fn on_error(&self, err: &AppError);
}

/// Progress handler that ignores every callback.
pub struct NoOpProgress;

impl ProgressHandler for NoOpProgress {
    fn on_start(&self, _total_bytes: u64, _message: &str) {
    }

    fn on_progress(&self, _delta_bytes: u64) {
    }

    fn on_message(&self, _message: &str) {
    }

    fn on_finish(&self) {
    }

    fn on_error(&self, _err: &AppError) {
    }
}

} // verus!
