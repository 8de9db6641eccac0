//! Media container parsers (MP4 and MKV) over the bytes of a file.

use vstd::prelude::*;
use crate::bytes::{be_u32_at, read_u32_be};
use crate::common::{regions_within, Region, RegionKind};
use crate::error::AppError;

pub mod mkv;
pub mod mp4;

pub use mkv::MkvParser;
pub use mp4::Mp4Parser;

verus! {

/// How a parse step failed, as the specifications see it.
pub enum ParseFail {
    /// The data ended inside a structure (reported as `AppError::Io` with
    /// `UnexpectedEof`).
    Eof,
    /// The structure is invalid (reported as `AppError::InvalidStructure`).
    Invalid(Seq<char>),
    /// An offset computation exceeded `u64::MAX` (`AppError::IntegerOverflow`).
    Overflow,
}

/// Whether the error value `e` reports the failure `f`.
pub open spec fn fail_matches(e: AppError, f: ParseFail) -> bool {
    match f {
        ParseFail::Eof => e is Io,
        ParseFail::Invalid(m) => e matches AppError::InvalidStructure(s) && s@ == m,
        ParseFail::Overflow => e is IntegerOverflow,
    }
}

/// Big-endian value of a byte sequence of any length.
pub open spec fn be_nat(s: Seq<u8>) -> nat
    decreases s.len(),
{
    if s.len() == 0 {
        0
    } else {
        be_nat(s.drop_last()) * 256 + s.last() as nat
    }
}

pub proof fn lemma_be_nat_push(s: Seq<u8>, b: u8)
    ensures
        be_nat(s.push(b)) == be_nat(s) * 256 + b,
{
    assert(s.push(b).drop_last() =~= s);
}

/// Whether the offsets of `s` never decrease.
pub open spec fn sorted_by_offset(s: Seq<Region>) -> bool {
    forall|i: int, j: int| 0 <= i <= j < s.len() ==> s[i].offset <= s[j].offset
}

/// The regions of `s` whose offset is `k`, in order.
pub open spec fn with_offset(s: Seq<Region>, k: u64) -> Seq<Region> {
    s.filter(|r: Region| r.offset == k)
}

/// Whether `b` is `a` sorted stably by offset: sorted, and for every offset
/// the regions with that offset appear in `b` exactly as in `a`, in order.
pub open spec fn stable_sorted_by_offset(a: Seq<Region>, b: Seq<Region>) -> bool {
    &&& sorted_by_offset(b)
    &&& forall|k: u64| #[trigger] with_offset(a, k) == with_offset(b, k)
}

/// `slice::sort_by_key` (a stable sort) keyed on the region offset: the
/// same regions, reordered.
#[verifier::external_body]
pub(crate) fn sort_regions_by_offset(v: &mut Vec<Region>)
    ensures
        stable_sorted_by_offset(old(v)@, final(v)@),
        final(v)@.to_multiset() == old(v)@.to_multiset(),
{
    v.sort_by_key(|r| r.offset);
}

/// Reordering regions makes up none: each region after it was one before.
pub proof fn lemma_sorted_members(a: Seq<Region>, b: Seq<Region>)
    requires
        b.to_multiset() == a.to_multiset(),
    ensures
        forall|i: int| 0 <= i < b.len() ==> a.contains(#[trigger] b[i]),
{
    broadcast use vstd::seq_lib::group_to_multiset_ensures;
    assert forall|i: int| 0 <= i < b.len() implies a.contains(#[trigger] b[i]) by {
        assert(b.contains(b[i]));
        assert(b.to_multiset().count(b[i]) > 0);
        assert(a.contains(b[i]));
    }
}


// ============================================================================
// Parser interface and format detection
// ============================================================================

/// Whether a scan may return a region of kind `k`: keyframes always, audio
/// samples when audio is encrypted, metadata when metadata is scrubbed.
pub open spec fn kind_allowed(k: RegionKind, enc_audio: bool, scrub_metadata: bool) -> bool {
    ||| k == RegionKind::VideoIFrame
    ||| k == RegionKind::AudioSample && enc_audio
    ||| k == RegionKind::Metadata && scrub_metadata
}

/// A container parser: scans the bytes of a file for the regions to process.
pub trait ContainerParser {
    /// Scans `data` (the whole file) and returns the regions to process.
    fn scan_regions(&self, data: &[u8], encrypt_audio: bool, scrub_metadata: bool) -> Result<Vec<Region>, AppError>;

    /// Name of the parser.
    fn name(&self) -> &'static str;
}

impl ContainerParser for Mp4Parser {
    fn scan_regions(&self, data: &[u8], encrypt_audio: bool, scrub_metadata: bool) -> (r: Result<Vec<Region>, AppError>)
        ensures
            match r {
                Ok(v) => mp4::spec_mp4_collect(data@, encrypt_audio, scrub_metadata) matches Ok(s) && stable_sorted_by_offset(s, v@),
                Err(e) => mp4::spec_mp4_collect(data@, encrypt_audio, scrub_metadata) matches Err(f) && fail_matches(e, f),
            },
            r matches Ok(v) ==> regions_within(v@, data@.len() as int),
            r matches Ok(v) ==> forall|i: int| 0 <= i < v@.len() ==> kind_allowed(#[trigger] v@[i].kind, encrypt_audio, scrub_metadata),
    {
        Mp4Parser::scan_regions(self, data, encrypt_audio, scrub_metadata)
    }

    fn name(&self) -> (s: &'static str)
        ensures
            s@ == "MP4"@,
    {
        "MP4"
    }
}

impl ContainerParser for MkvParser {
    fn scan_regions(&self, data: &[u8], encrypt_audio: bool, scrub_metadata: bool) -> (r: Result<Vec<Region>, AppError>)
        ensures
            match r {
                Ok(v) => mkv::spec_mkv_collect(data@, encrypt_audio) matches Ok(s) && stable_sorted_by_offset(s, v@),
                Err(e) => mkv::spec_mkv_collect(data@, encrypt_audio) matches Err(f) && fail_matches(e, f),
            },
            r matches Ok(v) ==> regions_within(v@, data@.len() as int),
            r matches Ok(v) ==> forall|i: int| 0 <= i < v@.len() ==> kind_allowed(#[trigger] v@[i].kind, encrypt_audio, false),
    {
        MkvParser::scan_regions(self, data, encrypt_audio, scrub_metadata)
    }

    fn name(&self) -> (s: &'static str)
        ensures
            s@ == "MKV"@,
    {
        "MKV"
    }
}

/// The container format of a file, with its parser.
#[derive(Debug, Clone, Copy, PartialEq, Eq, Structural)]
pub enum ContainerFormat {
    Mp4,
    Mkv,
}

/// The regions a scan of `d` in format `fmt` collects (before sorting).
#[verifier::opaque]
pub open spec fn spec_collect(fmt: ContainerFormat, d: Seq<u8>, enc_audio: bool, scrub_metadata: bool) -> Result<Seq<Region>, ParseFail> {
    match fmt {
        ContainerFormat::Mp4 => mp4::spec_mp4_collect(d, enc_audio, scrub_metadata),
        ContainerFormat::Mkv => mkv::spec_mkv_collect(d, enc_audio),
    }
}

impl ContainerParser for ContainerFormat {
    fn scan_regions(&self, data: &[u8], encrypt_audio: bool, scrub_metadata: bool) -> (r: Result<Vec<Region>, AppError>)
        ensures
            match r {
                Ok(v) => spec_collect(*self, data@, encrypt_audio, scrub_metadata) matches Ok(s) && stable_sorted_by_offset(s, v@),
                Err(e) => spec_collect(*self, data@, encrypt_audio, scrub_metadata) matches Err(f) && fail_matches(e, f),
            },
            r matches Ok(v) ==> forall|i: int| 0 <= i < v@.len() ==> kind_allowed(#[trigger] v@[i].kind, encrypt_audio, scrub_metadata),
            r matches Ok(v) ==> regions_within(v@, data@.len() as int),
    {
        proof {
            reveal(spec_collect);
        }
        match self {
            ContainerFormat::Mp4 => Mp4Parser::new().scan_regions(data, encrypt_audio, scrub_metadata),
            ContainerFormat::Mkv => MkvParser::new().scan_regions(data, encrypt_audio, scrub_metadata),
        }
    }

    fn name(&self) -> (s: &'static str)
        ensures
            s@ == (match *self {
                ContainerFormat::Mp4 => "MP4"@,
                ContainerFormat::Mkv => "MKV"@,
            }),
    {
        match self {
            ContainerFormat::Mp4 => "MP4",
            ContainerFormat::Mkv => "MKV",
        }
    }
}

/// What `str::to_lowercase` returns for `s` (Unicode lowercase mapping).
pub uninterp spec fn spec_to_lowercase(s: Seq<char>) -> Seq<char>;

/// `str::to_lowercase`.
#[verifier::external_body]
pub(crate) fn to_lowercase(s: &str) -> (r: String)
    ensures
        r@ == spec_to_lowercase(s@),
{
    s.to_lowercase()
}

/// The format named by a lowercase file extension.
pub open spec fn spec_format_for_extension(lower: Seq<char>) -> Option<ContainerFormat> {
    if lower == "mp4"@ || lower == "m4v"@ || lower == "m4a"@ || lower == "mov"@ {
        Some(ContainerFormat::Mp4)
    } else if lower == "mkv"@ || lower == "webm"@ || lower == "mka"@ {
        Some(ContainerFormat::Mkv)
    } else {
        None
    }
}

/// The format named by a lowercase file extension, if any.
pub fn format_for_lowercase_extension(lower: &str) -> (r: Option<ContainerFormat>)
    ensures
        r == spec_format_for_extension(lower@),
{
    let s = String::from_str(lower);
    if s == String::from_str("mp4") || s == String::from_str("m4v") || s == String::from_str("m4a")
        || s == String::from_str("mov") {
        Some(ContainerFormat::Mp4)
    } else if s == String::from_str("mkv") || s == String::from_str("webm") || s == String::from_str(
        "mka",
    ) {
        Some(ContainerFormat::Mkv)
    } else {
        None
    }
}

pub const BOX_FTYP: u32 = 0x66747970;
pub const BOX_MDAT: u32 = 0x6d646174;
pub const EBML_MAGIC: u32 = 0x1A45DFA3;

/// The format that the first bytes of a file announce: an MP4 box type
/// ("ftyp", "moov" or "mdat") at offset 4, or the EBML magic at offset 0.
pub open spec fn spec_format_from_header(h: Seq<u8>) -> Option<ContainerFormat> {
    if be_u32_at(h, 4) == BOX_FTYP || be_u32_at(h, 4) == mp4::BOX_MOOV || be_u32_at(h, 4) == BOX_MDAT {
        Some(ContainerFormat::Mp4)
    } else if be_u32_at(h, 0) == EBML_MAGIC {
        Some(ContainerFormat::Mkv)
    } else {
        None
    }
}

/// Detects the container format from the first bytes of a file (`header`,
/// at least 12 bytes are needed) and, failing that, from its extension.
/// `path_display` names the file in the error message.
pub fn detect_parser(header: &[u8], extension: Option<&str>, path_display: &str) -> (r: Result<ContainerFormat, AppError>)
    ensures
        header@.len() < 12 ==> (r matches Err(AppError::UnsupportedFormat(m)) && m@ == "File too short"@),
        header@.len() >= 12 && spec_format_from_header(header@) is Some ==> r == Ok::<ContainerFormat, AppError>(spec_format_from_header(header@)->0),
        header@.len() >= 12 && spec_format_from_header(header@) is None ==> match extension {
            Some(ext) if spec_format_for_extension(spec_to_lowercase(ext@)) is Some => r == Ok::<ContainerFormat, AppError>(spec_format_for_extension(spec_to_lowercase(ext@))->0),
            _ => r matches Err(AppError::UnsupportedFormat(m)) && m@ == "Unknown format: "@ + path_display@,
        },
{
    if header.len() < 12 {
        return Err(AppError::UnsupportedFormat(String::from_str("File too short")));
    }
    let t = read_u32_be(header, 4);
    if t == BOX_FTYP || t == mp4::BOX_MOOV || t == BOX_MDAT {
        return Ok(ContainerFormat::Mp4);
    }
    if read_u32_be(header, 0) == EBML_MAGIC {
        return Ok(ContainerFormat::Mkv);
    }
    match extension {
        Some(ext) => {
            let lower = to_lowercase(ext);
            match format_for_lowercase_extension(lower.as_str()) {
                Some(f) => return Ok(f),
                None => {},
            }
        },
        None => {},
    }
    let msg = String::from_str("Unknown format: ").concat(path_display);
    Err(AppError::UnsupportedFormat(msg))
}

} // verus!
