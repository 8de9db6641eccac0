//! MP4 (ISOBMFF) container parser.
//!
//! Walks the box structure of an MP4 file, reads the sample tables of each
//! track and reports where keyframes (and, on request, audio samples and the
//! iTunes-style metadata list) lie in the file.

use vstd::prelude::*;
use crate::bytes::{be_u32_at, be_u64_at, lemma_be_bounds, read_u32_be, read_u64_be};
use crate::common::{regions_within, Region, RegionKind, FOOTER_MAGIC};
use crate::error::{AppError, unexpected_eof};
use super::{kind_allowed, lemma_sorted_members, ParseFail, fail_matches, sort_regions_by_offset, stable_sorted_by_offset};

verus! {

/// MP4 parser.
pub struct Mp4Parser;

impl Mp4Parser {
    /// Creates the parser.
    pub fn new() -> (p: Self) {
        Mp4Parser
    }
}

impl Default for Mp4Parser {
    fn default() -> (p: Self) {
        Mp4Parser
    }
}

// Box types (four ASCII characters read as a big-endian number).
pub const BOX_MOOV: u32 = 0x6d6f6f76;
pub const BOX_TRAK: u32 = 0x7472616b;
pub const BOX_MDIA: u32 = 0x6d646961;
pub const BOX_HDLR: u32 = 0x68646c72;
pub const BOX_MINF: u32 = 0x6d696e66;
pub const BOX_STBL: u32 = 0x7374626c;
pub const BOX_STSS: u32 = 0x73747373;
pub const BOX_STSZ: u32 = 0x7374737a;
pub const BOX_STSC: u32 = 0x73747363;
pub const BOX_STCO: u32 = 0x7374636f;
pub const BOX_CO64: u32 = 0x636f3634;
pub const BOX_UDTA: u32 = 0x75647461;
pub const BOX_META: u32 = 0x6d657461;
pub const BOX_ILST: u32 = 0x696c7374;
/// Handler type of video tracks ("vide").
pub const HANDLER_VIDE: u32 = 0x76696465;
/// Handler type of audio tracks ("soun").
pub const HANDLER_SOUN: u32 = 0x736f756e;

/// Header of an MP4 box.
#[derive(Debug, Clone, Copy)]
pub struct BoxHeader {
    /// Box type (fourcc as a big-endian number).
    pub box_type: u32,
    /// Total size including the header.
    pub size: u64,
    /// Offset where the box starts.
    pub offset: u64,
    /// Size of the header itself (8, or 16 with a 64-bit size).
    pub header_size: u8,
}

/// Reading a box header at `p`. Fewer than four bytes left means no box;
/// size 1 announces a 64-bit size, size 0 a box that runs to the end of the
/// data.
pub open spec fn spec_read_box_header(d: Seq<u8>, p: int) -> Result<Option<BoxHeader>, ParseFail> {
    if p + 4 > d.len() {
        Ok(None)
    } else if p + 8 > d.len() {
        Err(ParseFail::Eof)
    } else {
        let size32 = be_u32_at(d, p);
        let box_type = be_u32_at(d, p + 4) as u32;
        if size32 == 1 {
            if p + 16 > d.len() {
                Err(ParseFail::Eof)
            } else {
                Ok(Some(BoxHeader { box_type, size: be_u64_at(d, p + 8) as u64, offset: p as u64, header_size: 16 }))
            }
        } else if size32 == 0 {
            Ok(Some(BoxHeader { box_type, size: (d.len() - p) as u64, offset: p as u64, header_size: 8 }))
        } else {
            Ok(Some(BoxHeader { box_type, size: size32 as u64, offset: p as u64, header_size: 8 }))
        }
    }
}

fn read_box_header(data: &[u8], p: u64) -> (r: Result<Option<BoxHeader>, AppError>)
    ensures
        match r {
            Ok(h) => spec_read_box_header(data@, p as int) == Ok::<Option<BoxHeader>, ParseFail>(h),
            Err(e) => spec_read_box_header(data@, p as int) matches Err(f) && fail_matches(e, f),
        },
{
    let n = data.len() as u64;
    if p > n || 4 > n - p {
        return Ok(None);
    }
    if 8 > n - p {
        return Err(AppError::Io(unexpected_eof()));
    }
    let size32 = read_u32_be(data, p as usize);
    let box_type = read_u32_be(data, (p + 4) as usize);
    if size32 == 1 {
        if 16 > n - p {
            return Err(AppError::Io(unexpected_eof()));
        }
        let size64 = read_u64_be(data, (p + 8) as usize);
        Ok(Some(BoxHeader { box_type, size: size64, offset: p, header_size: 16 }))
    } else if size32 == 0 {
        Ok(Some(BoxHeader { box_type, size: n - p, offset: p, header_size: 8 }))
    } else {
        Ok(Some(BoxHeader { box_type, size: size32 as u64, offset: p, header_size: 8 }))
    }
}

/// Searching the boxes from `pos` up to `end` for one of type `ty`. A box
/// that reaches past `end` ends the search; so does a box of size 0 (which
/// would never advance).
pub open spec fn spec_find_box(d: Seq<u8>, ty: u32, pos: int, end: int) -> Result<Option<BoxHeader>, ParseFail>
    decreases end - pos,
{
    if pos >= end {
        Ok(None)
    } else {
        match spec_read_box_header(d, pos) {
            Err(f) => Err(f),
            Ok(None) => Ok(None),
            Ok(Some(h)) => if h.box_type == ty {
                Ok(Some(h))
            } else if h.offset + h.size > u64::MAX {
                Err(ParseFail::Overflow)
            } else if h.offset + h.size > end || h.offset + h.size <= pos || h.offset + h.size == end {
                Ok(None)
            } else {
                spec_find_box(d, ty, h.offset + h.size, end)
            },
        }
    }
}

/// A footer (73 bytes beginning with the footer magic) stops a walk over
/// boxes that reaches it: read as a box header it announces 0x52555354 bytes,
/// far past its end, so the search finds nothing (unless it looks for the
/// type "_ENC" that the magic's second half spells).
pub proof fn lemma_footer_ends_box_walk(e: Seq<u8>, p: int, ty: u32)
    requires
        0 <= p,
        e.len() == p + 73,
        e.subrange(p, p + 8) == FOOTER_MAGIC@,
        p + 0x5255_5354 <= u64::MAX,
        ty != 0x5f45_4e43,
    ensures
        spec_find_box(e, ty, p, p + 73) == Ok::<Option<BoxHeader>, ParseFail>(None),
{
    assert(e[p] == e.subrange(p, p + 8)[0]);
    assert(e[p + 1] == e.subrange(p, p + 8)[1]);
    assert(e[p + 2] == e.subrange(p, p + 8)[2]);
    assert(e[p + 3] == e.subrange(p, p + 8)[3]);
    assert(e[p + 4] == e.subrange(p, p + 8)[4]);
    assert(e[p + 5] == e.subrange(p, p + 8)[5]);
    assert(e[p + 6] == e.subrange(p, p + 8)[6]);
    assert(e[p + 7] == e.subrange(p, p + 8)[7]);
    assert(be_u32_at(e, p) == 0x5255_5354);
    assert(be_u32_at(e, p + 4) == 0x5f45_4e43);
}

fn find_box(data: &[u8], ty: u32, start: u64, end: u64) -> (r: Result<Option<BoxHeader>, AppError>)
    ensures
        match r {
            Ok(h) => spec_find_box(data@, ty, start as int, end as int) == Ok::<Option<BoxHeader>, ParseFail>(h),
            Err(e) => spec_find_box(data@, ty, start as int, end as int) matches Err(f) && fail_matches(e, f),
        },
{
    let mut pos = start;
    loop
        invariant
            spec_find_box(data@, ty, start as int, end as int) == spec_find_box(data@, ty, pos as int, end as int),
        decreases end - pos,
    {
        if pos >= end {
            return Ok(None);
        }
        match read_box_header(data, pos)? {
            None => return Ok(None),
            Some(h) => {
                if h.box_type == ty {
                    return Ok(Some(h));
                }
                let next = match h.offset.checked_add(h.size) {
                    Some(x) => x,
                    None => return Err(AppError::IntegerOverflow),
                };
                if next > end || next <= pos || next == end {
                    return Ok(None);
                }
                pos = next;
            },
        }
    }
}

/// Searching the children of `parent` for a box of type `ty`.
pub open spec fn spec_find_box_in(d: Seq<u8>, ty: u32, parent: BoxHeader) -> Result<Option<BoxHeader>, ParseFail> {
    if parent.offset + parent.header_size > u64::MAX || parent.offset + parent.size > u64::MAX {
        Err(ParseFail::Overflow)
    } else {
        spec_find_box(d, ty, parent.offset + parent.header_size, parent.offset + parent.size)
    }
}

fn find_box_in(data: &[u8], ty: u32, parent: &BoxHeader) -> (r: Result<Option<BoxHeader>, AppError>)
    ensures
        match r {
            Ok(h) => spec_find_box_in(data@, ty, *parent) == Ok::<Option<BoxHeader>, ParseFail>(h),
            Err(e) => spec_find_box_in(data@, ty, *parent) matches Err(f) && fail_matches(e, f),
        },
{
    let start = match parent.offset.checked_add(parent.header_size as u64) {
        Some(x) => x,
        None => return Err(AppError::IntegerOverflow),
    };
    let end = match parent.offset.checked_add(parent.size) {
        Some(x) => x,
        None => return Err(AppError::IntegerOverflow),
    };
    find_box(data, ty, start, end)
}

// ============================================================================
// Sample tables
// ============================================================================

/// Entry of the sample-to-chunk table.
#[derive(Debug, Clone, Copy)]
pub struct StscEntry {
    pub first_chunk: u32,
    pub samples_per_chunk: u32,
    pub sample_description_index: u32,
}

/// Where the payload of a full box (after its header) starts.
pub open spec fn box_content(b: BoxHeader) -> int {
    b.offset + b.header_size
}

/// A table of `count` big-endian `u32` entries starting at `p`.
pub open spec fn u32_table(d: Seq<u8>, p: int, count: int) -> Seq<u32> {
    Seq::new(count as nat, |i: int| be_u32_at(d, p + 4 * i) as u32)
}

/// The stss table (sync samples): version/flags, count, then the entries.
pub open spec fn spec_parse_stss(d: Seq<u8>, b: BoxHeader) -> Result<Seq<u32>, ParseFail> {
    let p = box_content(b);
    if p > u64::MAX {
        Err(ParseFail::Overflow)
    } else {
        if p + 8 > d.len() {
            Err(ParseFail::Eof)
        } else {
            let count = be_u32_at(d, p + 4);
            if p + 8 + 4 * count > d.len() {
                Err(ParseFail::Eof)
            } else {
                Ok(u32_table(d, p + 8, count))
            }
        }
    }
}

/// Reads `count` big-endian `u32` values starting at `p`.
fn read_u32_table(data: &[u8], p: u64, count: u32) -> (r: Vec<u32>)
    requires
        p + 4 * count <= data@.len(),
    ensures
        r@ == u32_table(data@, p as int, count as int),
{
    let n = data.len();
    let mut out: Vec<u32> = Vec::new();
    let mut i: u32 = 0;
    while i < count
        invariant
            n == data@.len(),
            p + 4 * count <= data@.len(),
            0 <= i <= count,
            out@ == u32_table(data@, p as int, i as int),
        decreases count - i,
    {
        let v = read_u32_be(data, (p + 4 * (i as u64)) as usize);
        out.push(v);
        i = i + 1;
        assert(out@ =~= u32_table(data@, p as int, i as int));
    }
    out
}

fn parse_stss(data: &[u8], b: &BoxHeader) -> (r: Result<Vec<u32>, AppError>)
    ensures
        match r {
            Ok(v) => spec_parse_stss(data@, *b) == Ok::<Seq<u32>, ParseFail>(v@),
            Err(e) => spec_parse_stss(data@, *b) matches Err(f) && fail_matches(e, f),
        },
{
    let n = data.len() as u64;
    let p = match b.offset.checked_add(b.header_size as u64) {
        Some(x) => x,
        None => return Err(AppError::IntegerOverflow),
    };
    if p > n || 8 > n - p {
        return Err(AppError::Io(unexpected_eof()));
    }
    let count = read_u32_be(data, (p + 4) as usize);
    if (count as u64) * 4 > n - p - 8 {
        return Err(AppError::Io(unexpected_eof()));
    }
    Ok(read_u32_table(data, p + 8, count))
}

/// The stsz table (sample sizes): a common size, or one size per sample.
pub open spec fn spec_parse_stsz(d: Seq<u8>, b: BoxHeader) -> Result<Seq<u32>, ParseFail> {
    let p = box_content(b);
    if p > u64::MAX {
        Err(ParseFail::Overflow)
    } else {
        if p + 12 > d.len() {
            Err(ParseFail::Eof)
        } else {
            let sample_size = be_u32_at(d, p + 4) as u32;
            let count = be_u32_at(d, p + 8);
            if sample_size != 0 {
                Ok(Seq::new(count as nat, |i: int| sample_size))
            } else if p + 12 + 4 * count > d.len() {
                Err(ParseFail::Eof)
            } else {
                Ok(u32_table(d, p + 12, count))
            }
        }
    }
}

fn parse_stsz(data: &[u8], b: &BoxHeader) -> (r: Result<Vec<u32>, AppError>)
    ensures
        match r {
            Ok(v) => spec_parse_stsz(data@, *b) == Ok::<Seq<u32>, ParseFail>(v@),
            Err(e) => spec_parse_stsz(data@, *b) matches Err(f) && fail_matches(e, f),
        },
{
    let n = data.len() as u64;
    let p = match b.offset.checked_add(b.header_size as u64) {
        Some(x) => x,
        None => return Err(AppError::IntegerOverflow),
    };
    if p > n || 12 > n - p {
        return Err(AppError::Io(unexpected_eof()));
    }
    let sample_size = read_u32_be(data, (p + 4) as usize);
    let count = read_u32_be(data, (p + 8) as usize);
    if sample_size != 0 {
        let mut out: Vec<u32> = Vec::new();
        let mut i: u32 = 0;
        while i < count
            invariant
                0 <= i <= count,
                out@ == Seq::new(i as nat, |j: int| sample_size),
            decreases count - i,
        {
            out.push(sample_size);
            i = i + 1;
            assert(out@ =~= Seq::new(i as nat, |j: int| sample_size));
        }
        return Ok(out);
    }
    if (count as u64) * 4 > n - p - 12 {
        return Err(AppError::Io(unexpected_eof()));
    }
    Ok(read_u32_table(data, p + 12, count))
}

/// The stsc table (sample-to-chunk runs), 12 bytes per entry.
pub open spec fn spec_parse_stsc(d: Seq<u8>, b: BoxHeader) -> Result<Seq<StscEntry>, ParseFail> {
    let p = box_content(b);
    if p > u64::MAX {
        Err(ParseFail::Overflow)
    } else {
        if p + 8 > d.len() {
            Err(ParseFail::Eof)
        } else {
            let count = be_u32_at(d, p + 4);
            if p + 8 + 12 * count > d.len() {
                Err(ParseFail::Eof)
            } else {
                Ok(Seq::new(count as nat, |i: int| StscEntry {
                    first_chunk: be_u32_at(d, p + 8 + 12 * i) as u32,
                    samples_per_chunk: be_u32_at(d, p + 12 + 12 * i) as u32,
                    sample_description_index: be_u32_at(d, p + 16 + 12 * i) as u32,
                }))
            }
        }
    }
}

fn parse_stsc(data: &[u8], b: &BoxHeader) -> (r: Result<Vec<StscEntry>, AppError>)
    ensures
        match r {
            Ok(v) => spec_parse_stsc(data@, *b) == Ok::<Seq<StscEntry>, ParseFail>(v@),
            Err(e) => spec_parse_stsc(data@, *b) matches Err(f) && fail_matches(e, f),
        },
{
    let n = data.len() as u64;
    let p = match b.offset.checked_add(b.header_size as u64) {
        Some(x) => x,
        None => return Err(AppError::IntegerOverflow),
    };
    if p > n || 8 > n - p {
        return Err(AppError::Io(unexpected_eof()));
    }
    let count = read_u32_be(data, (p + 4) as usize);
    if (count as u64) * 12 > n - p - 8 {
        return Err(AppError::Io(unexpected_eof()));
    }
    let len_us: usize = data.len();
    let ghost d = data@;
    let ghost pi = p as int;
    let mut out: Vec<StscEntry> = Vec::new();
    let mut i: u32 = 0;
    while i < count
        invariant
            d == data@,
            len_us == d.len(),
            pi == p,
            p + 8 + 12 * count <= d.len(),
            0 <= i <= count,
            out@ == Seq::new(i as nat, |k: int| StscEntry {
                first_chunk: be_u32_at(d, pi + 8 + 12 * k) as u32,
                samples_per_chunk: be_u32_at(d, pi + 12 + 12 * k) as u32,
                sample_description_index: be_u32_at(d, pi + 16 + 12 * k) as u32,
            }),
        decreases count - i,
    {
        let at = p + 8 + 12 * (i as u64);
        let first_chunk = read_u32_be(data, at as usize);
        let samples_per_chunk = read_u32_be(data, (at + 4) as usize);
        let sample_description_index = read_u32_be(data, (at + 8) as usize);
        out.push(StscEntry { first_chunk, samples_per_chunk, sample_description_index });
        i = i + 1;
        assert(out@ =~= Seq::new(i as nat, |k: int| StscEntry {
            first_chunk: be_u32_at(d, pi + 8 + 12 * k) as u32,
            samples_per_chunk: be_u32_at(d, pi + 12 + 12 * k) as u32,
            sample_description_index: be_u32_at(d, pi + 16 + 12 * k) as u32,
        }));
    }
    Ok(out)
}

/// The stco table (32-bit chunk offsets).
pub open spec fn spec_parse_stco(d: Seq<u8>, b: BoxHeader) -> Result<Seq<u64>, ParseFail> {
    let p = box_content(b);
    if p > u64::MAX {
        Err(ParseFail::Overflow)
    } else {
        if p + 8 > d.len() {
            Err(ParseFail::Eof)
        } else {
            let count = be_u32_at(d, p + 4);
            if p + 8 + 4 * count > d.len() {
                Err(ParseFail::Eof)
            } else {
                Ok(Seq::new(count as nat, |i: int| be_u32_at(d, p + 8 + 4 * i) as u64))
            }
        }
    }
}

fn parse_stco(data: &[u8], b: &BoxHeader) -> (r: Result<Vec<u64>, AppError>)
    ensures
        match r {
            Ok(v) => spec_parse_stco(data@, *b) == Ok::<Seq<u64>, ParseFail>(v@),
            Err(e) => spec_parse_stco(data@, *b) matches Err(f) && fail_matches(e, f),
        },
{
    let n = data.len() as u64;
    let p = match b.offset.checked_add(b.header_size as u64) {
        Some(x) => x,
        None => return Err(AppError::IntegerOverflow),
    };
    if p > n || 8 > n - p {
        return Err(AppError::Io(unexpected_eof()));
    }
    let count = read_u32_be(data, (p + 4) as usize);
    if (count as u64) * 4 > n - p - 8 {
        return Err(AppError::Io(unexpected_eof()));
    }
    let len_us: usize = data.len();
    let ghost d = data@;
    let ghost pi = p as int;
    let mut out: Vec<u64> = Vec::new();
    let mut i: u32 = 0;
    while i < count
        invariant
            d == data@,
            len_us == d.len(),
            pi == p,
            p + 8 + 4 * count <= d.len(),
            0 <= i <= count,
            out@ == Seq::new(i as nat, |k: int| be_u32_at(d, pi + 8 + 4 * k) as u64),
        decreases count - i,
    {
        let v = read_u32_be(data, (p + 8 + 4 * (i as u64)) as usize);
        out.push(v as u64);
        i = i + 1;
        assert(out@ =~= Seq::new(i as nat, |k: int| be_u32_at(d, pi + 8 + 4 * k) as u64));
    }
    Ok(out)
}

/// The co64 table (64-bit chunk offsets).
pub open spec fn spec_parse_co64(d: Seq<u8>, b: BoxHeader) -> Result<Seq<u64>, ParseFail> {
    let p = box_content(b);
    if p > u64::MAX {
        Err(ParseFail::Overflow)
    } else {
        if p + 8 > d.len() {
            Err(ParseFail::Eof)
        } else {
            let count = be_u32_at(d, p + 4);
            if p + 8 + 8 * count > d.len() {
                Err(ParseFail::Eof)
            } else {
                Ok(Seq::new(count as nat, |i: int| be_u64_at(d, p + 8 + 8 * i) as u64))
            }
        }
    }
}

fn parse_co64(data: &[u8], b: &BoxHeader) -> (r: Result<Vec<u64>, AppError>)
    ensures
        match r {
            Ok(v) => spec_parse_co64(data@, *b) == Ok::<Seq<u64>, ParseFail>(v@),
            Err(e) => spec_parse_co64(data@, *b) matches Err(f) && fail_matches(e, f),
        },
{
    let n = data.len() as u64;
    let p = match b.offset.checked_add(b.header_size as u64) {
        Some(x) => x,
        None => return Err(AppError::IntegerOverflow),
    };
    if p > n || 8 > n - p {
        return Err(AppError::Io(unexpected_eof()));
    }
    let count = read_u32_be(data, (p + 4) as usize);
    if (count as u64) * 8 > n - p - 8 {
        return Err(AppError::Io(unexpected_eof()));
    }
    let len_us: usize = data.len();
    let ghost d = data@;
    let ghost pi = p as int;
    let mut out: Vec<u64> = Vec::new();
    let mut i: u32 = 0;
    while i < count
        invariant
            d == data@,
            len_us == d.len(),
            pi == p,
            p + 8 + 8 * count <= d.len(),
            0 <= i <= count,
            out@ == Seq::new(i as nat, |k: int| be_u64_at(d, pi + 8 + 8 * k) as u64),
        decreases count - i,
    {
        let v = read_u64_be(data, (p + 8 + 8 * (i as u64)) as usize);
        out.push(v);
        i = i + 1;
        assert(out@ =~= Seq::new(i as nat, |k: int| be_u64_at(d, pi + 8 + 8 * k) as u64));
    }
    Ok(out)
}


// ============================================================================
// Tracks
// ============================================================================

/// Sample tables of a track.
#[derive(Debug)]
pub struct TrackInfo {
    /// Handler type ("vide", "soun", ...; 0 when absent).
    pub handler_type: u32,
    /// Sync samples (keyframes), 1-based sample numbers.
    pub sync_samples: Vec<u32>,
    /// Sample sizes.
    pub sample_sizes: Vec<u32>,
    /// Chunk offsets.
    pub chunk_offsets: Vec<u64>,
    /// Sample-to-chunk runs.
    pub sample_to_chunk: Vec<StscEntry>,
}

/// What a track's tables hold.
pub struct TrackView {
    pub handler_type: u32,
    pub sync_samples: Seq<u32>,
    pub sample_sizes: Seq<u32>,
    pub chunk_offsets: Seq<u64>,
    pub sample_to_chunk: Seq<StscEntry>,
}

impl View for TrackInfo {
    type V = TrackView;

    open spec fn view(&self) -> TrackView {
        TrackView {
            handler_type: self.handler_type,
            sync_samples: self.sync_samples@,
            sample_sizes: self.sample_sizes@,
            chunk_offsets: self.chunk_offsets@,
            sample_to_chunk: self.sample_to_chunk@,
        }
    }
}

/// The tables of a parsed track are indexed by `u32` sample and chunk numbers.
pub open spec fn track_wf(t: TrackView) -> bool {
    &&& t.sample_sizes.len() <= u32::MAX
    &&& t.chunk_offsets.len() <= u32::MAX
}

/// The handler type stored 8 bytes into the payload of `hdlr` (0 without one).
pub open spec fn spec_handler_type(d: Seq<u8>, hdlr: Option<BoxHeader>) -> Result<u32, ParseFail> {
    match hdlr {
        None => Ok(0),
        Some(h) => {
            let p = box_content(h) + 8;
            if p > u64::MAX {
                Err(ParseFail::Overflow)
            } else if p + 4 > d.len() {
                Err(ParseFail::Eof)
            } else {
                Ok(be_u32_at(d, p) as u32)
            }
        },
    }
}

/// The sync-sample table of a video track's `stbl` (empty without one, and for
/// other tracks).
pub open spec fn spec_sync_table(d: Seq<u8>, stbl: BoxHeader, handler: u32) -> Result<Seq<u32>, ParseFail> {
    if handler != HANDLER_VIDE {
        Ok(seq![])
    } else {
        match spec_find_box_in(d, BOX_STSS, stbl) {
            Err(f) => Err(f),
            Ok(None) => Ok(seq![]),
            Ok(Some(b)) => spec_parse_stss(d, b),
        }
    }
}

/// The sample-size table of `stbl` (empty without one).
pub open spec fn spec_size_table(d: Seq<u8>, stbl: BoxHeader) -> Result<Seq<u32>, ParseFail> {
    match spec_find_box_in(d, BOX_STSZ, stbl) {
        Err(f) => Err(f),
        Ok(None) => Ok(seq![]),
        Ok(Some(b)) => spec_parse_stsz(d, b),
    }
}

/// The sample-to-chunk table of `stbl` (empty without one).
pub open spec fn spec_stsc_table(d: Seq<u8>, stbl: BoxHeader) -> Result<Seq<StscEntry>, ParseFail> {
    match spec_find_box_in(d, BOX_STSC, stbl) {
        Err(f) => Err(f),
        Ok(None) => Ok(seq![]),
        Ok(Some(b)) => spec_parse_stsc(d, b),
    }
}

/// The chunk offsets of `stbl`: from stco, else from co64, else empty.
pub open spec fn spec_offset_table(d: Seq<u8>, stbl: BoxHeader) -> Result<Seq<u64>, ParseFail> {
    match spec_find_box_in(d, BOX_STCO, stbl) {
        Err(f) => Err(f),
        Ok(Some(b)) => spec_parse_stco(d, b),
        Ok(None) => match spec_find_box_in(d, BOX_CO64, stbl) {
            Err(f) => Err(f),
            Ok(None) => Ok(seq![]),
            Ok(Some(b)) => spec_parse_co64(d, b),
        },
    }
}

/// Parsing a `trak` box: mdia (handler type from hdlr) > minf > stbl and its
/// tables. A track without mdia, minf or stbl is skipped.
pub open spec fn spec_parse_trak(d: Seq<u8>, trak: BoxHeader) -> Result<Option<TrackView>, ParseFail> {
    match spec_find_box_in(d, BOX_MDIA, trak) {
        Err(f) => Err(f),
        Ok(None) => Ok(None),
        Ok(Some(mdia)) => match spec_find_box_in(d, BOX_HDLR, mdia) {
            Err(f) => Err(f),
            Ok(hdlr) => match spec_handler_type(d, hdlr) {
                Err(f) => Err(f),
                Ok(handler) => match spec_find_box_in(d, BOX_MINF, mdia) {
                    Err(f) => Err(f),
                    Ok(None) => Ok(None),
                    Ok(Some(minf)) => match spec_find_box_in(d, BOX_STBL, minf) {
                        Err(f) => Err(f),
                        Ok(None) => Ok(None),
                        Ok(Some(stbl)) => match spec_sync_table(d, stbl, handler) {
                            Err(f) => Err(f),
                            Ok(sync) => match spec_size_table(d, stbl) {
                                Err(f) => Err(f),
                                Ok(sizes) => match spec_stsc_table(d, stbl) {
                                    Err(f) => Err(f),
                                    Ok(stsc) => match spec_offset_table(d, stbl) {
                                        Err(f) => Err(f),
                                        Ok(offsets) => Ok(Some(TrackView {
                                            handler_type: handler,
                                            sync_samples: sync,
                                            sample_sizes: sizes,
                                            chunk_offsets: offsets,
                                            sample_to_chunk: stsc,
                                        })),
                                    },
                                },
                            },
                        },
                    },
                },
            },
        },
    }
}

fn parse_trak(data: &[u8], trak: &BoxHeader) -> (r: Result<Option<TrackInfo>, AppError>)
    ensures
        match r {
            Ok(None) => spec_parse_trak(data@, *trak) == Ok::<Option<TrackView>, ParseFail>(None),
            Ok(Some(t)) => spec_parse_trak(data@, *trak) == Ok::<Option<TrackView>, ParseFail>(Some(t@))
                && track_wf(t@),
            Err(e) => spec_parse_trak(data@, *trak) matches Err(f) && fail_matches(e, f),
        },
{
    let n = data.len() as u64;
    let mdia = match find_box_in(data, BOX_MDIA, trak)? {
        Some(b) => b,
        None => return Ok(None),
    };
    let hdlr = find_box_in(data, BOX_HDLR, &mdia)?;
    let handler_type = match hdlr {
        None => 0u32,
        Some(h) => {
            let p = match h.offset.checked_add(h.header_size as u64) {
                Some(x) => match x.checked_add(8) {
                    Some(y) => y,
                    None => return Err(AppError::IntegerOverflow),
                },
                None => return Err(AppError::IntegerOverflow),
            };
            if p > n || 4 > n - p {
                return Err(AppError::Io(unexpected_eof()));
            }
            read_u32_be(data, p as usize)
        },
    };
    let minf = match find_box_in(data, BOX_MINF, &mdia)? {
        Some(b) => b,
        None => return Ok(None),
    };
    let stbl = match find_box_in(data, BOX_STBL, &minf)? {
        Some(b) => b,
        None => return Ok(None),
    };
    let sync_samples = if handler_type == HANDLER_VIDE {
        match find_box_in(data, BOX_STSS, &stbl)? {
            Some(b) => parse_stss(data, &b)?,
            None => Vec::new(),
        }
    } else {
        Vec::new()
    };
    let sample_sizes = match find_box_in(data, BOX_STSZ, &stbl)? {
        Some(b) => parse_stsz(data, &b)?,
        None => Vec::new(),
    };
    let sample_to_chunk = match find_box_in(data, BOX_STSC, &stbl)? {
        Some(b) => parse_stsc(data, &b)?,
        None => Vec::new(),
    };
    let chunk_offsets = match find_box_in(data, BOX_STCO, &stbl)? {
        Some(b) => parse_stco(data, &b)?,
        None => match find_box_in(data, BOX_CO64, &stbl)? {
            Some(b) => parse_co64(data, &b)?,
            None => Vec::new(),
        },
    };
    let t = TrackInfo { handler_type, sync_samples, sample_sizes, chunk_offsets, sample_to_chunk };
    assert(t@.sample_to_chunk == sample_to_chunk@);
    Ok(Some(t))
}

/// Scanning the children of `moov` from `pos` up to `end`, parsing each trak.
pub open spec fn spec_moov_loop(d: Seq<u8>, pos: int, end: int, acc: Seq<TrackView>) -> Result<Seq<TrackView>, ParseFail>
    decreases end - pos,
{
    if pos >= end {
        Ok(acc)
    } else {
        match spec_read_box_header(d, pos) {
            Err(f) => Err(f),
            Ok(None) => Ok(acc),
            Ok(Some(h)) => match (if h.box_type == BOX_TRAK { spec_parse_trak(d, h) } else { Ok(None) }) {
                Err(f) => Err(f),
                Ok(t) => {
                    let acc2 = if t is Some { acc.push(t->0) } else { acc };
                    if h.offset + h.size > u64::MAX {
                        Err(ParseFail::Overflow)
                    } else if h.offset + h.size >= end || h.offset + h.size <= pos {
                        Ok(acc2)
                    } else {
                        spec_moov_loop(d, h.offset + h.size, end, acc2)
                    }
                },
            },
        }
    }
}

/// `r` with the tracks `acc` put before the tracks it found.
pub open spec fn after_tracks(acc: Seq<TrackView>, r: Result<Seq<TrackView>, ParseFail>) -> Result<Seq<TrackView>, ParseFail> {
    match r {
        Ok(x) => Ok(acc + x),
        Err(f) => Err(f),
    }
}

proof fn lemma_moov_acc(d: Seq<u8>, pos: int, end: int, acc: Seq<TrackView>)
    ensures
        spec_moov_loop(d, pos, end, acc) == after_tracks(acc, spec_moov_loop(d, pos, end, seq![])),
    decreases end - pos,
{
    assert(acc + Seq::<TrackView>::empty() =~= acc);
    if pos < end {
        match spec_read_box_header(d, pos) {
            Ok(Some(h)) => {
                let t = if h.box_type == BOX_TRAK { spec_parse_trak(d, h) } else { Ok(None) };
                match t {
                    Ok(o) => {
                        let r1: Seq<TrackView> = if o is Some { seq![o->0] } else { seq![] };
                        assert(acc + r1 == (if o is Some { acc.push(o->0) } else { acc })) by {
                            assert(acc.push(o->0) =~= acc + seq![o->0]);
                        }
                        assert(r1 == (if o is Some { Seq::<TrackView>::empty().push(o->0) } else { Seq::<TrackView>::empty() })) by {
                            assert(Seq::<TrackView>::empty().push(o->0) =~= seq![o->0]);
                        }
                        let next = h.offset + h.size;
                        if next <= u64::MAX && !(next >= end || next <= pos) {
                            lemma_moov_acc(d, next, end, acc + r1);
                            lemma_moov_acc(d, next, end, r1);
                            match spec_moov_loop(d, next, end, seq![]) {
                                Ok(x) => {
                                    assert((acc + r1) + x =~= acc + (r1 + x));
                                },
                                Err(_) => {},
                            }
                        }
                    },
                    Err(_) => {},
                }
            },
            _ => {},
        }
    }
}

/// Every track of moov is parsed: when the walk over moov's children meets
/// a trak box that ends before moov does, the tracks it finds are that
/// track followed by those of the rest of the walk.
pub proof fn lemma_moov_parses_every_track(d: Seq<u8>, pos: int, end: int, h: BoxHeader, t: TrackView)
    requires
        spec_read_box_header(d, pos) == Ok::<Option<BoxHeader>, ParseFail>(Some(h)),
        h.box_type == BOX_TRAK,
        spec_parse_trak(d, h) == Ok::<Option<TrackView>, ParseFail>(Some(t)),
        pos < h.offset + h.size < end,
    ensures
        spec_moov_loop(d, pos, end, seq![]) == after_tracks(seq![t], spec_moov_loop(d, h.offset + h.size, end, seq![])),
{
    assert(Seq::<TrackView>::empty().push(t) =~= seq![t]);
    lemma_moov_acc(d, h.offset + h.size, end, seq![t]);
}

/// Parsing the tracks of `moov`.
pub open spec fn spec_parse_moov(d: Seq<u8>, moov: BoxHeader) -> Result<Seq<TrackView>, ParseFail> {
    if moov.offset + moov.size > u64::MAX || box_content(moov) > u64::MAX {
        Err(ParseFail::Overflow)
    } else {
        spec_moov_loop(d, box_content(moov), moov.offset + moov.size, seq![])
    }
}

pub open spec fn views_of(v: Seq<TrackInfo>) -> Seq<TrackView> {
    v.map_values(|t: TrackInfo| t@)
}

fn parse_moov(data: &[u8], moov: &BoxHeader) -> (r: Result<Vec<TrackInfo>, AppError>)
    ensures
        match r {
            Ok(v) => spec_parse_moov(data@, *moov) == Ok::<Seq<TrackView>, ParseFail>(views_of(v@))
                && forall|i: int| 0 <= i < v@.len() ==> track_wf(#[trigger] v@[i]@),
            Err(e) => spec_parse_moov(data@, *moov) matches Err(f) && fail_matches(e, f),
        },
{
    let moov_end = match moov.offset.checked_add(moov.size) {
        Some(x) => x,
        None => return Err(AppError::IntegerOverflow),
    };
    let mut pos = match moov.offset.checked_add(moov.header_size as u64) {
        Some(x) => x,
        None => return Err(AppError::IntegerOverflow),
    };
    let ghost whole = spec_parse_moov(data@, *moov);
    let mut tracks: Vec<TrackInfo> = Vec::new();
    assert(views_of(tracks@) =~= Seq::<TrackView>::empty());
    loop
        invariant
            whole == spec_parse_moov(data@, *moov),
            whole == spec_moov_loop(data@, pos as int, moov_end as int, views_of(tracks@)),
            forall|i: int| 0 <= i < tracks@.len() ==> track_wf(#[trigger] tracks@[i]@),
        decreases moov_end - pos,
    {
        if pos >= moov_end {
            return Ok(tracks);
        }
        match read_box_header(data, pos)? {
            None => return Ok(tracks),
            Some(h) => {
                if h.box_type == BOX_TRAK {
                    match parse_trak(data, &h)? {
                        Some(t) => {
                            let ghost before = tracks@;
                            tracks.push(t);
                            assert(views_of(tracks@) =~= views_of(before).push(tracks@.last()@));
                        },
                        None => {},
                    }
                }
                let next = match h.offset.checked_add(h.size) {
                    Some(x) => x,
                    None => return Err(AppError::IntegerOverflow),
                };
                if next >= moov_end || next <= pos {
                    return Ok(tracks);
                }
                pos = next;
            },
        }
    }
}


// ============================================================================
// Sample locations
// ============================================================================

/// Size of sample number `i` (1-based), or 0 past the end of the table.
pub open spec fn sample_size_term(sizes: Seq<u32>, i: int) -> int {
    if 1 <= i && i - 1 < sizes.len() {
        sizes[i - 1] as int
    } else {
        0
    }
}

/// Total size of the samples numbered `from` up to (not including) `to`.
pub open spec fn sizes_sum(sizes: Seq<u32>, from: int, to: int) -> int
    decreases to - from,
{
    if to <= from {
        0
    } else {
        sizes_sum(sizes, from, to - 1) + sample_size_term(sizes, to - 1)
    }
}

/// Walking the chunks from chunk `chunk` (whose first sample is `first`) to
/// find the one holding sample `sn`; `spc` samples per chunk as of stsc entry
/// `idx`, which advances by at most one entry per chunk. The offset is the
/// chunk's offset plus the sizes of the samples before `sn` in that chunk.
/// A chunk whose last sample number would pass `u32::MAX`, a next chunk
/// that would start past it, or an offset past `u64::MAX`, gives no location.
pub open spec fn spec_chunk_walk(t: TrackView, sn: u32, first: int, chunk: int, spc: int, idx: int) -> Option<u64>
    decreases t.chunk_offsets.len() + 1 - chunk,
{
    if chunk > t.chunk_offsets.len() || chunk < 1 {
        None
    } else {
        let advance = idx + 1 < t.sample_to_chunk.len() && chunk >= t.sample_to_chunk[idx + 1].first_chunk;
        let idx2 = if advance { idx + 1 } else { idx };
        let spc2 = if advance { t.sample_to_chunk[idx + 1].samples_per_chunk as int } else { spc };
        if first + spc2 - 1 > u32::MAX {
            None
        } else {
            let last = first + spc2 - 1;
            if first <= sn && sn <= last {
                let o = t.chunk_offsets[chunk - 1] + sizes_sum(t.sample_sizes, first, sn as int);
                if o > u64::MAX {
                    None
                } else {
                    Some(o as u64)
                }
            } else if last + 1 > u32::MAX || chunk + 1 > u32::MAX {
                None
            } else {
                spec_chunk_walk(t, sn, last + 1, chunk + 1, spc2, idx2)
            }
        }
    }
}

/// File offset of sample number `sn` (1-based).
pub open spec fn spec_sample_offset(t: TrackView, sn: u32) -> Option<u64> {
    if t.sample_to_chunk.len() == 0 || t.chunk_offsets.len() == 0 {
        None
    } else {
        spec_chunk_walk(t, sn, 1, 1, t.sample_to_chunk[0].samples_per_chunk as int, 0)
    }
}

/// Gets the file offset of a sample (1-based).
fn get_sample_offset(track: &TrackInfo, sample_num: u32) -> (r: Option<u64>)
    requires
        track_wf(track@),
    ensures
        r == spec_sample_offset(track@, sample_num),
{
    if track.sample_to_chunk.len() == 0 || track.chunk_offsets.len() == 0 {
        return None;
    }
    let ghost t = track@;
    let mut current_sample: u32 = 1;
    let mut current_chunk: u32 = 1;
    let mut samples_per_chunk: u32 = track.sample_to_chunk[0].samples_per_chunk;
    let mut stsc_idx: usize = 0;
    let chunk_count = track.chunk_offsets.len() as u32;
    let stsc_len = track.sample_to_chunk.len();
    loop
        invariant
            t == track@,
            stsc_len == t.sample_to_chunk.len(),
            1 <= current_sample,
            track_wf(t),
            chunk_count == t.chunk_offsets.len(),
            1 <= current_chunk,
            stsc_idx < t.sample_to_chunk.len(),
            spec_sample_offset(t, sample_num) == spec_chunk_walk(t, sample_num, current_sample as int,
                current_chunk as int, samples_per_chunk as int, stsc_idx as int),
        decreases t.chunk_offsets.len() + 1 - current_chunk,
    {
        if current_chunk > chunk_count {
            return None;
        }
        if stsc_idx + 1 < stsc_len {
            if current_chunk >= track.sample_to_chunk[stsc_idx + 1].first_chunk {
                stsc_idx = stsc_idx + 1;
                samples_per_chunk = track.sample_to_chunk[stsc_idx].samples_per_chunk;
            }
        }
        let chunk_end_sample = if samples_per_chunk == 0 {
            current_sample - 1
        } else {
            match current_sample.checked_add(samples_per_chunk - 1) {
                Some(x) => x,
                None => return None,
            }
        };
        if sample_num >= current_sample && sample_num <= chunk_end_sample {
            let chunk_offset = track.chunk_offsets[(current_chunk - 1) as usize];
            let mut offset_in_chunk: u64 = 0;
            let mut i: u32 = current_sample;
            while i < sample_num
                invariant
                    t == track@,
                    1 <= current_sample <= i <= sample_num,
                    offset_in_chunk == sizes_sum(t.sample_sizes, current_sample as int, i as int),
                    offset_in_chunk <= (i - current_sample) * 0xffff_ffffu64,
                decreases sample_num - i,
            {
                let idx = (i - 1) as usize;
                proof {
                    assert(offset_in_chunk + 0xffff_ffffu64 <= (i + 1 - current_sample) * 0xffff_ffffu64)
                        by (nonlinear_arith)
                        requires
                            offset_in_chunk <= (i - current_sample) * 0xffff_ffffu64,
                    ;
                    assert((i + 1 - current_sample) * 0xffff_ffffu64 <= 0x1_0000_0000u64 * 0xffff_ffffu64)
                        by (nonlinear_arith)
                        requires
                            i + 1 - current_sample <= 0x1_0000_0000u64,
                    ;
                }
                if idx < track.sample_sizes.len() {
                    offset_in_chunk = offset_in_chunk + track.sample_sizes[idx] as u64;
                }
                i = i + 1;
            }
            return chunk_offset.checked_add(offset_in_chunk);
        }
        if chunk_end_sample == u32::MAX || current_chunk == u32::MAX {
            return None;
        }
        current_sample = chunk_end_sample + 1;
        current_chunk = current_chunk + 1;
    }
}

// ============================================================================
// Where samples lie: laws
// ============================================================================

/// Whether the sample-to-chunk runs are well formed: there is at least one,
/// the first starts at chunk 1, and each later run starts at a later chunk.
pub open spec fn stsc_well_formed(s: Seq<StscEntry>) -> bool {
    &&& s.len() > 0
    &&& s[0].first_chunk == 1
    &&& forall|i: int, j: int| 0 <= i < j < s.len() ==> s[i].first_chunk < s[j].first_chunk
}

/// The run that covers chunk `c`: the last one that starts at or before `c`.
pub open spec fn run_at(s: Seq<StscEntry>, c: int) -> int
    decreases s.len(),
{
    if s.len() <= 1 {
        0
    } else if s.last().first_chunk <= c {
        s.len() - 1
    } else {
        run_at(s.drop_last(), c)
    }
}

/// Number of samples in chunk `c`: the samples per chunk of its run.
pub open spec fn chunk_samples(t: TrackView, c: int) -> int {
    t.sample_to_chunk[run_at(t.sample_to_chunk, c)].samples_per_chunk as int
}

/// Number of the first sample of chunk `c`: samples are numbered from 1
/// through the chunks in order, each chunk taking as many as it holds.
pub open spec fn chunk_first_sample(t: TrackView, c: int) -> int
    decreases c,
{
    if c <= 1 {
        1
    } else {
        chunk_first_sample(t, c - 1) + chunk_samples(t, c - 1)
    }
}

/// The run found for chunk `c` starts at or before `c`, and the next run
/// (if any) after it.
proof fn lemma_run_at(s: Seq<StscEntry>, c: int)
    requires
        stsc_well_formed(s),
        c >= 1,
    ensures
        0 <= run_at(s, c) < s.len(),
        s[run_at(s, c)].first_chunk <= c,
        run_at(s, c) + 1 < s.len() ==> s[run_at(s, c) + 1].first_chunk > c,
    decreases s.len(),
{
    if s.len() > 1 && s.last().first_chunk > c {
        let s2 = s.drop_last();
        assert(stsc_well_formed(s2)) by {
            assert forall|i: int, j: int| 0 <= i < j < s2.len() implies s2[i].first_chunk < s2[j].first_chunk by {
                assert(s2[i] == s[i] && s2[j] == s[j]);
            }
        }
        lemma_run_at(s2, c);
        let r = run_at(s2, c);
        assert(s2[r] == s[r]);
        if r + 1 < s2.len() {
            assert(s2[r + 1] == s[r + 1]);
        }
    }
}

/// A run that starts at or before `c`, followed by none or by one starting
/// after `c`, is the run found for `c`.
proof fn lemma_run_at_unique(s: Seq<StscEntry>, c: int, i: int)
    requires
        stsc_well_formed(s),
        c >= 1,
        0 <= i < s.len(),
        s[i].first_chunk <= c,
        i + 1 < s.len() ==> s[i + 1].first_chunk > c,
    ensures
        run_at(s, c) == i,
{
    lemma_run_at(s, c);
    let r = run_at(s, c);
    if r < i {
        if r + 1 < i {
            assert(s[r + 1].first_chunk < s[i].first_chunk);
        }
    } else if r > i {
        if i + 1 < r {
            assert(s[i + 1].first_chunk < s[r].first_chunk);
        }
    }
}

/// Sizes add up to no less than zero.
proof fn lemma_sizes_sum_nonneg(sizes: Seq<u32>, from: int, to: int)
    ensures
        sizes_sum(sizes, from, to) >= 0,
    decreases to - from,
{
    if to > from {
        lemma_sizes_sum_nonneg(sizes, from, to - 1);
    }
}

/// Later chunks start at later (or the same) sample numbers.
proof fn lemma_chunk_first_monotone(t: TrackView, k: int, c: int)
    requires
        1 <= k <= c,
    ensures
        chunk_first_sample(t, k) <= chunk_first_sample(t, c),
    decreases c - k,
{
    if k < c {
        lemma_chunk_first_monotone(t, k, c - 1);
    }
}

/// The walk over the chunks, started at chunk `k` as it stands there, finds
/// sample `sn` of chunk `c` at the chunk's offset plus the sizes of the
/// samples before it in the chunk.
proof fn lemma_walk_reaches(t: TrackView, sn: u32, c: int, k: int)
    requires
        stsc_well_formed(t.sample_to_chunk),
        track_wf(t),
        1 <= k <= c <= t.chunk_offsets.len(),
        chunk_first_sample(t, c) <= sn < chunk_first_sample(t, c) + chunk_samples(t, c),
        chunk_first_sample(t, c) + chunk_samples(t, c) - 1 <= u32::MAX,
        t.chunk_offsets[c - 1] + sizes_sum(t.sample_sizes, chunk_first_sample(t, c), sn as int) <= u64::MAX,
    ensures
        ({
            let s = t.sample_to_chunk;
            let p = if k == 1 { 0 } else { run_at(s, k - 1) };
            spec_chunk_walk(t, sn, chunk_first_sample(t, k), k, s[p].samples_per_chunk as int, p) == Some(
                (t.chunk_offsets[c - 1] + sizes_sum(t.sample_sizes, chunk_first_sample(t, c), sn as int)) as u64,
            )
        }),
    decreases c - k,
{
    let s = t.sample_to_chunk;
    let p = if k == 1 { 0 } else { run_at(s, k - 1) };
    if k == 1 {
        if 1 < s.len() {
            assert(s[0].first_chunk < s[1].first_chunk);
        }
        lemma_run_at_unique(s, 1, 0);
    } else {
        lemma_run_at(s, k - 1);
        if p + 1 < s.len() && k >= s[p + 1].first_chunk {
            if p + 2 < s.len() {
                assert(s[p + 1].first_chunk < s[p + 2].first_chunk);
            }
            lemma_run_at_unique(s, k, p + 1);
        } else {
            lemma_run_at_unique(s, k, p);
        }
    }
    lemma_run_at(s, k);
    if k < c {
        lemma_chunk_first_monotone(t, k + 1, c);
        lemma_walk_reaches(t, sn, c, k + 1);
    }
}

/// Where sample `sn` lies, when it is in chunk `c` (as the runs number the
/// samples): at the chunk's offset plus the sizes of the samples of that
/// chunk before it.
pub proof fn lemma_sample_in_chunk(t: TrackView, sn: u32, c: int)
    requires
        stsc_well_formed(t.sample_to_chunk),
        track_wf(t),
        1 <= c <= t.chunk_offsets.len(),
        chunk_first_sample(t, c) <= sn < chunk_first_sample(t, c) + chunk_samples(t, c),
        chunk_first_sample(t, c) + chunk_samples(t, c) - 1 <= u32::MAX,
        t.chunk_offsets[c - 1] + sizes_sum(t.sample_sizes, chunk_first_sample(t, c), sn as int) <= u64::MAX,
    ensures
        spec_sample_offset(t, sn) == Some(
            (t.chunk_offsets[c - 1] + sizes_sum(t.sample_sizes, chunk_first_sample(t, c), sn as int)) as u64,
        ),
{
    lemma_walk_reaches(t, sn, c, 1);
}

/// The first sample of a chunk lies at the chunk's offset (from stco or
/// co64). A chunk holds the samples per chunk of the last run that starts
/// at or before it, and samples are given to the chunks in order.
pub proof fn lemma_chunk_starts_with_its_first_sample(t: TrackView, c: int)
    requires
        stsc_well_formed(t.sample_to_chunk),
        track_wf(t),
        1 <= c <= t.chunk_offsets.len(),
        chunk_samples(t, c) >= 1,
        chunk_first_sample(t, c) + chunk_samples(t, c) - 1 <= u32::MAX,
    ensures
        spec_sample_offset(t, chunk_first_sample(t, c) as u32) == Some(t.chunk_offsets[c - 1]),
{
    lemma_chunk_first_monotone(t, 1, c);
    let f = chunk_first_sample(t, c);
    assert(sizes_sum(t.sample_sizes, f, f) == 0);
    lemma_sample_in_chunk(t, f as u32, c);
}

/// Two samples in a row in the same chunk lie one after the other: the
/// second starts where the first ends.
pub proof fn lemma_next_sample_in_chunk_follows(t: TrackView, c: int, s: u32)
    requires
        stsc_well_formed(t.sample_to_chunk),
        track_wf(t),
        1 <= c <= t.chunk_offsets.len(),
        chunk_first_sample(t, c) <= s,
        s + 1 < chunk_first_sample(t, c) + chunk_samples(t, c),
        chunk_first_sample(t, c) + chunk_samples(t, c) - 1 <= u32::MAX,
        1 <= s <= t.sample_sizes.len(),
        t.chunk_offsets[c - 1] + sizes_sum(t.sample_sizes, chunk_first_sample(t, c), s + 1) <= u64::MAX,
    ensures
        spec_sample_offset(t, s) matches Some(o) && spec_sample_offset(t, (s + 1) as u32) == Some(
            (o + t.sample_sizes[s - 1]) as u64,
        ),
{
    let f = chunk_first_sample(t, c);
    assert(sizes_sum(t.sample_sizes, f, s + 1) == sizes_sum(t.sample_sizes, f, s as int) + t.sample_sizes[s - 1]);
    let s1 = (s + 1) as u32;
    assert(s1 as int == s + 1);
    let a = t.chunk_offsets[c - 1] + sizes_sum(t.sample_sizes, f, s as int);
    let b = t.chunk_offsets[c - 1] + sizes_sum(t.sample_sizes, f, s1 as int);
    assert(b == a + t.sample_sizes[s - 1]);
    lemma_sizes_sum_nonneg(t.sample_sizes, f, s as int);
    assert(0 <= a <= b <= u64::MAX);
    lemma_sample_in_chunk(t, s, c);
    lemma_sample_in_chunk(t, s1, c);
    assert(spec_sample_offset(t, s) == Some(a as u64));
    assert(spec_sample_offset(t, s1) == Some(b as u64));
    assert((a as u64) + t.sample_sizes[s - 1] == b);
}

/// Offset and size of sample `s` (1-based), when it exists and can be located.
pub open spec fn spec_sample_entry(t: TrackView, s: u32) -> Option<(u64, usize)> {
    if s == 0 || s > t.sample_sizes.len() {
        None
    } else {
        match spec_sample_offset(t, s) {
            Some(o) => Some((o, t.sample_sizes[s - 1] as usize)),
            None => None,
        }
    }
}

/// The samples to locate: the sync samples when only keyframes are wanted and
/// the track has a sync table, otherwise every sample.
pub open spec fn spec_target_samples(t: TrackView, keyframes_only: bool) -> Seq<u32> {
    if keyframes_only && t.sync_samples.len() > 0 {
        t.sync_samples
    } else {
        Seq::new(t.sample_sizes.len(), |i: int| (i + 1) as u32)
    }
}

/// Offset and size of each target sample that can be located, in order.
pub open spec fn spec_sample_offsets(t: TrackView, keyframes_only: bool) -> Seq<(u64, usize)> {
    if t.sample_sizes.len() == 0 || t.chunk_offsets.len() == 0 {
        seq![]
    } else {
        spec_target_samples(t, keyframes_only).filter_map(|s: u32| spec_sample_entry(t, s))
    }
}

/// Calculates the file offset and size of each target sample.
fn calculate_sample_offsets(track: &TrackInfo, keyframes_only: bool) -> (r: Vec<(u64, usize)>)
    requires
        track_wf(track@),
    ensures
        r@ == spec_sample_offsets(track@, keyframes_only),
{
    if track.sample_sizes.len() == 0 || track.chunk_offsets.len() == 0 {
        return Vec::new();
    }
    let ghost t = track@;
    let mut targets: Vec<u32> = Vec::new();
    if keyframes_only && track.sync_samples.len() > 0 {
        let mut k: usize = 0;
        while k < track.sync_samples.len()
            invariant
                t == track@,
                0 <= k <= t.sync_samples.len(),
                targets@ == t.sync_samples.subrange(0, k as int),
            decreases t.sync_samples.len() - k,
        {
            targets.push(track.sync_samples[k]);
            k = k + 1;
            assert(targets@ =~= t.sync_samples.subrange(0, k as int));
        }
        assert(targets@ =~= t.sync_samples);
    } else {
        let count = track.sample_sizes.len() as u32;
        let mut k: u32 = 0;
        while k < count
            invariant
                t == track@,
                count == t.sample_sizes.len(),
                0 <= k <= count,
                targets@ == Seq::new(k as nat, |i: int| (i + 1) as u32),
            decreases count - k,
        {
            targets.push(k + 1);
            k = k + 1;
            assert(targets@ =~= Seq::new(k as nat, |i: int| (i + 1) as u32));
        }
    }
    assert(targets@ == spec_target_samples(t, keyframes_only));
    let mut results: Vec<(u64, usize)> = Vec::new();
    let mut j: usize = 0;
    while j < targets.len()
        invariant
            t == track@,
            track_wf(t),
            0 <= j <= targets@.len(),
            targets@ == spec_target_samples(t, keyframes_only),
            results@ == targets@.subrange(0, j as int).filter_map(|s: u32| spec_sample_entry(t, s)),
        decreases targets@.len() - j,
    {
        let sample_num = targets[j];
        proof {
            let pre = targets@.subrange(0, j as int + 1);
            assert(pre.drop_last() =~= targets@.subrange(0, j as int));
            assert(pre.last() == sample_num);
        }
        if sample_num != 0 && (sample_num as usize) <= track.sample_sizes.len() {
            let sample_size = track.sample_sizes[(sample_num - 1) as usize] as usize;
            match get_sample_offset(track, sample_num) {
                Some(offset) => {
                    results.push((offset, sample_size));
                },
                None => {},
            }
        }
        j = j + 1;
    }
    assert(targets@.subrange(0, targets@.len() as int) =~= targets@);
    results
}


// ============================================================================
// Whole-file scan
// ============================================================================

/// Regions of the located samples, all of kind `kind`.
pub open spec fn sample_regions(samples: Seq<(u64, usize)>, kind: RegionKind) -> Seq<Region> {
    samples.map_values(|p: (u64, usize)| Region { offset: p.0, len: p.1, kind })
}

/// Regions of one track: keyframes of a video track; every sample of an audio
/// track when audio is encrypted; nothing otherwise.
pub open spec fn spec_track_regions(t: TrackView, enc_audio: bool) -> Seq<Region> {
    if t.handler_type == HANDLER_VIDE {
        sample_regions(spec_sample_offsets(t, true), RegionKind::VideoIFrame)
    } else if t.handler_type == HANDLER_SOUN && enc_audio {
        sample_regions(spec_sample_offsets(t, false), RegionKind::AudioSample)
    } else {
        seq![]
    }
}

/// Whether a track gives a region for sample `s`: a sample of the track
/// that is, for a video track, a sync sample (every sample when the track has
/// no sync table), and for an audio track, any sample when audio is
/// encrypted.
pub open spec fn wanted_sample(t: TrackView, enc_audio: bool, s: u32) -> bool {
    &&& 1 <= s <= t.sample_sizes.len()
    &&& ((t.handler_type == HANDLER_VIDE && (t.sync_samples.len() == 0 || t.sync_samples.contains(s))) || (
    t.handler_type == HANDLER_SOUN && enc_audio))
}

/// The kind of the regions of a track: keyframes of a video track, samples
/// otherwise.
pub open spec fn track_kind(t: TrackView) -> RegionKind {
    if t.handler_type == HANDLER_VIDE {
        RegionKind::VideoIFrame
    } else {
        RegionKind::AudioSample
    }
}

proof fn lemma_filter_map_has<A, B>(s: Seq<A>, f: spec_fn(A) -> Option<B>, a: A)
    requires
        s.contains(a),
        f(a) is Some,
    ensures
        s.filter_map(f).contains(f(a)->0),
    decreases s.len(),
{
    let rest = s.drop_last();
    if s.last() == a {
        assert(s.filter_map(f) == rest.filter_map(f) + seq![f(a)->0]);
        assert((rest.filter_map(f) + seq![f(a)->0])[rest.filter_map(f).len() as int] == f(a)->0);
    } else {
        let i = choose|i: int| 0 <= i < s.len() && s[i] == a;
        assert(i < s.len() - 1);
        assert(rest[i] == a);
        lemma_filter_map_has(rest, f, a);
        let j = choose|j: int| 0 <= j < rest.filter_map(f).len() && rest.filter_map(f)[j] == f(a)->0;
        match f(s.last()) {
            Some(x) => {
                assert(s.filter_map(f) == rest.filter_map(f) + seq![x]);
                assert(s.filter_map(f)[j] == f(a)->0);
            },
            None => {
                assert(s.filter_map(f) == rest.filter_map(f));
            },
        }
    }
}

/// The regions a track gives are exactly its wanted samples that can be
/// located: each region covers a wanted sample, at that sample's offset and
/// with its size; and each wanted sample that can be located has its region.
pub proof fn lemma_track_regions(t: TrackView, enc_audio: bool)
    ensures
        forall|r: Region| #[trigger] spec_track_regions(t, enc_audio).contains(r) ==> exists|s: u32|
            #[trigger] wanted_sample(t, enc_audio, s) && spec_sample_offset(t, s) == Some(r.offset) && r.len
                == t.sample_sizes[s - 1] as usize && r.kind == track_kind(t),
        forall|s: u32| #[trigger] wanted_sample(t, enc_audio, s) && spec_sample_offset(t, s) is Some ==> spec_track_regions(
            t,
            enc_audio,
        ).contains(Region { offset: spec_sample_offset(t, s)->0, len: t.sample_sizes[s - 1] as usize, kind: track_kind(t) }),
{
    broadcast use Seq::lemma_filter_map_contains;
    let vide = t.handler_type == HANDLER_VIDE;
    let gives = vide || (t.handler_type == HANDLER_SOUN && enc_audio);
    let kind = track_kind(t);
    let f = |s: u32| spec_sample_entry(t, s);
    let targets = spec_target_samples(t, vide);
    let offs = spec_sample_offsets(t, vide);
    assert forall|r: Region| #[trigger] spec_track_regions(t, enc_audio).contains(r) implies exists|s: u32|
        #[trigger] wanted_sample(t, enc_audio, s) && spec_sample_offset(t, s) == Some(r.offset) && r.len
            == t.sample_sizes[s - 1] as usize && r.kind == track_kind(t) by {
        assert(gives);
        assert(spec_track_regions(t, enc_audio) == sample_regions(offs, kind));
        let i = choose|i: int| 0 <= i < sample_regions(offs, kind).len() && sample_regions(offs, kind)[i] == r;
        let p = offs[i];
        assert(r == Region { offset: p.0, len: p.1, kind });
        assert(offs.contains(p));
        assert(t.sample_sizes.len() > 0 && t.chunk_offsets.len() > 0);
        assert(offs == targets.filter_map(f));
        assert(targets.filter_map(f).contains(p));
        let s = choose|s: u32| #[trigger] targets.contains(s) && f(s) == Some(p);
        assert(spec_sample_entry(t, s) == Some(p));
        assert(wanted_sample(t, enc_audio, s));
    }
    assert forall|s: u32| #[trigger] wanted_sample(t, enc_audio, s) && spec_sample_offset(t, s) is Some implies spec_track_regions(
        t,
        enc_audio,
    ).contains(Region { offset: spec_sample_offset(t, s)->0, len: t.sample_sizes[s - 1] as usize, kind: track_kind(t) }) by {
        assert(gives);
        assert(t.sample_to_chunk.len() > 0 && t.chunk_offsets.len() > 0);
        if vide && t.sync_samples.len() > 0 {
            assert(targets == t.sync_samples);
        } else {
            assert(targets == Seq::new(t.sample_sizes.len(), |i: int| (i + 1) as u32));
            assert(targets[s - 1] == s);
        }
        assert(targets.contains(s));
        let p = (spec_sample_offset(t, s)->0, t.sample_sizes[s - 1] as usize);
        assert(f(s) == Some(p));
        lemma_filter_map_has(targets, f, s);
        assert(offs.contains(p));
        let i = choose|i: int| 0 <= i < offs.len() && offs[i] == p;
        assert(sample_regions(offs, kind)[i] == Region { offset: p.0, len: p.1, kind });
        assert(spec_track_regions(t, enc_audio) == sample_regions(offs, kind));
    }
}

/// Regions of all tracks, track after track.
pub open spec fn spec_tracks_regions(tracks: Seq<TrackView>, enc_audio: bool) -> Seq<Region>
    decreases tracks.len(),
{
    if tracks.len() == 0 {
        seq![]
    } else {
        spec_tracks_regions(tracks.drop_last(), enc_audio) + spec_track_regions(tracks.last(), enc_audio)
    }
}

/// The metadata region: the payload of moov > udta > meta > ilst, when it is
/// non-empty and shorter than `u32::MAX` bytes.
pub open spec fn spec_metadata_region(d: Seq<u8>, moov: BoxHeader) -> Result<Option<Region>, ParseFail> {
    match spec_find_box_in(d, BOX_UDTA, moov) {
        Err(f) => Err(f),
        Ok(None) => Ok(None),
        Ok(Some(udta)) => match spec_find_box_in(d, BOX_META, udta) {
            Err(f) => Err(f),
            Ok(None) => Ok(None),
            Ok(Some(meta)) => match spec_find_box_in(d, BOX_ILST, meta) {
                Err(f) => Err(f),
                Ok(None) => Ok(None),
                Ok(Some(ilst)) => if box_content(ilst) > u64::MAX {
                    Err(ParseFail::Overflow)
                } else if ilst.size < ilst.header_size {
                    Ok(None)
                } else {
                    let len = ilst.size - ilst.header_size;
                    if len > 0 && len < u32::MAX {
                        Ok(Some(Region { offset: box_content(ilst) as u64, len: len as usize, kind: RegionKind::Metadata }))
                    } else {
                        Ok(None)
                    }
                },
            },
        },
    }
}

/// The regions an MP4 scan collects, before sorting: those of each track of
/// the top-level moov box, then, when `scrub_metadata`, the metadata region.
#[verifier::opaque]
pub open spec fn spec_mp4_collect(d: Seq<u8>, enc_audio: bool, scrub_metadata: bool) -> Result<Seq<Region>, ParseFail> {
    match spec_find_box(d, BOX_MOOV, 0, d.len() as int) {
        Err(f) => Err(f),
        Ok(None) => Err(ParseFail::Invalid("No moov box found"@)),
        Ok(Some(moov)) => match spec_parse_moov(d, moov) {
            Err(f) => Err(f),
            Ok(tracks) => {
                let base = spec_tracks_regions(tracks, enc_audio);
                if scrub_metadata {
                    match spec_metadata_region(d, moov) {
                        Err(f) => Err(f),
                        Ok(None) => within_or_eof(base, d.len() as int),
                        Ok(Some(r)) => within_or_eof(base.push(r), d.len() as int),
                    }
                } else {
                    within_or_eof(base, d.len() as int)
                }
            },
        },
    }
}

/// The regions when they all lie inside the `len` bytes of the file; a
/// region that reaches past the end is an error.
pub open spec fn within_or_eof(rs: Seq<Region>, len: int) -> Result<Seq<Region>, ParseFail> {
    if regions_within(rs, len) {
        Ok(rs)
    } else {
        Err(ParseFail::Eof)
    }
}

/// Whether every region lies inside the `len` bytes of the file.
fn all_within(regions: &Vec<Region>, len: usize) -> (b: bool)
    ensures
        b == regions_within(regions@, len as int),
{
    let mut i: usize = 0;
    while i < regions.len()
        invariant
            0 <= i <= regions@.len(),
            forall|k: int| 0 <= k < i ==> #[trigger] regions@[k].offset + regions@[k].len <= len,
        decreases regions@.len() - i,
    {
        let r = regions[i];
        match r.offset.checked_add(r.len as u64) {
            Some(end) => {
                if end > len as u64 {
                    return false;
                }
            },
            None => return false,
        }
        i = i + 1;
    }
    true
}

fn push_sample_regions(regions: &mut Vec<Region>, samples: &Vec<(u64, usize)>, kind: RegionKind)
    ensures
        final(regions)@ == old(regions)@ + sample_regions(samples@, kind),
        forall|k: int| old(regions)@.len() <= k < final(regions)@.len() ==> (#[trigger] final(regions)@[k]).kind == kind,
{
    let ghost start = regions@;
    let mut i: usize = 0;
    while i < samples.len()
        invariant
            0 <= i <= samples@.len(),
            regions@ == start + sample_regions(samples@.subrange(0, i as int), kind),
        decreases samples@.len() - i,
    {
        let (offset, len) = samples[i];
        regions.push(Region { offset, len, kind });
        i = i + 1;
        assert(regions@ =~= start + sample_regions(samples@.subrange(0, i as int), kind));
    }
    assert(samples@.subrange(0, samples@.len() as int) =~= samples@);
}

/// The metadata region, when there is one, is of kind `Metadata`.
proof fn lemma_metadata_region_kind(d: Seq<u8>, moov: BoxHeader)
    ensures
        spec_metadata_region(d, moov) matches Ok(Some(r)) ==> r.kind == RegionKind::Metadata,
{
}

fn metadata_region(data: &[u8], moov: &BoxHeader) -> (r: Result<Option<Region>, AppError>)
    ensures
        match r {
            Ok(o) => spec_metadata_region(data@, *moov) == Ok::<Option<Region>, ParseFail>(o),
            Err(e) => spec_metadata_region(data@, *moov) matches Err(f) && fail_matches(e, f),
        },
{
    let udta = match find_box_in(data, BOX_UDTA, moov)? {
        Some(b) => b,
        None => return Ok(None),
    };
    let meta = match find_box_in(data, BOX_META, &udta)? {
        Some(b) => b,
        None => return Ok(None),
    };
    let ilst = match find_box_in(data, BOX_ILST, &meta)? {
        Some(b) => b,
        None => return Ok(None),
    };
    let content_offset = match ilst.offset.checked_add(ilst.header_size as u64) {
        Some(x) => x,
        None => return Err(AppError::IntegerOverflow),
    };
    if ilst.size < ilst.header_size as u64 {
        return Ok(None);
    }
    let content_len = ilst.size - ilst.header_size as u64;
    if content_len > 0 && content_len < 0xffff_ffffu64 {
        Ok(Some(Region { offset: content_offset, len: content_len as usize, kind: RegionKind::Metadata }))
    } else {
        Ok(None)
    }
}

// ============================================================================
// A minimal file
// ============================================================================

/// The first 172 bytes of a minimal MP4 file: an ftyp box, then a moov box
/// with one video track (handler "vide") of one 16-byte sample, a sync
/// sample, in one chunk at offset 172; then the header of the mdat box.
pub open spec fn minimal_mp4_prefix() -> Seq<u8> {
    seq![0x00u8, 0x00u8, 0x00u8, 0x10u8, 0x66u8, 0x74u8, 0x79u8, 0x70u8, 0x69u8, 0x73u8, 0x6Fu8, 0x6Du8, 0x00u8, 0x00u8, 0x00u8, 0x00u8, 0x00u8, 0x00u8, 0x00u8, 0x94u8, 0x6Du8, 0x6Fu8, 0x6Fu8, 0x76u8, 0x00u8, 0x00u8, 0x00u8, 0x8Cu8, 0x74u8, 0x72u8, 0x61u8, 0x6Bu8, 0x00u8, 0x00u8, 0x00u8, 0x84u8, 0x6Du8, 0x64u8, 0x69u8, 0x61u8, 0x00u8, 0x00u8, 0x00u8, 0x14u8, 0x68u8, 0x64u8, 0x6Cu8, 0x72u8, 0x00u8, 0x00u8, 0x00u8, 0x00u8, 0x00u8, 0x00u8, 0x00u8, 0x00u8, 0x76u8, 0x69u8, 0x64u8, 0x65u8, 0x00u8, 0x00u8, 0x00u8, 0x68u8, 0x6Du8, 0x69u8, 0x6Eu8, 0x66u8, 0x00u8, 0x00u8, 0x00u8, 0x60u8, 0x73u8, 0x74u8, 0x62u8, 0x6Cu8, 0x00u8, 0x00u8, 0x00u8, 0x14u8, 0x73u8, 0x74u8, 0x73u8, 0x73u8, 0x00u8, 0x00u8, 0x00u8, 0x00u8, 0x00u8, 0x00u8, 0x00u8, 0x01u8, 0x00u8, 0x00u8, 0x00u8, 0x01u8, 0x00u8, 0x00u8, 0x00u8, 0x14u8, 0x73u8, 0x74u8, 0x73u8, 0x7Au8, 0x00u8, 0x00u8, 0x00u8, 0x00u8, 0x00u8, 0x00u8, 0x00u8, 0x10u8, 0x00u8, 0x00u8, 0x00u8, 0x01u8, 0x00u8, 0x00u8, 0x00u8, 0x1Cu8, 0x73u8, 0x74u8, 0x73u8, 0x63u8, 0x00u8, 0x00u8, 0x00u8, 0x00u8, 0x00u8, 0x00u8, 0x00u8, 0x01u8, 0x00u8, 0x00u8, 0x00u8, 0x01u8, 0x00u8, 0x00u8, 0x00u8, 0x01u8, 0x00u8, 0x00u8, 0x00u8, 0x01u8, 0x00u8, 0x00u8, 0x00u8, 0x14u8, 0x73u8, 0x74u8, 0x63u8, 0x6Fu8, 0x00u8, 0x00u8, 0x00u8, 0x00u8, 0x00u8, 0x00u8, 0x00u8, 0x01u8, 0x00u8, 0x00u8, 0x00u8, 0xACu8, 0x00u8, 0x00u8, 0x00u8, 0x18u8, 0x6Du8, 0x64u8, 0x61u8, 0x74u8]
}

/// The minimal MP4 file: its prefix and the 16 bytes of its sample.
pub open spec fn minimal_mp4_file() -> Seq<u8> {
    minimal_mp4_prefix() + Seq::new(16, |i: int| 0x55u8)
}

/// The one region of the minimal file: its keyframe sample.
pub open spec fn minimal_mp4_region() -> Region {
    Region { offset: 172, len: 16, kind: RegionKind::VideoIFrame }
}

/// The big-endian words that a scan reads in a file that begins like the
/// minimal file.
proof fn lemma_minimal_mp4_words(e: Seq<u8>)
    requires
        e.len() >= 172,
        forall|i: int| 0 <= i < 172 ==> e[i] == #[trigger] minimal_mp4_prefix()[i],
    ensures
        be_u32_at(e, 0) == 0x00000010,
        be_u32_at(e, 4) == 0x66747970,
        be_u32_at(e, 16) == 0x00000094,
        be_u32_at(e, 20) == 0x6D6F6F76,
        be_u32_at(e, 24) == 0x0000008C,
        be_u32_at(e, 28) == 0x7472616B,
        be_u32_at(e, 32) == 0x00000084,
        be_u32_at(e, 36) == 0x6D646961,
        be_u32_at(e, 40) == 0x00000014,
        be_u32_at(e, 44) == 0x68646C72,
        be_u32_at(e, 56) == 0x76696465,
        be_u32_at(e, 60) == 0x00000068,
        be_u32_at(e, 64) == 0x6D696E66,
        be_u32_at(e, 68) == 0x00000060,
        be_u32_at(e, 72) == 0x7374626C,
        be_u32_at(e, 76) == 0x00000014,
        be_u32_at(e, 80) == 0x73747373,
        be_u32_at(e, 88) == 0x00000001,
        be_u32_at(e, 92) == 0x00000001,
        be_u32_at(e, 96) == 0x00000014,
        be_u32_at(e, 100) == 0x7374737A,
        be_u32_at(e, 108) == 0x00000010,
        be_u32_at(e, 112) == 0x00000001,
        be_u32_at(e, 116) == 0x0000001C,
        be_u32_at(e, 120) == 0x73747363,
        be_u32_at(e, 128) == 0x00000001,
        be_u32_at(e, 132) == 0x00000001,
        be_u32_at(e, 136) == 0x00000001,
        be_u32_at(e, 140) == 0x00000001,
        be_u32_at(e, 144) == 0x00000014,
        be_u32_at(e, 148) == 0x7374636F,
        be_u32_at(e, 156) == 0x00000001,
        be_u32_at(e, 160) == 0x000000AC,
{
    let h = minimal_mp4_prefix();
    assert(e[0] == h[0]);
    assert(e[1] == h[1]);
    assert(e[2] == h[2]);
    assert(e[3] == h[3]);
    assert(e[4] == h[4]);
    assert(e[5] == h[5]);
    assert(e[6] == h[6]);
    assert(e[7] == h[7]);
    assert(e[8] == h[8]);
    assert(e[9] == h[9]);
    assert(e[10] == h[10]);
    assert(e[11] == h[11]);
    assert(e[12] == h[12]);
    assert(e[13] == h[13]);
    assert(e[14] == h[14]);
    assert(e[15] == h[15]);
    assert(e[16] == h[16]);
    assert(e[17] == h[17]);
    assert(e[18] == h[18]);
    assert(e[19] == h[19]);
    assert(e[20] == h[20]);
    assert(e[21] == h[21]);
    assert(e[22] == h[22]);
    assert(e[23] == h[23]);
    assert(e[24] == h[24]);
    assert(e[25] == h[25]);
    assert(e[26] == h[26]);
    assert(e[27] == h[27]);
    assert(e[28] == h[28]);
    assert(e[29] == h[29]);
    assert(e[30] == h[30]);
    assert(e[31] == h[31]);
    assert(e[32] == h[32]);
    assert(e[33] == h[33]);
    assert(e[34] == h[34]);
    assert(e[35] == h[35]);
    assert(e[36] == h[36]);
    assert(e[37] == h[37]);
    assert(e[38] == h[38]);
    assert(e[39] == h[39]);
    assert(e[40] == h[40]);
    assert(e[41] == h[41]);
    assert(e[42] == h[42]);
    assert(e[43] == h[43]);
    assert(e[44] == h[44]);
    assert(e[45] == h[45]);
    assert(e[46] == h[46]);
    assert(e[47] == h[47]);
    assert(e[48] == h[48]);
    assert(e[49] == h[49]);
    assert(e[50] == h[50]);
    assert(e[51] == h[51]);
    assert(e[52] == h[52]);
    assert(e[53] == h[53]);
    assert(e[54] == h[54]);
    assert(e[55] == h[55]);
    assert(e[56] == h[56]);
    assert(e[57] == h[57]);
    assert(e[58] == h[58]);
    assert(e[59] == h[59]);
    assert(e[60] == h[60]);
    assert(e[61] == h[61]);
    assert(e[62] == h[62]);
    assert(e[63] == h[63]);
    assert(e[64] == h[64]);
    assert(e[65] == h[65]);
    assert(e[66] == h[66]);
    assert(e[67] == h[67]);
    assert(e[68] == h[68]);
    assert(e[69] == h[69]);
    assert(e[70] == h[70]);
    assert(e[71] == h[71]);
    assert(e[72] == h[72]);
    assert(e[73] == h[73]);
    assert(e[74] == h[74]);
    assert(e[75] == h[75]);
    assert(e[76] == h[76]);
    assert(e[77] == h[77]);
    assert(e[78] == h[78]);
    assert(e[79] == h[79]);
    assert(e[80] == h[80]);
    assert(e[81] == h[81]);
    assert(e[82] == h[82]);
    assert(e[83] == h[83]);
    assert(e[84] == h[84]);
    assert(e[85] == h[85]);
    assert(e[86] == h[86]);
    assert(e[87] == h[87]);
    assert(e[88] == h[88]);
    assert(e[89] == h[89]);
    assert(e[90] == h[90]);
    assert(e[91] == h[91]);
    assert(e[92] == h[92]);
    assert(e[93] == h[93]);
    assert(e[94] == h[94]);
    assert(e[95] == h[95]);
    assert(e[96] == h[96]);
    assert(e[97] == h[97]);
    assert(e[98] == h[98]);
    assert(e[99] == h[99]);
    assert(e[100] == h[100]);
    assert(e[101] == h[101]);
    assert(e[102] == h[102]);
    assert(e[103] == h[103]);
    assert(e[104] == h[104]);
    assert(e[105] == h[105]);
    assert(e[106] == h[106]);
    assert(e[107] == h[107]);
    assert(e[108] == h[108]);
    assert(e[109] == h[109]);
    assert(e[110] == h[110]);
    assert(e[111] == h[111]);
    assert(e[112] == h[112]);
    assert(e[113] == h[113]);
    assert(e[114] == h[114]);
    assert(e[115] == h[115]);
    assert(e[116] == h[116]);
    assert(e[117] == h[117]);
    assert(e[118] == h[118]);
    assert(e[119] == h[119]);
    assert(e[120] == h[120]);
    assert(e[121] == h[121]);
    assert(e[122] == h[122]);
    assert(e[123] == h[123]);
    assert(e[124] == h[124]);
    assert(e[125] == h[125]);
    assert(e[126] == h[126]);
    assert(e[127] == h[127]);
    assert(e[128] == h[128]);
    assert(e[129] == h[129]);
    assert(e[130] == h[130]);
    assert(e[131] == h[131]);
    assert(e[132] == h[132]);
    assert(e[133] == h[133]);
    assert(e[134] == h[134]);
    assert(e[135] == h[135]);
    assert(e[136] == h[136]);
    assert(e[137] == h[137]);
    assert(e[138] == h[138]);
    assert(e[139] == h[139]);
    assert(e[140] == h[140]);
    assert(e[141] == h[141]);
    assert(e[142] == h[142]);
    assert(e[143] == h[143]);
    assert(e[144] == h[144]);
    assert(e[145] == h[145]);
    assert(e[146] == h[146]);
    assert(e[147] == h[147]);
    assert(e[148] == h[148]);
    assert(e[149] == h[149]);
    assert(e[150] == h[150]);
    assert(e[151] == h[151]);
    assert(e[152] == h[152]);
    assert(e[153] == h[153]);
    assert(e[154] == h[154]);
    assert(e[155] == h[155]);
    assert(e[156] == h[156]);
    assert(e[157] == h[157]);
    assert(e[158] == h[158]);
    assert(e[159] == h[159]);
    assert(e[160] == h[160]);
    assert(e[161] == h[161]);
    assert(e[162] == h[162]);
    assert(e[163] == h[163]);
    assert(e[164] == h[164]);
    assert(e[165] == h[165]);
    assert(e[166] == h[166]);
    assert(e[167] == h[167]);
    assert(e[168] == h[168]);
    assert(e[169] == h[169]);
    assert(e[170] == h[170]);
    assert(e[171] == h[171]);
}

/// A box header of 8 bytes.
spec fn box8(box_type: u32, size: u64, offset: u64) -> BoxHeader {
    BoxHeader { box_type, size, offset, header_size: 8 }
}

/// The track of the minimal file.
pub open spec fn minimal_mp4_track() -> TrackView {
    TrackView {
        handler_type: HANDLER_VIDE,
        sync_samples: seq![1u32],
        sample_sizes: seq![16u32],
        chunk_offsets: seq![172u64],
        sample_to_chunk: seq![StscEntry { first_chunk: 1, samples_per_chunk: 1, sample_description_index: 1 }],
    }
}

/// The tables of the track of a file that begins like the minimal file.
proof fn lemma_minimal_mp4_tables(e: Seq<u8>)
    requires
        172 <= e.len() <= u64::MAX,
        forall|i: int| 0 <= i < 172 ==> e[i] == #[trigger] minimal_mp4_prefix()[i],
    ensures
        spec_sync_table(e, box8(BOX_STBL, 96, 68), HANDLER_VIDE) == Ok::<Seq<u32>, ParseFail>(seq![1u32]),
        spec_size_table(e, box8(BOX_STBL, 96, 68)) == Ok::<Seq<u32>, ParseFail>(seq![16u32]),
        spec_stsc_table(e, box8(BOX_STBL, 96, 68)) == Ok::<Seq<StscEntry>, ParseFail>(
            seq![StscEntry { first_chunk: 1, samples_per_chunk: 1, sample_description_index: 1 }],
        ),
        spec_offset_table(e, box8(BOX_STBL, 96, 68)) == Ok::<Seq<u64>, ParseFail>(seq![172u64]),
{
    lemma_minimal_mp4_words(e);
    let stss = box8(BOX_STSS, 20, 76);
    let stsz = box8(BOX_STSZ, 20, 96);
    let stsc = box8(BOX_STSC, 28, 116);
    let stco = box8(BOX_STCO, 20, 144);
    assert(spec_read_box_header(e, 76) == Ok::<Option<BoxHeader>, ParseFail>(Some(stss)));
    assert(spec_read_box_header(e, 96) == Ok::<Option<BoxHeader>, ParseFail>(Some(stsz)));
    assert(spec_read_box_header(e, 116) == Ok::<Option<BoxHeader>, ParseFail>(Some(stsc)));
    assert(spec_read_box_header(e, 144) == Ok::<Option<BoxHeader>, ParseFail>(Some(stco)));
    assert(spec_find_box(e, BOX_STSS, 76, 164) == Ok::<Option<BoxHeader>, ParseFail>(Some(stss)));
    assert(spec_parse_stss(e, stss) == Ok::<Seq<u32>, ParseFail>(seq![1u32])) by {
        assert(u32_table(e, 92, 1) =~= seq![1u32]);
    }
    assert(spec_find_box(e, BOX_STSZ, 96, 164) == Ok::<Option<BoxHeader>, ParseFail>(Some(stsz)));
    assert(spec_find_box(e, BOX_STSZ, 76, 164) == Ok::<Option<BoxHeader>, ParseFail>(Some(stsz)));
    assert(spec_parse_stsz(e, stsz) == Ok::<Seq<u32>, ParseFail>(seq![16u32])) by {
        assert(Seq::new(1nat, |i: int| 16u32) =~= seq![16u32]);
    }
    assert(spec_find_box(e, BOX_STSC, 116, 164) == Ok::<Option<BoxHeader>, ParseFail>(Some(stsc)));
    assert(spec_find_box(e, BOX_STSC, 96, 164) == Ok::<Option<BoxHeader>, ParseFail>(Some(stsc)));
    assert(spec_find_box(e, BOX_STSC, 76, 164) == Ok::<Option<BoxHeader>, ParseFail>(Some(stsc)));
    let entry = StscEntry { first_chunk: 1, samples_per_chunk: 1, sample_description_index: 1 };
    assert(spec_parse_stsc(e, stsc) == Ok::<Seq<StscEntry>, ParseFail>(seq![entry])) by {
        let t = Seq::new(1nat, |i: int| StscEntry {
            first_chunk: be_u32_at(e, 132 + 12 * i) as u32,
            samples_per_chunk: be_u32_at(e, 136 + 12 * i) as u32,
            sample_description_index: be_u32_at(e, 140 + 12 * i) as u32,
        });
        assert(t[0] == entry);
        assert(t =~= seq![entry]);
    }
    assert(spec_find_box(e, BOX_STCO, 144, 164) == Ok::<Option<BoxHeader>, ParseFail>(Some(stco)));
    assert(spec_find_box(e, BOX_STCO, 116, 164) == Ok::<Option<BoxHeader>, ParseFail>(Some(stco)));
    assert(spec_find_box(e, BOX_STCO, 96, 164) == Ok::<Option<BoxHeader>, ParseFail>(Some(stco)));
    assert(spec_find_box(e, BOX_STCO, 76, 164) == Ok::<Option<BoxHeader>, ParseFail>(Some(stco)));
    assert(spec_parse_stco(e, stco) == Ok::<Seq<u64>, ParseFail>(seq![172u64])) by {
        let t = Seq::new(1nat, |i: int| be_u32_at(e, 160 + 4 * i) as u64);
        assert(t[0] == 172u64);
        assert(t =~= seq![172u64]);
    }
}

/// The tracks of a file that begins like the minimal file: its one track.
proof fn lemma_minimal_mp4_moov(e: Seq<u8>)
    requires
        172 <= e.len() <= u64::MAX,
        forall|i: int| 0 <= i < 172 ==> e[i] == #[trigger] minimal_mp4_prefix()[i],
    ensures
        spec_find_box(e, BOX_MOOV, 0, e.len() as int) == Ok::<Option<BoxHeader>, ParseFail>(
            Some(box8(BOX_MOOV, 148, 16)),
        ),
        spec_parse_moov(e, box8(BOX_MOOV, 148, 16)) == Ok::<Seq<TrackView>, ParseFail>(seq![minimal_mp4_track()]),
{
    lemma_minimal_mp4_words(e);
    lemma_minimal_mp4_tables(e);
    let n = e.len() as int;
    let ftyp = box8(0x66747970, 16, 0);
    let moov = box8(BOX_MOOV, 148, 16);
    let trak = box8(BOX_TRAK, 140, 24);
    let mdia = box8(BOX_MDIA, 132, 32);
    let hdlr = box8(BOX_HDLR, 20, 40);
    let minf = box8(BOX_MINF, 104, 60);
    let stbl = box8(BOX_STBL, 96, 68);
    assert(spec_read_box_header(e, 0) == Ok::<Option<BoxHeader>, ParseFail>(Some(ftyp)));
    assert(spec_read_box_header(e, 16) == Ok::<Option<BoxHeader>, ParseFail>(Some(moov)));
    assert(spec_find_box(e, BOX_MOOV, 16, n) == Ok::<Option<BoxHeader>, ParseFail>(Some(moov)));
    assert(spec_read_box_header(e, 24) == Ok::<Option<BoxHeader>, ParseFail>(Some(trak)));
    assert(spec_read_box_header(e, 32) == Ok::<Option<BoxHeader>, ParseFail>(Some(mdia)));
    assert(spec_read_box_header(e, 40) == Ok::<Option<BoxHeader>, ParseFail>(Some(hdlr)));
    assert(spec_read_box_header(e, 60) == Ok::<Option<BoxHeader>, ParseFail>(Some(minf)));
    assert(spec_read_box_header(e, 68) == Ok::<Option<BoxHeader>, ParseFail>(Some(stbl)));
    assert(spec_find_box(e, BOX_MDIA, 32, 164) == Ok::<Option<BoxHeader>, ParseFail>(Some(mdia)));
    assert(spec_find_box_in(e, BOX_MDIA, trak) == Ok::<Option<BoxHeader>, ParseFail>(Some(mdia)));
    assert(spec_find_box(e, BOX_HDLR, 40, 164) == Ok::<Option<BoxHeader>, ParseFail>(Some(hdlr)));
    assert(spec_find_box_in(e, BOX_HDLR, mdia) == Ok::<Option<BoxHeader>, ParseFail>(Some(hdlr)));
    assert(spec_handler_type(e, Some(hdlr)) == Ok::<u32, ParseFail>(HANDLER_VIDE));
    assert(spec_find_box(e, BOX_MINF, 60, 164) == Ok::<Option<BoxHeader>, ParseFail>(Some(minf)));
    assert(spec_find_box(e, BOX_MINF, 40, 164) == Ok::<Option<BoxHeader>, ParseFail>(Some(minf)));
    assert(spec_find_box_in(e, BOX_MINF, mdia) == Ok::<Option<BoxHeader>, ParseFail>(Some(minf)));
    assert(spec_find_box(e, BOX_STBL, 68, 164) == Ok::<Option<BoxHeader>, ParseFail>(Some(stbl)));
    assert(spec_find_box_in(e, BOX_STBL, minf) == Ok::<Option<BoxHeader>, ParseFail>(Some(stbl)));
    assert(spec_parse_trak(e, trak) == Ok::<Option<TrackView>, ParseFail>(Some(minimal_mp4_track())));
    assert(seq![].push(minimal_mp4_track()) =~= seq![minimal_mp4_track()]);
    assert(spec_moov_loop(e, 24, 164, seq![]) == Ok::<Seq<TrackView>, ParseFail>(seq![minimal_mp4_track()]));
}

/// What the minimal file's track gives: its keyframe region.
proof fn lemma_minimal_mp4_track_regions()
    ensures
        spec_tracks_regions(seq![minimal_mp4_track()], false) == seq![minimal_mp4_region()],
{
    let t = minimal_mp4_track();
    assert(spec_chunk_walk(t, 1, 1, 1, 1, 0) == Some(172u64)) by {
        assert(sizes_sum(t.sample_sizes, 1, 1) == 0);
    }
    assert(spec_sample_offset(t, 1) == Some(172u64));
    assert(spec_sample_entry(t, 1) == Some((172u64, 16usize)));
    assert(spec_target_samples(t, true) == seq![1u32]);
    let f = |s: u32| spec_sample_entry(t, s);
    assert(seq![1u32].filter_map(f) =~= seq![(172u64, 16usize)]) by {
        reveal_with_fuel(Seq::filter_map, 2);
        assert(seq![1u32].drop_last() =~= Seq::<u32>::empty());
    }
    assert(spec_sample_offsets(t, true) =~= seq![(172u64, 16usize)]);
    assert(sample_regions(seq![(172u64, 16usize)], RegionKind::VideoIFrame) =~= seq![minimal_mp4_region()]);
    assert(spec_track_regions(t, false) == seq![minimal_mp4_region()]);
    assert(seq![t].drop_last() =~= Seq::<TrackView>::empty());
    assert(seq![t].last() == t);
    assert(spec_tracks_regions(Seq::<TrackView>::empty(), false) == Seq::<Region>::empty());
    assert(spec_tracks_regions(seq![t], false) == Seq::<Region>::empty() + seq![minimal_mp4_region()]);
    assert(Seq::<Region>::empty() + seq![minimal_mp4_region()] =~= seq![minimal_mp4_region()]);
}

/// What a scan finds in a file that begins like the minimal file and is at
/// least as long: the one keyframe region (the walk stops at moov, so what
/// follows the sample is never read).
proof fn lemma_minimal_mp4_scan(e: Seq<u8>)
    requires
        188 <= e.len() <= u64::MAX,
        forall|i: int| 0 <= i < 172 ==> e[i] == #[trigger] minimal_mp4_prefix()[i],
    ensures
        spec_mp4_collect(e, false, false) == Ok::<Seq<Region>, ParseFail>(seq![minimal_mp4_region()]),
{
    reveal(spec_mp4_collect);
    lemma_minimal_mp4_moov(e);
    lemma_minimal_mp4_track_regions();
    assert(regions_within(seq![minimal_mp4_region()], e.len() as int));
}

/// The minimal file scans to its keyframe region; so does every file that
/// agrees with it before that region, followed by 73 more bytes.
pub proof fn lemma_minimal_mp4_scans(body: Seq<u8>, tail: Seq<u8>)
    requires
        body.len() == 188,
        forall|i: int| 0 <= i < 172 ==> body[i] == minimal_mp4_file()[i],
        tail.len() == 73,
    ensures
        spec_mp4_collect(minimal_mp4_file(), false, false) == Ok::<Seq<Region>, ParseFail>(seq![minimal_mp4_region()]),
        spec_mp4_collect(body + tail, false, false) == Ok::<Seq<Region>, ParseFail>(seq![minimal_mp4_region()]),
{
    let f = minimal_mp4_file();
    let h = minimal_mp4_prefix();
    assert(h.len() == 172);
    assert(forall|i: int| 0 <= i < 172 ==> f[i] == #[trigger] h[i]);
    assert(spec_mp4_collect(f, false, false) == Ok::<Seq<Region>, ParseFail>(seq![minimal_mp4_region()])) by {
        lemma_minimal_mp4_scan(f);
    }
    let e = body + tail;
    assert(forall|i: int| 0 <= i < 172 ==> e[i] == #[trigger] h[i]) by {
        assert forall|i: int| 0 <= i < 172 implies e[i] == #[trigger] h[i] by {
            assert(e[i] == body[i]);
            assert(body[i] == f[i]);
        }
    }
    assert(spec_mp4_collect(e, false, false) == Ok::<Seq<Region>, ParseFail>(seq![minimal_mp4_region()])) by {
        lemma_minimal_mp4_scan(e);
    }
}

impl Mp4Parser {
    /// Scans the bytes of an MP4 file and returns the regions to process,
    /// sorted by offset: the keyframes of video tracks, the samples of audio
    /// tracks when `encrypt_audio`, and the metadata list when
    /// `scrub_metadata`. A region that reaches past the end of the data is an
    /// error.
    pub fn scan_regions(&self, data: &[u8], encrypt_audio: bool, scrub_metadata: bool) -> (r: Result<Vec<Region>, AppError>)
        ensures
            match r {
                Ok(v) => spec_mp4_collect(data@, encrypt_audio, scrub_metadata) matches Ok(s) && stable_sorted_by_offset(s, v@),
                Err(e) => spec_mp4_collect(data@, encrypt_audio, scrub_metadata) matches Err(f) && fail_matches(e, f),
            },
            r matches Ok(v) ==> forall|i: int| 0 <= i < v@.len() ==> kind_allowed(#[trigger] v@[i].kind, encrypt_audio, scrub_metadata),
            r matches Ok(v) ==> regions_within(v@, data@.len() as int),
    {
        proof {
            reveal(spec_mp4_collect);
        }
        let file_size = data.len() as u64;
        let moov = match find_box(data, BOX_MOOV, 0, file_size)? {
            Some(b) => b,
            None => return Err(AppError::InvalidStructure(String::from_str("No moov box found"))),
        };
        let tracks = parse_moov(data, &moov)?;
        let ghost tv = views_of(tracks@);
        let mut regions: Vec<Region> = Vec::new();
        let mut i: usize = 0;
        while i < tracks.len()
            invariant
                tv == views_of(tracks@),
                0 <= i <= tracks@.len(),
                forall|k: int| 0 <= k < tracks@.len() ==> track_wf(#[trigger] tracks@[k]@),
                regions@ == spec_tracks_regions(tv.subrange(0, i as int), encrypt_audio),
                forall|k: int| 0 <= k < regions@.len() ==> kind_allowed(#[trigger] regions@[k].kind, encrypt_audio, scrub_metadata),
            decreases tracks@.len() - i,
        {
            let track = &tracks[i];
            proof {
                let pre = tv.subrange(0, i as int + 1);
                assert(pre.drop_last() =~= tv.subrange(0, i as int));
                assert(pre.last() == track@);
                assert(track_wf(tracks@[i as int]@));
            }
            let is_video = track.handler_type == HANDLER_VIDE;
            let is_audio = track.handler_type == HANDLER_SOUN;
            if is_video {
                let frames = calculate_sample_offsets(track, true);
                push_sample_regions(&mut regions, &frames, RegionKind::VideoIFrame);
            } else if is_audio && encrypt_audio {
                let samples = calculate_sample_offsets(track, false);
                push_sample_regions(&mut regions, &samples, RegionKind::AudioSample);
            } else {
                assert(regions@ =~= regions@ + Seq::<Region>::empty());
            }
            i = i + 1;
        }
        assert(tv.subrange(0, tracks@.len() as int) =~= tv);
        if scrub_metadata {
            match metadata_region(data, &moov)? {
                Some(r) => {
                    proof {
                        lemma_metadata_region_kind(data@, moov);
                    }
                    regions.push(r);
                },
                None => {},
            }
        }
        if !all_within(&regions, data.len()) {
            return Err(AppError::Io(unexpected_eof()));
        }
        let ghost found = regions@;
        sort_regions_by_offset(&mut regions);
        proof {
            lemma_sorted_members(found, regions@);
            assert forall|i: int| 0 <= i < regions@.len() implies kind_allowed(#[trigger] regions@[i].kind, encrypt_audio, scrub_metadata)
                && regions@[i].offset + regions@[i].len <= data@.len() by {
                let j = choose|j: int| 0 <= j < found.len() && found[j] == regions@[i];
                assert(found[j] == regions@[i]);
            }
        }
        Ok(regions)
    }
}

} // verus!
