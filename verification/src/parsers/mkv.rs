//! MKV (EBML) container parser.
//!
//! Scans the element structure of an MKV/WebM file and reports the payloads
//! of video keyframes (and, on request, audio blocks).

use vstd::prelude::*;
use crate::common::{Region, RegionKind};
use crate::error::{AppError, unexpected_eof};
use crate::common::{regions_within, FOOTER_MAGIC};
use super::{lemma_sorted_members, ParseFail, be_nat, fail_matches, lemma_be_nat_push, sort_regions_by_offset, stable_sorted_by_offset};

verus! {

/// MKV parser.
pub struct MkvParser;

impl MkvParser {
    /// Creates the parser.
    pub fn new() -> (p: Self) {
        MkvParser
    }
}

impl Default for MkvParser {
    fn default() -> (p: Self) {
        MkvParser
    }
}

// EBML element IDs
pub const EBML_HEADER_ID: u32 = 0x1A45DFA3;
pub const SEGMENT_ID: u32 = 0x18538067;
pub const TRACKS_ID: u32 = 0x1654AE6B;
pub const TRACK_ENTRY_ID: u32 = 0xAE;
pub const TRACK_NUMBER_ID: u32 = 0xD7;
pub const TRACK_TYPE_ID: u32 = 0x83;
pub const CLUSTER_ID: u32 = 0x1F43B675;
pub const SIMPLE_BLOCK_ID: u32 = 0xA3;
pub const BLOCK_GROUP_ID: u32 = 0xA0;
pub const BLOCK_ID: u32 = 0xA1;

/// Track types.
pub const TRACK_TYPE_VIDEO: u8 = 1;
pub const TRACK_TYPE_AUDIO: u8 = 2;

// ============================================================================
// Variable-size integers
// ============================================================================

/// Number of bytes of an EBML variable-size integer whose first byte is `b`:
/// one more than the number of leading zero bits of `b` (9 when `b == 0`).
pub open spec fn vint_width(b: u8) -> int {
    if b >= 0x80 {
        1
    } else if b >= 0x40 {
        2
    } else if b >= 0x20 {
        3
    } else if b >= 0x10 {
        4
    } else if b >= 0x08 {
        5
    } else if b >= 0x04 {
        6
    } else if b >= 0x02 {
        7
    } else if b >= 0x01 {
        8
    } else {
        9
    }
}

/// The length-marker bit of a `w`-byte VINT, 2^(7w).
pub open spec fn vint_marker(w: int) -> int {
    if w == 1 {
        0x80
    } else if w == 2 {
        0x4000
    } else if w == 3 {
        0x20_0000
    } else if w == 4 {
        0x1000_0000
    } else if w == 5 {
        0x8_0000_0000
    } else if w == 6 {
        0x400_0000_0000
    } else if w == 7 {
        0x2_0000_0000_0000
    } else {
        0x100_0000_0000_0000
    }
}

/// Reading a VINT at `p`: its value (the bits after the length marker) and
/// the position after it.
pub open spec fn spec_read_vint(d: Seq<u8>, p: int) -> Result<(u64, int), ParseFail> {
    if p < 0 || p >= d.len() {
        Err(ParseFail::Eof)
    } else if d[p] == 0 {
        Err(ParseFail::Invalid("Invalid VINT: zero first byte"@))
    } else if p + vint_width(d[p]) > d.len() {
        Err(ParseFail::Eof)
    } else {
        let w = vint_width(d[p]);
        Ok(((be_nat(d.subrange(p, p + w)) - vint_marker(w)) as u64, p + w))
    }
}

/// Where the reader stands after a failed VINT read at `p` (each byte is read
/// on its own, so a read stops at the end of the data or after a zero byte).
pub open spec fn vint_fail_at(d: Seq<u8>, p: int) -> int {
    if p >= d.len() {
        p
    } else if d[p] == 0 {
        p + 1
    } else {
        d.len() as int
    }
}

/// Reading an element ID at `p`: its value (marker bits kept) and the position
/// after it.
pub open spec fn spec_read_element_id(d: Seq<u8>, p: int) -> Result<(u32, int), ParseFail> {
    if p < 0 || p >= d.len() {
        Err(ParseFail::Eof)
    } else if d[p] == 0 {
        Err(ParseFail::Invalid("Invalid element ID"@))
    } else if vint_width(d[p]) > 4 {
        Err(ParseFail::Invalid("Element ID too long"@))
    } else if p + vint_width(d[p]) > d.len() {
        Err(ParseFail::Eof)
    } else {
        let w = vint_width(d[p]);
        Ok((be_nat(d.subrange(p, p + w)) as u32, p + w))
    }
}

/// Where the reader stands after a failed element-ID read at `p`.
pub open spec fn id_fail_at(d: Seq<u8>, p: int) -> int {
    if p >= d.len() {
        p
    } else if d[p] == 0 || vint_width(d[p]) > 4 {
        p + 1
    } else {
        d.len() as int
    }
}

/// Reading an element header (ID, then size) at `p`.
pub open spec fn spec_read_header(d: Seq<u8>, p: int) -> Result<(u32, u64, int), ParseFail> {
    match spec_read_element_id(d, p) {
        Err(f) => Err(f),
        Ok((id, q)) => match spec_read_vint(d, q) {
            Err(f) => Err(f),
            Ok((size, r)) => Ok((id, size, r)),
        },
    }
}

/// Where the reader stands after a failed header read at `p`.
pub open spec fn header_fail_at(d: Seq<u8>, p: int) -> int {
    match spec_read_element_id(d, p) {
        Err(_) => id_fail_at(d, p),
        Ok((_, q)) => vint_fail_at(d, q),
    }
}

/// Value of the first byte of a `w`-byte VINT once its marker bit is cleared
/// is below this bound; each further byte multiplies it by 256.
spec fn partial_marker(w: int, k: int) -> nat
    decreases k,
{
    if k <= 1 {
        if w == 1 {
            128
        } else if w == 2 {
            64
        } else if w == 3 {
            32
        } else if w == 4 {
            16
        } else if w == 5 {
            8
        } else if w == 6 {
            4
        } else if w == 7 {
            2
        } else {
            1
        }
    } else {
        partial_marker(w, k - 1) * 256
    }
}

proof fn lemma_partial_marker(w: int, k: int)
    requires
        1 <= k <= w <= 8,
    ensures
        partial_marker(w, k) <= partial_marker(w, w),
        partial_marker(w, w) == vint_marker(w),
    decreases w - k,
{
    if k < w {
        lemma_partial_marker(w, k + 1);
    }
    reveal_with_fuel(partial_marker, 8);
}

/// Reads an EBML variable-size integer at `pos`; returns its value and the
/// position after it.
pub fn read_vint(data: &[u8], pos: u64) -> (r: Result<(u64, u64), AppError>)
    ensures
        match r {
            Ok((v, next)) => spec_read_vint(data@, pos as int) == Ok::<(u64, int), ParseFail>((v, next as int)),
            Err(e) => spec_read_vint(data@, pos as int) matches Err(f) && fail_matches(e, f),
        },
{
    let n = data.len();
    if pos >= n as u64 {
        return Err(AppError::Io(unexpected_eof()));
    }
    let p = pos as usize;
    let first = data[p];
    if first == 0 {
        return Err(AppError::InvalidStructure(String::from_str("Invalid VINT: zero first byte")));
    }
    let (w, fm): (u64, u8) = if first >= 0x80 {
        (1, 128)
    } else if first >= 0x40 {
        (2, 64)
    } else if first >= 0x20 {
        (3, 32)
    } else if first >= 0x10 {
        (4, 16)
    } else if first >= 0x08 {
        (5, 8)
    } else if first >= 0x04 {
        (6, 4)
    } else if first >= 0x02 {
        (7, 2)
    } else {
        (8, 1)
    };
    assert(w == vint_width(first));
    if w > (n as u64) - pos {
        return Err(AppError::Io(unexpected_eof()));
    }
    let ghost d = data@;
    let mut value: u64 = (first - fm) as u64;
    let mut i: u64 = 1;
    proof {
        reveal_with_fuel(be_nat, 2);
        assert(d.subrange(p as int, p + 1).drop_last() =~= Seq::<u8>::empty());
        assert(fm == partial_marker(w as int, 1));
        lemma_partial_marker(w as int, 1);
    }
    while i < w
        invariant
            d == data@,
            n == d.len(),
            1 <= w <= 8,
            1 <= i <= w,
            pos + w <= n,
            p == pos,
            value + partial_marker(w as int, i as int) == be_nat(d.subrange(p as int, p + i)),
            value < partial_marker(w as int, i as int),
            partial_marker(w as int, w as int) == vint_marker(w as int),
        decreases w - i,
    {
        let b = data[p + i as usize];
        proof {
            lemma_partial_marker(w as int, i as int + 1);
            assert(partial_marker(w as int, i as int + 1) == partial_marker(w as int, i as int) * 256);
            lemma_be_nat_push(d.subrange(p as int, p + i), b);
            assert(d.subrange(p as int, p + i).push(b) =~= d.subrange(p as int, p + i + 1));
            assert(value * 256 + b < partial_marker(w as int, i as int) * 256) by (nonlinear_arith)
                requires
                    value < partial_marker(w as int, i as int),
                    b < 256,
            ;
        }
        value = value * 256 + b as u64;
        i = i + 1;
    }
    Ok((value, pos + w))
}

/// Reads an EBML element ID at `pos`; returns the ID and the position after it.
pub fn read_element_id(data: &[u8], pos: u64) -> (r: Result<(u32, u64), AppError>)
    ensures
        match r {
            Ok((v, next)) => spec_read_element_id(data@, pos as int) == Ok::<(u32, int), ParseFail>((v, next as int)),
            Err(e) => spec_read_element_id(data@, pos as int) matches Err(f) && fail_matches(e, f),
        },
{
    let n = data.len();
    if pos >= n as u64 {
        return Err(AppError::Io(unexpected_eof()));
    }
    let p = pos as usize;
    let first = data[p];
    if first == 0 {
        return Err(AppError::InvalidStructure(String::from_str("Invalid element ID")));
    }
    let w: u64 = if first >= 0x80 {
        1
    } else if first >= 0x40 {
        2
    } else if first >= 0x20 {
        3
    } else if first >= 0x10 {
        4
    } else {
        5
    };
    if w > 4 {
        return Err(AppError::InvalidStructure(String::from_str("Element ID too long")));
    }
    if w > (n as u64) - pos {
        return Err(AppError::Io(unexpected_eof()));
    }
    let ghost d = data@;
    let mut value: u32 = first as u32;
    let mut i: u64 = 1;
    proof {
        reveal_with_fuel(be_nat, 2);
        assert(d.subrange(p as int, p + 1).drop_last() =~= Seq::<u8>::empty());
    }
    while i < w
        invariant
            d == data@,
            n == d.len(),
            1 <= w <= 4,
            1 <= i <= w,
            pos + w <= n,
            p == pos,
            value == be_nat(d.subrange(p as int, p + i)),
            value < (if i == 1 { 256int } else if i == 2 { 65536 } else if i == 3 { 0x100_0000 } else { 0x1_0000_0000 }),
        decreases w - i,
    {
        let b = data[p + i as usize];
        proof {
            lemma_be_nat_push(d.subrange(p as int, p + i), b);
            assert(d.subrange(p as int, p + i).push(b) =~= d.subrange(p as int, p + i + 1));
        }
        value = value * 256 + b as u32;
        i = i + 1;
    }
    Ok((value, pos + w))
}

/// Reads an element header (ID and size) at `pos`. On failure, also returns
/// where the reader stands.
fn read_ebml_element_header(data: &[u8], pos: u64) -> (r: Result<(u32, u64, u64), (AppError, u64)>)
    ensures
        match r {
            Ok((id, size, next)) => spec_read_header(data@, pos as int) == Ok::<(u32, u64, int), ParseFail>((id, size, next as int)),
            Err((e, at)) => spec_read_header(data@, pos as int) matches Err(f) && fail_matches(e, f)
                && at == header_fail_at(data@, pos as int),
        },
{
    let n = data.len();
    match read_element_id(data, pos) {
        Err(e) => {
            let at = if pos >= n as u64 {
                pos
            } else if data[pos as usize] == 0 || data[pos as usize] < 0x10 {
                pos + 1
            } else {
                n as u64
            };
            Err((e, at))
        },
        Ok((id, q)) => match read_vint(data, q) {
            Err(e) => {
                let at = if q >= n as u64 {
                    q
                } else if data[q as usize] == 0 {
                    q + 1
                } else {
                    n as u64
                };
                Err((e, at))
            },
            Ok((size, r)) => Ok((id, size, r)),
        },
    }
}


// ============================================================================
// Element search
// ============================================================================

/// Searching, from `pos` up to `limit`, the sibling elements for one with ID
/// `target`; on success, the position of its content.
pub open spec fn spec_find_element_after(d: Seq<u8>, pos: int, target: u32, limit: int) -> Result<Option<int>, ParseFail>
    decreases limit - pos,
{
    if pos >= limit {
        Ok(None)
    } else {
        match spec_read_header(d, pos) {
            Err(_) => Ok(None),
            Ok((id, size, q)) => {
                if id == target {
                    Ok(Some(q))
                } else if q + size > u64::MAX {
                    Err(ParseFail::Overflow)
                } else if q + size > limit || q + size <= pos || q + size == limit {
                    Ok(None)
                } else {
                    spec_find_element_after(d, q + size, target, limit)
                }
            },
        }
    }
}

fn find_element_after(data: &[u8], pos0: u64, target: u32, limit: u64) -> (r: Result<Option<u64>, AppError>)
    ensures
        match r {
            Ok(None) => spec_find_element_after(data@, pos0 as int, target, limit as int) == Ok::<Option<int>, ParseFail>(None),
            Ok(Some(x)) => spec_find_element_after(data@, pos0 as int, target, limit as int) == Ok::<Option<int>, ParseFail>(Some(x as int)),
            Err(e) => spec_find_element_after(data@, pos0 as int, target, limit as int) matches Err(f) && fail_matches(e, f),
        },
{
    let mut pos = pos0;
    loop
        invariant
            spec_find_element_after(data@, pos0 as int, target, limit as int)
                == spec_find_element_after(data@, pos as int, target, limit as int),
        decreases limit - pos,
    {
        if pos >= limit {
            return Ok(None);
        }
        match read_ebml_element_header(data, pos) {
            Err(_) => return Ok(None),
            Ok((id, size, q)) => {
                if id == target {
                    return Ok(Some(q));
                }
                let next = match q.checked_add(size) {
                    Some(x) => x,
                    None => return Err(AppError::IntegerOverflow),
                };
                if next > limit || next <= pos || next == limit {
                    return Ok(None);
                }
                pos = next;
            },
        }
    }
}

// ============================================================================
// Tracks
// ============================================================================

/// A track: its number and type.
#[derive(Debug, Clone, Copy)]
pub struct TrackInfo {
    pub number: u64,
    pub track_type: u8,
}

/// Scanning the children of a TrackEntry from `pos` up to `end`, collecting
/// the track number and type; also the position where the scan stopped.
pub open spec fn spec_track_entry_loop(d: Seq<u8>, pos: int, end: int, num: Option<u64>, ty: Option<u8>) -> Result<(Option<u64>, Option<u8>, int), ParseFail>
    decreases end - pos,
{
    if pos >= end {
        Ok((num, ty, pos))
    } else {
        match spec_read_header(d, pos) {
            Err(_) => Ok((num, ty, header_fail_at(d, pos))),
            Ok((id, size, q)) => {
                if id == TRACK_NUMBER_ID {
                    match spec_read_vint(d, q) {
                        Err(f) => Err(f),
                        Ok((v, np)) => if np <= pos || np >= end {
                            Ok((Some(v), ty, np))
                        } else {
                            spec_track_entry_loop(d, np, end, Some(v), ty)
                        },
                    }
                } else if id == TRACK_TYPE_ID {
                    if q >= d.len() {
                        Err(ParseFail::Eof)
                    } else if q + 1 <= pos || q + 1 >= end {
                        Ok((num, Some(d[q]), q + 1))
                    } else {
                        spec_track_entry_loop(d, q + 1, end, num, Some(d[q]))
                    }
                } else if q + size > u64::MAX {
                    Err(ParseFail::Overflow)
                } else {
                    let np = if q + size < end { q + size } else { end };
                    if np <= pos || np >= end {
                        Ok((num, ty, np))
                    } else {
                        spec_track_entry_loop(d, np, end, num, ty)
                    }
                }
            },
        }
    }
}

/// Parsing a TrackEntry whose content (of `size` bytes) starts at `pos`.
pub open spec fn spec_parse_track_entry(d: Seq<u8>, pos: int, size: u64) -> Result<(Option<TrackInfo>, int), ParseFail> {
    if pos + size > u64::MAX {
        Err(ParseFail::Overflow)
    } else {
        match spec_track_entry_loop(d, pos, pos + size, None, None) {
            Err(f) => Err(f),
            Ok((num, ty, np)) => Ok((
                if num is Some && ty is Some {
                    Some(TrackInfo { number: num->0, track_type: ty->0 })
                } else {
                    None
                },
                np,
            )),
        }
    }
}

fn track_entry_loop(data: &[u8], pos0: u64, end: u64) -> (r: Result<(Option<u64>, Option<u8>, u64), AppError>)
    ensures
        match r {
            Ok((a, b, c)) => spec_track_entry_loop(data@, pos0 as int, end as int, None, None) == Ok::<(Option<u64>, Option<u8>, int), ParseFail>((a, b, c as int)),
            Err(e) => spec_track_entry_loop(data@, pos0 as int, end as int, None, None) matches Err(f) && fail_matches(e, f),
        },
{
    let n = data.len();
    let mut pos = pos0;
    let mut num: Option<u64> = None;
    let mut ty: Option<u8> = None;
    let ghost whole = spec_track_entry_loop(data@, pos0 as int, end as int, None, None);
    loop
        invariant
            n == data@.len(),
            whole == spec_track_entry_loop(data@, pos0 as int, end as int, None, None),
            whole == spec_track_entry_loop(data@, pos as int, end as int, num, ty),
        decreases end - pos,
    {
        if pos >= end {
            return Ok((num, ty, pos));
        }
        match read_ebml_element_header(data, pos) {
            Err((_, at)) => {
                return Ok((num, ty, at));
            },
            Ok((id, size, q)) => {
                let np;
                if id == TRACK_NUMBER_ID {
                    let (v, q2) = read_vint(data, q)?;
                    num = Some(v);
                    np = q2;
                } else if id == TRACK_TYPE_ID {
                    if q >= n as u64 {
                        return Err(AppError::Io(unexpected_eof()));
                    }
                    ty = Some(data[q as usize]);
                    np = q + 1;
                } else {
                    let next = match q.checked_add(size) {
                        Some(x) => x,
                        None => return Err(AppError::IntegerOverflow),
                    };
                    np = if next < end { next } else { end };
                }
                if np <= pos || np >= end {
                    return Ok((num, ty, np));
                }
                pos = np;
            },
        }
    }
}

fn parse_track_entry(data: &[u8], pos0: u64, size: u64) -> (r: Result<(Option<TrackInfo>, u64), AppError>)
    ensures
        match r {
            Ok((t, np)) => spec_parse_track_entry(data@, pos0 as int, size) == Ok::<(Option<TrackInfo>, int), ParseFail>((t, np as int)),
            Err(e) => spec_parse_track_entry(data@, pos0 as int, size) matches Err(f) && fail_matches(e, f),
        },
{
    let end = match pos0.checked_add(size) {
        Some(x) => x,
        None => return Err(AppError::IntegerOverflow),
    };
    let (num, ty, np) = track_entry_loop(data, pos0, end)?;
    let t = match (num, ty) {
        (Some(number), Some(track_type)) => Some(TrackInfo { number, track_type }),
        _ => None,
    };
    Ok((t, np))
}

/// Scanning the children of Tracks from `pos` for TrackEntry elements, up to
/// the first Cluster or Segment.
pub open spec fn spec_tracks_loop(d: Seq<u8>, pos: int, limit: int, acc: Seq<TrackInfo>) -> Result<Seq<TrackInfo>, ParseFail>
    decreases limit - pos,
{
    if pos >= limit {
        Ok(acc)
    } else {
        match spec_read_header(d, pos) {
            Err(_) => Ok(acc),
            Ok((id, size, q)) => {
                if id == TRACK_ENTRY_ID {
                    match spec_parse_track_entry(d, q, size) {
                        Err(f) => Err(f),
                        Ok((t, np)) => {
                            let acc2 = if t is Some { acc.push(t->0) } else { acc };
                            if np <= pos || np >= limit {
                                Ok(acc2)
                            } else {
                                spec_tracks_loop(d, np, limit, acc2)
                            }
                        },
                    }
                } else if id == CLUSTER_ID || id == SEGMENT_ID {
                    Ok(acc)
                } else if q + size > u64::MAX {
                    Err(ParseFail::Overflow)
                } else if q + size > limit || q + size <= pos || q + size == limit {
                    Ok(acc)
                } else {
                    spec_tracks_loop(d, q + size, limit, acc)
                }
            },
        }
    }
}

fn parse_tracks(data: &[u8], tracks_start: u64) -> (r: Result<Vec<TrackInfo>, AppError>)
    ensures
        match r {
            Ok(v) => spec_tracks_loop(data@, tracks_start as int, data@.len() as int, seq![]) == Ok::<Seq<TrackInfo>, ParseFail>(v@),
            Err(e) => spec_tracks_loop(data@, tracks_start as int, data@.len() as int, seq![]) matches Err(f) && fail_matches(e, f),
        },
{
    let limit = data.len() as u64;
    let mut tracks: Vec<TrackInfo> = Vec::new();
    let mut pos = tracks_start;
    let ghost whole = spec_tracks_loop(data@, tracks_start as int, limit as int, seq![]);
    loop
        invariant
            limit == data@.len(),
            whole == spec_tracks_loop(data@, tracks_start as int, limit as int, seq![]),
            whole == spec_tracks_loop(data@, pos as int, limit as int, tracks@),
        decreases limit - pos,
    {
        if pos >= limit {
            return Ok(tracks);
        }
        match read_ebml_element_header(data, pos) {
            Err(_) => return Ok(tracks),
            Ok((id, size, q)) => {
                if id == TRACK_ENTRY_ID {
                    let (t, np) = parse_track_entry(data, q, size)?;
                    match t {
                        Some(track) => tracks.push(track),
                        None => {},
                    }
                    if np <= pos || np >= limit {
                        return Ok(tracks);
                    }
                    pos = np;
                } else if id == CLUSTER_ID || id == SEGMENT_ID {
                    return Ok(tracks);
                } else {
                    let next = match q.checked_add(size) {
                        Some(x) => x,
                        None => return Err(AppError::IntegerOverflow),
                    };
                    if next > limit || next <= pos || next == limit {
                        return Ok(tracks);
                    }
                    pos = next;
                }
            },
        }
    }
}


// ============================================================================
// Blocks and clusters
// ============================================================================

/// Parsing a SimpleBlock (`simple`) or a Block whose content (of `size`
/// bytes) starts at `pos`: track number, 2-byte timecode, flags, then the
/// frame data. Video blocks (for a SimpleBlock only keyframes, flag bit 0x80)
/// and, when `enc_audio`, audio blocks are appended to `acc` as regions
/// covering the frame data. A block declared past the end of the data is an
/// error. The reader ends at the end of the block.
pub open spec fn spec_parse_block(d: Seq<u8>, pos: int, size: u64, video: Seq<u64>, audio: Seq<u64>, enc_audio: bool, simple: bool, acc: Seq<Region>) -> Result<(Seq<Region>, int), ParseFail> {
    if pos + size > u64::MAX {
        Err(ParseFail::Overflow)
    } else if pos + size > d.len() {
        Err(ParseFail::Eof)
    } else {
        match spec_read_vint(d, pos) {
            Err(f) => Err(f),
            Ok((track, q)) => {
                if q + 3 > d.len() {
                    Err(ParseFail::Eof)
                } else {
                    let flags = d[q + 2];
                    let header_len = q + 3 - pos;
                    let data_len = if size >= header_len { size - header_len } else { 0 };
                    let offset = (q + 3) as u64;
                    let len = data_len as usize;
                    let acc2 = if video.contains(track) && (!simple || flags >= 0x80) {
                        acc.push(Region { offset, len, kind: RegionKind::VideoIFrame })
                    } else if audio.contains(track) && enc_audio {
                        acc.push(Region { offset, len, kind: RegionKind::AudioSample })
                    } else {
                        acc
                    };
                    Ok((acc2, pos + size))
                }
            },
        }
    }
}

fn contains_track(list: &Vec<u64>, x: u64) -> (r: bool)
    ensures
        r == list@.contains(x),
{
    let mut i: usize = 0;
    while i < list.len()
        invariant
            0 <= i <= list@.len(),
            forall|j: int| 0 <= j < i ==> list@[j] != x,
        decreases list@.len() - i,
    {
        if list[i] == x {
            assert(list@[i as int] == x);
            return true;
        }
        i = i + 1;
    }
    false
}

/// What the regions of an MKV scan are: frame data inside the data, of video
/// keyframes or, when audio is encrypted, of audio blocks.
pub open spec fn mkv_regions_ok(rs: Seq<Region>, len: int, enc_audio: bool) -> bool {
    &&& regions_within(rs, len)
    &&& forall|i: int| 0 <= i < rs.len() ==> (#[trigger] rs[i]).kind == RegionKind::VideoIFrame || (rs[i].kind
        == RegionKind::AudioSample && enc_audio)
}

/// Body shared by SimpleBlock and Block parsing.
fn parse_block_element(data: &[u8], pos: u64, size: u64, video: &Vec<u64>, audio: &Vec<u64>, enc_audio: bool, simple: bool, regions: &mut Vec<Region>) -> (r: Result<u64, AppError>)
    requires
        mkv_regions_ok(old(regions)@, data@.len() as int, enc_audio),
    ensures
        mkv_regions_ok(final(regions)@, data@.len() as int, enc_audio),
        match r {
            Ok(np) => spec_parse_block(data@, pos as int, size, video@, audio@, enc_audio, simple, old(regions)@) == Ok::<(Seq<Region>, int), ParseFail>((final(regions)@, np as int)),
            Err(e) => spec_parse_block(data@, pos as int, size, video@, audio@, enc_audio, simple, old(regions)@) matches Err(f) && fail_matches(e, f),
        },
{
    let block_end = match pos.checked_add(size) {
        Some(x) => x,
        None => return Err(AppError::IntegerOverflow),
    };
    let n = data.len();
    if block_end > n as u64 {
        return Err(AppError::Io(unexpected_eof()));
    }
    let (track, q) = read_vint(data, pos)?;
    if q > n as u64 || 3 > (n as u64) - q {
        return Err(AppError::Io(unexpected_eof()));
    }
    let flags = data[(q + 2) as usize];
    let header_len = q + 3 - pos;
    let data_offset = q + 3;
    let data_len = size.saturating_sub(header_len);
    let is_keyframe = (flags & 0x80) != 0;
    assert(((flags & 0x80) != 0) == (flags >= 0x80)) by (bit_vector);
    let is_video = contains_track(video, track);
    let is_audio = contains_track(audio, track);
    if is_video && (!simple || is_keyframe) {
        regions.push(Region { offset: data_offset, len: data_len as usize, kind: RegionKind::VideoIFrame });
    } else if is_audio && enc_audio {
        regions.push(Region { offset: data_offset, len: data_len as usize, kind: RegionKind::AudioSample });
    }
    Ok(block_end)
}

/// Parses a SimpleBlock; see [`spec_parse_block`].
fn parse_simple_block(data: &[u8], pos: u64, size: u64, video: &Vec<u64>, audio: &Vec<u64>, enc_audio: bool, regions: &mut Vec<Region>) -> (r: Result<u64, AppError>)
    requires
        mkv_regions_ok(old(regions)@, data@.len() as int, enc_audio),
    ensures
        mkv_regions_ok(final(regions)@, data@.len() as int, enc_audio),
        match r {
            Ok(np) => spec_parse_block(data@, pos as int, size, video@, audio@, enc_audio, true, old(regions)@) == Ok::<(Seq<Region>, int), ParseFail>((final(regions)@, np as int)),
            Err(e) => spec_parse_block(data@, pos as int, size, video@, audio@, enc_audio, true, old(regions)@) matches Err(f) && fail_matches(e, f),
        },
{
    parse_block_element(data, pos, size, video, audio, enc_audio, true, regions)
}

/// Parses a Block of a BlockGroup (every video block counts as a keyframe);
/// see [`spec_parse_block`].
fn parse_block(data: &[u8], pos: u64, size: u64, video: &Vec<u64>, audio: &Vec<u64>, enc_audio: bool, regions: &mut Vec<Region>) -> (r: Result<u64, AppError>)
    requires
        mkv_regions_ok(old(regions)@, data@.len() as int, enc_audio),
    ensures
        mkv_regions_ok(final(regions)@, data@.len() as int, enc_audio),
        match r {
            Ok(np) => spec_parse_block(data@, pos as int, size, video@, audio@, enc_audio, false, old(regions)@) == Ok::<(Seq<Region>, int), ParseFail>((final(regions)@, np as int)),
            Err(e) => spec_parse_block(data@, pos as int, size, video@, audio@, enc_audio, false, old(regions)@) matches Err(f) && fail_matches(e, f),
        },
{
    parse_block_element(data, pos, size, video, audio, enc_audio, false, regions)
}

/// Scanning the children of a BlockGroup from `pos` up to `end` for Blocks.
pub open spec fn spec_block_group_loop(d: Seq<u8>, pos: int, end: int, video: Seq<u64>, audio: Seq<u64>, enc_audio: bool, acc: Seq<Region>) -> Result<(Seq<Region>, int), ParseFail>
    decreases end - pos,
{
    if pos >= end {
        Ok((acc, pos))
    } else {
        match spec_read_header(d, pos) {
            Err(_) => Ok((acc, header_fail_at(d, pos))),
            Ok((id, size, q)) => {
                if id == BLOCK_ID {
                    match spec_parse_block(d, q, size, video, audio, enc_audio, false, acc) {
                        Err(f) => Err(f),
                        Ok((a2, np)) => if np <= pos || np >= end {
                            Ok((a2, np))
                        } else {
                            spec_block_group_loop(d, np, end, video, audio, enc_audio, a2)
                        },
                    }
                } else if q + size > u64::MAX {
                    Err(ParseFail::Overflow)
                } else {
                    let np = if q + size < end { q + size } else { end };
                    if np <= pos || np >= end {
                        Ok((acc, np))
                    } else {
                        spec_block_group_loop(d, np, end, video, audio, enc_audio, acc)
                    }
                }
            },
        }
    }
}

fn scan_block_group(data: &[u8], pos0: u64, end: u64, video: &Vec<u64>, audio: &Vec<u64>, enc_audio: bool, regions: &mut Vec<Region>) -> (r: Result<u64, AppError>)
    requires
        mkv_regions_ok(old(regions)@, data@.len() as int, enc_audio),
    ensures
        mkv_regions_ok(final(regions)@, data@.len() as int, enc_audio),
        match r {
            Ok(np) => spec_block_group_loop(data@, pos0 as int, end as int, video@, audio@, enc_audio, old(regions)@) == Ok::<(Seq<Region>, int), ParseFail>((final(regions)@, np as int)),
            Err(e) => spec_block_group_loop(data@, pos0 as int, end as int, video@, audio@, enc_audio, old(regions)@) matches Err(f) && fail_matches(e, f),
        },
{
    let ghost whole = spec_block_group_loop(data@, pos0 as int, end as int, video@, audio@, enc_audio, regions@);
    let mut pos = pos0;
    loop
        invariant
            whole == spec_block_group_loop(data@, pos0 as int, end as int, video@, audio@, enc_audio, old(regions)@),
            mkv_regions_ok(regions@, data@.len() as int, enc_audio),
            whole == spec_block_group_loop(data@, pos as int, end as int, video@, audio@, enc_audio, regions@),
        decreases end - pos,
    {
        if pos >= end {
            return Ok(pos);
        }
        match read_ebml_element_header(data, pos) {
            Err((_, at)) => return Ok(at),
            Ok((id, size, q)) => {
                let np;
                if id == BLOCK_ID {
                    np = parse_block(data, q, size, video, audio, enc_audio, regions)?;
                } else {
                    let next = match q.checked_add(size) {
                        Some(x) => x,
                        None => return Err(AppError::IntegerOverflow),
                    };
                    np = if next < end { next } else { end };
                }
                if np <= pos || np >= end {
                    return Ok(np);
                }
                pos = np;
            },
        }
    }
}

/// Scanning the children of a Cluster from `pos` up to `end` for SimpleBlocks
/// and BlockGroups.
pub open spec fn spec_cluster_loop(d: Seq<u8>, pos: int, end: int, video: Seq<u64>, audio: Seq<u64>, enc_audio: bool, acc: Seq<Region>) -> Result<(Seq<Region>, int), ParseFail>
    decreases end - pos,
{
    if pos >= end {
        Ok((acc, pos))
    } else {
        match spec_read_header(d, pos) {
            Err(_) => Ok((acc, header_fail_at(d, pos))),
            Ok((id, size, q)) => {
                if id == SIMPLE_BLOCK_ID {
                    match spec_parse_block(d, q, size, video, audio, enc_audio, true, acc) {
                        Err(f) => Err(f),
                        Ok((a2, np)) => if np <= pos || np >= end {
                            Ok((a2, np))
                        } else {
                            spec_cluster_loop(d, np, end, video, audio, enc_audio, a2)
                        },
                    }
                } else if id == BLOCK_GROUP_ID {
                    if q + size > u64::MAX {
                        Err(ParseFail::Overflow)
                    } else {
                        match spec_block_group_loop(d, q, q + size, video, audio, enc_audio, acc) {
                            Err(f) => Err(f),
                            Ok((a2, np)) => if np <= pos || np >= end {
                                Ok((a2, np))
                            } else {
                                spec_cluster_loop(d, np, end, video, audio, enc_audio, a2)
                            },
                        }
                    }
                } else if q + size > u64::MAX {
                    Err(ParseFail::Overflow)
                } else {
                    let np = if q + size < end { q + size } else { end };
                    if np <= pos || np >= end {
                        Ok((acc, np))
                    } else {
                        spec_cluster_loop(d, np, end, video, audio, enc_audio, acc)
                    }
                }
            },
        }
    }
}

fn scan_cluster(data: &[u8], pos0: u64, end: u64, video: &Vec<u64>, audio: &Vec<u64>, enc_audio: bool, regions: &mut Vec<Region>) -> (r: Result<u64, AppError>)
    requires
        mkv_regions_ok(old(regions)@, data@.len() as int, enc_audio),
    ensures
        mkv_regions_ok(final(regions)@, data@.len() as int, enc_audio),
        match r {
            Ok(np) => spec_cluster_loop(data@, pos0 as int, end as int, video@, audio@, enc_audio, old(regions)@) == Ok::<(Seq<Region>, int), ParseFail>((final(regions)@, np as int)),
            Err(e) => spec_cluster_loop(data@, pos0 as int, end as int, video@, audio@, enc_audio, old(regions)@) matches Err(f) && fail_matches(e, f),
        },
{
    let ghost whole = spec_cluster_loop(data@, pos0 as int, end as int, video@, audio@, enc_audio, regions@);
    let mut pos = pos0;
    loop
        invariant
            whole == spec_cluster_loop(data@, pos0 as int, end as int, video@, audio@, enc_audio, old(regions)@),
            mkv_regions_ok(regions@, data@.len() as int, enc_audio),
            whole == spec_cluster_loop(data@, pos as int, end as int, video@, audio@, enc_audio, regions@),
        decreases end - pos,
    {
        if pos >= end {
            return Ok(pos);
        }
        match read_ebml_element_header(data, pos) {
            Err((_, at)) => return Ok(at),
            Ok((id, size, q)) => {
                let np;
                if id == SIMPLE_BLOCK_ID {
                    np = parse_simple_block(data, q, size, video, audio, enc_audio, regions)?;
                } else if id == BLOCK_GROUP_ID {
                    let group_end = match q.checked_add(size) {
                        Some(x) => x,
                        None => return Err(AppError::IntegerOverflow),
                    };
                    np = scan_block_group(data, q, group_end, video, audio, enc_audio, regions)?;
                } else {
                    let next = match q.checked_add(size) {
                        Some(x) => x,
                        None => return Err(AppError::IntegerOverflow),
                    };
                    np = if next < end { next } else { end };
                }
                if np <= pos || np >= end {
                    return Ok(np);
                }
                pos = np;
            },
        }
    }
}

/// Scanning the children of the Segment from `pos` for Clusters.
pub open spec fn spec_segment_loop(d: Seq<u8>, pos: int, limit: int, video: Seq<u64>, audio: Seq<u64>, enc_audio: bool, acc: Seq<Region>) -> Result<Seq<Region>, ParseFail>
    decreases limit - pos,
{
    if pos >= limit {
        Ok(acc)
    } else {
        match spec_read_header(d, pos) {
            Err(_) => Ok(acc),
            Ok((id, size, q)) => {
                if id == CLUSTER_ID {
                    if q + size > u64::MAX {
                        Err(ParseFail::Overflow)
                    } else {
                        match spec_cluster_loop(d, q, q + size, video, audio, enc_audio, acc) {
                            Err(f) => Err(f),
                            Ok((a2, np)) => if np <= pos || np >= limit {
                                Ok(a2)
                            } else {
                                spec_segment_loop(d, np, limit, video, audio, enc_audio, a2)
                            },
                        }
                    }
                } else if q + size > u64::MAX {
                    Err(ParseFail::Overflow)
                } else if q + size > limit || q + size <= pos || q + size == limit {
                    Ok(acc)
                } else {
                    spec_segment_loop(d, q + size, limit, video, audio, enc_audio, acc)
                }
            },
        }
    }
}

// ============================================================================
// Laws of the walk
// ============================================================================

/// `r` with `acc` put before the regions it found.
pub open spec fn after(acc: Seq<Region>, r: Result<(Seq<Region>, int), ParseFail>) -> Result<(Seq<Region>, int), ParseFail> {
    match r {
        Ok((x, p)) => Ok((acc + x, p)),
        Err(f) => Err(f),
    }
}

/// `r` with `acc` put before the regions it found (a walk that gives only
/// regions).
pub open spec fn after_regions(acc: Seq<Region>, r: Result<Seq<Region>, ParseFail>) -> Result<Seq<Region>, ParseFail> {
    match r {
        Ok(x) => Ok(acc + x),
        Err(f) => Err(f),
    }
}

proof fn lemma_parse_block_acc(d: Seq<u8>, pos: int, size: u64, video: Seq<u64>, audio: Seq<u64>, enc_audio: bool, simple: bool, acc: Seq<Region>)
    ensures
        spec_parse_block(d, pos, size, video, audio, enc_audio, simple, acc) == after(
            acc,
            spec_parse_block(d, pos, size, video, audio, enc_audio, simple, seq![]),
        ),
{
    assert(acc + Seq::<Region>::empty() =~= acc);
    match spec_read_vint(d, pos) {
        Ok((track, q)) => {
            let r = Region { offset: (q + 3) as u64, len: 0, kind: RegionKind::VideoIFrame };
            assert forall|x: Region| acc.push(x) =~= acc + seq![x] by {}
            assert forall|x: Region| Seq::<Region>::empty().push(x) =~= seq![x] by {}
        },
        Err(_) => {},
    }
}

proof fn lemma_block_group_acc(d: Seq<u8>, pos: int, end: int, video: Seq<u64>, audio: Seq<u64>, enc_audio: bool, acc: Seq<Region>)
    ensures
        spec_block_group_loop(d, pos, end, video, audio, enc_audio, acc) == after(
            acc,
            spec_block_group_loop(d, pos, end, video, audio, enc_audio, seq![]),
        ),
    decreases end - pos,
{
    assert(acc + Seq::<Region>::empty() =~= acc);
    if pos < end {
        match spec_read_header(d, pos) {
            Ok((id, size, q)) => {
                if id == BLOCK_ID {
                    lemma_parse_block_acc(d, q, size, video, audio, enc_audio, false, acc);
                    match spec_parse_block(d, q, size, video, audio, enc_audio, false, seq![]) {
                        Ok((r1, np)) => {
                            if !(np <= pos || np >= end) {
                                lemma_block_group_acc(d, np, end, video, audio, enc_audio, acc + r1);
                                lemma_block_group_acc(d, np, end, video, audio, enc_audio, r1);
                                match spec_block_group_loop(d, np, end, video, audio, enc_audio, seq![]) {
                                    Ok((x, p)) => {
                                        assert((acc + r1) + x =~= acc + (r1 + x));
                                    },
                                    Err(_) => {},
                                }
                            }
                        },
                        Err(_) => {},
                    }
                } else if q + size <= u64::MAX {
                    let np = if q + size < end { q + size } else { end };
                    if !(np <= pos || np >= end) {
                        lemma_block_group_acc(d, np, end, video, audio, enc_audio, acc);
                    }
                }
            },
            Err(_) => {},
        }
    }
}

proof fn lemma_cluster_acc(d: Seq<u8>, pos: int, end: int, video: Seq<u64>, audio: Seq<u64>, enc_audio: bool, acc: Seq<Region>)
    ensures
        spec_cluster_loop(d, pos, end, video, audio, enc_audio, acc) == after(
            acc,
            spec_cluster_loop(d, pos, end, video, audio, enc_audio, seq![]),
        ),
    decreases end - pos, 1int,
{
    assert(acc + Seq::<Region>::empty() =~= acc);
    if pos < end {
        match spec_read_header(d, pos) {
            Ok((id, size, q)) => {
                if id == SIMPLE_BLOCK_ID {
                    lemma_parse_block_acc(d, q, size, video, audio, enc_audio, true, acc);
                    match spec_parse_block(d, q, size, video, audio, enc_audio, true, seq![]) {
                        Ok((r1, np)) => {
                            if !(np <= pos || np >= end) {
                                lemma_cluster_step(d, np, end, video, audio, enc_audio, acc, r1);
                            }
                        },
                        Err(_) => {},
                    }
                } else if id == BLOCK_GROUP_ID {
                    if q + size <= u64::MAX {
                        lemma_block_group_acc(d, q, q + size, video, audio, enc_audio, acc);
                        match spec_block_group_loop(d, q, q + size, video, audio, enc_audio, seq![]) {
                            Ok((r1, np)) => {
                                if !(np <= pos || np >= end) {
                                    lemma_cluster_step(d, np, end, video, audio, enc_audio, acc, r1);
                                }
                            },
                            Err(_) => {},
                        }
                    }
                } else if q + size <= u64::MAX {
                    let np = if q + size < end { q + size } else { end };
                    if !(np <= pos || np >= end) {
                        lemma_cluster_acc(d, np, end, video, audio, enc_audio, acc);
                    }
                }
            },
            Err(_) => {},
        }
    }
}

/// The accumulation step of `lemma_cluster_acc` after a block at `np`.
proof fn lemma_cluster_step(d: Seq<u8>, np: int, end: int, video: Seq<u64>, audio: Seq<u64>, enc_audio: bool, acc: Seq<Region>, r1: Seq<Region>)
    requires
        np < end,
    ensures
        spec_cluster_loop(d, np, end, video, audio, enc_audio, acc + r1) == after(
            acc,
            spec_cluster_loop(d, np, end, video, audio, enc_audio, r1),
        ),
    decreases end - np, 2int,
{
    lemma_cluster_acc(d, np, end, video, audio, enc_audio, acc + r1);
    lemma_cluster_acc(d, np, end, video, audio, enc_audio, r1);
    match spec_cluster_loop(d, np, end, video, audio, enc_audio, seq![]) {
        Ok((x, p)) => {
            assert((acc + r1) + x =~= acc + (r1 + x));
        },
        Err(_) => {},
    }
}

proof fn lemma_segment_acc(d: Seq<u8>, pos: int, limit: int, video: Seq<u64>, audio: Seq<u64>, enc_audio: bool, acc: Seq<Region>)
    ensures
        spec_segment_loop(d, pos, limit, video, audio, enc_audio, acc) == after_regions(
            acc,
            spec_segment_loop(d, pos, limit, video, audio, enc_audio, seq![]),
        ),
    decreases limit - pos,
{
    assert(acc + Seq::<Region>::empty() =~= acc);
    if pos < limit {
        match spec_read_header(d, pos) {
            Ok((id, size, q)) => {
                if id == CLUSTER_ID {
                    if q + size <= u64::MAX {
                        lemma_cluster_acc(d, q, q + size, video, audio, enc_audio, acc);
                        match spec_cluster_loop(d, q, q + size, video, audio, enc_audio, seq![]) {
                            Ok((r1, np)) => {
                                if !(np <= pos || np >= limit) {
                                    lemma_segment_acc(d, np, limit, video, audio, enc_audio, acc + r1);
                                    lemma_segment_acc(d, np, limit, video, audio, enc_audio, r1);
                                    match spec_segment_loop(d, np, limit, video, audio, enc_audio, seq![]) {
                                        Ok(x) => {
                                            assert((acc + r1) + x =~= acc + (r1 + x));
                                        },
                                        Err(_) => {},
                                    }
                                }
                            },
                            Err(_) => {},
                        }
                    }
                } else if q + size <= u64::MAX && !(q + size > limit || q + size <= pos || q + size == limit) {
                    lemma_segment_acc(d, q + size, limit, video, audio, enc_audio, acc);
                }
            },
            Err(_) => {},
        }
    }
}

/// Every Cluster of the Segment is scanned: when the Segment walk meets a
/// Cluster that ends before the end of the walk, what it finds is what that
/// Cluster holds followed by what the rest of the walk finds.
pub proof fn lemma_segment_scans_every_cluster(
    d: Seq<u8>,
    pos: int,
    limit: int,
    video: Seq<u64>,
    audio: Seq<u64>,
    enc_audio: bool,
    size: u64,
    q: int,
    r1: Seq<Region>,
    np: int,
)
    requires
        spec_read_header(d, pos) == Ok::<(u32, u64, int), ParseFail>((CLUSTER_ID, size, q)),
        q + size <= u64::MAX,
        spec_cluster_loop(d, q, q + size, video, audio, enc_audio, seq![]) == Ok::<(Seq<Region>, int), ParseFail>((r1, np)),
        pos < np < limit,
    ensures
        spec_segment_loop(d, pos, limit, video, audio, enc_audio, seq![]) == after_regions(
            r1,
            spec_segment_loop(d, np, limit, video, audio, enc_audio, seq![]),
        ),
{
    lemma_segment_acc(d, np, limit, video, audio, enc_audio, r1);
}

/// A block on an audio track (and on no video track) gives, when audio is
/// encrypted, an audio region over its frame data, whether it is a
/// SimpleBlock or a Block and whatever its flags; when audio is not
/// encrypted, it gives none.
pub proof fn lemma_audio_block_region(
    d: Seq<u8>,
    pos: int,
    size: u64,
    video: Seq<u64>,
    audio: Seq<u64>,
    enc_audio: bool,
    simple: bool,
    acc: Seq<Region>,
    track: u64,
    q: int,
)
    requires
        spec_read_vint(d, pos) == Ok::<(u64, int), ParseFail>((track, q)),
        audio.contains(track),
        !video.contains(track),
        q + 3 <= pos + size,
        pos + size <= d.len() <= u64::MAX,
    ensures
        spec_parse_block(d, pos, size, video, audio, enc_audio, simple, acc) == Ok::<(Seq<Region>, int), ParseFail>(
            (
                if enc_audio {
                    acc.push(Region { offset: (q + 3) as u64, len: (pos + size - (q + 3)) as usize, kind: RegionKind::AudioSample })
                } else {
                    acc
                },
                pos + size,
            ),
        ),
{
}

/// A block on a video track (and on no audio track) gives a keyframe region
/// over its frame data
/// when it is a Block of a BlockGroup, or a SimpleBlock flagged keyframe
/// (flag bit 0x80); a SimpleBlock without that flag gives none.
pub proof fn lemma_video_block_region(
    d: Seq<u8>,
    pos: int,
    size: u64,
    video: Seq<u64>,
    audio: Seq<u64>,
    enc_audio: bool,
    simple: bool,
    acc: Seq<Region>,
    track: u64,
    q: int,
)
    requires
        spec_read_vint(d, pos) == Ok::<(u64, int), ParseFail>((track, q)),
        video.contains(track),
        !audio.contains(track),
        q + 3 <= pos + size,
        pos + size <= d.len() <= u64::MAX,
    ensures
        spec_parse_block(d, pos, size, video, audio, enc_audio, simple, acc) == Ok::<(Seq<Region>, int), ParseFail>(
            (
                if !simple || d[q + 2] & 0x80 != 0 {
                    acc.push(Region { offset: (q + 3) as u64, len: (pos + size - (q + 3)) as usize, kind: RegionKind::VideoIFrame })
                } else {
                    acc
                },
                pos + size,
            ),
        ),
{
    let f = d[q + 2];
    assert((f & 0x80 != 0) == (f >= 0x80)) by (bit_vector);
}

/// Every block of a Cluster is read: when the Cluster walk meets a
/// SimpleBlock that ends before the end of the Cluster, what it finds is
/// what that block gives followed by what the rest of the Cluster gives.
pub proof fn lemma_cluster_scans_every_block(
    d: Seq<u8>,
    pos: int,
    end: int,
    video: Seq<u64>,
    audio: Seq<u64>,
    enc_audio: bool,
    size: u64,
    q: int,
    r1: Seq<Region>,
    np: int,
)
    requires
        spec_read_header(d, pos) == Ok::<(u32, u64, int), ParseFail>((SIMPLE_BLOCK_ID, size, q)),
        spec_parse_block(d, q, size, video, audio, enc_audio, true, seq![]) == Ok::<(Seq<Region>, int), ParseFail>((r1, np)),
        pos < np < end,
    ensures
        spec_cluster_loop(d, pos, end, video, audio, enc_audio, seq![]) == after(
            r1,
            spec_cluster_loop(d, np, end, video, audio, enc_audio, seq![]),
        ),
{
    lemma_cluster_acc(d, np, end, video, audio, enc_audio, r1);
}

/// The numbers of the tracks of type `ty` are those of the tracks whose
/// type is `ty`.
pub proof fn lemma_numbers_of_type(tracks: Seq<TrackInfo>, ty: u8, x: u64)
    ensures
        numbers_of_type(tracks, ty).contains(x) <==> exists|i: int|
            0 <= i < tracks.len() && #[trigger] tracks[i].number == x && tracks[i].track_type == ty,
    decreases tracks.len(),
{
    if tracks.len() > 0 {
        let rest = tracks.drop_last();
        lemma_numbers_of_type(rest, ty, x);
        let n = numbers_of_type(rest, ty);
        let l = tracks.last();
        if exists|i: int| 0 <= i < tracks.len() && #[trigger] tracks[i].number == x && tracks[i].track_type == ty {
            let i = choose|i: int| 0 <= i < tracks.len() && #[trigger] tracks[i].number == x && tracks[i].track_type == ty;
            if i < tracks.len() - 1 {
                assert(rest[i] == tracks[i]);
                let j = choose|j: int| 0 <= j < n.len() && n[j] == x;
                if l.track_type == ty {
                    assert(n.push(l.number)[j] == x);
                }
            } else {
                assert(n.push(l.number)[n.len() as int] == x);
            }
        }
        if numbers_of_type(tracks, ty).contains(x) {
            let j = choose|j: int| 0 <= j < numbers_of_type(tracks, ty).len() && numbers_of_type(tracks, ty)[j] == x;
            if l.track_type == ty && j == n.len() {
                assert(tracks[tracks.len() - 1].number == x);
            } else {
                assert(n[j] == x);
                let i = choose|i: int| 0 <= i < rest.len() && #[trigger] rest[i].number == x && rest[i].track_type == ty;
                assert(tracks[i] == rest[i]);
            }
        }
    }
}

fn scan_segment(data: &[u8], pos0: u64, video: &Vec<u64>, audio: &Vec<u64>, enc_audio: bool, regions: &mut Vec<Region>) -> (r: Result<(), AppError>)
    requires
        mkv_regions_ok(old(regions)@, data@.len() as int, enc_audio),
    ensures
        mkv_regions_ok(final(regions)@, data@.len() as int, enc_audio),
        match r {
            Ok(_) => spec_segment_loop(data@, pos0 as int, data@.len() as int, video@, audio@, enc_audio, old(regions)@) == Ok::<Seq<Region>, ParseFail>(final(regions)@),
            Err(e) => spec_segment_loop(data@, pos0 as int, data@.len() as int, video@, audio@, enc_audio, old(regions)@) matches Err(f) && fail_matches(e, f),
        },
{
    let limit = data.len() as u64;
    let ghost whole = spec_segment_loop(data@, pos0 as int, limit as int, video@, audio@, enc_audio, regions@);
    let mut pos = pos0;
    loop
        invariant
            limit == data@.len(),
            whole == spec_segment_loop(data@, pos0 as int, limit as int, video@, audio@, enc_audio, old(regions)@),
            mkv_regions_ok(regions@, data@.len() as int, enc_audio),
            whole == spec_segment_loop(data@, pos as int, limit as int, video@, audio@, enc_audio, regions@),
        decreases limit - pos,
    {
        if pos >= limit {
            return Ok(());
        }
        match read_ebml_element_header(data, pos) {
            Err(_) => return Ok(()),
            Ok((id, size, q)) => {
                if id == CLUSTER_ID {
                    let cluster_end = match q.checked_add(size) {
                        Some(x) => x,
                        None => return Err(AppError::IntegerOverflow),
                    };
                    let np = scan_cluster(data, q, cluster_end, video, audio, enc_audio, regions)?;
                    if np <= pos || np >= limit {
                        return Ok(());
                    }
                    pos = np;
                } else {
                    let next = match q.checked_add(size) {
                        Some(x) => x,
                        None => return Err(AppError::IntegerOverflow),
                    };
                    if next > limit || next <= pos || next == limit {
                        return Ok(());
                    }
                    pos = next;
                }
            },
        }
    }
}


// ============================================================================
// Whole-file scan
// ============================================================================

/// Numbers of the tracks of type `ty`, in order.
pub open spec fn numbers_of_type(tracks: Seq<TrackInfo>, ty: u8) -> Seq<u64>
    decreases tracks.len(),
{
    if tracks.len() == 0 {
        seq![]
    } else {
        let rest = numbers_of_type(tracks.drop_last(), ty);
        if tracks.last().track_type == ty {
            rest.push(tracks.last().number)
        } else {
            rest
        }
    }
}

fn track_numbers(tracks: &Vec<TrackInfo>, ty: u8) -> (r: Vec<u64>)
    ensures
        r@ == numbers_of_type(tracks@, ty),
{
    let mut out: Vec<u64> = Vec::new();
    let mut i: usize = 0;
    while i < tracks.len()
        invariant
            0 <= i <= tracks@.len(),
            out@ == numbers_of_type(tracks@.subrange(0, i as int), ty),
        decreases tracks@.len() - i,
    {
        proof {
            let s = tracks@.subrange(0, i as int + 1);
            assert(s.drop_last() =~= tracks@.subrange(0, i as int));
            assert(s.last() == tracks@[i as int]);
        }
        if tracks[i].track_type == ty {
            out.push(tracks[i].number);
        }
        i = i + 1;
    }
    assert(tracks@.subrange(0, tracks@.len() as int) =~= tracks@);
    out
}

/// The regions an MKV scan collects, in file order: the EBML header must come
/// first; the Segment is searched from there; the track list comes from its
/// Tracks element (if any); then every Cluster of the Segment is scanned.
#[verifier::opaque]
pub open spec fn spec_mkv_collect(d: Seq<u8>, enc_audio: bool) -> Result<Seq<Region>, ParseFail> {
    match spec_read_header(d, 0) {
        Err(f) => Err(f),
        Ok((id, _, q)) => if id != EBML_HEADER_ID {
            Err(ParseFail::Invalid("Not a valid EBML file"@))
        } else {
            match spec_find_element_after(d, q, SEGMENT_ID, d.len() as int) {
                Err(f) => Err(f),
                Ok(None) => Err(ParseFail::Invalid("No Segment found"@)),
                Ok(Some(seg)) => match spec_find_element_after(d, seg, TRACKS_ID, d.len() as int) {
                    Err(f) => Err(f),
                    Ok(t) => match (if t is Some {
                        spec_tracks_loop(d, t->0, d.len() as int, seq![])
                    } else {
                        Ok(seq![])
                    }) {
                        Err(f) => Err(f),
                        Ok(tracks) => spec_segment_loop(
                            d,
                            seg,
                            d.len() as int,
                            numbers_of_type(tracks, TRACK_TYPE_VIDEO),
                            numbers_of_type(tracks, TRACK_TYPE_AUDIO),
                            enc_audio,
                            seq![],
                        ),
                    },
                },
            }
        },
    }
}

/// Whether `e` ends, from `p` on, with a 73-byte footer that begins with the
/// footer magic.
pub open spec fn footer_at(e: Seq<u8>, p: int) -> bool {
    &&& 0 <= p
    &&& e.len() == p + 73
    &&& e.subrange(p, p + 8) == FOOTER_MAGIC@
}

/// The footer magic, read as an element header: ID 0x5255 with a size
/// (0x1354) that runs past the footer.
proof fn lemma_footer_header(e: Seq<u8>, p: int)
    requires
        footer_at(e, p),
    ensures
        spec_read_header(e, p) == Ok::<(u32, u64, int), ParseFail>((0x5255u32, 0x1354u64, p + 4)),
{
    assert(e[p] == e.subrange(p, p + 8)[0]);
    assert(e[p + 1] == e.subrange(p, p + 8)[1]);
    assert(e[p + 2] == e.subrange(p, p + 8)[2]);
    assert(e[p + 3] == e.subrange(p, p + 8)[3]);
    assert(e[p] == 0x52 && e[p + 1] == 0x55 && e[p + 2] == 0x53 && e[p + 3] == 0x54);
    reveal_with_fuel(be_nat, 3);
    assert(e.subrange(p, p + 2) =~= seq![0x52u8, 0x55u8]);
    assert(e.subrange(p + 2, p + 4) =~= seq![0x53u8, 0x54u8]);
    assert(seq![0x52u8, 0x55u8].drop_last() =~= seq![0x52u8]);
    assert(seq![0x52u8].drop_last() =~= Seq::<u8>::empty());
    assert(seq![0x53u8, 0x54u8].drop_last() =~= seq![0x53u8]);
    assert(seq![0x53u8].drop_last() =~= Seq::<u8>::empty());
    assert(be_nat(seq![0x52u8, 0x55u8]) == 0x5255);
    assert(be_nat(seq![0x53u8, 0x54u8]) == 0x5354);
}

/// A footer stops every top-level walk of an MKV scan that reaches it: the
/// search for an element finds nothing, the track list and the Segment walk
/// end with what they had.
pub proof fn lemma_footer_ends_walks(e: Seq<u8>, p: int, target: u32, video: Seq<u64>, audio: Seq<u64>, enc_audio: bool, tracks: Seq<TrackInfo>, acc: Seq<Region>)
    requires
        footer_at(e, p),
        p + 0x1358 <= u64::MAX,
        target != 0x5255,
    ensures
        spec_find_element_after(e, p, target, p + 73) == Ok::<Option<int>, ParseFail>(None),
        spec_tracks_loop(e, p, p + 73, tracks) == Ok::<Seq<TrackInfo>, ParseFail>(tracks),
        spec_segment_loop(e, p, p + 73, video, audio, enc_audio, acc) == Ok::<Seq<Region>, ParseFail>(acc),
{
    lemma_footer_header(e, p);
    assert(spec_find_element_after(e, p, target, p + 73) == Ok::<Option<int>, ParseFail>(None));
    assert(spec_tracks_loop(e, p, p + 73, tracks) == Ok::<Seq<TrackInfo>, ParseFail>(tracks));
    assert(spec_segment_loop(e, p, p + 73, video, audio, enc_audio, acc) == Ok::<Seq<Region>, ParseFail>(acc));
}

// ============================================================================
// Reading small headers
// ============================================================================

/// A one-byte VINT (first byte at least 0x80) holds that byte without its
/// marker bit.
proof fn lemma_vint1(e: Seq<u8>, p: int)
    requires
        0 <= p < e.len(),
        e[p] >= 0x80,
    ensures
        spec_read_vint(e, p) == Ok::<(u64, int), ParseFail>(((e[p] - 0x80) as u64, p + 1)),
{
    reveal_with_fuel(be_nat, 2);
    assert(e.subrange(p, p + 1).drop_last() =~= Seq::<u8>::empty());
}

/// A one-byte element ID (first byte at least 0x80) is that byte.
proof fn lemma_id1(e: Seq<u8>, p: int)
    requires
        0 <= p < e.len(),
        e[p] >= 0x80,
    ensures
        spec_read_element_id(e, p) == Ok::<(u32, int), ParseFail>((e[p] as u32, p + 1)),
{
    reveal_with_fuel(be_nat, 2);
    assert(e.subrange(p, p + 1).drop_last() =~= Seq::<u8>::empty());
}

/// A four-byte element ID (first byte from 0x10 to 0x1F) is the big-endian
/// value of its four bytes.
proof fn lemma_id4(e: Seq<u8>, p: int)
    requires
        0 <= p,
        p + 4 <= e.len(),
        0x10 <= e[p] < 0x20,
    ensures
        spec_read_element_id(e, p) == Ok::<(u32, int), ParseFail>(
            ((((e[p] as int * 256 + e[p + 1]) * 256 + e[p + 2]) * 256 + e[p + 3]) as u32, p + 4),
        ),
{
    reveal_with_fuel(be_nat, 5);
    let s = e.subrange(p, p + 4);
    assert(s.drop_last() =~= e.subrange(p, p + 3));
    assert(s.drop_last().drop_last() =~= e.subrange(p, p + 2));
    assert(s.drop_last().drop_last().drop_last() =~= e.subrange(p, p + 1));
    assert(e.subrange(p, p + 1).drop_last() =~= Seq::<u8>::empty());
}

// ============================================================================
// A minimal file
// ============================================================================

/// The first 42 bytes of a minimal MKV file: an EBML header (empty), then a
/// Segment of 48 bytes holding Tracks (track 1 of type video, track 2 of type
/// audio) and a Cluster with one SimpleBlock on track 1, flagged keyframe,
/// up to where its frame data begins.
pub open spec fn minimal_mkv_prefix() -> Seq<u8> {
    seq![0x1Au8, 0x45u8, 0xDFu8, 0xA3u8, 0x80u8, 0x18u8, 0x53u8, 0x80u8, 0x67u8, 0xB0u8, 0x16u8, 0x54u8, 0xAEu8, 0x6Bu8, 0x90u8, 0xAEu8, 0x86u8, 0xD7u8, 0x81u8, 0x81u8, 0x83u8, 0x81u8, 0x01u8, 0xAEu8, 0x86u8, 0xD7u8, 0x81u8, 0x82u8, 0x83u8, 0x81u8, 0x02u8, 0x1Fu8, 0x43u8, 0xB6u8, 0x75u8, 0x96u8, 0xA3u8, 0x94u8, 0x81u8, 0x00u8, 0x00u8, 0x80u8]
}

/// The minimal MKV file: its prefix and 16 bytes of frame data.
pub open spec fn minimal_mkv_file() -> Seq<u8> {
    minimal_mkv_prefix() + Seq::new(16, |i: int| 0x42u8)
}

/// The one region of the minimal file: the keyframe's 16 bytes of frame data.
pub open spec fn minimal_mkv_region() -> Region {
    Region { offset: 42, len: 16, kind: RegionKind::VideoIFrame }
}

/// What a file that begins like the minimal file holds, byte by byte.
proof fn lemma_minimal_bytes(e: Seq<u8>)
    requires
        e.len() >= 42,
        forall|i: int| 0 <= i < 42 ==> e[i] == #[trigger] minimal_mkv_prefix()[i],
    ensures
        forall|i: int| 0 <= i < 42 ==> e[i] == #[trigger] minimal_mkv_prefix()[i],
        e[0] == 0x1A && e[1] == 0x45 && e[2] == 0xDF && e[3] == 0xA3 && e[4] == 0x80,
        e[5] == 0x18 && e[6] == 0x53 && e[7] == 0x80 && e[8] == 0x67 && e[9] == 0xB0,
        e[10] == 0x16 && e[11] == 0x54 && e[12] == 0xAE && e[13] == 0x6B && e[14] == 0x90,
        e[15] == 0xAE && e[16] == 0x86 && e[17] == 0xD7 && e[18] == 0x81 && e[19] == 0x81,
        e[20] == 0x83 && e[21] == 0x81 && e[22] == 0x01,
        e[23] == 0xAE && e[24] == 0x86 && e[25] == 0xD7 && e[26] == 0x81 && e[27] == 0x82,
        e[28] == 0x83 && e[29] == 0x81 && e[30] == 0x02,
        e[31] == 0x1F && e[32] == 0x43 && e[33] == 0xB6 && e[34] == 0x75 && e[35] == 0x96,
        e[36] == 0xA3 && e[37] == 0x94 && e[38] == 0x81 && e[39] == 0x00 && e[40] == 0x00 && e[41] == 0x80,
{
    let h = minimal_mkv_prefix();
    assert(e[0] == h[0]);
    assert(e[1] == h[1]);
    assert(e[2] == h[2]);
    assert(e[3] == h[3]);
    assert(e[4] == h[4]);
    assert(e[5] == h[5]);
    assert(e[6] == h[6]);
    assert(e[7] == h[7]);
    assert(e[8] == h[8]);
    assert(e[9] == h[9]);
    assert(e[10] == h[10]);
    assert(e[11] == h[11]);
    assert(e[12] == h[12]);
    assert(e[13] == h[13]);
    assert(e[14] == h[14]);
    assert(e[15] == h[15]);
    assert(e[16] == h[16]);
    assert(e[17] == h[17]);
    assert(e[18] == h[18]);
    assert(e[19] == h[19]);
    assert(e[20] == h[20]);
    assert(e[21] == h[21]);
    assert(e[22] == h[22]);
    assert(e[23] == h[23]);
    assert(e[24] == h[24]);
    assert(e[25] == h[25]);
    assert(e[26] == h[26]);
    assert(e[27] == h[27]);
    assert(e[28] == h[28]);
    assert(e[29] == h[29]);
    assert(e[30] == h[30]);
    assert(e[31] == h[31]);
    assert(e[32] == h[32]);
    assert(e[33] == h[33]);
    assert(e[34] == h[34]);
    assert(e[35] == h[35]);
    assert(e[36] == h[36]);
    assert(e[37] == h[37]);
    assert(e[38] == h[38]);
    assert(e[39] == h[39]);
    assert(e[40] == h[40]);
    assert(e[41] == h[41]);
}

/// The track list of a file that begins like the minimal file: track 1 of
/// type video, track 2 of type audio.
proof fn lemma_minimal_tracks(e: Seq<u8>)
    requires
        42 <= e.len() <= u64::MAX,
        forall|i: int| 0 <= i < 42 ==> e[i] == #[trigger] minimal_mkv_prefix()[i],
    ensures
        spec_tracks_loop(e, 15, e.len() as int, seq![]) == Ok::<Seq<TrackInfo>, ParseFail>(
            seq![TrackInfo { number: 1, track_type: 1 }, TrackInfo { number: 2, track_type: 2 }],
        ),
{
    lemma_minimal_bytes(e);
    let n = e.len() as int;
    let t1 = TrackInfo { number: 1, track_type: 1 };
    let t2 = TrackInfo { number: 2, track_type: 2 };
    // first TrackEntry
    lemma_id1(e, 15);
    lemma_vint1(e, 16);
    assert(spec_read_header(e, 15) == Ok::<(u32, u64, int), ParseFail>((0xAEu32, 6u64, 17)));
    lemma_id1(e, 17);
    lemma_vint1(e, 18);
    assert(spec_read_header(e, 17) == Ok::<(u32, u64, int), ParseFail>((0xD7u32, 1u64, 19)));
    lemma_vint1(e, 19);
    lemma_id1(e, 20);
    lemma_vint1(e, 21);
    assert(spec_read_header(e, 20) == Ok::<(u32, u64, int), ParseFail>((0x83u32, 1u64, 22)));
    assert(spec_track_entry_loop(e, 20, 23, Some(1u64), None) == Ok::<(Option<u64>, Option<u8>, int), ParseFail>(
        (Some(1u64), Some(1u8), 23),
    ));
    assert(spec_track_entry_loop(e, 17, 23, None, None) == Ok::<(Option<u64>, Option<u8>, int), ParseFail>(
        (Some(1u64), Some(1u8), 23),
    ));
    assert(spec_parse_track_entry(e, 17, 6) == Ok::<(Option<TrackInfo>, int), ParseFail>((Some(t1), 23)));
    // second TrackEntry
    lemma_id1(e, 23);
    lemma_vint1(e, 24);
    assert(spec_read_header(e, 23) == Ok::<(u32, u64, int), ParseFail>((0xAEu32, 6u64, 25)));
    lemma_id1(e, 25);
    lemma_vint1(e, 26);
    assert(spec_read_header(e, 25) == Ok::<(u32, u64, int), ParseFail>((0xD7u32, 1u64, 27)));
    lemma_vint1(e, 27);
    lemma_id1(e, 28);
    lemma_vint1(e, 29);
    assert(spec_read_header(e, 28) == Ok::<(u32, u64, int), ParseFail>((0x83u32, 1u64, 30)));
    assert(spec_track_entry_loop(e, 28, 31, Some(2u64), None) == Ok::<(Option<u64>, Option<u8>, int), ParseFail>(
        (Some(2u64), Some(2u8), 31),
    ));
    assert(spec_track_entry_loop(e, 25, 31, None, None) == Ok::<(Option<u64>, Option<u8>, int), ParseFail>(
        (Some(2u64), Some(2u8), 31),
    ));
    assert(spec_parse_track_entry(e, 25, 6) == Ok::<(Option<TrackInfo>, int), ParseFail>((Some(t2), 31)));
    // the Cluster ends the list
    lemma_id4(e, 31);
    lemma_vint1(e, 35);
    assert(spec_read_header(e, 31) == Ok::<(u32, u64, int), ParseFail>((CLUSTER_ID, 22u64, 36)));
    assert(spec_tracks_loop(e, 31, n, seq![t1, t2]) == Ok::<Seq<TrackInfo>, ParseFail>(seq![t1, t2]));
    assert(seq![t1].push(t2) =~= seq![t1, t2]);
    assert(seq![].push(t1) =~= seq![t1]);
    assert(spec_tracks_loop(e, 23, n, seq![t1]) == Ok::<Seq<TrackInfo>, ParseFail>(seq![t1, t2]));
}

/// What a scan finds in a file that begins like the minimal file and either
/// ends with it or goes on with a footer: the one keyframe region.
proof fn lemma_minimal_scan(e: Seq<u8>)
    requires
        58 <= e.len() <= u64::MAX,
        forall|i: int| 0 <= i < 42 ==> e[i] == #[trigger] minimal_mkv_prefix()[i],
        e.len() == 58 || footer_at(e, 58),
    ensures
        spec_mkv_collect(e, false) == Ok::<Seq<Region>, ParseFail>(seq![minimal_mkv_region()]),
{
    reveal(spec_mkv_collect);
    lemma_minimal_bytes(e);
    let n = e.len() as int;
    let t1 = TrackInfo { number: 1, track_type: 1 };
    let t2 = TrackInfo { number: 2, track_type: 2 };
    let tracks = seq![t1, t2];
    let r = minimal_mkv_region();
    lemma_id4(e, 0);
    lemma_vint1(e, 4);
    assert(spec_read_header(e, 0) == Ok::<(u32, u64, int), ParseFail>((EBML_HEADER_ID, 0u64, 5)));
    lemma_id4(e, 5);
    lemma_vint1(e, 9);
    assert(spec_read_header(e, 5) == Ok::<(u32, u64, int), ParseFail>((SEGMENT_ID, 48u64, 10)));
    assert(spec_find_element_after(e, 5, SEGMENT_ID, n) == Ok::<Option<int>, ParseFail>(Some(10)));
    lemma_id4(e, 10);
    lemma_vint1(e, 14);
    assert(spec_read_header(e, 10) == Ok::<(u32, u64, int), ParseFail>((TRACKS_ID, 16u64, 15)));
    assert(spec_find_element_after(e, 10, TRACKS_ID, n) == Ok::<Option<int>, ParseFail>(Some(15)));
    lemma_minimal_tracks(e);
    reveal_with_fuel(numbers_of_type, 3);
    assert(tracks.drop_last() =~= seq![t1]);
    assert(seq![t1].drop_last() =~= Seq::<TrackInfo>::empty());
    assert(numbers_of_type(tracks, TRACK_TYPE_VIDEO) =~= seq![1u64]);
    assert(numbers_of_type(tracks, TRACK_TYPE_AUDIO) =~= seq![2u64]);
    let video = seq![1u64];
    let audio = seq![2u64];
    // the Cluster and its SimpleBlock
    lemma_id4(e, 31);
    lemma_vint1(e, 35);
    assert(spec_read_header(e, 31) == Ok::<(u32, u64, int), ParseFail>((CLUSTER_ID, 22u64, 36)));
    lemma_id1(e, 36);
    lemma_vint1(e, 37);
    assert(spec_read_header(e, 36) == Ok::<(u32, u64, int), ParseFail>((SIMPLE_BLOCK_ID, 20u64, 38)));
    lemma_vint1(e, 38);
    assert(video[0] == 1u64);
    assert(video.contains(1u64));
    assert(spec_parse_block(e, 38, 20, video, audio, false, true, seq![]) == Ok::<(Seq<Region>, int), ParseFail>(
        (seq![r], 58),
    )) by {
        assert(seq![].push(r) =~= seq![r]);
    }
    assert(spec_cluster_loop(e, 36, 58, video, audio, false, seq![]) == Ok::<(Seq<Region>, int), ParseFail>(
        (seq![r], 58),
    ));
    // the Segment walk ends at the end of the file, or at the footer
    assert(spec_segment_loop(e, 58, n, video, audio, false, seq![r]) == Ok::<Seq<Region>, ParseFail>(seq![r])) by {
        if n != 58 {
            lemma_footer_ends_walks(e, 58, 0, video, audio, false, tracks, seq![r]);
        }
    }
    assert(spec_segment_loop(e, 31, n, video, audio, false, seq![]) == Ok::<Seq<Region>, ParseFail>(seq![r]));
    assert(spec_segment_loop(e, 10, n, video, audio, false, seq![]) == Ok::<Seq<Region>, ParseFail>(seq![r]));
}

/// The minimal file scans to its keyframe region; so does every file that
/// agrees with it before that region, followed by 73 bytes that begin with
/// the footer magic.
pub proof fn lemma_minimal_mkv_scans(body: Seq<u8>, tail: Seq<u8>)
    requires
        body.len() == 58,
        forall|i: int| 0 <= i < 42 ==> body[i] == minimal_mkv_file()[i],
        tail.len() == 73,
        tail.subrange(0, 8) == FOOTER_MAGIC@,
    ensures
        spec_mkv_collect(minimal_mkv_file(), false) == Ok::<Seq<Region>, ParseFail>(seq![minimal_mkv_region()]),
        spec_mkv_collect(body + tail, false) == Ok::<Seq<Region>, ParseFail>(seq![minimal_mkv_region()]),
{
    let f = minimal_mkv_file();
    let h = minimal_mkv_prefix();
    assert(h.len() == 42);
    assert(forall|i: int| 0 <= i < 42 ==> f[i] == #[trigger] h[i]);
    assert(spec_mkv_collect(f, false) == Ok::<Seq<Region>, ParseFail>(seq![minimal_mkv_region()])) by {
        lemma_minimal_scan(f);
    }
    let e = body + tail;
    assert(forall|i: int| 0 <= i < 42 ==> e[i] == #[trigger] h[i]) by {
        assert forall|i: int| 0 <= i < 42 implies e[i] == #[trigger] h[i] by {
            assert(e[i] == body[i]);
            assert(body[i] == f[i]);
        }
    }
    assert(spec_mkv_collect(e, false) == Ok::<Seq<Region>, ParseFail>(seq![minimal_mkv_region()])) by {
        assert(e.subrange(58, 66) =~= tail.subrange(0, 8));
        lemma_minimal_scan(e);
    }
}

impl MkvParser {
    /// Scans the bytes of an MKV file and returns the regions to process,
    /// sorted by offset: the frame data of video keyframes and, when
    /// `encrypt_audio`, of audio blocks. MKV has no metadata regions, so
    /// `_scrub_metadata` has no effect.
    pub fn scan_regions(&self, data: &[u8], encrypt_audio: bool, _scrub_metadata: bool) -> (r: Result<Vec<Region>, AppError>)
        ensures
            match r {
                Ok(v) => spec_mkv_collect(data@, encrypt_audio) matches Ok(s) && stable_sorted_by_offset(s, v@),
                Err(e) => spec_mkv_collect(data@, encrypt_audio) matches Err(f) && fail_matches(e, f),
            },
            r matches Ok(v) ==> regions_within(v@, data@.len() as int),
            r matches Ok(v) ==> forall|i: int| 0 <= i < v@.len() ==> (#[trigger] v@[i]).kind == RegionKind::VideoIFrame
                || (v@[i].kind == RegionKind::AudioSample && encrypt_audio),
    {
        proof {
            reveal(spec_mkv_collect);
        }
        let file_size = data.len() as u64;
        let (id, _size, q) = match read_ebml_element_header(data, 0) {
            Ok(h) => h,
            Err((e, _)) => return Err(e),
        };
        if id != EBML_HEADER_ID {
            return Err(AppError::InvalidStructure(String::from_str("Not a valid EBML file")));
        }
        let segment_start = match find_element_after(data, q, SEGMENT_ID, file_size)? {
            Some(s) => s,
            None => return Err(AppError::InvalidStructure(String::from_str("No Segment found"))),
        };
        let tracks = match find_element_after(data, segment_start, TRACKS_ID, file_size)? {
            Some(tracks_pos) => parse_tracks(data, tracks_pos)?,
            None => Vec::new(),
        };
        let video_tracks = track_numbers(&tracks, TRACK_TYPE_VIDEO);
        let audio_tracks = track_numbers(&tracks, TRACK_TYPE_AUDIO);
        let mut regions: Vec<Region> = Vec::new();
        scan_segment(data, segment_start, &video_tracks, &audio_tracks, encrypt_audio, &mut regions)?;
        let ghost found = regions@;
        sort_regions_by_offset(&mut regions);
        proof {
            lemma_sorted_members(found, regions@);
            assert forall|i: int| 0 <= i < regions@.len() implies #[trigger] regions@[i].offset + regions@[i].len
                <= data@.len() && (regions@[i].kind == RegionKind::VideoIFrame || (regions@[i].kind
                == RegionKind::AudioSample && encrypt_audio)) by {
                let j = choose|j: int| 0 <= j < found.len() && found[j] == regions@[i];
                assert(found[j] == regions@[i]);
            }
        }
        Ok(regions)
    }
}

} // verus!
