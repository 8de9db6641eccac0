use media_lock_core::common::{FileFooter, Region, RegionKind};
use media_lock_core::crypto::{derive_key, derive_keys, CryptoEngine};
use media_lock_core::workflow::{build_footer, detect_file_state};
use media_lock_core::error::AppError;
use media_lock_core::parsers::mkv::{read_element_id, read_vint};
use media_lock_core::parsers::{detect_parser, ContainerFormat, ContainerParser, MkvParser, Mp4Parser};

#[test]
fn test_vint_decoding() {
    assert_eq!(read_vint(&[0x81u8], 0).unwrap().0, 1);
    assert_eq!(read_vint(&[0x9Fu8], 0).unwrap().0, 31);
    assert_eq!(read_vint(&[0x40u8, 0x01], 0).unwrap().0, 1);
    assert_eq!(read_vint(&[0x40u8, 0xFF], 0).unwrap().0, 255);
}

#[test]
fn test_element_id_reading() {
    assert_eq!(read_element_id(&[0xA3u8], 0).unwrap().0, 0xA3);
    assert_eq!(read_element_id(&[0x1A, 0x45, 0xDF, 0xA3], 0).unwrap().0, 0x1A45DFA3);
}

#[test]
fn test_simple_block_keyframe_flag() {
    let keyframe_flags = 0x80u8;
    let non_keyframe_flags = 0x00u8;

    assert!((keyframe_flags & 0x80) != 0);
    assert!((non_keyframe_flags & 0x80) == 0);
}

#[test]
fn test_mp4_detect() {
    let ftyp_header = [0, 0, 0, 0x20, b'f', b't', b'y', b'p', b'm', b'p', b'4', b'2'];
    assert_eq!(&ftyp_header[4..8], b"ftyp");
    assert_eq!(detect_parser(&ftyp_header, None, "x.bin").unwrap(), ContainerFormat::Mp4);
}

#[test]
fn vint_positions_and_errors() {
    // the position after the integer is returned
    assert_eq!(read_vint(&[0x00, 0x40u8, 0x02], 1).unwrap(), (2, 3));
    // a zero first byte is no valid width
    assert!(matches!(read_vint(&[0x00u8], 0), Err(AppError::InvalidStructure(_))));
    // data ends inside the integer
    assert!(matches!(read_vint(&[0x40u8], 0), Err(AppError::Io(_))));
    assert!(matches!(read_vint(&[], 0), Err(AppError::Io(_))));
}

#[test]
fn element_id_keeps_marker_bits() {
    assert_eq!(read_element_id(&[0x42, 0x86], 0).unwrap(), (0x4286, 2));
    assert!(matches!(read_element_id(&[0x1A, 0x45], 0), Err(AppError::Io(_))));
}

#[test]
fn detect_parser_cases() {
    let ebml = [0x1A, 0x45, 0xDF, 0xA3, 0, 0, 0, 0, 0, 0, 0, 0];
    assert_eq!(detect_parser(&ebml, None, "a").unwrap(), ContainerFormat::Mkv);
    let moov = [0, 0, 0, 8, b'm', b'o', b'o', b'v', 0, 0, 0, 0];
    assert_eq!(detect_parser(&moov, None, "a").unwrap(), ContainerFormat::Mp4);
    let unknown = [0u8; 12];
    assert_eq!(detect_parser(&unknown, Some("MKV"), "a").unwrap(), ContainerFormat::Mkv);
    assert_eq!(detect_parser(&unknown, Some("m4a"), "a").unwrap(), ContainerFormat::Mp4);
    match detect_parser(&unknown, Some("avi"), "movie.avi") {
        Err(AppError::UnsupportedFormat(m)) => assert_eq!(m, "Unknown format: movie.avi"),
        other => panic!("unexpected {:?}", other),
    }
    match detect_parser(&[0u8; 11], Some("mp4"), "short.mp4") {
        Err(AppError::UnsupportedFormat(m)) => assert_eq!(m, "File too short"),
        other => panic!("unexpected {:?}", other),
    }
}

fn ebml_vint_1byte(value: u64) -> [u8; 1] {
    assert!(value <= 0x7F, "fixture only supports 1-byte VINT");
    [(0x80u8 | (value as u8))]
}

/// A minimal MKV file: EBML header, a segment with two tracks (video #1,
/// audio #2) and a cluster with one keyframe block of 16 bytes on track 1.
pub fn minimal_mkv_fixture() -> (Vec<u8>, u64, usize) {
    let mut bytes = Vec::new();
    bytes.extend_from_slice(&[0x1A, 0x45, 0xDF, 0xA3]);
    bytes.extend_from_slice(&ebml_vint_1byte(0));
    bytes.extend_from_slice(&[0x18, 0x53, 0x80, 0x67]);
    bytes.extend_from_slice(&ebml_vint_1byte(48));
    bytes.extend_from_slice(&[0x16, 0x54, 0xAE, 0x6B]);
    bytes.extend_from_slice(&ebml_vint_1byte(16));
    bytes.push(0xAE);
    bytes.extend_from_slice(&ebml_vint_1byte(6));
    bytes.push(0xD7);
    bytes.extend_from_slice(&ebml_vint_1byte(1));
    bytes.extend_from_slice(&ebml_vint_1byte(1));
    bytes.push(0x83);
    bytes.extend_from_slice(&ebml_vint_1byte(1));
    bytes.push(1);
    bytes.push(0xAE);
    bytes.extend_from_slice(&ebml_vint_1byte(6));
    bytes.push(0xD7);
    bytes.extend_from_slice(&ebml_vint_1byte(1));
    bytes.extend_from_slice(&ebml_vint_1byte(2));
    bytes.push(0x83);
    bytes.extend_from_slice(&ebml_vint_1byte(1));
    bytes.push(2);
    bytes.extend_from_slice(&[0x1F, 0x43, 0xB6, 0x75]);
    bytes.extend_from_slice(&ebml_vint_1byte(22));
    bytes.push(0xA3);
    bytes.extend_from_slice(&ebml_vint_1byte(20));
    bytes.extend_from_slice(&ebml_vint_1byte(1));
    bytes.extend_from_slice(&[0x00, 0x00]);
    bytes.push(0x80);
    let region_offset = bytes.len() as u64;
    let region_len = 16usize;
    bytes.extend_from_slice(&[0x42u8; 16]);
    (bytes, region_offset, region_len)
}

fn mp4_box(box_type: &[u8; 4], payload: &[u8]) -> Vec<u8> {
    let size: u32 = (8 + payload.len()) as u32;
    let mut out = Vec::with_capacity(size as usize);
    out.extend_from_slice(&size.to_be_bytes());
    out.extend_from_slice(box_type);
    out.extend_from_slice(payload);
    out
}

fn full_box(box_type: &[u8; 4], words: &[u32]) -> Vec<u8> {
    let mut payload = Vec::new();
    payload.extend_from_slice(&0u32.to_be_bytes());
    for w in words {
        payload.extend_from_slice(&w.to_be_bytes());
    }
    mp4_box(box_type, &payload)
}

fn minimal_mp4_moov(chunk_offset: u32, handler: &[u8; 4]) -> Vec<u8> {
    minimal_mp4_moov_runs(chunk_offset, handler, 1)
}

fn minimal_mp4_moov_runs(chunk_offset: u32, handler: &[u8; 4], samples_per_chunk: u32) -> Vec<u8> {
    let mut hdlr_payload = Vec::new();
    hdlr_payload.extend_from_slice(&0u32.to_be_bytes());
    hdlr_payload.extend_from_slice(&0u32.to_be_bytes());
    hdlr_payload.extend_from_slice(handler);
    let hdlr = mp4_box(b"hdlr", &hdlr_payload);
    let stss = full_box(b"stss", &[1, 1]);
    let stsz = full_box(b"stsz", &[16, 1]);
    let stsc = full_box(b"stsc", &[1, 1, samples_per_chunk, 1]);
    let stco = full_box(b"stco", &[1, chunk_offset]);
    let mut stbl_payload = Vec::new();
    stbl_payload.extend_from_slice(&stss);
    stbl_payload.extend_from_slice(&stsz);
    stbl_payload.extend_from_slice(&stsc);
    stbl_payload.extend_from_slice(&stco);
    let stbl = mp4_box(b"stbl", &stbl_payload);
    let minf = mp4_box(b"minf", &stbl);
    let mut mdia_payload = Vec::new();
    mdia_payload.extend_from_slice(&hdlr);
    mdia_payload.extend_from_slice(&minf);
    let mdia = mp4_box(b"mdia", &mdia_payload);
    let trak = mp4_box(b"trak", &mdia);
    mp4_box(b"moov", &trak)
}

/// A minimal MP4 file: ftyp, a moov with one track of one 16-byte sync
/// sample, and the mdat holding it.
pub fn minimal_mp4_fixture_with(handler: &[u8; 4]) -> (Vec<u8>, u64, usize) {
    let sample = vec![0x55u8; 16];
    let mut ftyp_payload = Vec::new();
    ftyp_payload.extend_from_slice(b"isom");
    ftyp_payload.extend_from_slice(&0u32.to_be_bytes());
    let ftyp = mp4_box(b"ftyp", &ftyp_payload);
    let moov_placeholder = minimal_mp4_moov(0, handler);
    let mdat_offset = (ftyp.len() + moov_placeholder.len()) as u64;
    let sample_offset = mdat_offset + 8;
    let moov = minimal_mp4_moov(sample_offset as u32, handler);
    let mdat = mp4_box(b"mdat", &sample);
    let mut bytes = Vec::new();
    bytes.extend_from_slice(&ftyp);
    bytes.extend_from_slice(&moov);
    bytes.extend_from_slice(&mdat);
    (bytes, sample_offset, sample.len())
}

#[test]
fn mkv_fixture_yields_keyframe_region() {
    let (bytes, offset, len) = minimal_mkv_fixture();
    let regions = MkvParser::new().scan_regions(&bytes, false, false).unwrap();
    assert_eq!(regions.len(), 1);
    assert_eq!(regions[0].offset, offset);
    assert_eq!(regions[0].len, len);
    assert_eq!(regions[0].kind, RegionKind::VideoIFrame);
    assert_eq!(MkvParser::new().name(), "MKV");
}

#[test]
fn mkv_fixture_through_detected_format() {
    let (bytes, offset, _) = minimal_mkv_fixture();
    let fmt = detect_parser(&bytes[..12], Some("mkv"), "fixture.mkv").unwrap();
    assert_eq!(fmt, ContainerFormat::Mkv);
    let regions: Vec<Region> = fmt.scan_regions(&bytes, true, true).unwrap();
    assert_eq!(regions.len(), 1);
    assert_eq!(regions[0].offset, offset);
}

#[test]
fn mp4_fixture_yields_sync_sample_region() {
    let (bytes, offset, len) = minimal_mp4_fixture_with(b"vide");
    let regions = Mp4Parser::new().scan_regions(&bytes, false, false).unwrap();
    assert_eq!(regions.len(), 1);
    assert_eq!(regions[0].offset, offset);
    assert_eq!(regions[0].len, len);
    assert_eq!(regions[0].kind, RegionKind::VideoIFrame);
    assert_eq!(Mp4Parser::new().name(), "MP4");
}

#[test]
fn mp4_audio_track_only_with_audio_flag() {
    let (bytes, offset, len) = minimal_mp4_fixture_with(b"soun");
    let without = Mp4Parser::new().scan_regions(&bytes, false, false).unwrap();
    assert!(without.is_empty());
    let with = Mp4Parser::new().scan_regions(&bytes, true, false).unwrap();
    assert_eq!(with.len(), 1);
    assert_eq!(with[0].offset, offset);
    assert_eq!(with[0].len, len);
    assert_eq!(with[0].kind, RegionKind::AudioSample);
}

#[test]
fn mp4_without_moov_is_invalid() {
    let bytes = mp4_box(b"ftyp", b"isom\0\0\0\0");
    assert!(matches!(Mp4Parser::new().scan_regions(&bytes, false, false), Err(AppError::InvalidStructure(_))));
}

/// Encrypts the regions of `bytes` in place the way a run does, chunk by
/// chunk, and appends the footer; returns what the file becomes.
fn encrypt_in_memory(bytes: &[u8], regions: &[Region], password: &str) -> Vec<u8> {
    let salt = [5u8; 16];
    let nonce = [6u8; 8];
    let keys = derive_keys(password, &salt).unwrap();
    let engine = CryptoEngine::new(keys.enc_key, nonce);
    let mut out = bytes.to_vec();
    for r in regions {
        let start = r.offset as usize;
        let mut done = 0usize;
        while done < r.len {
            let n = std::cmp::min(5, r.len - done);
            let s = start + done;
            engine.process_buffer(&mut out[s..s + n], r.offset + done as u64, false);
            done += n;
        }
    }
    let footer = build_footer(salt, nonce, bytes.len() as u64, keys.mac_key);
    out.extend_from_slice(&footer);
    out
}

/// Decrypts a file made by `encrypt_in_memory` with the footer's salt and
/// nonce, and removes the footer.
fn decrypt_in_memory(enc: &[u8], regions: &[Region], password: &str) -> Vec<u8> {
    let footer = FileFooter::from_bytes(&enc[enc.len() - FileFooter::SIZE..]).unwrap();
    let engine = CryptoEngine::new(derive_key(password, &footer.salt).unwrap(), footer.nonce);
    let mut out = enc[..footer.original_len as usize].to_vec();
    for r in regions {
        let s = r.offset as usize;
        engine.process_block(r.offset, &mut out[s..s + r.len]);
    }
    out
}

#[test]
fn mkv_fixture_encrypt_decrypt_roundtrip_in_memory() {
    let (bytes, offset, len) = minimal_mkv_fixture();
    let regions = MkvParser::new().scan_regions(&bytes, false, false).unwrap();
    let enc = encrypt_in_memory(&bytes, &regions, "test_password_123");
    let o = offset as usize;
    assert_ne!(&enc[o..o + len], &bytes[o..o + len], "Region bytes should change after encryption");
    assert_eq!(&enc[..o], &bytes[..o]);
    assert!(detect_file_state(&enc[enc.len() - 73..]));
    assert!(!detect_file_state(&bytes));
    let dec = decrypt_in_memory(&enc, &regions, "test_password_123");
    assert_eq!(dec, bytes);
}

#[test]
fn mp4_fixture_encrypt_decrypt_roundtrip_in_memory() {
    let (bytes, offset, len) = minimal_mp4_fixture_with(b"vide");
    let regions = Mp4Parser::new().scan_regions(&bytes, false, false).unwrap();
    let enc = encrypt_in_memory(&bytes, &regions, "test_password_123");
    let o = offset as usize;
    assert_ne!(&enc[o..o + len], &bytes[o..o + len], "Region bytes should change after encryption");
    let dec = decrypt_in_memory(&enc, &regions, "test_password_123");
    assert_eq!(dec, bytes);
    let wrong = decrypt_in_memory(&enc, &regions, "other");
    assert_ne!(wrong, bytes);
}

#[test]
fn mkv_block_declared_past_end_is_an_error() {
    let (bytes, _, _) = minimal_mkv_fixture();
    let truncated = &bytes[..bytes.len() - 8];
    assert!(matches!(MkvParser::new().scan_regions(truncated, false, false), Err(AppError::Io(_))));
    for cut in 1..=16usize {
        let data = &bytes[..bytes.len() - cut];
        if let Ok(regions) = MkvParser::new().scan_regions(data, true, true) {
            for r in &regions {
                assert!(r.offset + r.len as u64 <= data.len() as u64);
            }
        }
    }
}

#[test]
fn mp4_chunk_of_u32_max_samples_keeps_first_sample() {
    let sample = vec![0x55u8; 16];
    let ftyp = mp4_box(b"ftyp", b"isom\0\0\0\0");
    let placeholder = minimal_mp4_moov_runs(0, b"vide", u32::MAX);
    let sample_offset = (ftyp.len() + placeholder.len() + 8) as u64;
    let moov = minimal_mp4_moov_runs(sample_offset as u32, b"vide", u32::MAX);
    let mut bytes = Vec::new();
    bytes.extend_from_slice(&ftyp);
    bytes.extend_from_slice(&moov);
    bytes.extend_from_slice(&mp4_box(b"mdat", &sample));
    let regions = Mp4Parser::new().scan_regions(&bytes, false, false).unwrap();
    assert_eq!(regions.len(), 1);
    assert_eq!(regions[0].offset, sample_offset);
    assert_eq!(regions[0].len, 16);
}

#[test]
fn mp4_sample_past_end_is_an_error() {
    let ftyp = mp4_box(b"ftyp", b"isom\0\0\0\0");
    let moov = minimal_mp4_moov(10_000, b"vide");
    let mut bytes = Vec::new();
    bytes.extend_from_slice(&ftyp);
    bytes.extend_from_slice(&moov);
    bytes.extend_from_slice(&mp4_box(b"mdat", &[0x55u8; 16]));
    assert!(matches!(Mp4Parser::new().scan_regions(&bytes, false, false), Err(AppError::Io(_))));
    let (ok_bytes, _, _) = minimal_mp4_fixture_with(b"vide");
    let cut = &ok_bytes[..ok_bytes.len() - 1];
    assert!(matches!(Mp4Parser::new().scan_regions(cut, false, false), Err(AppError::Io(_))));
}

fn triples(rs: &[Region]) -> Vec<(u64, usize, RegionKind)> {
    rs.iter().map(|r| (r.offset, r.len, r.kind)).collect()
}

#[test]
fn rescan_of_encrypted_fixtures_finds_same_regions() {
    let (mkv, _, _) = minimal_mkv_fixture();
    let found = MkvParser::new().scan_regions(&mkv, false, false).unwrap();
    let enc = encrypt_in_memory(&mkv, &found, "test_password_123");
    assert_eq!(triples(&MkvParser::new().scan_regions(&enc, false, false).unwrap()), triples(&found));

    let (mp4, _, _) = minimal_mp4_fixture_with(b"vide");
    let found = Mp4Parser::new().scan_regions(&mp4, false, false).unwrap();
    let enc = encrypt_in_memory(&mp4, &found, "test_password_123");
    assert_eq!(triples(&Mp4Parser::new().scan_regions(&enc, false, false).unwrap()), triples(&found));
    let dec = decrypt_in_memory(&enc, &found, "test_password_123");
    assert_eq!(dec, mp4);
}
