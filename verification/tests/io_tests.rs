use media_lock_core::common::{OperationMode, Region, RegionKind};
use media_lock_core::crypto::CryptoEngine;
use media_lock_core::error::AppError;
use media_lock_core::io::wal::{
    encode_wal, needs_recovery, plan_recovery, read_and_validate, wal_entry_header, wal_footer, wal_header,
    WalEntry, WalRecovery, WAL_MAGIC_V2,
};
use media_lock_core::io::{wal_path_for, LockManager, ProcessStage};

fn entries() -> Vec<WalEntry> {
    vec![
        WalEntry { offset: 0, data: vec![0xAA; 10] },
        WalEntry { offset: 50, data: vec![0xAA; 20] },
    ]
}

#[test]
fn wal_encode_then_validate_roundtrip() {
    let bytes = encode_wal(&entries());
    assert_eq!(bytes.len(), 12 + (12 + 10) + (12 + 20) + 4);
    let read = read_and_validate(&bytes).unwrap();
    assert_eq!(read.len(), 2);
    assert_eq!(read[0].offset, 0);
    assert_eq!(read[0].data.len(), 10);
    assert_eq!(read[1].offset, 50);
    assert_eq!(read[1].data.len(), 20);
    assert_eq!(read[1].data, vec![0xAA; 20]);
}

#[test]
fn wal_layout_matches_format() {
    let bytes = encode_wal(&[WalEntry { offset: 0x0102, data: vec![9, 8, 7] }]);
    assert_eq!(&bytes[0..8], b"WALV0002");
    assert_eq!(&bytes[8..12], &[0, 0, 0, 1]);
    assert_eq!(&bytes[12..20], &[0, 0, 0, 0, 0, 0, 1, 2]);
    assert_eq!(&bytes[20..24], &[0, 0, 0, 3]);
    assert_eq!(&bytes[24..27], &[9, 8, 7]);
    assert_eq!(&bytes[27..31], &crc32fast::hash(&bytes[0..27]).to_be_bytes());
}

#[test]
fn wal_pieces_assemble_to_encoded_log() {
    let mut streamed = wal_header(2);
    for e in entries() {
        streamed.extend_from_slice(&wal_entry_header(e.offset, e.data.len() as u32));
        streamed.extend_from_slice(&e.data);
    }
    let crc = wal_footer(&streamed);
    streamed.extend_from_slice(&crc);
    assert_eq!(streamed, encode_wal(&entries()));
    assert_eq!(wal_header(7)[..8], WAL_MAGIC_V2);
}

#[test]
fn wal_missing_crc_is_eof() {
    // magic, one entry of 4 bytes, no checksum
    let mut bytes = wal_header(1);
    bytes.extend_from_slice(&wal_entry_header(0, 4));
    bytes.extend_from_slice(&[0, 0, 0, 0]);
    assert!(matches!(read_and_validate(&bytes), Err(AppError::Io(_))));
    assert!(matches!(plan_recovery(&bytes), WalRecovery::Discard));
}

#[test]
fn wal_bad_magic_crc_and_trailing_bytes_are_checksum_errors() {
    let good = encode_wal(&entries());
    let mut bad_magic = good.clone();
    bad_magic[0] = b'X';
    assert!(matches!(read_and_validate(&bad_magic), Err(AppError::WalChecksumError)));

    let mut bad_data = good.clone();
    bad_data[30] ^= 0xFF;
    assert!(matches!(read_and_validate(&bad_data), Err(AppError::WalChecksumError)));

    let mut trailing = good.clone();
    trailing.push(0);
    assert!(matches!(read_and_validate(&trailing), Err(AppError::WalChecksumError)));

    assert!(matches!(read_and_validate(&good[..5]), Err(AppError::Io(_))));
    assert!(matches!(read_and_validate(&good[..10]), Err(AppError::Io(_))));
}

#[test]
fn every_truncation_of_a_log_is_rejected() {
    let good = encode_wal(&entries());
    for m in 0..good.len() {
        assert!(read_and_validate(&good[..m]).is_err(), "prefix of {} bytes validated", m);
    }
}

#[test]
fn recovery_restores_original_bytes() {
    let original: Vec<u8> = (0..100u8).collect();
    let saved = vec![
        WalEntry { offset: 0, data: original[0..10].to_vec() },
        WalEntry { offset: 50, data: original[50..70].to_vec() },
    ];
    let log = encode_wal(&saved);
    let mut damaged = original.clone();
    for i in (0..10).chain(50..70) {
        damaged[i] = 0xFF;
    }
    match plan_recovery(&log) {
        WalRecovery::Restore(es) => {
            for e in es {
                let o = e.offset as usize;
                damaged[o..o + e.data.len()].copy_from_slice(&e.data);
            }
        }
        WalRecovery::Discard => panic!("a complete log must be replayed"),
    }
    assert_eq!(damaged, original);
}

#[test]
fn recovery_needed_only_past_header_and_checksum() {
    assert!(!needs_recovery(0));
    assert!(!needs_recovery(16));
    assert!(needs_recovery(17));
}

#[test]
fn wal_and_lock_paths_sit_next_to_target() {
    assert_eq!(wal_path_for("/tmp/x/test.mp4"), "/tmp/x/test.mp4.wal");
    assert_eq!(LockManager::lock_path_for("/tmp/x/test.mp4"), "/tmp/x/test.mp4.lock");
    assert_eq!(LockManager::lock_path_for("movie.mkv"), "movie.mkv.lock");
}

#[test]
fn lock_refused_when_lock_file_exists() {
    match LockManager::acquire("/data/a.mp4", OperationMode::Encrypt, true, "/data/a.mp4".to_string(), 5) {
        Err(AppError::FileLocked(p)) => assert_eq!(p, "/data/a.mp4.lock"),
        Err(e) => panic!("unexpected error {:?}", e),
        Ok(_) => panic!("lock must be refused"),
    }
}

#[test]
fn lock_state_starts_initializing_and_tracks_stage() {
    let mut lock =
        LockManager::acquire("/data/a.mp4", OperationMode::Decrypt, false, "/abs/data/a.mp4".to_string(), 1234)
            .unwrap();
    assert_eq!(lock.lock_path(), "/data/a.mp4.lock");
    let s = lock.state().clone();
    assert_eq!(s.session_id.len(), 36);
    assert_eq!(s.target_file, "/abs/data/a.mp4");
    assert_eq!(s.operation, OperationMode::Decrypt);
    assert_eq!(s.timestamp, 1234);
    assert_eq!(s.stage, ProcessStage::Initializing);

    lock.update_stage(ProcessStage::Processing { current_offset: 1024 });
    assert_eq!(lock.state().stage, ProcessStage::Processing { current_offset: 1024 });
    assert_eq!(lock.state().session_id, s.session_id);
    assert_eq!(lock.state().timestamp, 1234);
}

#[test]
fn sessions_get_distinct_ids() {
    let a = LockManager::acquire("f", OperationMode::Encrypt, false, "f".to_string(), 0).unwrap();
    let b = LockManager::acquire("f", OperationMode::Encrypt, false, "f".to_string(), 0).unwrap();
    assert_ne!(a.state().session_id, b.state().session_id);
}

#[test]
fn crash_after_some_regions_is_undone_by_the_log() {
    let original: Vec<u8> = (0..200u32).map(|i| (i * 13 % 251) as u8).collect();
    let regions = vec![
        Region { offset: 10, len: 30, kind: RegionKind::VideoIFrame },
        Region { offset: 100, len: 20, kind: RegionKind::Metadata },
        Region { offset: 150, len: 40, kind: RegionKind::AudioSample },
    ];
    let saved: Vec<WalEntry> = regions
        .iter()
        .map(|r| WalEntry { offset: r.offset, data: original[r.offset as usize..r.offset as usize + r.len].to_vec() })
        .collect();
    let log = encode_wal(&saved);
    let engine = CryptoEngine::new([9u8; 32], [4u8; 8]);
    // the run stops after the first two regions
    let mut file = original.clone();
    for r in &regions[..2] {
        let s = r.offset as usize;
        engine.process_buffer(&mut file[s..s + r.len], r.offset, r.kind == RegionKind::Metadata);
    }
    assert_ne!(file, original);
    match plan_recovery(&log) {
        WalRecovery::Restore(es) => {
            for e in es {
                let o = e.offset as usize;
                file[o..o + e.data.len()].copy_from_slice(&e.data);
            }
        }
        WalRecovery::Discard => panic!("a complete log must be replayed"),
    }
    assert_eq!(file, original);
}

#[test]
fn session_id_is_a_version_4_uuid() {
    let lock = LockManager::acquire("g", OperationMode::Encrypt, false, "g".to_string(), 0).unwrap();
    let id: Vec<char> = lock.state().session_id.chars().collect();
    assert_eq!(id.len(), 36);
    for (i, c) in id.iter().enumerate() {
        if i == 8 || i == 13 || i == 18 || i == 23 {
            assert_eq!(*c, '-');
        } else {
            assert!(c.is_ascii_hexdigit() && !c.is_ascii_uppercase());
        }
    }
    assert_eq!(id[14], '4');
    assert!(matches!(id[19], '8' | '9' | 'a' | 'b'));
}

#[test]
fn wal_footer_is_the_ieee_crc32() {
    assert_eq!(wal_footer(b"123456789"), vec![0xCB, 0xF4, 0x39, 0x26]);
    assert_eq!(wal_footer(b""), vec![0, 0, 0, 0]);
}
