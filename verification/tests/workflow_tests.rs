use media_lock_core::common::{EncryptionConfig, FileFooter, OperationMode, Region, RegionKind, FOOTER_MAGIC};
use media_lock_core::crypto::{derive_keys, CryptoEngine};
use media_lock_core::error::AppError;
use media_lock_core::io::ProcessStage;
use media_lock_core::workflow::{
    build_footer, chunk_regions, count_region_kinds, detect_file_state, region_spans, total_region_bytes,
    validate_state, TaskAction, TaskEvent, TaskFlow, TaskStats, TaskStep,
};

#[test]
fn test_chunk_regions() {
    let regions = vec![
        Region { offset: 0, len: 100, kind: RegionKind::VideoIFrame },
        Region { offset: 100, len: 200, kind: RegionKind::VideoIFrame },
        Region { offset: 300, len: 150, kind: RegionKind::VideoIFrame },
        Region { offset: 450, len: 50, kind: RegionKind::VideoIFrame },
    ];

    let batches = chunk_regions(regions.clone(), 250);
    assert_eq!(batches.len(), 3);
    assert_eq!(batches[0].len(), 1);
    assert_eq!(batches[1].len(), 1);
    assert_eq!(batches[2].len(), 2);

    let batches = chunk_regions(regions, 1000);
    assert_eq!(batches.len(), 1);
    assert_eq!(batches[0].len(), 4);
}

#[test]
fn chunk_regions_keeps_order_and_oversized_regions_alone() {
    let regions = vec![
        Region { offset: 0, len: 10, kind: RegionKind::VideoIFrame },
        Region { offset: 10, len: 500, kind: RegionKind::AudioSample },
        Region { offset: 510, len: 10, kind: RegionKind::Metadata },
    ];
    let batches = chunk_regions(regions.clone(), 100);
    assert_eq!(batches.len(), 3);
    let flat: Vec<u64> = batches.iter().flatten().map(|r| r.offset).collect();
    assert_eq!(flat, vec![0, 10, 510]);
    assert!(chunk_regions(Vec::new(), 10).is_empty());
}

#[test]
fn validate_state_cases() {
    assert!(matches!(validate_state(true, OperationMode::Encrypt), Err(AppError::AlreadyEncrypted)));
    assert!(matches!(validate_state(false, OperationMode::Decrypt), Err(AppError::NotEncrypted)));
    assert!(validate_state(false, OperationMode::Encrypt).is_ok());
    assert!(validate_state(true, OperationMode::Decrypt).is_ok());
    assert!(validate_state(true, OperationMode::Recover).is_ok());
    assert!(validate_state(false, OperationMode::Recover).is_ok());
}

#[test]
fn detect_file_state_reads_footer_magic() {
    let footer = build_footer([1; 16], [2; 8], 10, [3; 32]);
    assert!(detect_file_state(&footer));
    assert!(!detect_file_state(&footer[..72]));
    let mut other = footer;
    other[3] = 0;
    assert!(!detect_file_state(&other));
    assert_eq!(&footer[..8], &FOOTER_MAGIC);
}

#[test]
fn footer_records_length_and_check() {
    let footer = build_footer([1; 16], [2; 8], 4096, [9; 32]);
    let parsed = FileFooter::from_bytes(&footer).unwrap();
    assert_eq!(parsed.original_len, 4096);
    assert_eq!(parsed.salt, [1; 16]);
    assert_eq!(parsed.nonce, [2; 8]);
    assert_eq!(parsed.checksum, [9; 32]);
}

#[test]
fn region_tallies() {
    let regions = vec![
        Region { offset: 0, len: 3, kind: RegionKind::VideoIFrame },
        Region { offset: 9, len: 4, kind: RegionKind::AudioSample },
        Region { offset: 20, len: 5, kind: RegionKind::VideoIFrame },
        Region { offset: 30, len: 6, kind: RegionKind::Metadata },
    ];
    assert_eq!(count_region_kinds(&regions), (2, 1, 1));
    assert_eq!(total_region_bytes(&regions), Some(18));
    assert_eq!(total_region_bytes(&[]), Some(0));
}

#[test]
fn task_stats_default_is_zero() {
    let s = TaskStats::default();
    assert_eq!(s.file_size, 0);
    assert_eq!(s.data_size, 0);
    assert_eq!(s.iframe_count + s.audio_count + s.metadata_count, 0);
    assert_eq!(s.total_time, std::time::Duration::ZERO);
}

fn config(op: OperationMode, password: bool, no_wal: bool) -> EncryptionConfig {
    EncryptionConfig {
        password: if password { Some("pw".to_string()) } else { None },
        encrypt_audio: false,
        scrub_metadata: true,
        operation: op,
        no_wal,
    }
}

fn regions() -> Vec<Region> {
    vec![
        Region { offset: 500, len: 10, kind: RegionKind::VideoIFrame },
        Region { offset: 100, len: 20, kind: RegionKind::Metadata },
    ]
}

fn stop_error(a: TaskAction) -> AppError {
    match a {
        TaskAction::Stop { error } => error,
        _ => panic!("expected the run to stop"),
    }
}

#[test]
fn encrypt_run_with_log() {
    let mut flow = TaskFlow::new(&config(OperationMode::Encrypt, true, false));
    assert_eq!(flow.step(), TaskStep::Locked);
    assert!(matches!(flow.next(TaskEvent::LockTaken { wal_len: None }), TaskAction::ReadTail));
    assert!(matches!(flow.next(TaskEvent::TailRead { tail: vec![0; 73] }), TaskAction::Parse));
    assert!(matches!(
        flow.next(TaskEvent::RegionsFound { regions: regions() }),
        TaskAction::SetupKey { from_footer: false, total_bytes: 30 }
    ));
    let stats = flow.stats();
    assert_eq!(stats.data_size, 30);
    assert_eq!((stats.iframe_count, stats.metadata_count), (1, 1));
    let salt = [4u8; 16];
    match flow.next(TaskEvent::KeyInputs { salt, nonce: [5; 8], stored_check: None }) {
        TaskAction::WriteBackup { regions } => assert_eq!(regions[0].offset, 500),
        _ => panic!("the log comes first"),
    }
    assert_eq!(flow.lock_stage(), ProcessStage::Initializing);
    let keys = derive_keys("pw", &salt).unwrap();
    match flow.next(TaskEvent::BackupWritten) {
        TaskAction::ProcessRegions { regions, engine } => {
            assert_eq!(regions.iter().map(|r| r.offset).collect::<Vec<_>>(), vec![100, 500]);
            let mut a = vec![0u8; 8];
            let mut b = vec![0u8; 8];
            engine.process_block(3, &mut a);
            CryptoEngine::new(keys.enc_key, [5; 8]).process_block(3, &mut b);
            assert_eq!(a, b);
        }
        _ => panic!("processing follows the log"),
    }
    assert_eq!(flow.lock_stage(), ProcessStage::Processing { current_offset: 0 });
    assert!(flow.scrubs(RegionKind::Metadata));
    assert!(!flow.scrubs(RegionKind::VideoIFrame));
    match flow.next(TaskEvent::RegionsProcessed) {
        TaskAction::UpdateFooter { append, salt: s, nonce, check } => {
            assert!(append);
            assert_eq!(s, salt);
            assert_eq!(nonce, [5; 8]);
            assert_eq!(check, keys.mac_key);
        }
        _ => panic!("the footer comes last"),
    }
    assert_eq!(flow.lock_stage(), ProcessStage::Finalizing);
    assert!(matches!(flow.next(TaskEvent::FooterUpdated), TaskAction::Release { remove_wal: true }));
    assert_eq!(flow.step(), TaskStep::Done);
}

#[test]
fn decrypt_run_without_log() {
    let mut flow = TaskFlow::new(&config(OperationMode::Decrypt, true, true));
    assert!(matches!(flow.next(TaskEvent::LockTaken { wal_len: Some(16) }), TaskAction::ReadTail));
    let salt = [8u8; 16];
    let check = derive_keys("pw", &salt).unwrap().mac_key;
    let footer = build_footer(salt, [0; 8], 1, check);
    assert!(matches!(flow.next(TaskEvent::TailRead { tail: footer.to_vec() }), TaskAction::Parse));
    assert!(matches!(
        flow.next(TaskEvent::RegionsFound { regions: regions() }),
        TaskAction::SetupKey { from_footer: true, total_bytes: 30 }
    ));
    assert!(matches!(
        flow.next(TaskEvent::KeyInputs { salt, nonce: [0; 8], stored_check: Some(check) }),
        TaskAction::ProcessRegions { .. }
    ));
    assert!(matches!(flow.next(TaskEvent::RegionsProcessed), TaskAction::UpdateFooter { append: false, .. }));
    assert!(matches!(flow.next(TaskEvent::FooterUpdated), TaskAction::Release { remove_wal: false }));
}

#[test]
fn decrypt_with_wrong_password_is_refused_before_any_write() {
    let salt = [8u8; 16];
    let check = derive_keys("right password", &salt).unwrap().mac_key;
    let mut flow = TaskFlow::new(&config(OperationMode::Decrypt, true, false));
    flow.next(TaskEvent::LockTaken { wal_len: None });
    flow.next(TaskEvent::TailRead { tail: build_footer(salt, [0; 8], 1, check).to_vec() });
    flow.next(TaskEvent::RegionsFound { regions: regions() });
    let a = flow.next(TaskEvent::KeyInputs { salt, nonce: [0; 8], stored_check: Some(check) });
    assert!(matches!(stop_error(a), AppError::AuthenticationFailed));
    assert_eq!(flow.step(), TaskStep::Failed);
}

#[test]
fn earlier_session_blocks_all_but_recovery() {
    let mut flow = TaskFlow::new(&config(OperationMode::Encrypt, true, false));
    let a = flow.next(TaskEvent::LockTaken { wal_len: Some(100) });
    assert!(matches!(stop_error(a), AppError::PreviousSessionFailed));
    assert_eq!(flow.step(), TaskStep::Failed);

    let mut flow = TaskFlow::new(&config(OperationMode::Recover, false, false));
    assert!(matches!(flow.next(TaskEvent::LockTaken { wal_len: Some(100) }), TaskAction::Recover));
    assert_eq!(flow.step(), TaskStep::Done);
}

#[test]
fn recovery_without_log_has_nothing_to_do() {
    let mut flow = TaskFlow::new(&config(OperationMode::Recover, true, false));
    assert!(matches!(flow.next(TaskEvent::LockTaken { wal_len: None }), TaskAction::ReadTail));
    assert!(matches!(flow.next(TaskEvent::TailRead { tail: vec![0u8; 73] }), TaskAction::Parse));
    assert!(matches!(flow.next(TaskEvent::RegionsFound { regions: regions() }), TaskAction::FinishEmpty));
    assert_eq!(flow.step(), TaskStep::Done);
    assert_eq!(flow.stats().iframe_count, 1);
}

#[test]
fn recovery_without_log_or_password_is_refused() {
    let mut flow = TaskFlow::new(&config(OperationMode::Recover, false, false));
    assert!(matches!(stop_error(flow.next(TaskEvent::LockTaken { wal_len: None })), AppError::InvalidPassword));
    assert_eq!(flow.step(), TaskStep::Failed);
    let mut with_log = TaskFlow::new(&config(OperationMode::Recover, false, false));
    assert!(matches!(with_log.next(TaskEvent::LockTaken { wal_len: Some(100) }), TaskAction::Recover));
}

#[test]
fn missing_password_and_wrong_file_state_stop() {
    let mut flow = TaskFlow::new(&config(OperationMode::Encrypt, false, false));
    assert!(matches!(stop_error(flow.next(TaskEvent::LockTaken { wal_len: None })), AppError::InvalidPassword));

    let mut flow = TaskFlow::new(&config(OperationMode::Encrypt, true, false));
    flow.next(TaskEvent::LockTaken { wal_len: None });
    let footer = build_footer([0; 16], [0; 8], 1, [0; 32]);
    let a = flow.next(TaskEvent::TailRead { tail: footer.to_vec() });
    assert!(matches!(stop_error(a), AppError::AlreadyEncrypted));

    let mut flow = TaskFlow::new(&config(OperationMode::Decrypt, true, false));
    flow.next(TaskEvent::LockTaken { wal_len: None });
    let a = flow.next(TaskEvent::TailRead { tail: b"short".to_vec() });
    assert!(matches!(stop_error(a), AppError::NotEncrypted));
}

#[test]
fn no_regions_finishes_early() {
    let mut flow = TaskFlow::new(&config(OperationMode::Encrypt, true, false));
    flow.next(TaskEvent::LockTaken { wal_len: None });
    flow.next(TaskEvent::TailRead { tail: Vec::new() });
    assert!(matches!(flow.next(TaskEvent::RegionsFound { regions: Vec::new() }), TaskAction::FinishEmpty));
    assert_eq!(flow.step(), TaskStep::Done);
}

#[test]
fn region_spans_tile_a_region() {
    let spans = region_spans(100, 10, 4);
    let got: Vec<(u64, usize)> = spans.iter().map(|s| (s.offset, s.len)).collect();
    assert_eq!(got, vec![(100, 4), (104, 4), (108, 2)]);
    let exact: Vec<(u64, usize)> = region_spans(7, 8, 4).iter().map(|s| (s.offset, s.len)).collect();
    assert_eq!(exact, vec![(7, 4), (11, 4)]);
    assert!(region_spans(5, 0, 4).is_empty());
    let one: Vec<(u64, usize)> = region_spans(0, 3, 4096).iter().map(|s| (s.offset, s.len)).collect();
    assert_eq!(one, vec![(0, 3)]);
}
