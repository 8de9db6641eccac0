use media_lock_core::common::{FileFooter, OperationMode, FOOTER_MAGIC, FOOTER_VERSION};
use media_lock_core::error::AppError;

#[test]
fn test_file_footer_roundtrip() {
    let salt = [0x11u8; 16];
    let nonce = [0x22u8; 8];
    let original_len = 123_456_789u64;
    let checksum = [0x33u8; 32];

    let footer = FileFooter::new(salt, nonce, original_len, checksum);
    let bytes = footer.to_bytes();
    let parsed = FileFooter::from_bytes(&bytes).unwrap();

    assert_eq!(parsed.magic, FOOTER_MAGIC);
    assert_eq!(parsed.version, FOOTER_VERSION);
    assert_eq!(parsed.salt, salt);
    assert_eq!(parsed.nonce, nonce);
    assert_eq!(parsed.original_len, original_len);
    assert_eq!(parsed.checksum, checksum);
}

#[test]
fn test_file_footer_rejects_short_buffer() {
    let err = FileFooter::from_bytes(&[0u8; FileFooter::SIZE - 1]).unwrap_err();
    assert!(matches!(err, AppError::InvalidStructure(msg) if msg.contains("Footer too short")));
}

#[test]
fn test_file_footer_rejects_bad_magic() {
    let mut bytes = [0u8; FileFooter::SIZE];
    bytes[0..8].copy_from_slice(b"NOT_ENC!");
    bytes[8] = FOOTER_VERSION;

    let err = FileFooter::from_bytes(&bytes).unwrap_err();
    assert!(matches!(err, AppError::NotEncrypted));
}

#[test]
fn footer_layout_is_big_endian_and_fixed() {
    let footer = FileFooter::new([1u8; 16], [2u8; 8], 0x0102_0304_0506_0708, [3u8; 32]);
    let bytes = footer.to_bytes();
    assert_eq!(bytes.len(), 73);
    assert_eq!(&bytes[0..8], b"RUST_ENC");
    assert_eq!(bytes[8], 1);
    assert_eq!(&bytes[9..25], &[1u8; 16]);
    assert_eq!(&bytes[25..33], &[2u8; 8]);
    assert_eq!(&bytes[33..41], &[1, 2, 3, 4, 5, 6, 7, 8]);
    assert_eq!(&bytes[41..73], &[3u8; 32]);
}

#[test]
fn footer_parses_from_longer_buffer() {
    let footer = FileFooter::new([9u8; 16], [8u8; 8], 42, [7u8; 32]);
    let mut bytes = footer.to_bytes().to_vec();
    bytes.extend_from_slice(&[0xEE; 10]);
    let parsed = FileFooter::from_bytes(&bytes).unwrap();
    assert_eq!(parsed.original_len, 42);
    assert_eq!(parsed.salt, [9u8; 16]);
}

#[test]
fn operation_mode_names_roundtrip() {
    for mode in [OperationMode::Encrypt, OperationMode::Decrypt, OperationMode::Recover] {
        assert_eq!(OperationMode::from_name(mode.as_str()), Some(mode));
    }
    assert_eq!(OperationMode::Encrypt.as_str(), "encrypt");
    assert_eq!(OperationMode::Decrypt.as_str(), "decrypt");
    assert_eq!(OperationMode::Recover.as_str(), "recover");
    assert_eq!(OperationMode::from_name("Encrypt"), None);
    assert_eq!(OperationMode::from_name(""), None);
}

#[test]
fn encryption_config_default() {
    let c = media_lock_core::common::EncryptionConfig::default();
    assert!(c.password.is_none());
    assert!(!c.encrypt_audio);
    assert!(!c.scrub_metadata);
    assert_eq!(c.operation, OperationMode::Encrypt);
    assert!(!c.no_wal);
}
