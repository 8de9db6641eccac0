use media_lock_core::common::{Region, RegionKind};
use media_lock_core::crypto::{derive_key, derive_keys, generate_nonce, generate_salt, CryptoEngine};
use media_lock_core::crypto::key_deriv::SALT_SIZE;

fn test_key() -> [u8; 32] {
    let mut key = [0u8; 32];
    for (i, b) in key.iter_mut().enumerate() {
        *b = i as u8;
    }
    key
}

fn test_nonce() -> [u8; 8] {
    [0x01, 0x02, 0x03, 0x04, 0x05, 0x06, 0x07, 0x08]
}

#[test]
fn test_encrypt_decrypt_roundtrip() {
    let engine = CryptoEngine::new(test_key(), test_nonce());

    let original = b"Hello, World! This is a test message for encryption.";
    let mut data = original.to_vec();

    engine.process_block(0, &mut data);
    assert_ne!(&data[..], &original[..], "Data should be encrypted");

    engine.process_block(0, &mut data);
    assert_eq!(&data[..], &original[..], "Data should be decrypted");
}

#[test]
fn test_ctr_random_access() {
    let engine = CryptoEngine::new(test_key(), test_nonce());

    let mut full_data: Vec<u8> = (0..100).collect();
    let original = full_data.clone();
    engine.process_block(0, &mut full_data);

    let mut partial = full_data[50..60].to_vec();
    engine.process_block(50, &mut partial);

    assert_eq!(&partial[..], &original[50..60], "Random access decryption should work");
}

#[test]
fn test_alignment_boundary() {
    let engine = CryptoEngine::new(test_key(), test_nonce());

    let mut data = [0xAA, 0xBB, 0xCC];
    let original = data;

    engine.process_block(15, &mut data);
    assert_ne!(data, original, "Data should be encrypted");

    engine.process_block(15, &mut data);
    assert_eq!(data, original, "Data should be decrypted correctly across boundary");
}

#[test]
fn test_large_offset() {
    let engine = CryptoEngine::new(test_key(), test_nonce());

    let large_offset: u64 = 100 * 1024 * 1024 * 1024;
    let mut data = [0x42u8; 32];
    let original = data;

    engine.process_block(large_offset, &mut data);
    assert_ne!(data, original, "Should encrypt at large offset");

    engine.process_block(large_offset, &mut data);
    assert_eq!(data, original, "Should decrypt at large offset");
}

#[test]
fn test_process_regions_with_scrub() {
    let engine = CryptoEngine::new(test_key(), test_nonce());

    let regions = vec![
        Region { offset: 0, len: 16, kind: RegionKind::VideoIFrame },
        Region { offset: 16, len: 8, kind: RegionKind::Metadata },
    ];

    let mut data = vec![0x42u8; 24];

    engine.process_regions(&regions, &mut data, true);

    assert_ne!(&data[0..16], &[0x42u8; 16][..], "Video should be encrypted");
    assert_eq!(&data[16..24], &[0x20u8; 8][..], "Metadata should be scrubbed");
}

#[test]
fn test_kdf_consistency() {
    let password = "test_password_123";
    let salt = [0u8; SALT_SIZE];

    let keys1 = derive_keys(password, &salt).unwrap();
    let keys2 = derive_keys(password, &salt).unwrap();

    assert_eq!(keys1.enc_key, keys2.enc_key, "Same password and salt should produce same enc key");
    assert_eq!(keys1.mac_key, keys2.mac_key, "Same password and salt should produce same mac key");
}

#[test]
fn test_different_salts_produce_different_keys() {
    let password = "test_password";
    let salt1 = [0u8; SALT_SIZE];
    let salt2 = [1u8; SALT_SIZE];

    let keys1 = derive_keys(password, &salt1).unwrap();
    let keys2 = derive_keys(password, &salt2).unwrap();

    assert_ne!(keys1.enc_key, keys2.enc_key, "Different salts should produce different enc keys");
    assert_ne!(keys1.mac_key, keys2.mac_key, "Different salts should produce different mac keys");
}

#[test]
fn test_generate_salt_randomness() {
    let salt1 = generate_salt().unwrap();
    let salt2 = generate_salt().unwrap();

    assert_ne!(salt1, salt2, "Generated salts should be random");
}

#[test]
fn test_generate_nonce_randomness() {
    let nonce1 = generate_nonce().unwrap();
    let nonce2 = generate_nonce().unwrap();

    assert_ne!(nonce1, nonce2, "Generated nonces should be random");
}

#[test]
fn derive_key_is_first_half_of_derive_keys() {
    let salt = [7u8; 16];
    let keys = derive_keys("pw", &salt).unwrap();
    let key = derive_key("pw", &salt).unwrap();
    assert_eq!(key, keys.enc_key);
    assert_ne!(keys.enc_key, keys.mac_key);
}

#[test]
fn different_passwords_give_different_keys() {
    let salt = [3u8; 16];
    assert_ne!(derive_key("one", &salt).unwrap(), derive_key("two", &salt).unwrap());
}

#[test]
fn keystream_changes_every_byte_position_independently() {
    // Processing zeros exposes the keystream: random access means the
    // keystream at offset 20 is the same whether read from 0 or from 20.
    let engine = CryptoEngine::new(test_key(), test_nonce());
    let mut whole = vec![0u8; 64];
    engine.process_block(0, &mut whole);
    let mut tail = vec![0u8; 44];
    engine.process_block(20, &mut tail);
    assert_eq!(&whole[20..], &tail[..]);
}

#[test]
fn chunked_processing_equals_whole() {
    let engine = CryptoEngine::new(test_key(), test_nonce());
    let original: Vec<u8> = (0..200u32).map(|i| (i * 7) as u8).collect();
    let mut whole = original.clone();
    engine.process_block(1000, &mut whole);
    let mut pieces = original.clone();
    let (a, b) = pieces.split_at_mut(37);
    engine.process_buffer(a, 1000, false);
    engine.process_buffer(b, 1037, false);
    assert_eq!(whole, pieces);
}

#[test]
fn process_buffer_scrub_fills_spaces() {
    let engine = CryptoEngine::new(test_key(), test_nonce());
    let mut data = vec![1u8, 2, 3];
    engine.process_buffer(&mut data, 5, true);
    assert_eq!(data, vec![0x20u8; 3]);
}

#[test]
fn process_regions_without_scrub_is_an_involution() {
    let engine = CryptoEngine::new(test_key(), test_nonce());
    let regions = vec![
        Region { offset: 100, len: 10, kind: RegionKind::VideoIFrame },
        Region { offset: 5000, len: 7, kind: RegionKind::Metadata },
        Region { offset: 7, len: 3, kind: RegionKind::AudioSample },
    ];
    let original: Vec<u8> = (0..25u8).collect();
    let mut data = original.clone();
    engine.process_regions(&regions, &mut data, false);
    assert_ne!(data[..20], original[..20]);
    assert_eq!(data[20..], original[20..]);
    engine.process_regions(&regions, &mut data, false);
    assert_eq!(data, original);
}
