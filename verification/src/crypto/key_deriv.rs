//! Key derivation with Argon2id, and random salts and nonces.

use vstd::prelude::*;
use rand::RngCore;
use vstd::string::StringSliceAdditionalSpecFns;
use crate::error::AppError;

verus! {

/// Size of the salt in bytes.
pub const SALT_SIZE: usize = 16;

/// Size of the nonce in bytes.
pub const NONCE_SIZE: usize = 8;

/// Size of the derived encryption key in bytes (AES-256).
pub const KEY_SIZE: usize = 32;

/// Size of the MAC key in bytes.
pub const MAC_KEY_SIZE: usize = 32;

/// Argon2id parameters (OWASP recommendation): iterations, memory in KiB,
/// parallelism.
pub const ARGON2_T_COST: u32 = 3;
pub const ARGON2_M_COST: u32 = 65536;
pub const ARGON2_P_COST: u32 = 4;

/// `argon2::Error` is passed on from the key-derivation call.
#[verifier::external_type_specification]
#[verifier::external_body]
pub struct ExArgon2Error(argon2::Error);

/// What Argon2id (version 0x13) derives: `out_len` bytes from `password` and
/// `salt` with memory `m_cost` KiB, `t_cost` iterations and parallelism
/// `p_cost`.
pub uninterp spec fn argon2id_v13(password: Seq<u8>, salt: Seq<u8>, m_cost: u32, t_cost: u32, p_cost: u32, out_len: nat) -> Seq<u8>;

/// Whether `argon2::Params::new(m_cost, t_cost, p_cost, Some(out_len))`
/// accepts its arguments.
pub open spec fn argon2_params_valid(m_cost: u32, t_cost: u32, p_cost: u32, out_len: nat) -> bool {
    &&& m_cost >= 8
    &&& m_cost >= 8 * p_cost
    &&& t_cost >= 1
    &&& 1 <= p_cost <= 0xFF_FFFF
    &&& 4 <= out_len <= 0xFFFF_FFFF
}

/// `argon2::Argon2::hash_password_into` on an Argon2id (v0x13) context built
/// with `argon2::Params::new(m_cost, t_cost, p_cost, Some(out.len()))`. It
/// fails exactly when the parameters are out of range or the password is
/// longer than `u32::MAX` bytes (a 16-byte salt is always accepted); on
/// success `out` holds the derived bytes. (`p_cost * 8` must fit in `u32`,
/// as `Params::new` computes it before any range check.)
#[verifier::external_body]
fn argon2id_hash_into(password: &[u8], salt: &[u8; 16], m_cost: u32, t_cost: u32, p_cost: u32, out: &mut [u8; 64]) -> (r: Result<(), argon2::Error>)
    requires
        p_cost * 8 <= u32::MAX,
    ensures
        r.is_ok() == (argon2_params_valid(m_cost, t_cost, p_cost, 64) && password@.len() <= 0xFFFF_FFFF),
        r.is_ok() ==> final(out)@ == argon2id_v13(password@, salt@, m_cost, t_cost, p_cost, 64),
{
    let params = argon2::Params::new(m_cost, t_cost, p_cost, Some(out.len()))?;
    argon2::Argon2::new(argon2::Algorithm::Argon2id, argon2::Version::V0x13, params)
        .hash_password_into(password, salt, out)
}

/// The `Display` text of an `argon2::Error` (`ToString::to_string`).
#[verifier::external_body]
fn argon2_error_text(e: &argon2::Error) -> (s: String) {
    e.to_string()
}

/// `RngCore::try_fill_bytes` of `rand::rngs::OsRng` (the operating system's
/// random source, through `getrandom`): fills `buf` with random bytes, or
/// fails, handing back the `Display` text of the error. It does not panic.
/// Nothing is promised of the bytes, nor that the source works.
#[verifier::external_body]
pub(crate) fn fill_random<const N: usize>(buf: &mut [u8; N]) -> (r: Result<(), String>) {
    match rand::rngs::OsRng.try_fill_bytes(buf) {
        Ok(()) => Ok(()),
        Err(e) => Err(e.to_string()),
    }
}

/// Generates a random salt for key derivation. When the operating system's
/// random source fails, the error is `Crypto` with its message.
pub fn generate_salt() -> (r: Result<[u8; 16], AppError>)
    ensures
        r is Err ==> r matches Err(AppError::Crypto(_)),
{
    let mut salt = [0u8; 16];
    match fill_random(&mut salt) {
        Ok(()) => Ok(salt),
        Err(m) => Err(AppError::Crypto(m)),
    }
}

/// Generates a random nonce for AES-CTR. When the operating system's random
/// source fails, the error is `Crypto` with its message.
pub fn generate_nonce() -> (r: Result<[u8; 8], AppError>)
    ensures
        r is Err ==> r matches Err(AppError::Crypto(_)),
{
    let mut nonce = [0u8; 8];
    match fill_random(&mut nonce) {
        Ok(()) => Ok(nonce),
        Err(m) => Err(AppError::Crypto(m)),
    }
}

/// Encryption and MAC keys derived from a password.
#[derive(Debug, Clone, Copy)]
pub struct DerivedKeys {
    pub enc_key: [u8; 32],
    pub mac_key: [u8; 32],
}

/// The 64 bytes of key material derived from `password` and `salt` with the
/// library's Argon2id parameters.
pub open spec fn key_material(password: Seq<u8>, salt: Seq<u8>) -> Seq<u8> {
    argon2id_v13(password, salt, ARGON2_M_COST, ARGON2_T_COST, ARGON2_P_COST, 64)
}

/// Derives encryption and MAC keys from a password with Argon2id: the first
/// and last 32 bytes of the key material. Fails (with `Crypto`) only for a
/// password longer than `u32::MAX` bytes.
pub fn derive_keys(password: &str, salt: &[u8; 16]) -> (r: Result<DerivedKeys, AppError>)
    ensures
        r is Ok <==> password.spec_bytes().len() <= 0xFFFF_FFFF,
        r matches Ok(k) ==> k.enc_key@ + k.mac_key@ == key_material(password.spec_bytes(), salt@),
        r matches Err(e) ==> e matches AppError::Crypto(m) && m@.subrange(0, 23) == "Key derivation failed: "@,
{
    let mut out = [0u8; 64];
    match argon2id_hash_into(password.as_bytes(), salt, ARGON2_M_COST, ARGON2_T_COST, ARGON2_P_COST, &mut out) {
        Ok(()) => {},
        Err(e) => {
            let msg = String::from_str("Key derivation failed: ").concat(argon2_error_text(&e).as_str());
            proof {
                reveal_strlit("Key derivation failed: ");
                assert(msg@.subrange(0, 23) =~= "Key derivation failed: "@);
            }
            return Err(AppError::Crypto(msg));
        },
    }
    let mut enc_key = [0u8; 32];
    let mut mac_key = [0u8; 32];
    let mut i: usize = 0;
    while i < 32
        invariant
            0 <= i <= 32,
            out@.len() == 64,
            enc_key@.len() == 32,
            mac_key@.len() == 32,
            forall|j: int| 0 <= j < i ==> enc_key@[j] == out@[j] && mac_key@[j] == out@[32 + j],
        decreases 32 - i,
    {
        enc_key[i] = out[i];
        mac_key[i] = out[32 + i];
        i = i + 1;
    }
    assert(enc_key@ + mac_key@ =~= out@);
    Ok(DerivedKeys { enc_key, mac_key })
}

/// Derives the 256-bit encryption key from a password with Argon2id.
pub fn derive_key(password: &str, salt: &[u8; 16]) -> (r: Result<[u8; 32], AppError>)
    ensures
        r is Ok <==> password.spec_bytes().len() <= 0xFFFF_FFFF,
        r matches Ok(k) ==> k@ == key_material(password.spec_bytes(), salt@).subrange(0, 32),
        r matches Err(e) ==> e matches AppError::Crypto(m) && m@.subrange(0, 23) == "Key derivation failed: "@,
{
    let keys = derive_keys(password, salt)?;
    assert(keys.enc_key@ =~= (keys.enc_key@ + keys.mac_key@).subrange(0, 32));
    Ok(keys.enc_key)
}

} // verus!
