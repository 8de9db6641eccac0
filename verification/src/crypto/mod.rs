//! Cryptographic engine: AES-256-CTR region encryption and Argon2id key
//! derivation.

pub mod engine;
pub mod key_deriv;

pub use engine::CryptoEngine;
pub use key_deriv::{derive_key, derive_keys, generate_nonce, generate_salt, DerivedKeys};
