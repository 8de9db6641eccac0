//! Media Lock core library.
//!
//! In-place, crash-safe media file encryption: container parsing (MP4/MKV),
//! AES-256-CTR region encryption, the on-disk footer and write-ahead log
//! formats, file-lock bookkeeping and the workflow that ties them together.

pub mod bytes;
pub mod common;
pub mod crypto;
pub mod error;
pub mod gui;
pub mod io;
pub mod parsers;
pub mod workflow;
