//! File locking and the state recorded in the lock file.
//!
//! The lock file `<name>.lock` next to the target marks a session at work on
//! it; while it exists no other session may start. It records the session,
//! the operation and how far the work has got, and it is kept (not removed on
//! drop) when a process dies, so that the next run can tell.

use vstd::prelude::*;
use crate::common::OperationMode;
use crate::crypto::key_deriv::fill_random;
use crate::error::AppError;
use crate::io::{sibling_path, spec_sibling_path};

verus! {

/// Processing stage recorded in the lock file.
#[derive(Debug, Clone, Copy, PartialEq, Eq, Structural)]
pub enum ProcessStage {
    /// Just started, initializing.
    Initializing,
    /// Processing data.
    Processing {
        /// Byte offset being processed.
        current_offset: u64,
    },
    /// Writing the final footer.
    Finalizing,
}

/// The state stored in a lock file.
#[derive(Debug, Clone)]
pub struct LockState {
    /// Unique session identifier.
    pub session_id: String,
    /// Absolute path of the target file.
    pub target_file: String,
    /// Operation of the session.
    pub operation: OperationMode,
    /// Unix time (seconds) when the lock was taken.
    pub timestamp: u64,
    /// Current processing stage.
    pub stage: ProcessStage,
}

/// Whether `id` has the shape of a hyphenated UUID: 36 characters with
/// hyphens at positions 8, 13, 18 and 23.
pub open spec fn is_hyphenated_uuid(id: Seq<char>) -> bool {
    &&& id.len() == 36
    &&& id[8] == '-'
    &&& id[13] == '-'
    &&& id[18] == '-'
    &&& id[23] == '-'
}

/// The lowercase hexadecimal digit of `n` (below 16).
pub open spec fn hex_digit(n: int) -> char {
    if n < 10 {
        (n + 48) as char
    } else {
        (n + 87) as char
    }
}

/// Two lowercase hexadecimal digits for each byte, high nibble first.
pub open spec fn hex_text(b: Seq<u8>) -> Seq<char>
    decreases b.len(),
{
    if b.len() == 0 {
        Seq::empty()
    } else {
        hex_text(b.drop_last()) + seq![hex_digit(b.last() as int / 16), hex_digit(b.last() as int % 16)]
    }
}

/// The bytes of the version-4 (random, RFC 4122 variant) UUID made from `b`:
/// the high nibble of byte 6 becomes 4, the two high bits of byte 8 become
/// binary 10.
pub open spec fn v4_bytes(b: Seq<u8>) -> Seq<u8> {
    b.update(6, (b[6] & 0x0f) | 0x40).update(8, (b[8] & 0x3f) | 0x80)
}

/// The hyphenated text of the version-4 UUID made from `b`: its bytes in
/// lowercase hexadecimal, in groups of 4, 2, 2, 2 and 6 bytes joined by
/// hyphens.
pub open spec fn uuid_v4_text(b: Seq<u8>) -> Seq<char> {
    let v = v4_bytes(b);
    hex_text(v.subrange(0, 4)) + seq!['-'] + hex_text(v.subrange(4, 6)) + seq!['-'] + hex_text(v.subrange(6, 8))
        + seq!['-'] + hex_text(v.subrange(8, 10)) + seq!['-'] + hex_text(v.subrange(10, 16))
}

proof fn lemma_hex_text_len(b: Seq<u8>)
    ensures
        hex_text(b).len() == 2 * b.len(),
    decreases b.len(),
{
    if b.len() > 0 {
        lemma_hex_text_len(b.drop_last());
    }
}

/// The text of a version-4 UUID has the hyphenated shape.
proof fn lemma_uuid_v4_text_shape(b: Seq<u8>)
    requires
        b.len() == 16,
    ensures
        is_hyphenated_uuid(uuid_v4_text(b)),
{
    let v = v4_bytes(b);
    lemma_hex_text_len(v.subrange(0, 4));
    lemma_hex_text_len(v.subrange(4, 6));
    lemma_hex_text_len(v.subrange(6, 8));
    lemma_hex_text_len(v.subrange(8, 10));
    lemma_hex_text_len(v.subrange(10, 16));
}

/// `uuid::Builder::from_random_bytes(bytes).into_uuid().to_string()`: the
/// version-4 UUID made from `bytes` (version and variant bits set), in its
/// hyphenated lowercase text.
#[verifier::external_body]
fn uuid_v4_from_bytes(bytes: [u8; 16]) -> (id: String)
    ensures
        id@ == uuid_v4_text(bytes@),
{
    uuid::Builder::from_random_bytes(bytes).into_uuid().to_string()
}

/// A fresh random identifier: the version-4 UUID made from 16 bytes of the
/// operating system's random source, hyphenated. When the source fails, the
/// error is `Crypto` with its message.
pub(crate) fn new_session_id() -> (r: Result<String, AppError>)
    ensures
        r matches Ok(id) ==> is_hyphenated_uuid(id@) && exists|b: Seq<u8>| b.len() == 16 && id@ == uuid_v4_text(b),
        r is Err ==> r matches Err(AppError::Crypto(_)),
{
    let mut bytes = [0u8; 16];
    match fill_random(&mut bytes) {
        Ok(()) => {
            let id = uuid_v4_from_bytes(bytes);
            proof {
                lemma_uuid_v4_text_shape(bytes@);
            }
            Ok(id)
        },
        Err(m) => Err(AppError::Crypto(m)),
    }
}

/// The lock of a session on a file.
pub struct LockManager {
    /// Path of the lock file.
    lock_path: String,
    /// Current lock state.
    state: LockState,
}

impl LockManager {
    /// Path of the lock file.
    pub closed spec fn spec_lock_path(&self) -> Seq<char> {
        self.lock_path@
    }

    /// State of the lock.
    pub closed spec fn spec_state(&self) -> LockState {
        self.state
    }

    /// The path of the lock file of `target`: `<name>.lock` next to it.
    pub fn lock_path_for(target: &str) -> (r: String)
        ensures
            r@ == spec_sibling_path(target@, ".lock"@),
    {
        sibling_path(target, ".lock")
    }

    /// Takes the lock on `target` for `operation`, given whether its lock
    /// file exists already, the target's absolute path and the current Unix
    /// time. A lock file already there refuses the lock; otherwise a new
    /// session starts at `Initializing`, unless the random source for its
    /// identifier fails (`Crypto`).
    pub fn acquire(
        target: &str,
        operation: OperationMode,
        lock_exists: bool,
        absolute_target: String,
        timestamp: u64,
    ) -> (r: Result<LockManager, AppError>)
        ensures
            lock_exists ==> (r matches Err(AppError::FileLocked(p)) && p@ == spec_sibling_path(target@, ".lock"@)),
            !lock_exists && r is Err ==> r matches Err(AppError::Crypto(_)),
            !lock_exists ==> (r matches Ok(l) ==> {
                &&& l.spec_lock_path() == spec_sibling_path(target@, ".lock"@)
                &&& l.spec_state().target_file@ == absolute_target@
                &&& l.spec_state().operation == operation
                &&& l.spec_state().timestamp == timestamp
                &&& l.spec_state().stage == ProcessStage::Initializing
                &&& is_hyphenated_uuid(l.spec_state().session_id@)
            }),
    {
        let lock_path = Self::lock_path_for(target);
        if lock_exists {
            return Err(AppError::FileLocked(lock_path));
        }
        let session_id = match new_session_id() {
            Ok(id) => id,
            Err(e) => return Err(e),
        };
        let state = LockState {
            session_id,
            target_file: absolute_target,
            operation,
            timestamp,
            stage: ProcessStage::Initializing,
        };
        Ok(LockManager { lock_path, state })
    }

    /// Records a new processing stage; nothing else changes.
    pub fn update_stage(&mut self, stage: ProcessStage)
        ensures
            final(self).spec_lock_path() == old(self).spec_lock_path(),
            final(self).spec_state().stage == stage,
            final(self).spec_state().session_id == old(self).spec_state().session_id,
            final(self).spec_state().target_file == old(self).spec_state().target_file,
            final(self).spec_state().operation == old(self).spec_state().operation,
            final(self).spec_state().timestamp == old(self).spec_state().timestamp,
    {
        self.state.stage = stage;
    }

    /// The current lock state.
    pub fn state(&self) -> (s: &LockState)
        ensures
            *s == self.spec_state(),
    {
        &self.state
    }

    /// Path of the lock file.
    pub fn lock_path(&self) -> (p: &str)
        ensures
            p@ == self.spec_lock_path(),
    {
        self.lock_path.as_str()
    }
}

} // verus!
