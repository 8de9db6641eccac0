//! The model behind the desktop front end: task configuration and status,
//! the state of a file as shown to the user, the progress a task reports,
//! and the front end's errors.

use vstd::prelude::*;
use crate::common::OperationMode;
use crate::error::AppError;
use crate::io::locker::{is_hyphenated_uuid, new_session_id};
use crate::parsers::{spec_format_for_extension, spec_to_lowercase, to_lowercase, ContainerFormat};
use crate::workflow::{detect_file_state, spec_is_encrypted};
use vstd::string::StrSliceExecFns;

pub mod task_manager;

verus! {

// ============================================================================
// Tasks
// ============================================================================

/// What a task does to its files.
#[derive(Debug, Clone, Copy, PartialEq, Eq, Structural)]
pub enum TaskMode {
    Encrypt,
    Decrypt,
}

/// The operation of a task mode.
pub open spec fn spec_mode_operation(m: TaskMode) -> OperationMode {
    match m {
        TaskMode::Encrypt => OperationMode::Encrypt,
        TaskMode::Decrypt => OperationMode::Decrypt,
    }
}

impl From<TaskMode> for OperationMode {
    fn from(mode: TaskMode) -> (r: OperationMode) {
        match mode {
            TaskMode::Encrypt => OperationMode::Encrypt,
            TaskMode::Decrypt => OperationMode::Decrypt,
        }
    }
}

impl vstd::std_specs::convert::FromSpecImpl<TaskMode> for OperationMode {
    open spec fn obeys_from_spec() -> bool {
        true
    }

    open spec fn from_spec(v: TaskMode) -> OperationMode {
        spec_mode_operation(v)
    }
}

/// Configuration of a task over several files.
#[derive(Debug, Clone)]
pub struct TaskConfig {
    pub files: Vec<String>,
    pub password: String,
    pub mode: TaskMode,
    pub encrypt_audio: bool,
    pub scrub_metadata: bool,
    pub use_wal: bool,
}

/// Status of a task.
#[derive(Debug, Clone, Copy, PartialEq, Eq, Structural)]
pub enum TaskStatus {
    Pending,
    Running,
    Paused,
    Completed,
    Failed,
    Cancelled,
}

/// Errors of the front end.
#[derive(Debug)]
pub enum GuiError {
    TaskNotFound(String),
    TaskAlreadyRunning(String),
    NoFilesSelected,
    EmptyPassword,
    Io(std::io::Error),
    Core(AppError),
    Cancelled,
    Other(String),
}

impl GuiError {
    /// The kind of the error, as reported to the front end.
    pub fn kind_str(&self) -> (s: &'static str)
        ensures
            s@ == match *self {
                GuiError::TaskNotFound(_) => "task_not_found"@,
                GuiError::TaskAlreadyRunning(_) => "task_already_running"@,
                GuiError::NoFilesSelected => "no_files_selected"@,
                GuiError::EmptyPassword => "empty_password"@,
                GuiError::Io(_) => "io"@,
                GuiError::Core(_) => "core"@,
                GuiError::Cancelled => "cancelled"@,
                GuiError::Other(_) => "other"@,
            },
    {
        match self {
            GuiError::TaskNotFound(_) => "task_not_found",
            GuiError::TaskAlreadyRunning(_) => "task_already_running",
            GuiError::NoFilesSelected => "no_files_selected",
            GuiError::EmptyPassword => "empty_password",
            GuiError::Io(_) => "io",
            GuiError::Core(_) => "core",
            GuiError::Cancelled => "cancelled",
            GuiError::Other(_) => "other",
        }
    }
}

/// Checks a task configuration before a task is created: it needs files and
/// a password.
pub fn validate_task_config(config: &TaskConfig) -> (r: Result<(), GuiError>)
    ensures
        config.files@.len() == 0 ==> r matches Err(GuiError::NoFilesSelected),
        config.files@.len() > 0 && config.password@.len() == 0 ==> r matches Err(GuiError::EmptyPassword),
        config.files@.len() > 0 && config.password@.len() > 0 ==> r is Ok,
{
    if config.files.len() == 0 {
        return Err(GuiError::NoFilesSelected);
    }
    if config.password.as_str().unicode_len() == 0 {
        return Err(GuiError::EmptyPassword);
    }
    Ok(())
}

/// Creates the identifier of a new task for this configuration, after
/// checking it; fails with the random source's error (`Core(Crypto)`) when
/// no identifier can be drawn.
pub fn new_task_id(config: &TaskConfig) -> (r: Result<String, GuiError>)
    ensures
        config.files@.len() == 0 ==> r matches Err(GuiError::NoFilesSelected),
        config.files@.len() > 0 && config.password@.len() == 0 ==> r matches Err(GuiError::EmptyPassword),
        config.files@.len() > 0 && config.password@.len() > 0 ==> (r matches Ok(id) ==> is_hyphenated_uuid(id@)),
        config.files@.len() > 0 && config.password@.len() > 0 && r is Err ==> r matches Err(
            GuiError::Core(AppError::Crypto(_)),
        ),
{
    match validate_task_config(config) {
        Ok(()) => match new_session_id() {
            Ok(id) => Ok(id),
            Err(e) => Err(GuiError::Core(e)),
        },
        Err(e) => Err(e),
    }
}

// ============================================================================
// Files
// ============================================================================

/// State of a file as shown to the user.
#[derive(Debug, Clone, Copy, PartialEq, Eq, Structural)]
pub enum FileState {
    Normal,
    Encrypted,
    Locked,
    RecoveryNeeded,
}

/// A file offered for processing.
#[derive(Debug)]
pub struct FileInfo {
    pub path: String,
    pub name: String,
    pub size: u64,
    pub state: FileState,
}

/// The state of a file, given whether its log and its lock file exist and
/// its last (up to 73) bytes: a log means an interrupted session, then a lock
/// means a session at work, then the footer tells encrypted from normal.
pub fn file_state(wal_exists: bool, lock_exists: bool, tail: &[u8]) -> (r: FileState)
    ensures
        r == if wal_exists {
            FileState::RecoveryNeeded
        } else if lock_exists {
            FileState::Locked
        } else if spec_is_encrypted(tail@) {
            FileState::Encrypted
        } else {
            FileState::Normal
        },
{
    if wal_exists {
        return FileState::RecoveryNeeded;
    }
    if lock_exists {
        return FileState::Locked;
    }
    if detect_file_state(tail) {
        FileState::Encrypted
    } else {
        FileState::Normal
    }
}

/// The lowercase file extensions the front end offers.
pub open spec fn spec_supported_extension(lower: Seq<char>) -> bool {
    lower == "mp4"@ || lower == "m4v"@ || lower == "mov"@ || lower == "mkv"@ || lower == "webm"@ || lower == "m4a"@
        || lower == "mka"@
}

/// Every extension the front end offers has a parser, and only those do:
/// mp4, m4v, m4a and mov are read as MP4, mkv, webm and mka as MKV.
pub proof fn lemma_offered_extensions_have_parsers(lower: Seq<char>)
    ensures
        spec_supported_extension(lower) <==> spec_format_for_extension(lower) is Some,
        lower == "mp4"@ || lower == "m4v"@ || lower == "m4a"@ || lower == "mov"@ ==> spec_format_for_extension(lower)
            == Some(ContainerFormat::Mp4),
        lower == "mkv"@ || lower == "webm"@ || lower == "mka"@ ==> spec_format_for_extension(lower) == Some(
            ContainerFormat::Mkv,
        ),
{
    reveal_strlit("mp4");
    reveal_strlit("m4v");
    reveal_strlit("m4a");
    reveal_strlit("mov");
    reveal_strlit("mkv");
    reveal_strlit("webm");
    reveal_strlit("mka");
    assert("mp4"@[1] == 'p' && "m4v"@[1] == '4' && "m4a"@[1] == '4' && "mov"@[1] == 'o');
    assert("mkv"@[1] == 'k' && "mka"@[1] == 'k' && "webm"@.len() == 4);
    assert("mp4"@.len() == 3 && "m4v"@.len() == 3 && "m4a"@.len() == 3 && "mov"@.len() == 3);
}

/// Whether files with extension `ext` (in any case) are offered.
pub fn is_supported_extension(ext: &str) -> (r: bool)
    ensures
        r == spec_supported_extension(spec_to_lowercase(ext@)),
{
    let lower = to_lowercase(ext);
    let s = lower.as_str();
    let l = String::from_str(s);
    l == String::from_str("mp4") || l == String::from_str("m4v") || l == String::from_str("mov") || l
        == String::from_str("mkv") || l == String::from_str("webm") || l == String::from_str("m4a") || l
        == String::from_str("mka")
}

// ============================================================================
// Progress
// ============================================================================

/// Phase of a task as shown to the user.
#[derive(Debug, Clone, Copy, PartialEq, Eq, Structural)]
pub enum ProgressPhase {
    Idle,
    Checking,
    Analyzing,
    Backup,
    Processing,
    Finalizing,
    Completed,
    Failed,
    Cancelled,
}

impl Default for ProgressPhase {
    fn default() -> (p: Self)
        ensures
            p == ProgressPhase::Idle,
    {
        ProgressPhase::Idle
    }
}

/// Whether `p` occurs in `s`.
pub open spec fn seq_contains(s: Seq<char>, p: Seq<char>) -> bool {
    exists|i: int| 0 <= i && i + p.len() <= s.len() && #[trigger] s.subrange(i, i + p.len()) == p
}

/// The characters of `s`.
fn chars_of(s: &str) -> (r: Vec<char>)
    ensures
        r@ == s@,
{
    let n = s.unicode_len();
    let mut out: Vec<char> = Vec::new();
    let mut i: usize = 0;
    while i < n
        invariant
            n == s@.len(),
            0 <= i <= n,
            out@ == s@.subrange(0, i as int),
        decreases n - i,
    {
        out.push(s.get_char(i));
        i = i + 1;
        assert(out@ =~= s@.subrange(0, i as int));
    }
    assert(s@.subrange(0, n as int) =~= s@);
    out
}

/// Whether `s[i..i + p.len()]` is `p`.
fn matches_at(s: &Vec<char>, p: &Vec<char>, i: usize) -> (r: bool)
    requires
        i + p@.len() <= s@.len(),
    ensures
        r == (s@.subrange(i as int, i + p@.len()) == p@),
{
    let m = p.len();
    let sl = s.len();
    let mut j: usize = 0;
    while j < m
        invariant
            m == p@.len(),
            sl == s@.len(),
            i + m <= s@.len(),
            0 <= j <= m,
            forall|k: int| 0 <= k < j ==> s@[i + k] == p@[k],
        decreases m - j,
    {
        if s[i + j] != p[j] {
            assert(s@.subrange(i as int, i + p@.len())[j as int] != p@[j as int]);
            return false;
        }
        j = j + 1;
    }
    assert(s@.subrange(i as int, i + p@.len()) =~= p@);
    true
}

/// `str::contains` with a string pattern: whether `pattern` occurs in `s`.
pub fn str_contains(s: &str, pattern: &str) -> (r: bool)
    ensures
        r == seq_contains(s@, pattern@),
{
    let sc = chars_of(s);
    let pc = chars_of(pattern);
    let n = sc.len();
    let m = pc.len();
    if m > n {
        return false;
    }
    let last = n - m;
    let mut i: usize = 0;
    loop
        invariant
            n == sc@.len(),
            m == pc@.len(),
            sc@ == s@,
            pc@ == pattern@,
            last == n - m,
            0 <= i <= last,
            forall|k: int| 0 <= k < i ==> #[trigger] s@.subrange(k, k + m) != pattern@,
        decreases last - i,
    {
        if matches_at(&sc, &pc, i) {
            return true;
        }
        if i == last {
            return false;
        }
        i = i + 1;
    }
}

/// The phase a status message announces, if any: checking, analyzing,
/// backup (the log) or finalizing.
pub open spec fn spec_phase_for_message(m: Seq<char>) -> Option<ProgressPhase> {
    if seq_contains(m, "check"@) || seq_contains(m, "Checking"@) {
        Some(ProgressPhase::Checking)
    } else if seq_contains(m, "analyz"@) || seq_contains(m, "Analyzing"@) {
        Some(ProgressPhase::Analyzing)
    } else if seq_contains(m, "backup"@) || seq_contains(m, "WAL"@) {
        Some(ProgressPhase::Backup)
    } else if seq_contains(m, "finaliz"@) || seq_contains(m, "Finalizing"@) {
        Some(ProgressPhase::Finalizing)
    } else {
        None
    }
}

/// The phase a status message announces, if any.
pub fn phase_for_message(m: &str) -> (r: Option<ProgressPhase>)
    ensures
        r == spec_phase_for_message(m@),
{
    if str_contains(m, "check") || str_contains(m, "Checking") {
        Some(ProgressPhase::Checking)
    } else if str_contains(m, "analyz") || str_contains(m, "Analyzing") {
        Some(ProgressPhase::Analyzing)
    } else if str_contains(m, "backup") || str_contains(m, "WAL") {
        Some(ProgressPhase::Backup)
    } else if str_contains(m, "finaliz") || str_contains(m, "Finalizing") {
        Some(ProgressPhase::Finalizing)
    } else {
        None
    }
}

/// The progress of a task as the front end shows it: what it reports
/// through the progress callbacks, accumulated.
pub struct ProgressState {
    pub total_bytes: u64,
    pub processed_bytes: u64,
    pub phase: ProgressPhase,
    pub message: String,
}

impl ProgressState {
    /// Nothing reported yet.
    pub fn new() -> (s: Self)
        ensures
            s.total_bytes == 0,
            s.processed_bytes == 0,
            s.phase == ProgressPhase::Idle,
            s.message@ == Seq::<char>::empty(),
    {
        ProgressState { total_bytes: 0, processed_bytes: 0, phase: ProgressPhase::Idle, message: String::new() }
    }

    /// Sets the amount of work.
    pub fn set_total_bytes(&mut self, total: u64)
        ensures
            final(self).total_bytes == total,
            final(self).processed_bytes == old(self).processed_bytes,
            final(self).phase == old(self).phase,
            final(self).message@ == old(self).message@,
    {
        self.total_bytes = total;
    }

    /// The bytes processed so far.
    pub fn get_processed_bytes(&self) -> (b: u64)
        ensures
            b == self.processed_bytes,
    {
        self.processed_bytes
    }

    /// Records an update: the phase, its message and more bytes done.
    pub fn record(&mut self, phase: ProgressPhase, message: &str, processed_delta: u64)
        requires
            old(self).processed_bytes + processed_delta <= u64::MAX,
        ensures
            final(self).total_bytes == old(self).total_bytes,
            final(self).processed_bytes == old(self).processed_bytes + processed_delta,
            final(self).phase == phase,
            final(self).message@ == message@,
    {
        self.phase = phase;
        self.message = String::from_str(message);
        self.processed_bytes = self.processed_bytes + processed_delta;
    }

    /// A task starts with `total_bytes` of work.
    pub fn on_start(&mut self, total_bytes: u64, message: &str)
        ensures
            final(self).total_bytes == total_bytes,
            final(self).processed_bytes == old(self).processed_bytes,
            final(self).phase == ProgressPhase::Processing,
            final(self).message@ == message@,
    {
        self.set_total_bytes(total_bytes);
        self.record(ProgressPhase::Processing, message, 0);
    }

    /// `delta_bytes` more bytes were processed.
    pub fn on_progress(&mut self, delta_bytes: u64)
        requires
            old(self).processed_bytes + delta_bytes <= u64::MAX,
        ensures
            final(self).total_bytes == old(self).total_bytes,
            final(self).processed_bytes == old(self).processed_bytes + delta_bytes,
            final(self).phase == ProgressPhase::Processing,
            final(self).message@ == Seq::<char>::empty(),
    {
        self.record(ProgressPhase::Processing, "", delta_bytes);
        proof {
            reveal_strlit("");
        }
    }

    /// A status message: recorded with the phase it announces, ignored when
    /// it announces none.
    pub fn on_message(&mut self, message: &str) -> (changed: bool)
        ensures
            changed == spec_phase_for_message(message@) is Some,
            final(self).total_bytes == old(self).total_bytes,
            final(self).processed_bytes == old(self).processed_bytes,
            changed ==> final(self).phase == spec_phase_for_message(message@)->0 && final(self).message@ == message@,
            !changed ==> final(self).phase == old(self).phase && final(self).message@ == old(self).message@,
    {
        match phase_for_message(message) {
            Some(phase) => {
                self.record(phase, message, 0);
                true
            },
            None => false,
        }
    }
}

} // verus!
