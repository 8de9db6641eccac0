use media_lock_core::common::OperationMode;
use media_lock_core::error::AppError;
use media_lock_core::gui::{
    file_state, is_supported_extension, new_task_id, phase_for_message, str_contains, validate_task_config,
    FileState, GuiError, ProgressPhase, ProgressState, TaskConfig, TaskMode,
};
use media_lock_core::workflow::build_footer;

fn config(files: Vec<String>, password: &str) -> TaskConfig {
    TaskConfig {
        files,
        password: password.to_string(),
        mode: TaskMode::Encrypt,
        encrypt_audio: false,
        scrub_metadata: false,
        use_wal: true,
    }
}

#[test]
fn task_mode_maps_to_operation() {
    assert_eq!(OperationMode::from(TaskMode::Encrypt), OperationMode::Encrypt);
    assert_eq!(OperationMode::from(TaskMode::Decrypt), OperationMode::Decrypt);
}

#[test]
fn task_config_checks() {
    assert!(matches!(validate_task_config(&config(vec![], "pw")), Err(GuiError::NoFilesSelected)));
    assert!(matches!(validate_task_config(&config(vec!["a.mp4".into()], "")), Err(GuiError::EmptyPassword)));
    assert!(validate_task_config(&config(vec!["a.mp4".into()], "pw")).is_ok());
    let id = new_task_id(&config(vec!["a.mp4".into()], "pw")).unwrap();
    assert_eq!(id.len(), 36);
    assert_eq!(id.as_bytes()[8], b'-');
    assert!(matches!(new_task_id(&config(vec![], "")), Err(GuiError::NoFilesSelected)));
}

#[test]
fn error_kinds() {
    assert_eq!(GuiError::TaskNotFound("x".into()).kind_str(), "task_not_found");
    assert_eq!(GuiError::TaskAlreadyRunning("x".into()).kind_str(), "task_already_running");
    assert_eq!(GuiError::NoFilesSelected.kind_str(), "no_files_selected");
    assert_eq!(GuiError::EmptyPassword.kind_str(), "empty_password");
    assert_eq!(GuiError::Io(std::io::Error::from(std::io::ErrorKind::NotFound)).kind_str(), "io");
    assert_eq!(GuiError::Core(AppError::NotEncrypted).kind_str(), "core");
    assert_eq!(GuiError::Cancelled.kind_str(), "cancelled");
    assert_eq!(GuiError::Other("x".into()).kind_str(), "other");
}

#[test]
fn supported_extensions_any_case() {
    for ext in ["mp4", "M4V", "mov", "MkV", "webm", "m4a", "MKA"] {
        assert!(is_supported_extension(ext), "{}", ext);
    }
    for ext in ["avi", "", "mp3", "mp4 "] {
        assert!(!is_supported_extension(ext), "{}", ext);
    }
}

#[test]
fn file_state_precedence() {
    let footer = build_footer([0; 16], [0; 8], 5, [7; 32]);
    assert_eq!(file_state(true, true, &footer), FileState::RecoveryNeeded);
    assert_eq!(file_state(false, true, &footer), FileState::Locked);
    assert_eq!(file_state(false, false, &footer), FileState::Encrypted);
    assert_eq!(file_state(false, false, &[0u8; 100]), FileState::Normal);
    assert_eq!(file_state(false, false, &[]), FileState::Normal);
}

#[test]
fn substring_search() {
    assert!(str_contains("Checking file status...", "Checking"));
    assert!(str_contains("abc", ""));
    assert!(str_contains("abc", "abc"));
    assert!(!str_contains("ab", "abc"));
    assert!(!str_contains("Analyzing", "analyz"));
    assert!(str_contains("正在检查 check", "check"));
}

#[test]
fn phases_from_messages() {
    assert_eq!(phase_for_message("Checking file status..."), Some(ProgressPhase::Checking));
    assert_eq!(phase_for_message("Analyzing file structure..."), Some(ProgressPhase::Analyzing));
    assert_eq!(phase_for_message("writing WAL"), Some(ProgressPhase::Backup));
    assert_eq!(phase_for_message("Finalizing..."), Some(ProgressPhase::Finalizing));
    assert_eq!(phase_for_message("Processing data..."), None);
    // the first matching phase wins
    assert_eq!(phase_for_message("check before backup"), Some(ProgressPhase::Checking));
    assert_eq!(ProgressPhase::default(), ProgressPhase::Idle);
}

#[test]
fn progress_state_accumulates() {
    let mut p = ProgressState::new();
    p.on_start(1000, "Processing data...");
    assert_eq!(p.total_bytes, 1000);
    assert_eq!(p.phase, ProgressPhase::Processing);
    p.on_progress(300);
    p.on_progress(200);
    assert_eq!(p.get_processed_bytes(), 500);
    assert_eq!(p.message, "");
    assert!(p.on_message("Finalizing..."));
    assert_eq!(p.phase, ProgressPhase::Finalizing);
    assert_eq!(p.message, "Finalizing...");
    assert!(!p.on_message("nothing to see"));
    assert_eq!(p.message, "Finalizing...");
    p.set_total_bytes(7);
    assert_eq!(p.total_bytes, 7);
    assert_eq!(p.processed_bytes, 500);
}
