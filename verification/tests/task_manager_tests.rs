use media_lock_core::gui::task_manager::{
    completion_message, decimal, file_progress_message, FileRun, TaskManager,
};
use media_lock_core::gui::{GuiError, ProgressPhase, TaskConfig, TaskMode, TaskStatus};

fn config(files: &[&str]) -> TaskConfig {
    TaskConfig {
        files: files.iter().map(|s| s.to_string()).collect(),
        password: "pw".to_string(),
        mode: TaskMode::Decrypt,
        encrypt_audio: false,
        scrub_metadata: false,
        use_wal: true,
    }
}

#[test]
fn created_task_is_pending() {
    let mut m = TaskManager::new();
    let id = m.create_task(config(&["a.mp4", "b.mkv"])).unwrap();
    let t = m.get_task_info(&id).unwrap();
    assert_eq!(t.id, id);
    assert_eq!(t.status, TaskStatus::Pending);
    assert_eq!(t.total_files, 0);
    assert!(t.current_file.is_none());
    assert!(t.results.is_empty());
    assert!(m.get_task_info("missing").is_none());
}

#[test]
fn invalid_configs_create_nothing() {
    let mut m = TaskManager::new();
    assert!(matches!(m.create_task(config(&[])), Err(GuiError::NoFilesSelected)));
    let mut c = config(&["a.mp4"]);
    c.password = String::new();
    assert!(matches!(m.create_task(c), Err(GuiError::EmptyPassword)));
}

#[test]
fn start_task_checks_existence_and_running() {
    let mut m = TaskManager::new();
    match m.start_task("nope") {
        Err(GuiError::TaskNotFound(s)) => assert_eq!(s, "nope"),
        _ => panic!("unknown task must be refused"),
    }
    let id = m.create_task(config(&["a.mp4", "b.mkv", "c.mov"])).unwrap();
    m.start_task(&id).unwrap();
    let t = m.get_task_info(&id).unwrap();
    assert_eq!(t.status, TaskStatus::Running);
    assert_eq!(t.total_files, 3);
    match m.start_task(&id) {
        Err(GuiError::TaskAlreadyRunning(s)) => assert_eq!(s, id),
        _ => panic!("a running task cannot start again"),
    }
}

#[test]
fn run_records_results_and_completes() {
    let mut m = TaskManager::new();
    let id = m.create_task(config(&["a.mp4", "b.mkv"])).unwrap();
    m.start_task(&id).unwrap();
    m.begin_file(&id, 0, "a.mp4".to_string(), false).unwrap();
    assert_eq!(m.get_task_info(&id).unwrap().current_file.as_deref(), Some("a.mp4"));
    m.record_file(&id, "a.mp4".to_string(), FileRun::Succeeded).unwrap();
    m.begin_file(&id, 1, "b.mkv".to_string(), false).unwrap();
    assert_eq!(m.get_task_info(&id).unwrap().current_file_index, 1);
    m.record_file(&id, "b.mkv".to_string(), FileRun::Failed("File is not encrypted".to_string())).unwrap();
    let (ok, failed) = m.finish_task(&id);
    assert_eq!((ok, failed), (1, 1));
    let t = m.get_task_info(&id).unwrap();
    assert_eq!(t.status, TaskStatus::Completed);
    assert!(t.current_file.is_none());
    assert_eq!(t.results.len(), 2);
    assert!(t.results[0].success);
    assert_eq!(t.results[1].error.as_deref(), Some("File is not encrypted"));
    assert_eq!(completion_message(ok, failed), "Task completed with errors: 1 succeeded, 1 failed");
    assert_eq!(completion_message(2, 0), "All files processed successfully");
}

#[test]
fn cancellation_stops_and_is_not_overwritten() {
    let mut m = TaskManager::new();
    let id = m.create_task(config(&["a.mp4", "b.mkv"])).unwrap();
    m.start_task(&id).unwrap();
    m.cancel_task(&id).unwrap();
    assert_eq!(m.get_task_info(&id).unwrap().status, TaskStatus::Cancelled);
    assert!(matches!(m.begin_file(&id, 0, "a.mp4".to_string(), true), Err(GuiError::Cancelled)));
    assert_eq!(m.fail_task(&id, true, "Task cancelled".to_string()), ProgressPhase::Cancelled);
    let t = m.get_task_info(&id).unwrap();
    assert_eq!(t.status, TaskStatus::Cancelled);
    assert!(t.error.is_none());
    assert!(m.cancel_task("unknown").is_ok());
}

#[test]
fn failure_records_message() {
    let mut m = TaskManager::new();
    let id = m.create_task(config(&["a.mp4"])).unwrap();
    m.start_task(&id).unwrap();
    assert!(matches!(m.record_file(&id, "a.mp4".to_string(), FileRun::Cancelled), Err(GuiError::Cancelled)));
    assert_eq!(m.get_task_info(&id).unwrap().status, TaskStatus::Cancelled);

    let id2 = m.create_task(config(&["b.mp4"])).unwrap();
    m.start_task(&id2).unwrap();
    assert_eq!(m.fail_task(&id2, false, "boom".to_string()), ProgressPhase::Failed);
    let t = m.get_task_info(&id2).unwrap();
    assert_eq!(t.status, TaskStatus::Failed);
    assert_eq!(t.error.as_deref(), Some("boom"));
    // the other task is untouched
    assert_eq!(m.get_task_info(&id).unwrap().status, TaskStatus::Cancelled);
}

#[test]
fn decimal_and_progress_messages() {
    assert_eq!(decimal(0), "0");
    assert_eq!(decimal(7), "7");
    assert_eq!(decimal(10), "10");
    assert_eq!(decimal(1234567890), "1234567890");
    assert_eq!(decimal(usize::MAX), usize::MAX.to_string());
    assert_eq!(file_progress_message(0, 3), "Processing file 1/3");
    assert_eq!(file_progress_message(9, 12), "Processing file 10/12");
}
