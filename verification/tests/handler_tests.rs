use media_lock_core::common::{NoOpProgress, ProgressHandler};
use media_lock_core::error::AppError;
use std::sync::{Arc, Mutex};

/// Progress handler that records every callback.
struct MockHandler {
    log: Arc<Mutex<Vec<String>>>,
}

impl MockHandler {
    fn new() -> Arc<Self> {
        Arc::new(Self { log: Arc::new(Mutex::new(Vec::new())) })
    }

    fn get_log(&self) -> Vec<String> {
        self.log.lock().unwrap().clone()
    }
}

impl ProgressHandler for MockHandler {
    fn on_start(&self, total_bytes: u64, message: &str) {
        self.log.lock().unwrap().push(format!("on_start: {} bytes, {}", total_bytes, message));
    }

    fn on_progress(&self, delta_bytes: u64) {
        self.log.lock().unwrap().push(format!("on_progress: {} bytes", delta_bytes));
    }

    fn on_message(&self, message: &str) {
        self.log.lock().unwrap().push(format!("on_message: {}", message));
    }

    fn on_finish(&self) {
        self.log.lock().unwrap().push("on_finish".to_string());
    }

    fn on_error(&self, err: &AppError) {
        self.log.lock().unwrap().push(format!("on_error: {:?}", err));
    }
}

#[test]
fn test_handler_callbacks() {
    let handler = MockHandler::new();

    handler.on_start(1000, "testing");
    handler.on_progress(500);
    handler.on_message("phase 2");
    handler.on_finish();

    let log = handler.get_log();
    assert_eq!(log.len(), 4);
    assert!(log[0].contains("on_start"));
    assert!(log[1].contains("on_progress"));
    assert!(log[2].contains("on_message"));
    assert!(log[3].contains("on_finish"));
}

#[test]
fn noop_handler_accepts_every_callback() {
    let h: Arc<dyn ProgressHandler> = Arc::new(NoOpProgress);
    h.on_start(1, "x");
    h.on_progress(1);
    h.on_message("y");
    h.on_error(&AppError::InvalidPassword);
    h.on_finish();
}
