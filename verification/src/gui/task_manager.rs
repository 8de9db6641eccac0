//! The tasks of the desktop front end: creating them, starting and
//! cancelling them, and the record a running task keeps of its files.
//!
//! A task's files are processed one after the other by a worker; the worker
//! does the processing and tells the manager what happened at each file, and
//! the manager keeps the record and decides the status.

use vstd::prelude::*;
use crate::gui::{new_task_id, GuiError, ProgressPhase, TaskConfig, TaskStatus};
use crate::error::AppError;

verus! {

/// What became of one file of a task.
#[derive(Debug, Clone)]
pub struct FileOutcome {
    pub path: String,
    pub success: bool,
    pub error: Option<String>,
}

/// How processing one file ended, as the worker reports it.
pub enum FileRun {
    /// The file was processed.
    Succeeded,
    /// Processing failed with this message.
    Failed(String),
    /// The task was cancelled.
    Cancelled,
}

/// The record of a task.
#[derive(Debug)]
pub struct TaskRecord {
    pub id: String,
    pub config: TaskConfig,
    pub status: TaskStatus,
    pub current_file_index: usize,
    pub total_files: usize,
    pub current_file: Option<String>,
    pub error: Option<String>,
    pub results: Vec<FileOutcome>,
}

/// The index of the task with identifier `id`, if there is one.
pub open spec fn task_index(tasks: Seq<TaskRecord>, id: Seq<char>) -> Option<int> {
    if exists|i: int| 0 <= i < tasks.len() && #[trigger] tasks[i].id@ == id {
        Some(choose|i: int| 0 <= i < tasks.len() && #[trigger] tasks[i].id@ == id)
    } else {
        None
    }
}

/// Whether no two tasks share an identifier.
pub open spec fn ids_distinct(tasks: Seq<TaskRecord>) -> bool {
    forall|i: int, j: int| 0 <= i < tasks.len() && 0 <= j < tasks.len() && i != j ==> #[trigger] tasks[i].id@
        != #[trigger] tasks[j].id@
}

/// Whether `r` is a task just created with identifier `id` and `config`.
pub open spec fn is_new_record(r: TaskRecord, id: Seq<char>, config: TaskConfig) -> bool {
    &&& r.id@ == id
    &&& r.config == config
    &&& r.status == TaskStatus::Pending
    &&& r.current_file_index == 0
    &&& r.total_files == 0
    &&& r.current_file is None
    &&& r.error is None
    &&& r.results@.len() == 0
}

/// Whether `b` is `a` with only its status and file count changed.
pub open spec fn same_but_status(a: TaskRecord, b: TaskRecord) -> bool {
    &&& b.id == a.id
    &&& b.config == a.config
    &&& b.current_file_index == a.current_file_index
    &&& b.current_file == a.current_file
    &&& b.error == a.error
    &&& b.results == a.results
}

/// Number of successful outcomes.
pub open spec fn success_count(rs: Seq<FileOutcome>) -> nat
    decreases rs.len(),
{
    if rs.len() == 0 {
        0
    } else {
        success_count(rs.drop_last()) + if rs.last().success { 1nat } else { 0nat }
    }
}

proof fn lemma_success_count_le(rs: Seq<FileOutcome>)
    ensures
        success_count(rs) <= rs.len(),
    decreases rs.len(),
{
    if rs.len() > 0 {
        lemma_success_count_le(rs.drop_last());
    }
}

/// The tasks of the front end.
pub struct TaskManager {
    tasks: Vec<TaskRecord>,
}

impl TaskManager {
    /// The tasks, in order of creation.
    pub closed spec fn spec_tasks(&self) -> Seq<TaskRecord> {
        self.tasks@
    }

    /// No two tasks share an identifier.
    #[verifier::type_invariant]
    spec fn inv(&self) -> bool {
        ids_distinct(self.tasks@)
    }

    /// No tasks yet.
    pub fn new() -> (m: Self)
        ensures
            m.spec_tasks().len() == 0,
    {
        TaskManager { tasks: Vec::new() }
    }

    /// Takes the tasks out to change them; `put_tasks` puts them back.
    fn take_tasks(&mut self) -> (t: Vec<TaskRecord>)
        ensures
            t@ == old(self).spec_tasks(),
            ids_distinct(t@),
    {
        proof {
            use_type_invariant(&*self);
        }
        let mut t: Vec<TaskRecord> = Vec::new();
        std::mem::swap(&mut t, &mut self.tasks);
        t
    }

    /// Puts back tasks whose identifiers are distinct.
    fn put_tasks(&mut self, t: Vec<TaskRecord>)
        requires
            ids_distinct(t@),
        ensures
            final(self).spec_tasks() == t@,
    {
        self.tasks = t;
    }

    /// The index of the task `id`.
    fn find(&self, id: &str) -> (r: Option<usize>)
        ensures
            match r {
                Some(i) => task_index(self.spec_tasks(), id@) == Some(i as int) && i < self.spec_tasks().len(),
                None => task_index(self.spec_tasks(), id@) is None,
            },
    {
        proof {
            use_type_invariant(self);
        }
        let key = String::from_str(id);
        let n = self.tasks.len();
        let mut i: usize = 0;
        while i < n
            invariant
                n == self.tasks@.len(),
                ids_distinct(self.tasks@),
                0 <= i <= n,
                key@ == id@,
                forall|j: int| 0 <= j < i ==> #[trigger] self.tasks@[j].id@ != id@,
            decreases n - i,
        {
            if self.tasks[i].id == key {
                proof {
                    let k = choose|k: int| 0 <= k < self.tasks@.len() && #[trigger] self.tasks@[k].id@ == id@;
                    assert(self.tasks@[i as int].id@ == id@);
                    if k != i {
                        assert(self.tasks@[k].id@ != self.tasks@[i as int].id@);
                    }
                }
                return Some(i);
            }
            i = i + 1;
        }
        None
    }


    /// Creates a task for `config` after checking it, and returns its
    /// identifier. A task that already had the identifier is replaced. It
    /// fails with the random source's error (`Core(Crypto)`) when no
    /// identifier can be drawn.
    pub fn create_task(&mut self, config: TaskConfig) -> (r: Result<String, GuiError>)
        ensures
            config.files@.len() == 0 ==> r matches Err(GuiError::NoFilesSelected),
            config.files@.len() > 0 && config.password@.len() == 0 ==> r matches Err(GuiError::EmptyPassword),
            r is Err ==> final(self).spec_tasks() == old(self).spec_tasks(),
            config.files@.len() > 0 && config.password@.len() > 0 && r is Err ==> r matches Err(
                GuiError::Core(AppError::Crypto(_)),
            ),
            config.files@.len() > 0 && config.password@.len() > 0 ==> (r matches Ok(id) ==> {
                let i = task_index(final(self).spec_tasks(), id@);
                &&& crate::io::locker::is_hyphenated_uuid(id@)
                &&& i is Some
                &&& is_new_record(final(self).spec_tasks()[i->0], id@, config)
                &&& final(self).spec_tasks().len() == old(self).spec_tasks().len() + if task_index(
                    old(self).spec_tasks(),
                    id@,
                ) is Some {
                    0int
                } else {
                    1int
                }
                &&& forall|j: int| 0 <= j < old(self).spec_tasks().len() && old(self).spec_tasks()[j].id@ != id@
                    ==> #[trigger] final(self).spec_tasks()[j] == old(self).spec_tasks()[j]
            }),
    {
        let id = match new_task_id(&config) {
            Ok(id) => id,
            Err(e) => return Err(e),
        };
        let ghost cfg = config;
        let record = TaskRecord {
            id: id.clone(),
            config,
            status: TaskStatus::Pending,
            current_file_index: 0,
            total_files: 0,
            current_file: None,
            error: None,
            results: Vec::new(),
        };
        let ghost rec = record;
        let found = self.find(id.as_str());
        let mut tasks = self.take_tasks();
        match found {
            Some(i) => {
                tasks.remove(i);
                tasks.insert(i, record);
                proof {
                    assert(tasks@ =~= old(self).tasks@.update(i as int, rec));
                    let t = tasks@;
                    assert(t[i as int].id@ == id@);
                    assert(ids_distinct(t)) by {
                        assert forall|a: int, b: int| 0 <= a < t.len() && 0 <= b < t.len() && a != b implies #[trigger] t[a].id@
                            != #[trigger] t[b].id@ by {
                            if a != i && b != i {
                                assert(t[a] == old(self).tasks@[a] && t[b] == old(self).tasks@[b]);
                            } else if a == i {
                                assert(t[b] == old(self).tasks@[b]);
                                assert(old(self).tasks@[i as int].id@ == id@);
                            } else {
                                assert(t[a] == old(self).tasks@[a]);
                                assert(old(self).tasks@[i as int].id@ == id@);
                            }
                        }
                    }
                    assert(task_index(t, id@) == Some(i as int)) by {
                        let k = choose|k: int| 0 <= k < t.len() && #[trigger] t[k].id@ == id@;
                        if k != i {
                            assert(t[k].id@ != t[i as int].id@);
                        }
                    }
                }
            },
            None => {
                tasks.push(record);
                proof {
                    let t = tasks@;
                    let n = old(self).tasks@.len();
                    assert(t[n as int] == rec);
                    assert(forall|j: int| 0 <= j < n ==> #[trigger] t[j] == old(self).tasks@[j]);
                    assert(ids_distinct(t)) by {
                        assert forall|a: int, b: int| 0 <= a < t.len() && 0 <= b < t.len() && a != b implies #[trigger] t[a].id@
                            != #[trigger] t[b].id@ by {
                            if a < n && b < n {
                            } else if a == n {
                                assert(old(self).tasks@[b].id@ != id@);
                            } else {
                                assert(old(self).tasks@[a].id@ != id@);
                            }
                        }
                    }
                    assert(task_index(t, id@) == Some(n as int)) by {
                        let k = choose|k: int| 0 <= k < t.len() && #[trigger] t[k].id@ == id@;
                        if k != n {
                            assert(t[k].id@ != t[n as int].id@);
                        }
                    }
                }
            },
        }
        self.put_tasks(tasks);
        Ok(id)
    }

    /// Starts the task `id`: it must exist and not be running already; it
    /// becomes `Running` with all its files to do.
    pub fn start_task(&mut self, id: &str) -> (r: Result<(), GuiError>)
        ensures
            match task_index(old(self).spec_tasks(), id@) {
                None => (r matches Err(GuiError::TaskNotFound(s)) && s@ == id@) && final(self).spec_tasks()
                    == old(self).spec_tasks(),
                Some(i) => if old(self).spec_tasks()[i].status == TaskStatus::Running {
                    (r matches Err(GuiError::TaskAlreadyRunning(s)) && s@ == id@) && final(self).spec_tasks()
                        == old(self).spec_tasks()
                } else {
                    &&& r is Ok
                    &&& final(self).spec_tasks().len() == old(self).spec_tasks().len()
                    &&& forall|j: int| 0 <= j < old(self).spec_tasks().len() && j != i ==> #[trigger] final(self).spec_tasks()[j] == old(self).spec_tasks()[j]
                    &&& same_but_status(old(self).spec_tasks()[i], final(self).spec_tasks()[i])
                    &&& final(self).spec_tasks()[i].status == TaskStatus::Running
                    &&& final(self).spec_tasks()[i].total_files == old(self).spec_tasks()[i].config.files@.len()
                },
            },
    {
        match self.find(id) {
            None => Err(GuiError::TaskNotFound(String::from_str(id))),
            Some(i) => {
                if self.tasks[i].status == TaskStatus::Running {
                    return Err(GuiError::TaskAlreadyRunning(String::from_str(id)));
                }
                let mut tasks = self.take_tasks();
                let mut rec = tasks.remove(i);
                rec.status = TaskStatus::Running;
                rec.total_files = rec.config.files.len();
                tasks.insert(i, rec);
                proof {
                    lemma_update_keeps_ids(old(self).spec_tasks(), tasks@, i as int);
                }
                self.put_tasks(tasks);
                Ok(())
            },
        }
    }

    /// Sets the status of the task `id`, if there is one.
    fn set_status(&mut self, id: &str, status: TaskStatus)
        ensures
            final(self).spec_tasks().len() == old(self).spec_tasks().len(),
            match task_index(old(self).spec_tasks(), id@) {
                None => final(self).spec_tasks() == old(self).spec_tasks(),
                Some(i) => {
                    &&& forall|j: int| 0 <= j < old(self).spec_tasks().len() && j != i ==> #[trigger] final(self).spec_tasks()[j] == old(self).spec_tasks()[j]
                    &&& same_but_status(old(self).spec_tasks()[i], final(self).spec_tasks()[i])
                    &&& final(self).spec_tasks()[i].total_files == old(self).spec_tasks()[i].total_files
                    &&& final(self).spec_tasks()[i].status == status
                },
            },
    {
        match self.find(id) {
            None => {},
            Some(i) => {
                let mut tasks = self.take_tasks();
                let mut rec = tasks.remove(i);
                rec.status = status;
                tasks.insert(i, rec);
                proof {
                    lemma_update_keeps_ids(old(self).spec_tasks(), tasks@, i as int);
                }
                self.put_tasks(tasks);
            },
        }
    }

    /// Cancels the task `id` (a task that does not exist is ignored). The
    /// worker, if one runs, stops before its next file.
    pub fn cancel_task(&mut self, id: &str) -> (r: Result<(), GuiError>)
        ensures
            r is Ok,
            match task_index(old(self).spec_tasks(), id@) {
                None => final(self).spec_tasks() == old(self).spec_tasks(),
                Some(i) => {
                    &&& final(self).spec_tasks().len() == old(self).spec_tasks().len()
                    &&& forall|j: int| 0 <= j < old(self).spec_tasks().len() && j != i ==> #[trigger] final(self).spec_tasks()[j] == old(self).spec_tasks()[j]
                    &&& same_but_status(old(self).spec_tasks()[i], final(self).spec_tasks()[i])
                    &&& final(self).spec_tasks()[i].status == TaskStatus::Cancelled
                },
            },
    {
        self.set_status(id, TaskStatus::Cancelled);
        Ok(())
    }

    /// The record of the task `id`.
    pub fn get_task_info(&self, id: &str) -> (r: Option<&TaskRecord>)
        ensures
            match task_index(self.spec_tasks(), id@) {
                None => r is None,
                Some(i) => r matches Some(t) && *t == self.spec_tasks()[i],
            },
    {
        match self.find(id) {
            None => None,
            Some(i) => Some(&self.tasks[i]),
        }
    }

    /// The worker is about to process file `index` (`path`) of task `id`. A
    /// cancelled task stops here: its status becomes `Cancelled` and the
    /// worker gets `Cancelled`.
    pub fn begin_file(&mut self, id: &str, index: usize, path: String, cancelled: bool) -> (r: Result<(), GuiError>)
        ensures
            final(self).spec_tasks().len() == old(self).spec_tasks().len(),
            cancelled ==> r matches Err(GuiError::Cancelled),
            !cancelled ==> r is Ok,
            match task_index(old(self).spec_tasks(), id@) {
                None => final(self).spec_tasks() == old(self).spec_tasks(),
                Some(i) => {
                    let (a, b) = (old(self).spec_tasks()[i], final(self).spec_tasks()[i]);
                    &&& forall|j: int| 0 <= j < old(self).spec_tasks().len() && j != i ==> #[trigger] final(self).spec_tasks()[j] == old(self).spec_tasks()[j]
                    &&& b.id == a.id && b.config == a.config && b.total_files == a.total_files
                    &&& b.error == a.error && b.results == a.results
                    &&& if cancelled {
                        b.status == TaskStatus::Cancelled && b.current_file_index == a.current_file_index
                            && b.current_file == a.current_file
                    } else {
                        b.status == a.status && b.current_file_index == index && b.current_file == Some(path)
                    }
                },
            },
    {
        if cancelled {
            self.set_status(id, TaskStatus::Cancelled);
            return Err(GuiError::Cancelled);
        }
        match self.find(id) {
            None => {},
            Some(i) => {
                let mut tasks = self.take_tasks();
                let mut rec = tasks.remove(i);
                rec.current_file_index = index;
                rec.current_file = Some(path);
                tasks.insert(i, rec);
                proof {
                    lemma_update_keeps_ids(old(self).spec_tasks(), tasks@, i as int);
                }
                self.put_tasks(tasks);
            },
        }
        Ok(())
    }

    /// Records how file `path` of task `id` ended. A cancellation stops the
    /// task (status `Cancelled`, the worker gets `Cancelled`); otherwise the
    /// outcome joins the results.
    pub fn record_file(&mut self, id: &str, path: String, run: FileRun) -> (r: Result<(), GuiError>)
        ensures
            final(self).spec_tasks().len() == old(self).spec_tasks().len(),
            run is Cancelled ==> r matches Err(GuiError::Cancelled),
            !(run is Cancelled) ==> r is Ok,
            match task_index(old(self).spec_tasks(), id@) {
                None => final(self).spec_tasks() == old(self).spec_tasks(),
                Some(i) => {
                    let (a, b) = (old(self).spec_tasks()[i], final(self).spec_tasks()[i]);
                    &&& forall|j: int| 0 <= j < old(self).spec_tasks().len() && j != i ==> #[trigger] final(self).spec_tasks()[j] == old(self).spec_tasks()[j]
                    &&& b.id == a.id && b.config == a.config && b.total_files == a.total_files
                    &&& b.current_file_index == a.current_file_index && b.current_file == a.current_file
                    &&& b.error == a.error
                    &&& match run {
                        FileRun::Cancelled => b.status == TaskStatus::Cancelled && b.results == a.results,
                        _ => b.status == a.status && b.results@ == a.results@.push(file_outcome(path, run)),
                    }
                },
            },
    {
        let outcome = match run {
            FileRun::Cancelled => {
                self.set_status(id, TaskStatus::Cancelled);
                return Err(GuiError::Cancelled);
            },
            FileRun::Succeeded => FileOutcome { path, success: true, error: None },
            FileRun::Failed(m) => FileOutcome { path, success: false, error: Some(m) },
        };
        match self.find(id) {
            None => {},
            Some(i) => {
                let mut tasks = self.take_tasks();
                let mut rec = tasks.remove(i);
                rec.results.push(outcome);
                tasks.insert(i, rec);
                proof {
                    lemma_update_keeps_ids(old(self).spec_tasks(), tasks@, i as int);
                }
                self.put_tasks(tasks);
            },
        }
        Ok(())
    }

    /// All files of task `id` were processed: the task is `Completed` with
    /// no current file. Returns how many files succeeded and how many
    /// failed.
    pub fn finish_task(&mut self, id: &str) -> (r: (usize, usize))
        ensures
            final(self).spec_tasks().len() == old(self).spec_tasks().len(),
            match task_index(old(self).spec_tasks(), id@) {
                None => final(self).spec_tasks() == old(self).spec_tasks() && r == (0usize, 0usize),
                Some(i) => {
                    let (a, b) = (old(self).spec_tasks()[i], final(self).spec_tasks()[i]);
                    &&& forall|j: int| 0 <= j < old(self).spec_tasks().len() && j != i ==> #[trigger] final(self).spec_tasks()[j] == old(self).spec_tasks()[j]
                    &&& b.id == a.id && b.config == a.config && b.total_files == a.total_files
                    &&& b.current_file_index == a.current_file_index && b.error == a.error && b.results == a.results
                    &&& b.status == TaskStatus::Completed
                    &&& b.current_file is None
                    &&& r.0 == success_count(a.results@)
                    &&& r.1 == a.results@.len() - success_count(a.results@)
                },
            },
    {
        match self.find(id) {
            None => (0, 0),
            Some(i) => {
                let mut tasks = self.take_tasks();
                let mut rec = tasks.remove(i);
                rec.status = TaskStatus::Completed;
                rec.current_file = None;
                let n = rec.results.len();
                let mut succeeded: usize = 0;
                let mut k: usize = 0;
                while k < n
                    invariant
                        n == rec.results@.len(),
                        0 <= k <= n,
                        succeeded == success_count(rec.results@.take(k as int)),
                    decreases n - k,
                {
                    proof {
                        assert(rec.results@.take(k + 1).drop_last() =~= rec.results@.take(k as int));
                        lemma_success_count_le(rec.results@.take(k as int));
                    }
                    if rec.results[k].success {
                        succeeded = succeeded + 1;
                    }
                    k = k + 1;
                }
                proof {
                    assert(rec.results@.take(n as int) =~= rec.results@);
                    lemma_success_count_le(rec.results@);
                }
                let failed = n - succeeded;
                tasks.insert(i, rec);
                proof {
                    lemma_update_keeps_ids(old(self).spec_tasks(), tasks@, i as int);
                }
                self.put_tasks(tasks);
                (succeeded, failed)
            },
        }
    }

    /// The worker of task `id` stopped with an error (`message`, and whether
    /// it was a cancellation): unless the task was cancelled, it becomes
    /// `Failed` with that message. Returns the phase to report.
    pub fn fail_task(&mut self, id: &str, cancelled: bool, message: String) -> (p: ProgressPhase)
        ensures
            final(self).spec_tasks().len() == old(self).spec_tasks().len(),
            p == if cancelled { ProgressPhase::Cancelled } else { ProgressPhase::Failed },
            match task_index(old(self).spec_tasks(), id@) {
                None => final(self).spec_tasks() == old(self).spec_tasks(),
                Some(i) => {
                    let (a, b) = (old(self).spec_tasks()[i], final(self).spec_tasks()[i]);
                    &&& forall|j: int| 0 <= j < old(self).spec_tasks().len() && j != i ==> #[trigger] final(self).spec_tasks()[j] == old(self).spec_tasks()[j]
                    &&& if a.status == TaskStatus::Cancelled {
                        b == a
                    } else {
                        &&& b.id == a.id && b.config == a.config && b.total_files == a.total_files
                        &&& b.current_file_index == a.current_file_index && b.current_file == a.current_file
                        &&& b.results == a.results
                        &&& b.status == TaskStatus::Failed
                        &&& b.error == Some(message)
                    }
                },
            },
    {
        match self.find(id) {
            None => {},
            Some(i) => {
                if self.tasks[i].status != TaskStatus::Cancelled {
                    let mut tasks = self.take_tasks();
                    let mut rec = tasks.remove(i);
                    rec.status = TaskStatus::Failed;
                    rec.error = Some(message);
                    tasks.insert(i, rec);
                    proof {
                        lemma_update_keeps_ids(old(self).spec_tasks(), tasks@, i as int);
                    }
                    self.put_tasks(tasks);
                }
            },
        }
        if cancelled {
            ProgressPhase::Cancelled
        } else {
            ProgressPhase::Failed
        }
    }
}

/// After the record at `i` was changed without changing its identifier, the
/// identifiers are still distinct.
proof fn lemma_update_keeps_ids(before: Seq<TaskRecord>, t: Seq<TaskRecord>, i: int)
    requires
        ids_distinct(before),
        0 <= i < before.len(),
        t.len() == before.len(),
        t[i].id == before[i].id,
        forall|j: int| 0 <= j < before.len() && j != i ==> #[trigger] t[j] == before[j],
    ensures
        ids_distinct(t),
{
    assert forall|a: int, b: int| 0 <= a < t.len() && 0 <= b < t.len() && a != b implies #[trigger] t[a].id@
        != #[trigger] t[b].id@ by {
        assert(t[a].id == before[a].id);
        assert(t[b].id == before[b].id);
    }
}

// ============================================================================
// A whole run
// ============================================================================

/// The outcome that `record_file` records for a file that ran to an end
/// (succeeded or failed).
pub open spec fn file_outcome(path: String, run: FileRun) -> FileOutcome {
    match run {
        FileRun::Failed(m) => FileOutcome { path, success: false, error: Some(m) },
        _ => FileOutcome { path, success: true, error: None },
    }
}

/// The results after `record_file` was told, in order, how each file ran.
pub open spec fn recorded_results(start: Seq<FileOutcome>, files: Seq<String>, runs: Seq<FileRun>) -> Seq<FileOutcome>
    decreases files.len(),
{
    if files.len() == 0 {
        start
    } else {
        recorded_results(start, files.drop_last(), runs.take(files.len() - 1)).push(
            file_outcome(files.last(), runs[files.len() - 1]),
        )
    }
}

/// A task whose files all ran to an end, without a cancellation, holds one
/// result per file after those it had, in the order of its files: the
/// file's path, success exactly when its run succeeded, and the failure's
/// message otherwise; and it has as many successes as succeeded runs (which
/// `finish_task` reports when it marks the task `Completed`).
pub proof fn lemma_task_run_results(start: Seq<FileOutcome>, files: Seq<String>, runs: Seq<FileRun>)
    requires
        runs.len() == files.len(),
        forall|i: int| 0 <= i < runs.len() ==> !(#[trigger] runs[i] is Cancelled),
    ensures
        recorded_results(start, files, runs).len() == start.len() + files.len(),
        recorded_results(start, files, runs).take(start.len() as int) == start,
        forall|i: int| 0 <= i < files.len() ==> {
            let o = #[trigger] recorded_results(start, files, runs)[start.len() + i];
            &&& o.path == files[i]
            &&& o.success == (runs[i] is Succeeded)
            &&& runs[i] matches FileRun::Failed(m) ==> o.error == Some(m)
        },
        success_count(recorded_results(start, files, runs)) == success_count(start) + succeeded_runs(runs),
    decreases files.len(),
{
    if files.len() > 0 {
        let n = files.len() - 1;
        let f2 = files.drop_last();
        let r2 = runs.take(n);
        assert forall|i: int| 0 <= i < r2.len() implies !(#[trigger] r2[i] is Cancelled) by {
            assert(r2[i] == runs[i]);
        }
        lemma_task_run_results(start, f2, r2);
        let prev = recorded_results(start, f2, r2);
        let all = recorded_results(start, files, runs);
        assert(all == prev.push(file_outcome(files[n], runs[n])));
        assert(all.take(start.len() as int) =~= prev.take(start.len() as int));
        assert forall|i: int| 0 <= i < files.len() implies {
            let o = #[trigger] all[start.len() + i];
            &&& o.path == files[i]
            &&& o.success == (runs[i] is Succeeded)
            &&& runs[i] matches FileRun::Failed(m) ==> o.error == Some(m)
        } by {
            if i < n {
                assert(all[start.len() + i] == prev[start.len() + i]);
                assert(f2[i] == files[i]);
                assert(r2[i] == runs[i]);
            }
        }
        assert(all.drop_last() =~= prev);
        assert(runs.drop_last() =~= r2);
    }
}

/// Number of runs that succeeded.
pub open spec fn succeeded_runs(runs: Seq<FileRun>) -> nat
    decreases runs.len(),
{
    if runs.len() == 0 {
        0
    } else {
        succeeded_runs(runs.drop_last()) + if runs.last() is Succeeded { 1nat } else { 0nat }
    }
}

// ============================================================================
// Messages
// ============================================================================

/// The character of digit `d`.
pub open spec fn digit_char(d: nat) -> char {
    if d == 0 {
        '0'
    } else if d == 1 {
        '1'
    } else if d == 2 {
        '2'
    } else if d == 3 {
        '3'
    } else if d == 4 {
        '4'
    } else if d == 5 {
        '5'
    } else if d == 6 {
        '6'
    } else if d == 7 {
        '7'
    } else if d == 8 {
        '8'
    } else {
        '9'
    }
}

/// The decimal digits of `n`.
pub open spec fn spec_decimal(n: nat) -> Seq<char>
    decreases n,
{
    if n < 10 {
        seq![digit_char(n)]
    } else {
        spec_decimal(n / 10).push(digit_char(n % 10))
    }
}

/// The text of digit `d`.
fn digit_text(d: usize) -> (s: &'static str)
    requires
        d < 10,
    ensures
        s@ == seq![digit_char(d as nat)],
{
    proof {
        reveal_strlit("0");
        reveal_strlit("1");
        reveal_strlit("2");
        reveal_strlit("3");
        reveal_strlit("4");
        reveal_strlit("5");
        reveal_strlit("6");
        reveal_strlit("7");
        reveal_strlit("8");
        reveal_strlit("9");
    }
    match d {
        0 => "0",
        1 => "1",
        2 => "2",
        3 => "3",
        4 => "4",
        5 => "5",
        6 => "6",
        7 => "7",
        8 => "8",
        _ => "9",
    }
}

/// `n` in decimal.
pub fn decimal(n: usize) -> (s: String)
    ensures
        s@ == spec_decimal(n as nat),
    decreases n,
{
    let mut out = if n < 10 {
        String::new()
    } else {
        decimal(n / 10)
    };
    out.append(digit_text(n % 10));
    proof {
        if n < 10 {
            assert(out@ =~= seq![digit_char(n as nat)]);
        } else {
            assert(out@ =~= spec_decimal((n / 10) as nat).push(digit_char((n % 10) as nat)));
        }
    }
    out
}

/// The message that closes a task: how many files succeeded and failed,
/// when any failed.
pub fn completion_message(succeeded: usize, failed: usize) -> (s: String)
    ensures
        s@ == if failed == 0 {
            "All files processed successfully"@
        } else {
            "Task completed with errors: "@ + spec_decimal(succeeded as nat) + " succeeded, "@ + spec_decimal(
                failed as nat,
            ) + " failed"@
        },
{
    if failed == 0 {
        return String::from_str("All files processed successfully");
    }
    let mut s = String::from_str("Task completed with errors: ");
    s.append(decimal(succeeded).as_str());
    s.append(" succeeded, ");
    s.append(decimal(failed).as_str());
    s.append(" failed");
    s
}

/// The message announcing file `index` (from zero) of `total`.
pub fn file_progress_message(index: usize, total: usize) -> (s: String)
    requires
        index < total,
    ensures
        s@ == "Processing file "@ + spec_decimal((index + 1) as nat) + "/"@ + spec_decimal(total as nat),
{
    let mut s = String::from_str("Processing file ");
    s.append(decimal(index + 1).as_str());
    s.append("/");
    s.append(decimal(total).as_str());
    s
}

} // verus!
