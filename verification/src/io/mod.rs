//! Crash safety: the write-ahead log format and the lock-file bookkeeping,
//! and the names of the files that hold them next to the target.

use vstd::prelude::*;

pub mod locker;
pub mod wal;

pub use locker::{LockManager, LockState, ProcessStage};

verus! {

/// What `Path::file_name` gives for the path `p`, as text; the empty text
/// when the path has no final component (it ends in `..`, or is a root).
pub uninterp spec fn spec_file_name(p: Seq<char>) -> Seq<char>;

/// What `Path::with_file_name` gives for the path `p` and the name `name`:
/// `p` with its final component replaced by `name`.
pub uninterp spec fn spec_with_file_name(p: Seq<char>, name: Seq<char>) -> Seq<char>;

/// `Path::file_name`, as text (`None` when the path has no final component).
#[verifier::external_body]
fn path_file_name(p: &str) -> (r: Option<String>)
    ensures
        match r {
            Some(s) => s@ == spec_file_name(p@),
            None => spec_file_name(p@) == Seq::<char>::empty(),
        },
{
    match std::path::Path::new(p).file_name() {
        Some(n) => Some(n.to_string_lossy().into_owned()),
        None => None,
    }
}

/// `Path::with_file_name`, as text.
#[verifier::external_body]
fn path_with_file_name(p: &str, name: &str) -> (r: String)
    ensures
        r@ == spec_with_file_name(p@, name@),
{
    std::path::Path::new(p).with_file_name(name).to_string_lossy().into_owned()
}

/// The path of the file kept next to `target` whose name is the target's
/// name followed by `suffix`.
pub open spec fn spec_sibling_path(target: Seq<char>, suffix: Seq<char>) -> Seq<char> {
    spec_with_file_name(target, spec_file_name(target) + suffix)
}

/// The path of the file next to `target` named after it with `suffix` added.
pub fn sibling_path(target: &str, suffix: &str) -> (r: String)
    ensures
        r@ == spec_sibling_path(target@, suffix@),
{
    let name = match path_file_name(target) {
        Some(n) => n,
        None => String::new(),
    };
    let full = name.concat(suffix);
    proof {
        assert(full@ == spec_file_name(target@) + suffix@);
    }
    path_with_file_name(target, full.as_str())
}

/// The path of the write-ahead log of `target`: `<name>.wal` next to it.
pub fn wal_path_for(target: &str) -> (r: String)
    ensures
        r@ == spec_sibling_path(target@, ".wal"@),
{
    sibling_path(target, ".wal")
}

} // verus!
