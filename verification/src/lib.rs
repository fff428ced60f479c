//! Verified core of a build-artifact cleanup tool.
//!
//! Given a snapshot of a directory tree, the library discovers nested
//! software projects by their ecosystem marker files, plans cleanup tasks,
//! accounts for the bytes each task frees, and aggregates the results while
//! tolerating per-task failure.  All coordination logic (scanning with
//! exclusion rules, depth and file-count ceilings, task planning, size
//! accounting, outcome aggregation, and the counting-semaphore discipline of
//! the scheduler) is stated in contracts and proved.

pub mod cmd;
pub mod config;
pub mod constant;
pub mod engine;
pub mod fs_model;
pub mod laws;
pub mod sched;
pub mod utils;

pub use engine::do_clean_all;
