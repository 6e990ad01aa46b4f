//! Worktree indexing core: an ordered, summarized index of the entries of a
//! directory tree, kept in sync with filesystem events and classified against
//! the tree's gitignore rules.
//!
//! The index itself, the snapshot queries, and the scanner's reconciliation
//! decisions are verified. Reading the disk, watching for events, and the
//! thread pool that drives the scanner live outside this crate and hand the
//! library plain values.

pub mod char_bag;
pub mod entry;
pub mod file_iter;
pub mod ignore_store;
pub mod index;
pub mod laws;
pub mod paths;
pub mod scanner;
pub mod snapshot;
