//! A verified library-indexing and query engine for a local media catalog.
//!
//! The crate discovers media files in a snapshot of a directory tree,
//! builds per-folder summaries, keeps a keyed catalog of media records,
//! and answers filtered, sorted, paginated queries over that catalog.

pub mod catalog;
pub mod classify;
pub mod clock;
pub mod commands;
pub mod fs;
pub mod models;
pub mod ordering;
pub mod player;
pub mod query;
pub mod scanner;
pub mod seqs;
pub mod taxonomy;
pub mod text;
pub mod tree;
