//! Core of a desktop file-explorer backend: a time-bounded content cache
//! ([`cache`]), a directory-tree snapshot builder with an adaptive
//! parallelism policy ([`walker`]), a deterministic tree sorter
//! ([`sorter`]), and chunked file-content encoding and decoding
//! ([`fileio`]).
//!
//! All filesystem and clock access stays outside this crate; the logic
//! here works on plain values handed in by the embedding application.

pub mod cache;
pub mod error;
pub mod fileio;
pub mod sorter;
pub mod tree;
pub mod walker;
