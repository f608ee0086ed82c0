//! A personal directory-bookmark store.
//!
//! The crate keeps a table of bookmarked directories, each under a small
//! unique ordinal (`idx`) and an optional unique alias, and a per-session
//! LIFO stack of previously visited directories with duplicate suppression
//! on its top and time-based expiry of old entries.  All operations work on
//! in-memory tables of plain values; durable storage, path canonicalization
//! and the command line are adapters outside this crate.

pub mod error;
pub mod laws;
pub mod resolver;
pub mod stack;
pub mod store;
pub mod text;
