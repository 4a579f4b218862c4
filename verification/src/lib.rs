//! A single-file, page-addressed storage engine.
//!
//! A raw byte container (anything that can read, write, append and report
//! its length) is divided into fixed-size pages behind a small header.
//! Pages link forward into chains; a book presents a chain as one
//! contiguous, lazily grown byte stream, and a disk B-tree stores
//! fixed-width records in slotted pages on top of the same page store.
//! All mutation of the container is serialized through a worker, which
//! executes one task at a time.

/// The ghost byte-sequence type the container contracts speak of,
/// re-exported so that outside implementations of the container trait
/// can name the erased specification items' signatures.
pub use vstd::seq::Seq as GhostBytes;

pub mod blob;
pub mod geometry;
pub mod filesystem;
pub mod io;
pub mod pages;
pub mod btree;
pub mod error_code;
