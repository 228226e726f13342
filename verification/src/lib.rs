//! Core of a personal media-acquisition and reading application.
//!
//! The crate models and verifies the durable library of downloaded items:
//! the per-item sidecar record and its on-disk encoding, the in-memory
//! library index with reading progress, the archive page cache, and the
//! download orchestrator's bookkeeping (id translation, progress channels,
//! restart reconciliation). All file, network and torrent-engine I/O lives
//! outside this crate; the functions here take and return plain values.

pub mod assoc;
pub mod cbz;
pub mod codec;
pub mod errors;
pub mod library;
pub mod metafile;
pub mod nyaa;
pub mod orchestrator;
pub mod reader;
pub mod service;
pub mod sidecar;
pub mod text;
pub mod utils;
