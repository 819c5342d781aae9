//! Core of a multi-threaded HTTP file downloader.
//!
//! The library plans byte-range chunks for a resource of known size, resolves
//! the output filename from response headers or the URL, tracks per-chunk
//! download progress, and models the positional writes that reassemble the
//! file, proving that completion order cannot corrupt the result.

pub mod cli;
pub mod config;
pub mod engine;
pub mod headers;
pub mod text;
pub mod writes;

pub use engine::Downloader;
