//! Verified core of an image fetch-and-recompress pipeline: loading and
//! deduplicating URLs from input lines, planning downloads and settling their
//! results, reconciling the names of compressor-renamed files, and admitting
//! image pairs to similarity comparison.

pub mod compare;
pub mod config;
pub mod download;
pub mod reconcile;
pub mod text;
pub mod urls;
