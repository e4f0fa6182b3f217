//! Fetch NOAA air-quality forecast pixel values for a batch of points and
//! assemble them into one tabular output.
//!
//! This crate holds the verified core of the pipeline: checkpoint naming,
//! the skip-or-fetch plan, response flattening, the CSV codec, the combiner
//! and the latest-issuance post-processing pass. File and network I/O live
//! outside the library and hand it plain values.

pub mod checkpoint;
pub mod client;
pub mod combine;
pub mod numfmt;
pub mod point;
pub mod process;
pub mod response;
pub mod table;
pub mod text;
pub mod timefmt;
