//! A verified implementation of the KLU archive container format.
//!
//! An archive is a single byte buffer holding a tree of directories and
//! files: a 4-byte magic, two big-endian size fields, a bit-packed header
//! block describing the entries, and the payload bytes.  The crate parses
//! such buffers into a typed tree, serializes trees back to bytes, resolves
//! slash-separated paths, plans extractions, and offers independently
//! positioned virtual files over payload ranges.

pub mod codec;
pub mod extracts;
pub mod lookup;
pub mod read;
pub mod types;
pub mod utils;
pub mod vfile;
pub mod write;
