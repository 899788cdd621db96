//! A verified reader for the marker-segment structure of JPEG files.
//!
//! The library walks a file buffer as a sequence of marker segments,
//! parses Huffman-table and quantization-table definitions and the
//! start-of-scan header, and entropy-decodes a scan payload against a
//! canonical Huffman code built from per-length symbol buckets.

pub mod errors;
pub mod huffman;
pub mod parser;

pub use parser::decode;
