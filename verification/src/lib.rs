//! Canonical Huffman coding and the framing of a gzip member.
//!
//! The crate builds prefix codes from symbol weights (a merge tree) or from
//! code lengths (a canonical lookup table), decodes bit sequences through a
//! tree, and reads the header of a gzip member and of its first DEFLATE block.
//! It never prints and never touches a file: callers hand it bytes and bits.
pub mod configuration;
pub mod gzip;
pub mod huffman;
