//! A verified streaming decompressor for the DEFLATE compressed-data format
//! (RFC 1951).
//!
//! The decoder turns a bit-oriented compressed byte stream into the original
//! uncompressed byte stream, incrementally: a consumer pulls decompressed
//! bytes out of a [`decode::Decoder`], which decodes further compressed
//! blocks only once everything already decoded has been delivered.

pub mod bits;
pub mod decode;
pub mod error;
pub mod huffman;
pub mod lz77;
pub mod symbol;

pub use decode::Decoder;
pub use error::Error;
