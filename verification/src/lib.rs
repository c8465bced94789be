//! Decoder for a compact bit-packed lexical database: a family of Huffman
//! tables with computed code assignments, a table codec that reads a stored
//! table out of the stream, and a schema-driven reader that decodes symbol
//! arrays, languages, conversions, correlations, acceptations and
//! definitions from a single pass over the bits.

pub mod bits;
pub mod codec;
pub mod file_utils;
pub mod huffman;
pub mod sdb;
