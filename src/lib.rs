//! A two-stage lossless byte compressor (LZ77-style match finding followed by
//! Huffman coding), together with a handful of small verified algorithms on
//! integers, tables and graphs.
pub mod bytes;
pub mod error;
pub mod lz;
pub mod tokens;
pub mod bits;
pub mod huffman;
pub mod codec;
pub mod pipeline;
pub mod sorting;
pub mod hashing;
pub mod graph;
pub mod waypoints;
pub mod strings;
pub mod investment;
pub mod text;
