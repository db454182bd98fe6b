//! Static Huffman compression of byte buffers.
//!
//! The library counts byte frequencies, builds a Huffman tree, serialises the
//! tree into a self-describing header and bit-packs the input against the
//! tree's codes. Decompression parses the header back into a tree and walks it
//! bit by bit. Every function here is verified against the mathematical model
//! given by the spec functions of its module.

pub mod error;
pub mod wire;
pub mod tree;
pub mod codec;
pub mod packing;
pub mod huffman;

pub use error::CodecError;
pub use huffman::Huffman;
pub use tree::HuffmanTree;
