//! Decoder for the compressed entries of a game archive: an MSB-first bit reader over
//! little-endian words, canonical Huffman tables with a byte lookup for short codes, the
//! literal/copy inflater, the block-texture variant, and the archive's table parsing.

pub mod bitreader;
pub mod huffman;
pub mod dat;
pub mod texture;
pub mod archive;
