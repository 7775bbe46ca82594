//! Huffman coding of text into a self-describing, bit-packed byte stream.
//!
//! [`huffman::encode`] turns text into a frame that carries the symbol
//! frequencies next to the packed code bits; [`huffman::decode`] rebuilds the
//! code tree from those frequencies and recovers the text.

pub mod huffman;
pub mod types;
