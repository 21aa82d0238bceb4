//! Huffman coding: a prefix-free binary code built from symbol frequencies,
//! with lossless encoding to and decoding from bit vectors.

pub mod bits;
pub mod tally;
pub mod node;
pub mod forest;
pub mod depth;
pub mod tree;

pub use crate::tree::Tree;
