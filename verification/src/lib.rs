//! Byte-oriented Huffman coding: frequency counting, tree construction,
//! code generation, and bit-level packing and unpacking, with the
//! behaviour of every function stated and proved.

pub mod bits;
pub mod compress;
pub mod config;
pub mod decompress;
pub mod theorems;
pub mod tree;
