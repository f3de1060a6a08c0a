//! A lossless compressor for rasterized images whose pixels are 32-bit words.
//!
//! The core is an order-0 Huffman codec: weights are tabulated over the
//! input, a canonical prefix code is built from a min-queue keyed on
//! `(weight, least word)`, the code book and the coded data are emitted into
//! a single bit stream with 64-bit length headers, and decoding walks a
//! binary search tree over the incoming bits.  Around the codec sits a thin
//! image envelope that prepends the image dimensions.

pub mod bits;
pub mod codebook;
pub mod codec;
pub mod data;
pub mod errors;
pub mod laws;
pub mod tree;
pub mod weights;
