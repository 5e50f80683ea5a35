//! A lossless byte-stream compressor and decompressor built on Huffman coding.
//!
//! The library counts byte frequencies, builds a deterministic Huffman tree,
//! derives a prefix-free codebook, bit-packs the input, and frames everything
//! in a self-describing container so that decoding is a true round trip.

#![allow(non_snake_case)]

use vstd::prelude::*;

pub mod bits;
pub mod freq;
pub mod tree;
pub mod codebook;
pub mod container;

verus! {

/// The distinguishable, recoverable error values of the codec.
#[derive(Clone, Copy, Debug, PartialEq, Eq, Structural)]
pub enum HuffError {
    /// A tree build was attempted on a frequency table with no nonzero entry.
    EmptyAlphabet,
    /// A container is malformed: bad magic tag, truncated section, malformed
    /// tree encoding, or a bit-stream underrun.
    Format,
    /// The packed data does not account for exactly the declared symbols.
    Integrity,
}

} // verus!
