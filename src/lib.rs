//! A reader that exposes a byte buffer as a stream of bits: bits are packed
//! most-significant-bit first into 16-bit words, and each word is stored as a
//! little-endian byte pair.
pub mod bits;
pub mod bitstream;
pub mod laws;

pub use bitstream::{Bitstream, BitstreamError};


