//! Run-length encoding and its variants: basic RLE, PackBits, RLE for binary
//! data and images, and adaptive encoding that picks one of them.
pub mod runs;
pub mod rle;
pub mod packbits;
pub mod binary;
pub mod adaptive;
pub mod stats;
