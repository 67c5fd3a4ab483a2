//! Decoder for a lossless image container format: a fixed 14-byte header
//! followed by a stream of tag-prefixed opcodes that reconstruct pixels from
//! previous-pixel prediction, a 64-slot cache of recently seen pixels, and
//! run-length compression, closed by a fixed 8-byte end-of-stream marker.

pub mod decoder;
pub mod error;
pub mod header;
pub mod image;
pub mod pixel;
