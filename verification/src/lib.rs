//! Reading and writing the GIF image container.
//!
//! The crate exposes two independent pipelines: a demuxer that parses a byte
//! stream into a structured sequence of frames and extensions, and an encoder
//! that consumes a sequence of high-level events and emits a conformant GIF
//! byte stream. A shared LZW codec produces the compressed image data for the
//! encoder.

pub mod bitstream;
pub mod bytes;
pub mod demuxer;
pub mod encoder;
pub mod lzw;
pub mod subblocks;
pub mod text;
