//! Chunk-based image container engine: validated 4-byte chunk type tags,
//! CRC-32-checked chunks, and a whole-file container with parse, lookup,
//! append, remove and serialize operations.

pub mod chunk;
pub mod chunk_type;
pub mod crc;
pub mod png;
mod text;

pub use chunk::Chunk;
pub use chunk_type::ChunkType;
pub use crc::compute_crc;
pub use png::Png;

use vstd::prelude::*;

verus! {

/// Every failure the engine can report, as one inspectable kind per condition.
#[derive(Debug, Clone, Copy, PartialEq, Eq, Structural)]
pub enum ChunkError {
    /// A tag byte is not an ASCII letter, or a tag string is not 4 bytes.
    InvalidTagBytes,
    /// Too few bytes to read a length, tag or checksum field.
    TruncatedInput,
    /// The declared payload length disagrees with the bytes present.
    InvalidChunkLength { expected: u32, received: u32 },
    /// The checksum computed over tag and payload disagrees with the declared one.
    InvalidChunkCrc { expected: u32, computed: u32 },
    /// Payload bytes are not valid UTF-8.
    InvalidUtf8,
    /// The leading bytes are not the container signature.
    InvalidSignature,
    /// No chunk carries the requested tag.
    ChunkNotFound,
}

} // verus!
