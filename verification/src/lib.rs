//! Consolidation of chunk boundaries into chunks.
//!
//! A content-defined chunker finds boundaries in a byte stream; this crate
//! turns those boundaries, together with the length of the stream, into
//! chunks that cover the stream with neither gap nor overlap.

pub mod chunk;
pub mod partition;
pub mod separator;
pub mod theorems;

pub use chunk::{Chunk, ChunkIter};
pub use partition::END_OF_STREAM_HASH;
pub use separator::Separator;
