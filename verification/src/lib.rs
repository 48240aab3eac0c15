//! Conversion between the sector-addressed and the single-stream region file
//! formats, and repair of the tagged-value payloads that the chunks of a
//! region hold.
//!
//! Every function of this crate works on bytes and plain values; reading and
//! writing files is left to the caller.

use vstd::prelude::*;

pub mod anvil;
pub mod chunk_laws;
pub mod codec;
pub mod compress;
pub mod conversion_laws;
pub mod counters;
pub mod double;
pub mod enchant;
pub mod enchant_laws;
pub mod entity;
pub mod entity_laws;
pub mod error;
pub mod filename;
pub mod linear;
pub mod nbt;
pub mod region;
pub mod region_laws;
pub mod repair;
pub mod repair_laws;
pub mod sector_laws;
pub mod stats;
pub mod stream_laws;
pub mod uuids;

pub use crate::counters::{PerformanceCounters, PerformanceStats};
pub use crate::error::RegionError;
pub use crate::region::{Chunk, Region};

verus! {

/// Number of chunks along one side of a region.
pub const REGION_DIMENSION: usize = 32;

/// Number of chunk slots in a region.
pub const CHUNKS_PER_REGION: usize = 1024;

/// Size in bytes of one sector of the sector-addressed format.
pub const SECTOR_SIZE: usize = 4096;

/// Signature that opens and closes a file of the stream format.
pub const LINEAR_SIGNATURE: u64 = 0xc3ff13183cca9d9a;

/// Version that the stream writer emits.
pub const LINEAR_VERSION: u8 = 1;

/// Compression code of a chunk stored inline as a zlib stream.
pub const COMPRESSION_TYPE_ZLIB: u8 = 2;

/// Compression code of a chunk whose zlib stream lives in a file of its own.
pub const EXTERNAL_FILE_COMPRESSION_TYPE: u8 = 130;

} // verus!
