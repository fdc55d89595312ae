use vstd::prelude::*;

verus! {

/// Cells along one axis of a chunk.
pub const CHUNK_AXIS: u64 = 8;

/// Chunks along one axis of a region.
pub const REGION_AXIS: u64 = 8;

/// Cells along one axis of a region.
pub const REGION_SPAN: u64 = REGION_AXIS * CHUNK_AXIS;

/// Regions along one axis of the world.
pub const WORLD_AXIS: u64 = 1_000_000;

/// Cells in a chunk.
pub const CHUNK_SIZE: u64 = CHUNK_AXIS * CHUNK_AXIS * CHUNK_AXIS;

/// Chunks in a region.
pub const REGION_SIZE: u64 = REGION_AXIS * REGION_AXIS * REGION_AXIS;

} // verus!
