//! Pointer scanning over a snapshot of a process's address space: a sorted
//! region index, a chunked pointer-map builder, a binary codec for the map,
//! and a bounded search for chains of offsets from an anchor to a target.

pub mod builder;
pub mod codec;
pub mod path;
pub mod region;
pub mod region_index;
pub mod scanner;

pub use region::{bytes_to_usize, wrap_add, MemoryRegion};
