//! Physical memory management for a small kernel: a normalised boot
//! memory map and a page-granular physical frame allocator built on it.

pub mod allocator_lemmas;
pub mod frame_allocator;
pub mod memory;
pub mod memory_map;
