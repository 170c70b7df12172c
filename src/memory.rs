//! Bring-up of the physical memory subsystem: the boot memory map first,
//! then the frame allocator on top of it.
use vstd::prelude::*;

use crate::frame_allocator::{self, fresh, seed, FrameAllocatorError, FrameAllocatorState};
use crate::memory_map::{self, normalize, BootMemoryMap, Entry, MemoryMapError};

verus! {

/// Why bring-up failed, and in which stage.
#[derive(Debug, Clone, Copy, PartialEq, Eq, Structural)]
pub enum MemoryInitError {
    MemoryMap(MemoryMapError),
    FrameAllocator(FrameAllocatorError),
}

/// Normalises the boot entries into `map`, then seeds the frame
/// allocator from it.
pub fn init(
    map: &mut BootMemoryMap,
    state: &mut FrameAllocatorState,
    entries: Option<&[Entry]>,
) -> (r: Result<(), MemoryInitError>)
    requires
        old(map).wf(),
        old(state).wf(),
    ensures
        final(map).wf(),
        final(state).wf(),
        match entries {
            None => r == Err::<(), MemoryInitError>(
                MemoryInitError::MemoryMap(MemoryMapError::ResponseUnavailable),
            ) && *final(state) == *old(state),
            Some(es) => match normalize(es@) {
                Err(e) => r == Err::<(), MemoryInitError>(MemoryInitError::MemoryMap(e))
                    && *final(state) == *old(state),
                Ok(rs) => final(map)@ == rs && match seed(rs) {
                    Ok(frames) => r is Ok && final(state).model() == Some(fresh(frames)),
                    Err(e) => r == Err::<(), MemoryInitError>(
                        MemoryInitError::FrameAllocator(e),
                    ),
                },
            },
        },
{
    if let Err(e) = memory_map::init(map, entries) {
        return Err(MemoryInitError::MemoryMap(e));
    }
    match frame_allocator::init(state, map) {
        Ok(()) => Ok(()),
        Err(e) => Err(MemoryInitError::FrameAllocator(e)),
    }
}

} // verus!
