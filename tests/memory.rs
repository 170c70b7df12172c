use grovean::frame_allocator::{alloc_frame, with_stats, FrameAllocatorError, FrameAllocatorState};
use grovean::memory::{init, MemoryInitError};
use grovean::memory_map::{BootMemoryMap, Entry, MemoryMapError, ENTRY_RESERVED, ENTRY_USABLE};

#[test]
fn brings_up_map_and_allocator() {
    let entries = [
        Entry {
            base: 0x0,
            length: 0x1000,
            entry_type: ENTRY_RESERVED,
        },
        Entry {
            base: 0x1000,
            length: 0x3000,
            entry_type: ENTRY_USABLE,
        },
    ];
    let mut map = BootMemoryMap::empty();
    let mut state = FrameAllocatorState::Uninitialized;

    assert_eq!(init(&mut map, &mut state, Some(&entries)), Ok(()));
    assert_eq!(map.usable_memory_bytes(), 0x3000);
    assert_eq!(with_stats(&state, |s| s.total_frames), Ok(3));
    assert_eq!(alloc_frame(&mut state).unwrap().start_address(), 0x1000);
}

#[test]
fn missing_boot_response_stops_bring_up() {
    let mut map = BootMemoryMap::empty();
    let mut state = FrameAllocatorState::Uninitialized;

    assert_eq!(
        init(&mut map, &mut state, None),
        Err(MemoryInitError::MemoryMap(MemoryMapError::ResponseUnavailable))
    );
    assert_eq!(alloc_frame(&mut state), Err(FrameAllocatorError::Uninitialized));
}

#[test]
fn too_many_frame_regions_stops_bring_up() {
    let mut entries = Vec::new();
    for i in 0..513u64 {
        entries.push(Entry {
            base: 0x10000 * i + 0x800,
            length: 0x2000,
            entry_type: ENTRY_USABLE,
        });
    }
    let mut map = BootMemoryMap::empty();
    let mut state = FrameAllocatorState::Uninitialized;

    assert_eq!(
        init(&mut map, &mut state, Some(&entries)),
        Err(MemoryInitError::MemoryMap(MemoryMapError::TooManyRegions))
    );
}
