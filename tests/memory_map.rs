use grovean::memory_map::{
    init, memory_region_kind_from_limine, BootMemoryMap, Entry, MemoryMapError, MemoryRegion,
    MemoryRegionKind, ENTRY_ACPI_NVS, ENTRY_ACPI_RECLAIMABLE, ENTRY_BAD_MEMORY,
    ENTRY_BOOTLOADER_RECLAIMABLE, ENTRY_EXECUTABLE_AND_MODULES, ENTRY_FRAMEBUFFER,
    ENTRY_RESERVED, ENTRY_USABLE, MAX_MEMORY_REGIONS,
};

fn entry(base: u64, length: u64, entry_type: u64) -> Entry {
    Entry {
        base,
        length,
        entry_type,
    }
}

#[test]
fn normalizes_and_merges_adjacent_regions() {
    let entries = [
        entry(0x1000, 0x1000, ENTRY_USABLE),
        entry(0x2000, 0x1000, ENTRY_USABLE),
        entry(0x3000, 0x1000, ENTRY_RESERVED),
    ];

    let map = BootMemoryMap::from_limine_entries(&entries).expect("map normalization should pass");
    let regions = map.regions();

    assert_eq!(regions.len(), 2);
    assert_eq!(regions[0].base, 0x1000);
    assert_eq!(regions[0].length, 0x2000);
    assert_eq!(regions[0].kind, MemoryRegionKind::Usable);
    assert_eq!(regions[1].base, 0x3000);
    assert_eq!(regions[1].length, 0x1000);
    assert_eq!(regions[1].kind, MemoryRegionKind::Reserved);
    assert_eq!(map.usable_memory_bytes(), 0x2000);
}

#[test]
fn skips_zero_sized_entries() {
    let entries = [entry(0x0, 0, ENTRY_USABLE), entry(0x1000, 0x1000, ENTRY_USABLE)];

    let map = BootMemoryMap::from_limine_entries(&entries).expect("map normalization should pass");
    let regions = map.regions();

    assert_eq!(regions.len(), 1);
    assert_eq!(regions[0].base, 0x1000);
    assert_eq!(regions[0].length, 0x1000);
}

#[test]
fn zero_sized_entry_does_not_break_a_merge() {
    let entries = [
        entry(0x1000, 0x1000, ENTRY_USABLE),
        entry(0x9000, 0, ENTRY_RESERVED),
        entry(0x2000, 0x1000, ENTRY_USABLE),
    ];

    let map = BootMemoryMap::from_limine_entries(&entries).expect("map normalization should pass");
    let regions = map.regions();

    assert_eq!(regions.len(), 1);
    assert_eq!(regions[0].base, 0x1000);
    assert_eq!(regions[0].length, 0x2000);
}

#[test]
fn tracks_total_usable_memory_bytes() {
    let entries = [
        entry(0x1000, 0x2000, ENTRY_USABLE),
        entry(0x4000, 0x1000, ENTRY_RESERVED),
        entry(0x5000, 0x3000, ENTRY_USABLE),
    ];

    let map = BootMemoryMap::from_limine_entries(&entries).expect("map normalization should pass");

    assert_eq!(map.usable_memory_bytes(), 0x5000);
}

#[test]
fn keeps_touching_regions_of_different_kinds_apart() {
    let entries = [
        entry(0x1000, 0x1000, ENTRY_USABLE),
        entry(0x2000, 0x1000, ENTRY_ACPI_RECLAIMABLE),
        entry(0x3000, 0x1000, ENTRY_USABLE),
    ];

    let map = BootMemoryMap::from_limine_entries(&entries).expect("map normalization should pass");
    let regions = map.regions();

    assert_eq!(regions.len(), 3);
    for pair in regions.windows(2) {
        let end = pair[0].end().expect("regions end in the address space");
        assert!(pair[0].kind != pair[1].kind || end != pair[1].base);
    }
    assert_eq!(map.usable_memory_bytes(), 0x2000);
}

#[test]
fn does_not_merge_same_kind_with_a_gap_or_sort() {
    let entries = [
        entry(0x5000, 0x1000, ENTRY_USABLE),
        entry(0x1000, 0x1000, ENTRY_USABLE),
        entry(0x2000, 0x2000, ENTRY_USABLE),
    ];

    let map = BootMemoryMap::from_limine_entries(&entries).expect("map normalization should pass");
    let regions = map.regions();

    assert_eq!(regions.len(), 2);
    assert_eq!(regions[0].base, 0x5000);
    assert_eq!(regions[1].base, 0x1000);
    assert_eq!(regions[1].length, 0x3000);
    assert_eq!(map.usable_memory_bytes(), 0x4000);
}

#[test]
fn rejects_entry_that_overflows_address_space() {
    let entries = [entry(0x1000, 0x1000, ENTRY_USABLE), entry(u64::MAX - 0xfff, 0x1000, ENTRY_RESERVED)];

    let result = BootMemoryMap::from_limine_entries(&entries);

    assert!(matches!(result, Err(MemoryMapError::AddressOverflow)));
}

#[test]
fn rejects_usable_total_that_overflows() {
    let entries = [entry(0, 1 << 63, ENTRY_USABLE), entry(0, 1 << 63, ENTRY_USABLE)];

    let result = BootMemoryMap::from_limine_entries(&entries);

    assert!(matches!(result, Err(MemoryMapError::AddressOverflow)));
}

#[test]
fn rejects_more_regions_than_capacity() {
    let mut entries = Vec::new();
    for i in 0..(MAX_MEMORY_REGIONS as u64 + 1) {
        entries.push(entry(i * 0x2000, 0x1000, ENTRY_USABLE));
    }

    let result = BootMemoryMap::from_limine_entries(&entries);
    assert!(matches!(result, Err(MemoryMapError::TooManyRegions)));

    let map = BootMemoryMap::from_limine_entries(&entries[..MAX_MEMORY_REGIONS])
        .expect("a full map should pass");
    assert_eq!(map.regions().len(), MAX_MEMORY_REGIONS);
    assert_eq!(map.usable_memory_bytes(), 0x1000 * MAX_MEMORY_REGIONS as u64);
}

#[test]
fn merging_into_a_full_map_succeeds() {
    let mut entries = Vec::new();
    for i in 0..(MAX_MEMORY_REGIONS as u64) {
        entries.push(entry(i * 0x2000, 0x1000, ENTRY_USABLE));
    }
    let last_end = (MAX_MEMORY_REGIONS as u64 - 1) * 0x2000 + 0x1000;
    entries.push(entry(last_end, 0x1000, ENTRY_USABLE));

    let map = BootMemoryMap::from_limine_entries(&entries).expect("a merge needs no new slot");
    assert_eq!(map.regions().len(), MAX_MEMORY_REGIONS);
    assert_eq!(map.regions()[MAX_MEMORY_REGIONS - 1].length, 0x2000);
}

#[test]
fn maps_every_entry_type() {
    assert_eq!(memory_region_kind_from_limine(ENTRY_USABLE), MemoryRegionKind::Usable);
    assert_eq!(memory_region_kind_from_limine(ENTRY_RESERVED), MemoryRegionKind::Reserved);
    assert_eq!(
        memory_region_kind_from_limine(ENTRY_ACPI_RECLAIMABLE),
        MemoryRegionKind::AcpiReclaimable
    );
    assert_eq!(memory_region_kind_from_limine(ENTRY_ACPI_NVS), MemoryRegionKind::AcpiNvs);
    assert_eq!(memory_region_kind_from_limine(ENTRY_BAD_MEMORY), MemoryRegionKind::BadMemory);
    assert_eq!(
        memory_region_kind_from_limine(ENTRY_BOOTLOADER_RECLAIMABLE),
        MemoryRegionKind::BootloaderReclaimable
    );
    assert_eq!(
        memory_region_kind_from_limine(ENTRY_EXECUTABLE_AND_MODULES),
        MemoryRegionKind::ExecutableAndModules
    );
    assert_eq!(memory_region_kind_from_limine(ENTRY_FRAMEBUFFER), MemoryRegionKind::Framebuffer);
    assert_eq!(memory_region_kind_from_limine(8), MemoryRegionKind::Unknown);
    assert_eq!(memory_region_kind_from_limine(u64::MAX), MemoryRegionKind::Unknown);
}

#[test]
fn region_end_and_empty() {
    let region = MemoryRegion {
        base: 0x1000,
        length: 0x2000,
        kind: MemoryRegionKind::Usable,
    };
    assert_eq!(region.end(), Some(0x3000));

    let overflowing = MemoryRegion {
        base: u64::MAX,
        length: 1,
        kind: MemoryRegionKind::Reserved,
    };
    assert_eq!(overflowing.end(), None);

    let empty = MemoryRegion::empty();
    assert_eq!(empty.base, 0);
    assert_eq!(empty.length, 0);
    assert_eq!(empty.kind, MemoryRegionKind::Reserved);

    let map = BootMemoryMap::empty();
    assert_eq!(map.regions().len(), 0);
    assert_eq!(map.usable_memory_bytes(), 0);
}

#[test]
fn init_without_response_reports_it_and_keeps_map() {
    let entries = [entry(0x1000, 0x1000, ENTRY_USABLE)];
    let mut map = BootMemoryMap::from_limine_entries(&entries).expect("map normalization should pass");

    assert_eq!(init(&mut map, None), Err(MemoryMapError::ResponseUnavailable));
    assert_eq!(map.regions().len(), 1);
    assert_eq!(map.usable_memory_bytes(), 0x1000);
}

#[test]
fn init_installs_normalized_map() {
    let entries = [entry(0x1000, 0x1000, ENTRY_USABLE), entry(0x2000, 0x1000, ENTRY_USABLE)];
    let mut map = BootMemoryMap::empty();

    assert_eq!(init(&mut map, Some(&entries)), Ok(()));
    assert_eq!(map.regions().len(), 1);
    assert_eq!(map.regions()[0].length, 0x2000);
    assert_eq!(map.usable_memory_bytes(), 0x2000);
}

#[test]
fn init_with_bad_entries_keeps_map() {
    let good = [entry(0x1000, 0x1000, ENTRY_USABLE)];
    let bad = [entry(u64::MAX, 2, ENTRY_USABLE)];
    let mut map = BootMemoryMap::empty();
    assert_eq!(init(&mut map, Some(&good)), Ok(()));

    assert_eq!(init(&mut map, Some(&bad)), Err(MemoryMapError::AddressOverflow));
    assert_eq!(map.regions().len(), 1);
    assert_eq!(map.regions()[0].base, 0x1000);
}
