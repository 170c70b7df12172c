//! The boot memory map: raw entries handed over by the boot protocol,
//! normalised into an ordered array of typed regions.
use vstd::prelude::*;

verus! {

/// Capacity of the normalised region array.
pub const MAX_MEMORY_REGIONS: usize = 512;

/// Entry type codes of the Limine memory-map protocol.
pub const ENTRY_USABLE: u64 = 0;
pub const ENTRY_RESERVED: u64 = 1;
pub const ENTRY_ACPI_RECLAIMABLE: u64 = 2;
pub const ENTRY_ACPI_NVS: u64 = 3;
pub const ENTRY_BAD_MEMORY: u64 = 4;
pub const ENTRY_BOOTLOADER_RECLAIMABLE: u64 = 5;
pub const ENTRY_EXECUTABLE_AND_MODULES: u64 = 6;
pub const ENTRY_FRAMEBUFFER: u64 = 7;

#[derive(Debug, Clone, Copy, PartialEq, Eq, Structural)]
pub enum MemoryMapError {
    ResponseUnavailable,
    TooManyRegions,
    AddressOverflow,
}

#[derive(Debug, Clone, Copy, PartialEq, Eq, Structural)]
pub enum MemoryRegionKind {
    Usable,
    Reserved,
    AcpiReclaimable,
    AcpiNvs,
    BadMemory,
    BootloaderReclaimable,
    ExecutableAndModules,
    Framebuffer,
    Unknown,
}

/// A raw memory-map entry as the boot protocol delivers it.
#[derive(Debug, Clone, Copy, PartialEq, Eq, Structural)]
pub struct Entry {
    pub base: u64,
    pub length: u64,
    pub entry_type: u64,
}

#[derive(Debug, Clone, Copy, PartialEq, Eq, Structural)]
pub struct MemoryRegion {
    pub base: u64,
    pub length: u64,
    pub kind: MemoryRegionKind,
}

/// The region kind that a protocol entry type code denotes.
pub open spec fn kind_of(entry_type: u64) -> MemoryRegionKind {
    if entry_type == ENTRY_USABLE {
        MemoryRegionKind::Usable
    } else if entry_type == ENTRY_RESERVED {
        MemoryRegionKind::Reserved
    } else if entry_type == ENTRY_ACPI_RECLAIMABLE {
        MemoryRegionKind::AcpiReclaimable
    } else if entry_type == ENTRY_ACPI_NVS {
        MemoryRegionKind::AcpiNvs
    } else if entry_type == ENTRY_BAD_MEMORY {
        MemoryRegionKind::BadMemory
    } else if entry_type == ENTRY_BOOTLOADER_RECLAIMABLE {
        MemoryRegionKind::BootloaderReclaimable
    } else if entry_type == ENTRY_EXECUTABLE_AND_MODULES {
        MemoryRegionKind::ExecutableAndModules
    } else if entry_type == ENTRY_FRAMEBUFFER {
        MemoryRegionKind::Framebuffer
    } else {
        MemoryRegionKind::Unknown
    }
}

pub fn memory_region_kind_from_limine(entry_type: u64) -> (r: MemoryRegionKind)
    ensures
        r == kind_of(entry_type),
{
    if entry_type == ENTRY_USABLE {
        MemoryRegionKind::Usable
    } else if entry_type == ENTRY_RESERVED {
        MemoryRegionKind::Reserved
    } else if entry_type == ENTRY_ACPI_RECLAIMABLE {
        MemoryRegionKind::AcpiReclaimable
    } else if entry_type == ENTRY_ACPI_NVS {
        MemoryRegionKind::AcpiNvs
    } else if entry_type == ENTRY_BAD_MEMORY {
        MemoryRegionKind::BadMemory
    } else if entry_type == ENTRY_BOOTLOADER_RECLAIMABLE {
        MemoryRegionKind::BootloaderReclaimable
    } else if entry_type == ENTRY_EXECUTABLE_AND_MODULES {
        MemoryRegionKind::ExecutableAndModules
    } else if entry_type == ENTRY_FRAMEBUFFER {
        MemoryRegionKind::Framebuffer
    } else {
        MemoryRegionKind::Unknown
    }
}

/// Sum of the lengths of the `Usable` regions of `rs`.
pub open spec fn usable_sum(rs: Seq<MemoryRegion>) -> nat
    decreases rs.len(),
{
    if rs.len() == 0 {
        0
    } else if rs.last().kind == MemoryRegionKind::Usable {
        usable_sum(rs.drop_last()) + rs.last().length as nat
    } else {
        usable_sum(rs.drop_last())
    }
}

/// The end address of a region, as a mathematical integer.
pub open spec fn region_end(r: MemoryRegion) -> int {
    r.base + r.length
}

/// Whether `e`, mapped to `kind`, extends the last region of `acc`.
pub open spec fn extends_last(acc: Seq<MemoryRegion>, kind: MemoryRegionKind, base: u64) -> bool {
    acc.len() > 0 && acc.last().kind == kind && region_end(acc.last()) == base
}

/// One normalisation step: the regions after taking `e` into account.
pub open spec fn normalize_step(acc: Seq<MemoryRegion>, e: Entry) -> Result<
    Seq<MemoryRegion>,
    MemoryMapError,
> {
    let kind = kind_of(e.entry_type);
    let usable_grows = kind == MemoryRegionKind::Usable && usable_sum(acc) + e.length
        > u64::MAX;
    if e.length == 0 {
        Ok(acc)
    } else if e.base + e.length > u64::MAX {
        Err(MemoryMapError::AddressOverflow)
    } else if extends_last(acc, kind, e.base) {
        if usable_grows {
            Err(MemoryMapError::AddressOverflow)
        } else {
            let last = acc.last();
            Ok(
                acc.update(
                    acc.len() - 1,
                    MemoryRegion { length: (last.length + e.length) as u64, ..last },
                ),
            )
        }
    } else if acc.len() >= MAX_MEMORY_REGIONS {
        Err(MemoryMapError::TooManyRegions)
    } else if usable_grows {
        Err(MemoryMapError::AddressOverflow)
    } else {
        Ok(acc.push(MemoryRegion { base: e.base, length: e.length, kind }))
    }
}

/// The normalised regions of a sequence of raw entries, taken in order.
pub open spec fn normalize(entries: Seq<Entry>) -> Result<Seq<MemoryRegion>, MemoryMapError>
    decreases entries.len(),
{
    if entries.len() == 0 {
        Ok(Seq::empty())
    } else {
        match normalize(entries.drop_last()) {
            Ok(acc) => normalize_step(acc, entries.last()),
            Err(e) => Err(e),
        }
    }
}

/// Once a prefix of the entries fails to normalise, the whole sequence
/// fails with the same error.
proof fn lemma_normalize_error_persists(entries: Seq<Entry>, k: int)
    requires
        0 <= k <= entries.len(),
        normalize(entries.take(k)) is Err,
    ensures
        normalize(entries) == normalize(entries.take(k)),
    decreases entries.len() - k,
{
    if k < entries.len() {
        assert(entries.take(k + 1).drop_last() =~= entries.take(k));
        lemma_normalize_error_persists(entries, k + 1);
    } else {
        assert(entries.take(k) =~= entries);
    }
}

/// No two consecutive regions share both a kind and a boundary.
pub open spec fn no_touching_same_kind(rs: Seq<MemoryRegion>) -> bool {
    forall|i: int|
        #![trigger rs[i], rs[i + 1]]
        0 <= i < rs.len() - 1 ==> rs[i].kind != rs[i + 1].kind || region_end(rs[i]) != rs[i
            + 1].base
}

/// Every region is non-empty and ends within the address space.
pub open spec fn regions_bounded(rs: Seq<MemoryRegion>) -> bool {
    forall|i: int|
        0 <= i < rs.len() ==> (#[trigger] rs[i]).length > 0 && region_end(rs[i]) <= u64::MAX
}

/// The shape that every normalised region array has.
pub open spec fn normalized_shape(rs: Seq<MemoryRegion>) -> bool {
    &&& rs.len() <= MAX_MEMORY_REGIONS
    &&& regions_bounded(rs)
    &&& no_touching_same_kind(rs)
}

impl MemoryRegion {
    pub fn empty() -> (r: Self)
        ensures
            r.base == 0,
            r.length == 0,
            r.kind == MemoryRegionKind::Reserved,
    {
        MemoryRegion { base: 0, length: 0, kind: MemoryRegionKind::Reserved }
    }

    /// The end address, or `None` where it lies beyond the address space.
    pub fn end(&self) -> (r: Option<u64>)
        ensures
            region_end(*self) <= u64::MAX ==> r == Some(region_end(*self) as u64),
            region_end(*self) > u64::MAX ==> r is None,
    {
        self.base.checked_add(self.length)
    }
}

/// Normalisation never leaves two consecutive regions of the same kind
/// where the first ends exactly at the base of the second; every region
/// it yields is non-empty and ends within the address space.
pub proof fn lemma_normalized_regions_never_touch(entries: Seq<Entry>)
    requires
        normalize(entries) is Ok,
    ensures
        normalize(entries) matches Ok(rs) && no_touching_same_kind(rs) && regions_bounded(rs)
            && rs.len() <= MAX_MEMORY_REGIONS,
    decreases entries.len(),
{
    if entries.len() > 0 {
        let prefix = entries.drop_last();
        if normalize(prefix) is Err {
        } else {
            lemma_normalized_regions_never_touch(prefix);
            let acc = normalize(prefix)->Ok_0;
            let e = entries.last();
            let rs = normalize(entries)->Ok_0;
            if e.length != 0 && extends_last(acc, kind_of(e.entry_type), e.base) {
                assert forall|i: int|
                    #![trigger rs[i], rs[i + 1]]
                    0 <= i < rs.len() - 1 implies rs[i].kind != rs[i + 1].kind || region_end(
                        rs[i],
                    ) != rs[i + 1].base by {
                    assert(acc[i] == rs[i]);
                    assert(acc[i + 1].base == rs[i + 1].base);
                    assert(acc[i + 1].kind == rs[i + 1].kind);
                }
            } else if e.length != 0 {
                assert forall|i: int|
                    #![trigger rs[i], rs[i + 1]]
                    0 <= i < rs.len() - 1 implies rs[i].kind != rs[i + 1].kind || region_end(
                        rs[i],
                    ) != rs[i + 1].base by {
                    assert(acc[i] == rs[i]);
                    if i + 1 < acc.len() {
                        assert(acc[i + 1] == rs[i + 1]);
                    }
                }
            }
        }
    }
}

/// Zero-length entries play no part in normalisation: dropping them
/// beforehand yields the same regions, or the same error.
pub proof fn lemma_zero_length_entries_dropped(entries: Seq<Entry>)
    ensures
        normalize(entries.filter(|e: Entry| e.length != 0)) == normalize(entries),
    decreases entries.len(),
{
    let keep = |e: Entry| e.length != 0;
    reveal(Seq::filter);
    if entries.len() > 0 {
        let prefix = entries.drop_last();
        lemma_zero_length_entries_dropped(prefix);
        assert(entries.filter(keep) == if keep(entries.last()) {
            prefix.filter(keep).push(entries.last())
        } else {
            prefix.filter(keep)
        });
        if keep(entries.last()) {
            assert(prefix.filter(keep).push(entries.last()).drop_last() =~= prefix.filter(keep));
        }
    }
}

/// The normalised boot memory map.
pub struct BootMemoryMap {
    regions: Vec<MemoryRegion>,
    usable_memory_bytes: u64,
}

impl View for BootMemoryMap {
    type V = Seq<MemoryRegion>;

    closed spec fn view(&self) -> Seq<MemoryRegion> {
        self.regions@
    }
}

impl BootMemoryMap {
    /// The map is normalised and its cached usable total is exact.
    pub closed spec fn wf(&self) -> bool {
        &&& normalized_shape(self.regions@)
        &&& self.usable_memory_bytes == usable_sum(self.regions@)
    }

    pub fn empty() -> (r: Self)
        ensures
            r.wf(),
            r@ == Seq::<MemoryRegion>::empty(),
    {
        BootMemoryMap { regions: Vec::new(), usable_memory_bytes: 0 }
    }

    /// Normalises raw boot entries, in the order given: zero-length
    /// entries are dropped, an entry that continues the previous region
    /// with the same kind is merged into it, and every other entry is
    /// appended.
    pub fn from_limine_entries(entries: &[Entry]) -> (r: Result<Self, MemoryMapError>)
        ensures
            match normalize(entries@) {
                Ok(rs) => r matches Ok(m) && m.wf() && m@ == rs,
                Err(e) => r == Err::<Self, MemoryMapError>(e),
            },
    {
        let mut map = Self::empty();
        let mut i: usize = 0;
        while i < entries.len()
            invariant
                i <= entries.len(),
                map.wf(),
                normalize(entries@.take(i as int)) == Ok::<Seq<MemoryRegion>, MemoryMapError>(
                    map@,
                ),
            decreases entries.len() - i,
        {
            let entry = entries[i];
            proof {
                assert(entries@.take(i + 1).drop_last() =~= entries@.take(i as int));
                assert(entries@.take(i + 1).last() == entry);
            }
            if entry.length != 0 {
                let kind = memory_region_kind_from_limine(entry.entry_type);
                let normalized = MemoryRegion { base: entry.base, length: entry.length, kind };
                if entry.base.checked_add(entry.length).is_none() {
                    proof {
                        lemma_normalize_error_persists(entries@, i + 1);
                    }
                    return Err(MemoryMapError::AddressOverflow);
                }
                match map.try_merge_with_previous(normalized) {
                    Err(e) => {
                        proof {
                            lemma_normalize_error_persists(entries@, i + 1);
                        }
                        return Err(e);
                    },
                    Ok(true) => {},
                    Ok(false) => {
                        if map.regions.len() >= MAX_MEMORY_REGIONS {
                            proof {
                                lemma_normalize_error_persists(entries@, i + 1);
                            }
                            return Err(MemoryMapError::TooManyRegions);
                        }
                        if let Err(e) = map.append(normalized) {
                            proof {
                                lemma_normalize_error_persists(entries@, i + 1);
                            }
                            return Err(e);
                        }
                    },
                }
            }
            i += 1;
        }
        proof {
            assert(entries@.take(entries.len() as int) =~= entries@);
        }
        Ok(map)
    }

    /// Appends `next` as a region of its own, keeping the usable total.
    fn append(&mut self, next: MemoryRegion) -> (r: Result<(), MemoryMapError>)
        requires
            old(self).wf(),
            old(self)@.len() < MAX_MEMORY_REGIONS,
            next.length > 0,
            region_end(next) <= u64::MAX,
            !extends_last(old(self)@, next.kind, next.base),
        ensures
            next.kind == MemoryRegionKind::Usable && usable_sum(old(self)@) + next.length
                > u64::MAX ==> r == Err::<(), MemoryMapError>(MemoryMapError::AddressOverflow)
                && final(self)@ == old(self)@,
            !(next.kind == MemoryRegionKind::Usable && usable_sum(old(self)@) + next.length
                > u64::MAX) ==> r is Ok && final(self)@ == old(self)@.push(next),
            final(self).wf(),
    {
        let mut usable = self.usable_memory_bytes;
        if next.kind == MemoryRegionKind::Usable {
            match usable.checked_add(next.length) {
                Some(sum) => {
                    usable = sum;
                },
                None => {
                    return Err(MemoryMapError::AddressOverflow);
                },
            }
        }
        let ghost before = self.regions@;
        self.regions.push(next);
        self.usable_memory_bytes = usable;
        proof {
            assert(self.regions@.drop_last() =~= before);
        }
        Ok(())
    }

    /// Extends the last region by `next` when `next` has the same kind
    /// and starts where that region ends; reports whether it did.
    fn try_merge_with_previous(&mut self, next: MemoryRegion) -> (r: Result<bool, MemoryMapError>)
        requires
            old(self).wf(),
            next.length > 0,
            region_end(next) <= u64::MAX,
        ensures
            final(self).wf(),
            !extends_last(old(self)@, next.kind, next.base) ==> r == Ok::<bool, MemoryMapError>(
                false,
            ) && final(self)@ == old(self)@,
            extends_last(old(self)@, next.kind, next.base) ==> (if next.kind
                == MemoryRegionKind::Usable && usable_sum(old(self)@) + next.length > u64::MAX {
                r == Err::<bool, MemoryMapError>(MemoryMapError::AddressOverflow) && final(self)@
                    == old(self)@
            } else {
                r == Ok::<bool, MemoryMapError>(true) && final(self)@ == old(self)@.update(
                    old(self)@.len() - 1,
                    MemoryRegion {
                        length: (old(self)@.last().length + next.length) as u64,
                        ..old(self)@.last()
                    },
                )
            }),
    {
        let len = self.regions.len();
        if len == 0 {
            return Ok(false);
        }
        let previous = self.regions[len - 1];
        if previous.kind != next.kind || previous.end() != Some(next.base) {
            return Ok(false);
        }
        let mut usable = self.usable_memory_bytes;
        if previous.kind == MemoryRegionKind::Usable {
            match usable.checked_add(next.length) {
                Some(sum) => {
                    usable = sum;
                },
                None => {
                    return Err(MemoryMapError::AddressOverflow);
                },
            }
        }
        let ghost before = self.regions@;
        let merged = MemoryRegion { length: previous.length + next.length, ..previous };
        self.regions.set(len - 1, merged);
        self.usable_memory_bytes = usable;
        proof {
            assert(self.regions@.drop_last() =~= before.drop_last());
        }
        Ok(true)
    }

    pub fn regions(&self) -> (r: &[MemoryRegion])
        ensures
            r@ == self@,
    {
        self.regions.as_slice()
    }

    pub fn usable_memory_bytes(&self) -> (r: u64)
        requires
            self.wf(),
        ensures
            r == usable_sum(self@),
    {
        self.usable_memory_bytes
    }
}

/// Installs the normalised form of the boot protocol's entries into
/// `map`. `None` stands for a boot protocol that gave no memory map. On
/// any error `map` is left as it was.
pub fn init(map: &mut BootMemoryMap, entries: Option<&[Entry]>) -> (r: Result<(), MemoryMapError>)
    ensures
        match entries {
            None => r == Err::<(), MemoryMapError>(MemoryMapError::ResponseUnavailable)
                && final(map)@ == old(map)@,
            Some(es) => match normalize(es@) {
                Ok(rs) => r is Ok && final(map).wf() && final(map)@ == rs,
                Err(e) => r == Err::<(), MemoryMapError>(e) && final(map)@ == old(map)@,
            },
        },
        old(map).wf() ==> final(map).wf(),
{
    match entries {
        None => Err(MemoryMapError::ResponseUnavailable),
        Some(es) => {
            let parsed = BootMemoryMap::from_limine_entries(es)?;
            *map = parsed;
            Ok(())
        },
    }
}

} // verus!
