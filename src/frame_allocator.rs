//! The physical frame allocator: hands out and recycles 4 KiB frames
//! carved from the usable regions of the boot memory map.
use vstd::arithmetic::div_mod::{
    lemma_div_is_ordered, lemma_div_multiples_vanish, lemma_fundamental_div_mod,
    lemma_mod_decreases, lemma_mod_multiples_basic, lemma_small_mod,
};
use vstd::prelude::*;

use crate::memory_map::{BootMemoryMap, MemoryRegion, MemoryRegionKind};

verus! {

pub const FRAME_SIZE_BYTES: u64 = 4096;

/// Capacity of the frame region array.
pub const MAX_FRAME_REGIONS: usize = 512;

/// Capacity of the recycled-frame stack.
pub const MAX_RECYCLED_FRAMES: usize = 512;

#[derive(Debug, Clone, Copy, PartialEq, Eq, Structural)]
pub enum FrameAllocatorError {
    Uninitialized,
    OutOfMemory,
    InvalidFrameAddress,
    InvalidFrameCount,
    AddressOverflow,
    TooManyRegions,
    InvalidReserveRange,
    FreeListFull,
}

/// A physical frame, named by its frame-aligned start address.
#[derive(Debug, Clone, Copy, PartialEq, Eq, Structural)]
pub struct PhysFrame {
    start_address: u64,
}

impl View for PhysFrame {
    type V = u64;

    closed spec fn view(&self) -> u64 {
        self.start_address
    }
}

impl PhysFrame {
    pub fn from_start_address(start_address: u64) -> (r: Result<Self, FrameAllocatorError>)
        ensures
            start_address % FRAME_SIZE_BYTES == 0 ==> (r matches Ok(f) && f@ == start_address),
            start_address % FRAME_SIZE_BYTES != 0 ==> r == Err::<Self, FrameAllocatorError>(
                FrameAllocatorError::InvalidFrameAddress,
            ),
    {
        if start_address % FRAME_SIZE_BYTES != 0 {
            return Err(FrameAllocatorError::InvalidFrameAddress);
        }
        Ok(PhysFrame { start_address })
    }

    pub fn start_address(self) -> (r: u64)
        ensures
            r == self@,
    {
        self.start_address
    }
}

/// The address carried by a frame result.
pub open spec fn frame_result(r: Result<PhysFrame, FrameAllocatorError>) -> Result<
    u64,
    FrameAllocatorError,
> {
    match r {
        Ok(f) => Ok(f@),
        Err(e) => Err(e),
    }
}

#[derive(Debug, Clone, Copy, PartialEq, Eq, Structural)]
pub struct FrameAllocatorStats {
    pub total_frames: u64,
    pub free_frames: u64,
    pub used_frames: u64,
}

/// `v` rounded down to a multiple of `align`.
pub open spec fn round_down(v: int, align: int) -> int {
    v - v % align
}

/// `v` rounded up to a multiple of `align`.
pub open spec fn round_up(v: int, align: int) -> int {
    (v + align - 1) - (v + align - 1) % align
}

/// Rounds `value` down to a multiple of `align`.
pub fn align_down(value: u64, align: u64) -> (r: u64)
    requires
        align > 0,
    ensures
        r == round_down(value as int, align as int),
{
    proof {
        lemma_mod_decreases(value as nat, align as nat);
    }
    value - value % align
}

/// Rounds `value` up to a multiple of `align`; fails where the rounding
/// would step beyond the address space.
pub fn align_up(value: u64, align: u64) -> (r: Result<u64, FrameAllocatorError>)
    requires
        align > 0,
    ensures
        value != 0 && value + align - 1 > u64::MAX ==> r == Err::<u64, FrameAllocatorError>(
            FrameAllocatorError::AddressOverflow,
        ),
        !(value != 0 && value + align - 1 > u64::MAX) ==> r == Ok::<u64, FrameAllocatorError>(
            round_up(value as int, align as int) as u64,
        ),
{
    if value == 0 {
        proof {
            lemma_small_mod((align - 1) as nat, align as nat);
        }
        return Ok(0);
    }
    match value.checked_add(align - 1) {
        Some(rounded) => {
            proof {
                lemma_mod_decreases(rounded as nat, align as nat);
            }
            Ok(rounded - rounded % align)
        },
        None => Err(FrameAllocatorError::AddressOverflow),
    }
}

/// A run of frames `[start, end)` whose frames below `next` have been
/// handed out at least once; those from `next` on are untouched.
#[derive(Debug, Clone, Copy, PartialEq, Eq, Structural)]
pub struct FrameRegion {
    pub start: u64,
    pub next: u64,
    pub end: u64,
}

/// The region is frame-aligned throughout, with `start <= next <= end`.
pub open spec fn region_ok(r: FrameRegion) -> bool {
    &&& r.start % FRAME_SIZE_BYTES == 0
    &&& r.next % FRAME_SIZE_BYTES == 0
    &&& r.end % FRAME_SIZE_BYTES == 0
    &&& r.start <= r.next <= r.end
}

/// Number of frames that the region spans.
pub open spec fn frame_count_of(r: FrameRegion) -> nat {
    ((r.end - r.start) / FRAME_SIZE_BYTES as int) as nat
}

/// Number of frames of the region that were never handed out.
pub open spec fn untouched_of(r: FrameRegion) -> nat {
    ((r.end - r.next) / FRAME_SIZE_BYTES as int) as nat
}

/// Sum of the frame counts of the regions.
pub open spec fn total_of(rs: Seq<FrameRegion>) -> nat
    decreases rs.len(),
{
    if rs.len() == 0 {
        0
    } else {
        total_of(rs.drop_last()) + frame_count_of(rs.last())
    }
}

/// Sum of the untouched frames of the regions.
pub open spec fn untouched_total(rs: Seq<FrameRegion>) -> nat
    decreases rs.len(),
{
    if rs.len() == 0 {
        0
    } else {
        untouched_total(rs.drop_last()) + untouched_of(rs.last())
    }
}

/// `address` lies in `[start, end)` of the region.
pub open spec fn in_region(r: FrameRegion, address: int) -> bool {
    r.start <= address < r.end
}

/// `address` lies in `[start, end)` of one of the regions.
pub open spec fn in_some_region(rs: Seq<FrameRegion>, address: int) -> bool {
    exists|i: int| 0 <= i < rs.len() && #[trigger] in_region(rs[i], address)
}

/// The state of a cursor allocator, as plain values.
pub struct CursorView {
    pub regions: Seq<FrameRegion>,
    pub cursor: nat,
    pub recycled: Seq<u64>,
    pub total: nat,
    pub free: nat,
    pub used: nat,
}

/// The invariant of a cursor allocator.
///
/// The free count covers at least the untouched frames and the recycled
/// ones. It can cover more: a reservation made after frames were freed
/// again clears the recycled stack and keeps the bump cursors of the
/// regions it leaves whole. Regions before the cursor need not be
/// exhausted either, since `alloc_contiguous` moves the cursor onto the
/// region that served it.
pub open spec fn cursor_wf(m: CursorView) -> bool {
    &&& m.regions.len() <= MAX_FRAME_REGIONS
    &&& m.recycled.len() <= MAX_RECYCLED_FRAMES
    &&& forall|i: int| 0 <= i < m.regions.len() ==> region_ok(#[trigger] m.regions[i])
    &&& m.cursor <= m.regions.len()
    &&& m.total == total_of(m.regions)
    &&& m.total <= u64::MAX
    &&& m.used + m.free == m.total
    &&& m.free >= untouched_total(m.regions) + m.recycled.len()
    &&& forall|j: int|
        0 <= j < m.recycled.len() ==> #[trigger] m.recycled[j] % FRAME_SIZE_BYTES == 0
            && in_some_region(m.regions, m.recycled[j] as int)
}

/// The snapshot of the counters.
pub open spec fn stats_of(m: CursorView) -> FrameAllocatorStats {
    FrameAllocatorStats {
        total_frames: m.total as u64,
        free_frames: m.free as u64,
        used_frames: m.used as u64,
    }
}

/// Index of the first region at or after `from` with an untouched frame.
pub open spec fn first_open(rs: Seq<FrameRegion>, from: int) -> Option<int>
    decreases rs.len() - from,
{
    if from < 0 || from >= rs.len() {
        None
    } else if rs[from].next < rs[from].end {
        Some(from)
    } else {
        first_open(rs, from + 1)
    }
}

/// `alloc_frame`: the most recently recycled frame if there is one, else
/// the next untouched frame of the first region from the cursor on.
pub open spec fn alloc_frame_model(m: CursorView) -> (CursorView, Result<u64, FrameAllocatorError>) {
    if m.recycled.len() > 0 {
        (
            CursorView {
                recycled: m.recycled.drop_last(),
                used: m.used + 1,
                free: (m.free - 1) as nat,
                ..m
            },
            Ok(m.recycled.last()),
        )
    } else {
        match first_open(m.regions, m.cursor as int) {
            Some(i) => {
                let r = m.regions[i];
                (
                    CursorView {
                        regions: m.regions.update(
                            i,
                            FrameRegion { next: (r.next + FRAME_SIZE_BYTES) as u64, ..r },
                        ),
                        cursor: i as nat,
                        used: m.used + 1,
                        free: (m.free - 1) as nat,
                        ..m
                    },
                    Ok(r.next),
                )
            },
            None => (m, Err(FrameAllocatorError::OutOfMemory)),
        }
    }
}

/// `free_frame`: push an issued frame back on the recycled stack.
pub open spec fn free_frame_model(m: CursorView, address: u64) -> (
    CursorView,
    Result<(), FrameAllocatorError>,
) {
    if !(address % FRAME_SIZE_BYTES == 0 && in_some_region(m.regions, address as int)) {
        (m, Err(FrameAllocatorError::InvalidFrameAddress))
    } else if m.used == 0 || m.free >= m.total {
        (m, Err(FrameAllocatorError::InvalidFrameAddress))
    } else if m.recycled.len() >= MAX_RECYCLED_FRAMES {
        (m, Err(FrameAllocatorError::FreeListFull))
    } else {
        (
            CursorView {
                recycled: m.recycled.push(address),
                used: (m.used - 1) as nat,
                free: m.free + 1,
                ..m
            },
            Ok(()),
        )
    }
}

/// The region, scanning from `from`, that serves a run of `size` bytes:
/// the first whose untouched part holds it, unless the end of the run
/// overflows on a region met before it.
pub open spec fn contiguous_scan(rs: Seq<FrameRegion>, from: int, size: int) -> Result<
    int,
    FrameAllocatorError,
>
    decreases rs.len() - from,
{
    if from < 0 || from >= rs.len() {
        Err(FrameAllocatorError::OutOfMemory)
    } else if rs[from].next + size > u64::MAX {
        Err(FrameAllocatorError::AddressOverflow)
    } else if rs[from].next + size <= rs[from].end {
        Ok(from)
    } else {
        contiguous_scan(rs, from + 1, size)
    }
}

/// `alloc_contiguous`: `count` adjacent untouched frames of one region.
pub open spec fn alloc_contiguous_model(m: CursorView, count: nat) -> (
    CursorView,
    Result<u64, FrameAllocatorError>,
) {
    let size = count * FRAME_SIZE_BYTES;
    if count == 0 {
        (m, Err(FrameAllocatorError::InvalidFrameCount))
    } else if size > u64::MAX {
        (m, Err(FrameAllocatorError::AddressOverflow))
    } else {
        match contiguous_scan(m.regions, m.cursor as int, size as int) {
            Ok(i) => {
                let r = m.regions[i];
                (
                    CursorView {
                        regions: m.regions.update(i, FrameRegion { next: (r.next + size) as u64, ..r }),
                        cursor: i as nat,
                        used: m.used + count,
                        free: (m.free - count) as nat,
                        ..m
                    },
                    Ok(r.next),
                )
            },
            Err(e) => (m, Err(e)),
        }
    }
}

/// What remains of `r` once `[lo, hi)` is taken out; the pieces are unused.
pub open spec fn carve_region(r: FrameRegion, lo: int, hi: int) -> Seq<FrameRegion> {
    if !(r.start < hi && lo < r.end) {
        seq![r]
    } else {
        let left = if r.start < lo {
            seq![FrameRegion { start: r.start, next: r.start, end: lo as u64 }]
        } else {
            Seq::empty()
        };
        let right = if hi < r.end {
            seq![FrameRegion { start: hi as u64, next: hi as u64, end: r.end }]
        } else {
            Seq::empty()
        };
        left + right
    }
}

/// The regions with `[lo, hi)` taken out, in their order.
pub open spec fn carve(rs: Seq<FrameRegion>, lo: int, hi: int) -> Seq<FrameRegion>
    decreases rs.len(),
{
    if rs.len() == 0 {
        Seq::empty()
    } else {
        carve(rs.drop_last(), lo, hi) + carve_region(rs.last(), lo, hi)
    }
}

/// `reserve_range`: before any frame is issued, take the frames that meet
/// `[base, base + length)` out of the pool.
pub open spec fn reserve_range_model(m: CursorView, base: u64, length: u64) -> (
    CursorView,
    Result<(), FrameAllocatorError>,
) {
    let end = base + length;
    if length == 0 {
        (m, Ok(()))
    } else if m.used != 0 {
        (m, Err(FrameAllocatorError::InvalidReserveRange))
    } else if end > u64::MAX || end + FRAME_SIZE_BYTES - 1 > u64::MAX {
        (m, Err(FrameAllocatorError::AddressOverflow))
    } else {
        let lo = round_down(base as int, FRAME_SIZE_BYTES as int);
        let hi = round_up(end, FRAME_SIZE_BYTES as int);
        let rs = carve(m.regions, lo, hi);
        if rs.len() > MAX_FRAME_REGIONS {
            (m, Err(FrameAllocatorError::TooManyRegions))
        } else {
            (fresh(rs), Ok(()))
        }
    }
}

/// The frame region that a usable memory region contributes, if any.
pub open spec fn seed_step(acc: Seq<FrameRegion>, r: MemoryRegion) -> Result<
    Seq<FrameRegion>,
    FrameAllocatorError,
> {
    let end = r.base + r.length;
    let start_aligned = round_up(r.base as int, FRAME_SIZE_BYTES as int);
    let end_aligned = round_down(end, FRAME_SIZE_BYTES as int);
    if r.kind != MemoryRegionKind::Usable || r.length == 0 {
        Ok(acc)
    } else if end > u64::MAX {
        Err(FrameAllocatorError::AddressOverflow)
    } else if r.base != 0 && r.base + FRAME_SIZE_BYTES - 1 > u64::MAX {
        Err(FrameAllocatorError::AddressOverflow)
    } else if start_aligned >= end_aligned {
        Ok(acc)
    } else if acc.len() >= MAX_FRAME_REGIONS {
        Err(FrameAllocatorError::TooManyRegions)
    } else {
        Ok(
            acc.push(
                FrameRegion {
                    start: start_aligned as u64,
                    next: start_aligned as u64,
                    end: end_aligned as u64,
                },
            ),
        )
    }
}

/// The frame regions carved from memory regions, in order: each usable
/// region rounded inward to frame boundaries, empty ones dropped.
pub open spec fn seed(input: Seq<MemoryRegion>) -> Result<Seq<FrameRegion>, FrameAllocatorError>
    decreases input.len(),
{
    if input.len() == 0 {
        Ok(Seq::empty())
    } else {
        match seed(input.drop_last()) {
            Ok(acc) => seed_step(acc, input.last()),
            Err(e) => Err(e),
        }
    }
}

/// A freshly seeded allocator over `rs`.
pub open spec fn fresh(rs: Seq<FrameRegion>) -> CursorView {
    CursorView {
        regions: rs,
        cursor: 0,
        recycled: Seq::empty(),
        total: total_of(rs),
        free: total_of(rs),
        used: 0,
    }
}

/// Replacing one region changes the sums by that region's share only.
proof fn lemma_update_sums(rs: Seq<FrameRegion>, i: int, r: FrameRegion)
    requires
        0 <= i < rs.len(),
        forall|k: int| 0 <= k < rs.len() ==> region_ok(#[trigger] rs[k]),
        region_ok(r),
    ensures
        total_of(rs) >= frame_count_of(rs[i]),
        untouched_total(rs) >= untouched_of(rs[i]),
        total_of(rs.update(i, r)) == total_of(rs) - frame_count_of(rs[i]) + frame_count_of(r),
        untouched_total(rs.update(i, r)) == untouched_total(rs) - untouched_of(rs[i])
            + untouched_of(r),
    decreases rs.len(),
{
    let u = rs.update(i, r);
    if i == rs.len() - 1 {
        assert(u.drop_last() =~= rs.drop_last());
    } else {
        assert(u.drop_last() =~= rs.drop_last().update(i, r));
        lemma_update_sums(rs.drop_last(), i, r);
    }
}

/// Advancing the bump cursor of a region by `count` whole frames keeps it
/// aligned and leaves `count` fewer untouched frames.
pub(crate) proof fn lemma_advance(r: FrameRegion, count: nat)
    requires
        region_ok(r),
        r.next + count * FRAME_SIZE_BYTES <= r.end,
    ensures
        region_ok(FrameRegion { next: (r.next + count * FRAME_SIZE_BYTES) as u64, ..r }),
        untouched_of(FrameRegion { next: (r.next + count * FRAME_SIZE_BYTES) as u64, ..r })
            == untouched_of(r) - count,
        untouched_of(r) >= count,
{
    let d = FRAME_SIZE_BYTES as int;
    let a = r.next as int / d;
    let b = r.end as int / d;
    lemma_fundamental_div_mod(r.next as int, d);
    lemma_fundamental_div_mod(r.end as int, d);
    let n = r.next + count * d;
    assert(n == (a + count) * d) by (nonlinear_arith)
        requires
            r.next == d * a,
            n == r.next + count * d,
    ;
    lemma_mod_multiples_basic(a + count, d);
    assert(r.end - n == d * (b - a - count)) by (nonlinear_arith)
        requires
            r.end == d * b,
            n == (a + count) * d,
    ;
    assert(r.end - r.next == d * (b - a)) by (nonlinear_arith)
        requires
            r.end == d * b,
            r.next == d * a,
    ;
    lemma_div_multiples_vanish(b - a - count, d);
    lemma_div_multiples_vanish(b - a, d);
}

/// Rounding down to a frame boundary yields an aligned value at most
/// one frame below.
pub(crate) proof fn lemma_round_down_aligned(v: int)
    requires
        v >= 0,
    ensures
        round_down(v, FRAME_SIZE_BYTES as int) % FRAME_SIZE_BYTES as int == 0,
        v - FRAME_SIZE_BYTES < round_down(v, FRAME_SIZE_BYTES as int) <= v,
{
    let d = FRAME_SIZE_BYTES as int;
    lemma_fundamental_div_mod(v, d);
    lemma_mod_multiples_basic(v / d, d);
    assert(d * (v / d) == (v / d) * d) by (nonlinear_arith);
}

/// A region spans at most the frames of the whole address space.
proof fn lemma_total_bound(rs: Seq<FrameRegion>)
    requires
        forall|k: int| 0 <= k < rs.len() ==> region_ok(#[trigger] rs[k]),
    ensures
        total_of(rs) <= rs.len() * 0x10_0000_0000_0000,
    decreases rs.len(),
{
    if rs.len() > 0 {
        let r = rs.last();
        assert(region_ok(r));
        lemma_total_bound(rs.drop_last());
        lemma_div_is_ordered(
            r.end - r.start,
            0xffff_ffff_ffff_ffff,
            FRAME_SIZE_BYTES as int,
        );
    }
}

/// Once a prefix of the memory regions fails to seed, the whole sequence
/// fails with the same error.
proof fn lemma_seed_error_persists(input: Seq<MemoryRegion>, k: int)
    requires
        0 <= k <= input.len(),
        seed(input.take(k)) is Err,
    ensures
        seed(input) == seed(input.take(k)),
    decreases input.len() - k,
{
    if k < input.len() {
        assert(input.take(k + 1).drop_last() =~= input.take(k));
        lemma_seed_error_persists(input, k + 1);
    } else {
        assert(input.take(k) =~= input);
    }
}

/// In regions that were never used, every frame is untouched.
proof fn lemma_untouched_fresh(rs: Seq<FrameRegion>)
    requires
        forall|k: int| 0 <= k < rs.len() ==> (#[trigger] rs[k]).next == rs[k].start,
    ensures
        untouched_total(rs) == total_of(rs),
    decreases rs.len(),
{
    if rs.len() > 0 {
        lemma_untouched_fresh(rs.drop_last());
        assert(rs.last().next == rs.last().start);
    }
}

/// Carving a longer prefix never yields fewer regions.
proof fn lemma_carve_len_grows(rs: Seq<FrameRegion>, k: int, lo: int, hi: int)
    requires
        0 <= k <= rs.len(),
    ensures
        carve(rs.take(k), lo, hi).len() <= carve(rs, lo, hi).len(),
    decreases rs.len(),
{
    if k < rs.len() {
        assert(rs.drop_last().take(k) =~= rs.take(k));
        lemma_carve_len_grows(rs.drop_last(), k, lo, hi);
    } else {
        assert(rs.take(k) =~= rs);
    }
}

/// Regions with the same bounds contain the same addresses.
pub(crate) proof fn lemma_same_bounds_contain(rs: Seq<FrameRegion>, qs: Seq<FrameRegion>, address: int)
    requires
        rs.len() == qs.len(),
        forall|k: int|
            0 <= k < rs.len() ==> (#[trigger] rs[k]).start == qs[k].start && rs[k].end
                == qs[k].end,
        in_some_region(rs, address),
    ensures
        in_some_region(qs, address),
{
    let k = choose|k: int| 0 <= k < rs.len() && #[trigger] in_region(rs[k], address);
    assert(in_region(qs[k], address));
}

/// The frames still untouched never outnumber the frames.
proof fn lemma_untouched_le_total(rs: Seq<FrameRegion>)
    requires
        forall|k: int| 0 <= k < rs.len() ==> region_ok(#[trigger] rs[k]),
    ensures
        untouched_total(rs) <= total_of(rs),
    decreases rs.len(),
{
    if rs.len() > 0 {
        lemma_untouched_le_total(rs.drop_last());
        assert(region_ok(rs.last()));
    }
}

impl FrameRegion {
    pub fn empty() -> (r: Self)
        ensures
            r.start == 0 && r.next == 0 && r.end == 0,
    {
        FrameRegion { start: 0, next: 0, end: 0 }
    }

    pub fn frame_count(&self) -> (r: u64)
        requires
            self.start <= self.end,
        ensures
            r == frame_count_of(*self),
    {
        (self.end - self.start) / FRAME_SIZE_BYTES
    }

    /// Whether the region meets `[other_start, other_end)`.
    pub fn overlaps(&self, other_start: u64, other_end: u64) -> (r: bool)
        ensures
            r == (self.start < other_end && other_start < self.end),
    {
        self.start < other_end && other_start < self.end
    }
}

/// A bump allocator over frame regions, with a bounded stack of
/// recycled frames that takes precedence over the bump cursors.
pub struct CursorFrameAllocator {
    regions: Vec<FrameRegion>,
    region_cursor: usize,
    recycled_frames: Vec<u64>,
    total_frames: u64,
    free_frames: u64,
    used_frames: u64,
}

impl View for CursorFrameAllocator {
    type V = CursorView;

    closed spec fn view(&self) -> CursorView {
        CursorView {
            regions: self.regions@,
            cursor: self.region_cursor as nat,
            recycled: self.recycled_frames@,
            total: self.total_frames as nat,
            free: self.free_frames as nat,
            used: self.used_frames as nat,
        }
    }
}

impl CursorFrameAllocator {
    pub open spec fn wf(&self) -> bool {
        cursor_wf(self@)
    }

    /// An allocator with no regions.
    pub fn empty() -> (r: Self)
        ensures
            r.wf(),
            r@ == fresh(Seq::empty()),
    {
        let r = CursorFrameAllocator {
            regions: Vec::new(),
            region_cursor: 0,
            recycled_frames: Vec::new(),
            total_frames: 0,
            free_frames: 0,
            used_frames: 0,
        };
        assert(r@.regions =~= Seq::<FrameRegion>::empty());
        assert(r@.recycled =~= Seq::<u64>::empty());
        r
    }

    /// An allocator seeded from `regions`.
    pub fn from_memory_regions(regions: &[MemoryRegion]) -> (r: Result<Self, FrameAllocatorError>)
        ensures
            match seed(regions@) {
                Ok(rs) => (r matches Ok(a) && a.wf() && a@ == fresh(rs)),
                Err(e) => r == Err::<Self, FrameAllocatorError>(e),
            },
    {
        let mut allocator = Self::empty();
        allocator.initialize_from_memory_regions(regions)?;
        Ok(allocator)
    }

    /// Re-seeds the allocator from `regions`: every usable region is
    /// rounded inward to frame boundaries and kept where a frame remains.
    /// Everything issued or recycled before is forgotten.
    pub fn initialize_from_memory_regions(&mut self, regions: &[MemoryRegion]) -> (r: Result<
        (),
        FrameAllocatorError,
    >)
        requires
            old(self).wf(),
        ensures
            final(self).wf(),
            match seed(regions@) {
                Ok(rs) => r is Ok && final(self)@ == fresh(rs),
                Err(e) => r == Err::<(), FrameAllocatorError>(e) && final(self)@ == old(self)@,
            },
    {
        let mut next_regions: Vec<FrameRegion> = Vec::new();
        let mut total: u64 = 0;
        let mut i: usize = 0;
        while i < regions.len()
            invariant
                i <= regions@.len(),
                seed(regions@.take(i as int)) == Ok::<Seq<FrameRegion>, FrameAllocatorError>(
                    next_regions@,
                ),
                next_regions@.len() <= MAX_FRAME_REGIONS,
                forall|k: int| 0 <= k < next_regions@.len() ==> region_ok(#[trigger] next_regions@[k]),
                forall|k: int|
                    0 <= k < next_regions@.len() ==> (#[trigger] next_regions@[k]).next
                        == next_regions@[k].start,
                total == total_of(next_regions@),
                self@ == old(self)@,
                cursor_wf(self@),
            decreases regions@.len() - i,
        {
            let region = regions[i];
            proof {
                assert(regions@.take(i + 1).drop_last() =~= regions@.take(i as int));
                assert(regions@.take(i + 1).last() == region);
            }
            if region.kind == MemoryRegionKind::Usable && region.length != 0 {
                let end = match region.base.checked_add(region.length) {
                    Some(end) => end,
                    None => {
                        proof {
                            lemma_seed_error_persists(regions@, i + 1);
                        }
                        return Err(FrameAllocatorError::AddressOverflow);
                    },
                };
                let start_aligned = match align_up(region.base, FRAME_SIZE_BYTES) {
                    Ok(start) => start,
                    Err(e) => {
                        proof {
                            lemma_seed_error_persists(regions@, i + 1);
                        }
                        return Err(e);
                    },
                };
                let end_aligned = align_down(end, FRAME_SIZE_BYTES);
                if start_aligned < end_aligned {
                    if next_regions.len() >= MAX_FRAME_REGIONS {
                        proof {
                            lemma_seed_error_persists(regions@, i + 1);
                        }
                        return Err(FrameAllocatorError::TooManyRegions);
                    }
                    let frame_region = FrameRegion {
                        start: start_aligned,
                        next: start_aligned,
                        end: end_aligned,
                    };
                    let ghost before = next_regions@;
                    proof {
                        lemma_round_down_aligned(region.base + FRAME_SIZE_BYTES - 1);
                        lemma_round_down_aligned(end as int);
                        assert(region_ok(frame_region));
                        lemma_total_bound(before.push(frame_region));
                        assert(before.push(frame_region).drop_last() =~= before);
                    }
                    total = total + frame_region.frame_count();
                    next_regions.push(frame_region);
                    proof {
                        assert forall|k: int| 0 <= k < next_regions@.len() implies region_ok(
                            #[trigger] next_regions@[k],
                        ) && next_regions@[k].next == next_regions@[k].start by {
                            if k < before.len() {
                                assert(next_regions@[k] == before[k]);
                            }
                        }
                    }
                }
            }
            i += 1;
        }
        proof {
            assert(regions@.take(regions@.len() as int) =~= regions@);
        }
        self.regions = next_regions;
        self.region_cursor = 0;
        self.recycled_frames = Vec::new();
        self.total_frames = total;
        self.free_frames = total;
        self.used_frames = 0;
        proof {
            assert(self@.recycled =~= Seq::<u64>::empty());
            lemma_untouched_fresh(self@.regions);
        }
        Ok(())
    }

    /// Whether `address` is frame-aligned and lies in one of the regions.
    fn contains_frame_address(&self, address: u64) -> (r: bool)
        ensures
            r == (address % FRAME_SIZE_BYTES == 0 && in_some_region(self@.regions, address as int)),
    {
        if address % FRAME_SIZE_BYTES != 0 {
            return false;
        }
        let mut i: usize = 0;
        while i < self.regions.len()
            invariant
                i <= self.regions@.len(),
                address % FRAME_SIZE_BYTES == 0,
                forall|k: int| 0 <= k < i ==> !in_region(#[trigger] self.regions@[k], address as int),
            decreases self.regions@.len() - i,
        {
            let region = self.regions[i];
            if address >= region.start && address < region.end {
                assert(in_region(self@.regions[i as int], address as int));
                return true;
            }
            i += 1;
        }
        false
    }

    /// Takes the most recently recycled frame off the stack.
    fn pop_recycled(&mut self) -> (r: Option<u64>)
        ensures
            old(self)@.recycled.len() == 0 ==> r is None && final(self)@ == old(self)@,
            old(self)@.recycled.len() > 0 ==> r == Some(old(self)@.recycled.last())
                && final(self)@ == (CursorView {
                recycled: old(self)@.recycled.drop_last(),
                ..old(self)@
            }),
    {
        self.recycled_frames.pop()
    }

    /// Pushes a frame on the recycled stack, unless the stack is full.
    fn push_recycled(&mut self, address: u64) -> (r: Result<(), FrameAllocatorError>)
        ensures
            old(self)@.recycled.len() >= MAX_RECYCLED_FRAMES ==> r == Err::<(), FrameAllocatorError>(
                FrameAllocatorError::FreeListFull,
            ) && final(self)@ == old(self)@,
            old(self)@.recycled.len() < MAX_RECYCLED_FRAMES ==> r is Ok && final(self)@ == (CursorView {
                recycled: old(self)@.recycled.push(address),
                ..old(self)@
            }),
    {
        if self.recycled_frames.len() >= MAX_RECYCLED_FRAMES {
            return Err(FrameAllocatorError::FreeListFull);
        }
        self.recycled_frames.push(address);
        Ok(())
    }

    /// Hands out one frame: the most recently recycled one if any, else
    /// the next untouched frame of the first region, from the cursor on,
    /// that has one.
    pub fn alloc_frame(&mut self) -> (r: Result<PhysFrame, FrameAllocatorError>)
        requires
            old(self).wf(),
        ensures
            final(self).wf(),
            (final(self)@, frame_result(r)) == alloc_frame_model(old(self)@),
    {
        if let Some(address) = self.pop_recycled() {
            self.used_frames = self.used_frames + 1;
            self.free_frames = self.free_frames.saturating_sub(1);
            proof {
                let m = self@;
                assert forall|j: int| 0 <= j < m.recycled.len() implies #[trigger] m.recycled[j]
                    % FRAME_SIZE_BYTES == 0 && in_some_region(m.regions, m.recycled[j] as int) by {
                    assert(m.recycled[j] == old(self)@.recycled[j]);
                }
            }
            return PhysFrame::from_start_address(address);
        }
        let mut idx: usize = self.region_cursor;
        while idx < self.regions.len()
            invariant
                self@ == old(self)@,
                cursor_wf(self@),
                self.region_cursor <= idx <= self.regions@.len(),
                self@.recycled.len() == 0,
                first_open(self@.regions, self.region_cursor as int) == first_open(
                    self@.regions,
                    idx as int,
                ),
            decreases self.regions@.len() - idx,
        {
            let region = self.regions[idx];
            if region.next < region.end {
                let ghost m = self@;
                let address = region.next;
                proof {
                    assert(region_ok(m.regions[idx as int]));
                    assert(region.next + FRAME_SIZE_BYTES <= region.end);
                    lemma_update_sums(m.regions, idx as int, region);
                }
                let updated = FrameRegion { next: region.next + FRAME_SIZE_BYTES, ..region };
                self.regions.set(idx, updated);
                self.region_cursor = idx;
                self.used_frames = self.used_frames + 1;
                self.free_frames = self.free_frames - 1;
                proof {
                    lemma_update_sums(m.regions, idx as int, updated);
                    assert forall|k: int| 0 <= k < self@.regions.len() implies region_ok(
                        #[trigger] self@.regions[k],
                    ) by {
                        if k != idx {
                            assert(self@.regions[k] == m.regions[k]);
                        }
                    }
                }
                return PhysFrame::from_start_address(address);
            }
            idx += 1;
        }
        Err(FrameAllocatorError::OutOfMemory)
    }

    /// Takes an issued frame back onto the recycled stack.
    pub fn free_frame(&mut self, frame: PhysFrame) -> (r: Result<(), FrameAllocatorError>)
        requires
            old(self).wf(),
        ensures
            final(self).wf(),
            (final(self)@, r) == free_frame_model(old(self)@, frame@),
    {
        let address = frame.start_address();
        if !self.contains_frame_address(address) {
            return Err(FrameAllocatorError::InvalidFrameAddress);
        }
        if self.used_frames == 0 || self.free_frames >= self.total_frames {
            return Err(FrameAllocatorError::InvalidFrameAddress);
        }
        self.push_recycled(address)?;
        self.used_frames = self.used_frames - 1;
        self.free_frames = self.free_frames + 1;
        proof {
            let m = self@;
            assert forall|j: int| 0 <= j < m.recycled.len() implies #[trigger] m.recycled[j]
                % FRAME_SIZE_BYTES == 0 && in_some_region(m.regions, m.recycled[j] as int) by {
                if j < m.recycled.len() - 1 {
                    assert(m.recycled[j] == old(self)@.recycled[j]);
                }
            }
        }
        Ok(())
    }

    /// Hands out `count` adjacent frames from the first region, from the
    /// cursor on, whose untouched part holds them all; the recycled stack
    /// is not consulted.
    pub fn alloc_contiguous(&mut self, count: usize) -> (r: Result<PhysFrame, FrameAllocatorError>)
        requires
            old(self).wf(),
        ensures
            final(self).wf(),
            (final(self)@, frame_result(r)) == alloc_contiguous_model(old(self)@, count as nat),
    {
        if count == 0 {
            return Err(FrameAllocatorError::InvalidFrameCount);
        }
        let count_u64 = count as u64;
        let size_bytes = match count_u64.checked_mul(FRAME_SIZE_BYTES) {
            Some(size) => size,
            None => {
                return Err(FrameAllocatorError::AddressOverflow);
            },
        };
        let mut idx: usize = self.region_cursor;
        while idx < self.regions.len()
            invariant
                self@ == old(self)@,
                cursor_wf(self@),
                self.region_cursor <= idx <= self.regions@.len(),
                count_u64 == count,
                count > 0,
                size_bytes == count * FRAME_SIZE_BYTES,
                contiguous_scan(self@.regions, self.region_cursor as int, size_bytes as int)
                    == contiguous_scan(self@.regions, idx as int, size_bytes as int),
            decreases self.regions@.len() - idx,
        {
            let region = self.regions[idx];
            let candidate_end = match region.next.checked_add(size_bytes) {
                Some(end) => end,
                None => {
                    return Err(FrameAllocatorError::AddressOverflow);
                },
            };
            if candidate_end <= region.end {
                let ghost m = self@;
                let start = region.next;
                let updated = FrameRegion { next: candidate_end, ..region };
                proof {
                    assert(region_ok(m.regions[idx as int]));
                    lemma_advance(region, count as nat);
                    lemma_update_sums(m.regions, idx as int, region);
                    lemma_update_sums(m.regions, idx as int, updated);
                }
                self.regions.set(idx, updated);
                self.region_cursor = idx;
                self.used_frames = self.used_frames + count_u64;
                self.free_frames = self.free_frames - count_u64;
                proof {
                    assert forall|k: int| 0 <= k < self@.regions.len() implies region_ok(
                        #[trigger] self@.regions[k],
                    ) by {
                        if k != idx {
                            assert(self@.regions[k] == m.regions[k]);
                        }
                    }
                    let n = self@;
                    assert forall|j: int| 0 <= j < n.recycled.len() implies #[trigger] n.recycled[j]
                        % FRAME_SIZE_BYTES == 0 && in_some_region(n.regions, n.recycled[j] as int) by {
                        lemma_same_bounds_contain(m.regions, n.regions, n.recycled[j] as int);
                    }
                }
                return PhysFrame::from_start_address(start);
            }
            idx += 1;
        }
        Err(FrameAllocatorError::OutOfMemory)
    }

    /// Takes the frames that meet `[base, base + length)` out of the pool,
    /// widened outward to frame boundaries. Only valid before any frame is
    /// issued; the region array is rebuilt and replaced only on success.
    pub fn reserve_range(&mut self, base: u64, length: u64) -> (r: Result<(), FrameAllocatorError>)
        requires
            old(self).wf(),
        ensures
            final(self).wf(),
            (final(self)@, r) == reserve_range_model(old(self)@, base, length),
    {
        if length == 0 {
            return Ok(());
        }
        if self.used_frames != 0 {
            return Err(FrameAllocatorError::InvalidReserveRange);
        }
        let reserve_end = match base.checked_add(length) {
            Some(end) => end,
            None => {
                return Err(FrameAllocatorError::AddressOverflow);
            },
        };
        let reserve_start = align_down(base, FRAME_SIZE_BYTES);
        let reserve_end_aligned = match align_up(reserve_end, FRAME_SIZE_BYTES) {
            Ok(end) => end,
            Err(e) => {
                return Err(e);
            },
        };
        let ghost lo = reserve_start as int;
        let ghost hi = reserve_end_aligned as int;
        proof {
            lemma_round_down_aligned(base as int);
            lemma_round_down_aligned(reserve_end + FRAME_SIZE_BYTES - 1);
        }
        let mut next_regions: Vec<FrameRegion> = Vec::new();
        let mut i: usize = 0;
        while i < self.regions.len()
            invariant
                self@ == old(self)@,
                cursor_wf(self@),
                i <= self.regions@.len(),
                lo == reserve_start,
                hi == reserve_end_aligned,
                length != 0,
                old(self)@.used == 0,
                base + length <= u64::MAX,
                base + length + FRAME_SIZE_BYTES - 1 <= u64::MAX,
                lo == round_down(base as int, FRAME_SIZE_BYTES as int),
                hi == round_up(base + length, FRAME_SIZE_BYTES as int),
                lo % FRAME_SIZE_BYTES as int == 0,
                hi % FRAME_SIZE_BYTES as int == 0,
                next_regions@ == carve(self@.regions.take(i as int), lo, hi),
                next_regions@.len() <= MAX_FRAME_REGIONS,
                forall|k: int| 0 <= k < next_regions@.len() ==> region_ok(#[trigger] next_regions@[k]),
            decreases self.regions@.len() - i,
        {
            let region = self.regions[i];
            let ghost before = next_regions@;
            let ghost pieces = carve_region(region, lo, hi);
            proof {
                assert(self@.regions.take(i + 1).drop_last() =~= self@.regions.take(i as int));
                assert(self@.regions.take(i + 1).last() == region);
                assert(region_ok(self@.regions[i as int]));
                lemma_carve_len_grows(self@.regions, i + 1, lo, hi);
                assert(carve(self@.regions.take(i + 1), lo, hi) == before + pieces);
            }
            if !region.overlaps(reserve_start, reserve_end_aligned) {
                if next_regions.len() >= MAX_FRAME_REGIONS {
                    return Err(FrameAllocatorError::TooManyRegions);
                }
                next_regions.push(region);
            } else {
                if reserve_start > region.start {
                    if next_regions.len() >= MAX_FRAME_REGIONS {
                        return Err(FrameAllocatorError::TooManyRegions);
                    }
                    let left_end = if reserve_start < region.end {
                        reserve_start
                    } else {
                        region.end
                    };
                    if region.start < left_end {
                        next_regions.push(
                            FrameRegion { start: region.start, next: region.start, end: left_end },
                        );
                    }
                }
                if reserve_end_aligned < region.end {
                    if next_regions.len() >= MAX_FRAME_REGIONS {
                        return Err(FrameAllocatorError::TooManyRegions);
                    }
                    let right_start = if reserve_end_aligned > region.start {
                        reserve_end_aligned
                    } else {
                        region.start
                    };
                    if right_start < region.end {
                        next_regions.push(
                            FrameRegion { start: right_start, next: right_start, end: region.end },
                        );
                    }
                }
            }
            proof {
                assert(next_regions@ =~= before + pieces);
                assert forall|k: int| 0 <= k < next_regions@.len() implies region_ok(
                    #[trigger] next_regions@[k],
                ) by {
                    if k < before.len() {
                        assert(next_regions@[k] == before[k]);
                    }
                }
            }
            i += 1;
        }
        proof {
            assert(self@.regions.take(self@.regions.len() as int) =~= self@.regions);
        }
        self.regions = next_regions;
        self.region_cursor = 0;
        self.recycled_frames = Vec::new();
        let recomputed = self.recompute_total_frames();
        proof {
            assert(self@.recycled =~= Seq::<u64>::empty());
            lemma_untouched_le_total(self@.regions);
            assert(self@ == fresh(carve(old(self)@.regions, lo, hi)));
        }
        recomputed
    }

    /// Recomputes the frame total from the regions, and the free count
    /// from it and the issued count.
    fn recompute_total_frames(&mut self) -> (r: Result<(), FrameAllocatorError>)
        requires
            old(self)@.regions.len() <= MAX_FRAME_REGIONS,
            forall|k: int|
                0 <= k < old(self)@.regions.len() ==> region_ok(#[trigger] old(self)@.regions[k]),
        ensures
            r == Ok::<(), FrameAllocatorError>(()),
            final(self)@ == (CursorView {
                total: total_of(old(self)@.regions),
                free: if total_of(old(self)@.regions) >= old(self)@.used {
                    (total_of(old(self)@.regions) - old(self)@.used) as nat
                } else {
                    0
                },
                ..old(self)@
            }),
    {
        let mut total: u64 = 0;
        let mut i: usize = 0;
        while i < self.regions.len()
            invariant
                self@ == old(self)@,
                self@.regions.len() <= MAX_FRAME_REGIONS,
                forall|k: int| 0 <= k < self@.regions.len() ==> region_ok(#[trigger] self@.regions[k]),
                i <= self@.regions.len(),
                total == total_of(self@.regions.take(i as int)),
            decreases self@.regions.len() - i,
        {
            let region = self.regions[i];
            proof {
                let prefix = self@.regions.take(i + 1);
                assert(prefix.drop_last() =~= self@.regions.take(i as int));
                assert(region_ok(self@.regions[i as int]));
                assert forall|k: int| 0 <= k < prefix.len() implies region_ok(#[trigger] prefix[k]) by {
                    assert(prefix[k] == self@.regions[k]);
                }
                lemma_total_bound(prefix);
            }
            total = total + region.frame_count();
            i += 1;
        }
        proof {
            assert(self@.regions.take(i as int) =~= self@.regions);
        }
        self.total_frames = total;
        self.free_frames = self.total_frames.saturating_sub(self.used_frames);
        Ok(())
    }

    pub fn stats(&self) -> (r: FrameAllocatorStats)
        ensures
            r == stats_of(self@),
    {
        FrameAllocatorStats {
            total_frames: self.total_frames,
            free_frames: self.free_frames,
            used_frames: self.used_frames,
        }
    }
}

/// The allocation strategies the allocator can run on.
pub enum ActiveBackend {
    Cursor(CursorFrameAllocator),
}

impl ActiveBackend {
    /// The state of the backend, as plain values.
    pub open spec fn model(&self) -> CursorView {
        match self {
            ActiveBackend::Cursor(backend) => backend@,
        }
    }

    pub open spec fn wf(&self) -> bool {
        match self {
            ActiveBackend::Cursor(backend) => backend.wf(),
        }
    }

    pub fn alloc_frame(&mut self) -> (r: Result<PhysFrame, FrameAllocatorError>)
        requires
            old(self).wf(),
        ensures
            final(self).wf(),
            (final(self).model(), frame_result(r)) == alloc_frame_model(old(self).model()),
    {
        match self {
            ActiveBackend::Cursor(backend) => backend.alloc_frame(),
        }
    }

    pub fn free_frame(&mut self, frame: PhysFrame) -> (r: Result<(), FrameAllocatorError>)
        requires
            old(self).wf(),
        ensures
            final(self).wf(),
            (final(self).model(), r) == free_frame_model(old(self).model(), frame@),
    {
        match self {
            ActiveBackend::Cursor(backend) => backend.free_frame(frame),
        }
    }

    pub fn alloc_contiguous(&mut self, count: usize) -> (r: Result<PhysFrame, FrameAllocatorError>)
        requires
            old(self).wf(),
        ensures
            final(self).wf(),
            (final(self).model(), frame_result(r)) == alloc_contiguous_model(
                old(self).model(),
                count as nat,
            ),
    {
        match self {
            ActiveBackend::Cursor(backend) => backend.alloc_contiguous(count),
        }
    }

    pub fn reserve_range(&mut self, base: u64, length: u64) -> (r: Result<(), FrameAllocatorError>)
        requires
            old(self).wf(),
        ensures
            final(self).wf(),
            (final(self).model(), r) == reserve_range_model(old(self).model(), base, length),
    {
        match self {
            ActiveBackend::Cursor(backend) => backend.reserve_range(base, length),
        }
    }

    pub fn stats(&self) -> (r: FrameAllocatorStats)
        ensures
            r == stats_of(self.model()),
    {
        match self {
            ActiveBackend::Cursor(backend) => backend.stats(),
        }
    }
}

/// The allocator's lifecycle: it starts out uninitialised and becomes
/// active, for good, on its first initialisation.
pub enum FrameAllocatorState {
    Uninitialized,
    Active(ActiveBackend),
}

impl FrameAllocatorState {
    /// The state of the active backend, if there is one.
    pub open spec fn model(&self) -> Option<CursorView> {
        match self {
            FrameAllocatorState::Uninitialized => None,
            FrameAllocatorState::Active(backend) => Some(backend.model()),
        }
    }

    pub open spec fn wf(&self) -> bool {
        match self {
            FrameAllocatorState::Uninitialized => true,
            FrameAllocatorState::Active(backend) => backend.wf(),
        }
    }
}

/// Activates the allocator, with an empty cursor backend where it was
/// uninitialised, and seeds the backend from the usable regions of `map`.
pub fn init(state: &mut FrameAllocatorState, map: &BootMemoryMap) -> (r: Result<
    (),
    FrameAllocatorError,
>)
    requires
        old(state).wf(),
    ensures
        final(state).wf(),
        match seed(map@) {
            Ok(rs) => r is Ok && final(state).model() == Some(fresh(rs)),
            Err(e) => r == Err::<(), FrameAllocatorError>(e) && final(state).model() == Some(
                match old(state).model() {
                    Some(m) => m,
                    None => fresh(Seq::empty()),
                },
            ),
        },
{
    if let FrameAllocatorState::Uninitialized = state {
        *state = FrameAllocatorState::Active(ActiveBackend::Cursor(CursorFrameAllocator::empty()));
    }
    match state {
        FrameAllocatorState::Active(ActiveBackend::Cursor(backend)) => {
            backend.initialize_from_memory_regions(map.regions())
        },
        FrameAllocatorState::Uninitialized => Err(FrameAllocatorError::Uninitialized),
    }
}

pub fn alloc_frame(state: &mut FrameAllocatorState) -> (r: Result<PhysFrame, FrameAllocatorError>)
    requires
        old(state).wf(),
    ensures
        final(state).wf(),
        match old(state).model() {
            None => r == Err::<PhysFrame, FrameAllocatorError>(FrameAllocatorError::Uninitialized)
                && final(state).model() is None,
            Some(m) => (final(state).model(), frame_result(r)) == (
                Some(alloc_frame_model(m).0),
                alloc_frame_model(m).1,
            ),
        },
{
    match state {
        FrameAllocatorState::Uninitialized => Err(FrameAllocatorError::Uninitialized),
        FrameAllocatorState::Active(backend) => backend.alloc_frame(),
    }
}

pub fn free_frame(state: &mut FrameAllocatorState, frame: PhysFrame) -> (r: Result<
    (),
    FrameAllocatorError,
>)
    requires
        old(state).wf(),
    ensures
        final(state).wf(),
        match old(state).model() {
            None => r == Err::<(), FrameAllocatorError>(FrameAllocatorError::Uninitialized)
                && final(state).model() is None,
            Some(m) => (final(state).model(), r) == (
                Some(free_frame_model(m, frame@).0),
                free_frame_model(m, frame@).1,
            ),
        },
{
    match state {
        FrameAllocatorState::Uninitialized => Err(FrameAllocatorError::Uninitialized),
        FrameAllocatorState::Active(backend) => backend.free_frame(frame),
    }
}

pub fn alloc_contiguous(state: &mut FrameAllocatorState, count: usize) -> (r: Result<
    PhysFrame,
    FrameAllocatorError,
>)
    requires
        old(state).wf(),
    ensures
        final(state).wf(),
        match old(state).model() {
            None => r == Err::<PhysFrame, FrameAllocatorError>(FrameAllocatorError::Uninitialized)
                && final(state).model() is None,
            Some(m) => (final(state).model(), frame_result(r)) == (
                Some(alloc_contiguous_model(m, count as nat).0),
                alloc_contiguous_model(m, count as nat).1,
            ),
        },
{
    match state {
        FrameAllocatorState::Uninitialized => Err(FrameAllocatorError::Uninitialized),
        FrameAllocatorState::Active(backend) => backend.alloc_contiguous(count),
    }
}

pub fn reserve_range(state: &mut FrameAllocatorState, base: u64, length: u64) -> (r: Result<
    (),
    FrameAllocatorError,
>)
    requires
        old(state).wf(),
    ensures
        final(state).wf(),
        match old(state).model() {
            None => r == Err::<(), FrameAllocatorError>(FrameAllocatorError::Uninitialized)
                && final(state).model() is None,
            Some(m) => (final(state).model(), r) == (
                Some(reserve_range_model(m, base, length).0),
                reserve_range_model(m, base, length).1,
            ),
        },
{
    match state {
        FrameAllocatorState::Uninitialized => Err(FrameAllocatorError::Uninitialized),
        FrameAllocatorState::Active(backend) => backend.reserve_range(base, length),
    }
}

/// Runs `f` on a snapshot of the counters.
pub fn with_stats<F, R>(state: &FrameAllocatorState, f: F) -> (r: Result<R, FrameAllocatorError>) where
    F: FnOnce(&FrameAllocatorStats) -> R,

    requires
        forall|m: CursorView| state.model() == Some(m) ==> f.requires((&stats_of(m),)),
    ensures
        match state.model() {
            None => r == Err::<R, FrameAllocatorError>(FrameAllocatorError::Uninitialized),
            Some(m) => (r matches Ok(v) && f.ensures((&stats_of(m),), v)),
        },
{
    match state {
        FrameAllocatorState::Uninitialized => Err(FrameAllocatorError::Uninitialized),
        FrameAllocatorState::Active(backend) => {
            let stats = backend.stats();
            Ok(f(&stats))
        },
    }
}

} // verus!
