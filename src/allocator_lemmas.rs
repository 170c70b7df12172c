//! Laws of the frame allocator, stated over its model and proved from
//! the operations' own contracts.
use vstd::prelude::*;

use crate::frame_allocator::{
    alloc_contiguous_model, alloc_frame_model, carve, carve_region, contiguous_scan, cursor_wf,
    first_open, free_frame_model, in_region, in_some_region, region_ok, reserve_range_model,
    round_down, round_up, seed, stats_of, lemma_advance, lemma_round_down_aligned,
    lemma_same_bounds_contain, total_of, CursorView, FrameAllocatorError,
    FrameRegion, FRAME_SIZE_BYTES,
};
use crate::memory_map::{MemoryRegion, MemoryRegionKind};

verus! {

/// No region meets `[lo, hi)`.
pub open spec fn clear_of(rs: Seq<FrameRegion>, lo: int, hi: int) -> bool {
    forall|i: int| 0 <= i < rs.len() ==> (#[trigger] rs[i]).end <= lo || hi <= rs[i].start
}

/// `[address, address + size)` lies within one of the regions.
pub open spec fn run_in_some_region(rs: Seq<FrameRegion>, address: int, size: int) -> bool {
    exists|i: int| 0 <= i < rs.len() && (#[trigger] rs[i]).start <= address && address + size <= rs[i].end
}

proof fn lemma_first_open_found(rs: Seq<FrameRegion>, from: int)
    requires
        first_open(rs, from) is Some,
    ensures
        first_open(rs, from) matches Some(i) && from <= i < rs.len() && rs[i].next < rs[i].end,
    decreases rs.len() - from,
{
    if 0 <= from < rs.len() && rs[from].next >= rs[from].end {
        lemma_first_open_found(rs, from + 1);
    }
}

proof fn lemma_contiguous_scan_found(rs: Seq<FrameRegion>, from: int, size: int)
    requires
        contiguous_scan(rs, from, size) is Ok,
    ensures
        contiguous_scan(rs, from, size) matches Ok(i) && from <= i < rs.len() && rs[i].next + size
            <= rs[i].end,
    decreases rs.len() - from,
{
    if 0 <= from < rs.len() && rs[from].next + size <= u64::MAX && rs[from].next + size
        > rs[from].end {
        lemma_contiguous_scan_found(rs, from + 1, size);
    }
}

/// The counters always balance: issued plus free frames make up the
/// total, and the total is the sum of the regions' frame counts.
pub proof fn lemma_counters_balance(m: CursorView)
    requires
        cursor_wf(m),
    ensures
        stats_of(m).used_frames + stats_of(m).free_frames == stats_of(m).total_frames,
        stats_of(m).total_frames == total_of(m.regions),
{
}

/// A frame handed out by `alloc_frame` is frame-aligned and lies inside a
/// region, before and after the call.
pub proof fn lemma_allocated_frame_in_pool(m: CursorView)
    requires
        cursor_wf(m),
        alloc_frame_model(m).1 is Ok,
    ensures
        ({
            let a = alloc_frame_model(m).1->Ok_0;
            &&& a % FRAME_SIZE_BYTES == 0
            &&& in_some_region(m.regions, a as int)
            &&& in_some_region(alloc_frame_model(m).0.regions, a as int)
        }),
{
    let (post, r) = alloc_frame_model(m);
    let a = r->Ok_0;
    if m.recycled.len() > 0 {
        assert(m.recycled[m.recycled.len() - 1] == a);
    } else {
        lemma_first_open_found(m.regions, m.cursor as int);
        let i = first_open(m.regions, m.cursor as int)->Some_0;
        assert(region_ok(m.regions[i]));
        assert(in_region(m.regions[i], a as int));
        assert(in_region(post.regions[i], a as int));
    }
}

/// A run handed out by `alloc_contiguous` starts on a frame boundary and
/// lies, whole, inside one region, before and after the call.
pub proof fn lemma_contiguous_run_in_pool(m: CursorView, count: nat)
    requires
        cursor_wf(m),
        alloc_contiguous_model(m, count).1 is Ok,
    ensures
        ({
            let a = alloc_contiguous_model(m, count).1->Ok_0;
            let size = count * FRAME_SIZE_BYTES;
            &&& a % FRAME_SIZE_BYTES == 0
            &&& run_in_some_region(m.regions, a as int, size)
            &&& run_in_some_region(alloc_contiguous_model(m, count).0.regions, a as int, size)
            &&& in_some_region(alloc_contiguous_model(m, count).0.regions, a as int)
        }),
{
    let (post, r) = alloc_contiguous_model(m, count);
    let size = count * FRAME_SIZE_BYTES;
    lemma_contiguous_scan_found(m.regions, m.cursor as int, size as int);
    let i = contiguous_scan(m.regions, m.cursor as int, size as int)->Ok_0;
    assert(region_ok(m.regions[i]));
    assert(m.regions[i].start <= r->Ok_0);
    assert(post.regions[i].start == m.regions[i].start);
    assert(in_region(post.regions[i], r->Ok_0 as int));
}

/// With nothing recycled, two successive `alloc_frame` calls serve
/// regions in array order, and from one region they return ascending
/// frames one frame apart.
pub proof fn lemma_bump_allocations_ascend(m: CursorView)
    requires
        cursor_wf(m),
        m.recycled.len() == 0,
        alloc_frame_model(m).1 is Ok,
        alloc_frame_model(alloc_frame_model(m).0).1 is Ok,
    ensures
        ({
            let m1 = alloc_frame_model(m).0;
            let a1 = alloc_frame_model(m).1->Ok_0;
            let a2 = alloc_frame_model(m1).1->Ok_0;
            first_open(m.regions, m.cursor as int) matches Some(i) && first_open(
                m1.regions,
                m1.cursor as int,
            ) matches Some(j) && i <= j && (i == j ==> a2 == a1 + FRAME_SIZE_BYTES)
        }),
{
    let m1 = alloc_frame_model(m).0;
    lemma_first_open_found(m.regions, m.cursor as int);
    let i = first_open(m.regions, m.cursor as int)->Some_0;
    assert(m1.recycled.len() == 0);
    lemma_first_open_found(m1.regions, m1.cursor as int);
    let j = first_open(m1.regions, m1.cursor as int)->Some_0;
    assert(m1.cursor == i);
    if i == j {
        assert(m1.regions[i].next == m.regions[i].next + FRAME_SIZE_BYTES);
    }
}

/// A frame just freed is the next one `alloc_frame` hands out.
pub proof fn lemma_free_then_alloc_returns_it(m: CursorView, address: u64)
    requires
        cursor_wf(m),
        free_frame_model(m, address).1 is Ok,
    ensures
        alloc_frame_model(free_frame_model(m, address).0).1 == Ok::<u64, FrameAllocatorError>(
            address,
        ),
{
}

/// Carving `[lo, hi)` out of regions leaves none that meets it.
proof fn lemma_carve_clear(rs: Seq<FrameRegion>, lo: int, hi: int)
    ensures
        clear_of(carve(rs, lo, hi), lo, hi),
    decreases rs.len(),
{
    if rs.len() > 0 {
        lemma_carve_clear(rs.drop_last(), lo, hi);
        let head = carve(rs.drop_last(), lo, hi);
        let tail = carve_region(rs.last(), lo, hi);
        let all = carve(rs, lo, hi);
        assert(all == head + tail);
        assert forall|i: int| 0 <= i < all.len() implies (#[trigger] all[i]).end <= lo || hi
            <= all[i].start by {
            if i < head.len() {
                assert(all[i] == head[i]);
            } else {
                assert(all[i] == tail[i - head.len()]);
            }
        }
    }
}

/// A successful `reserve_range` of a non-empty range leaves no region
/// that meets the range widened outward to frame boundaries.
pub proof fn lemma_reserve_clears_range(m: CursorView, base: u64, length: u64)
    requires
        cursor_wf(m),
        length != 0,
        reserve_range_model(m, base, length).1 is Ok,
    ensures
        clear_of(
            reserve_range_model(m, base, length).0.regions,
            round_down(base as int, FRAME_SIZE_BYTES as int),
            round_up(base + length, FRAME_SIZE_BYTES as int),
        ),
{
    lemma_carve_clear(
        m.regions,
        round_down(base as int, FRAME_SIZE_BYTES as int),
        round_up(base + length, FRAME_SIZE_BYTES as int),
    );
}

/// Where the frames lie: every region is aligned and every recycled
/// frame is aligned and inside a region.
pub open spec fn pool_ok(m: CursorView) -> bool {
    &&& forall|i: int| 0 <= i < m.regions.len() ==> region_ok(#[trigger] m.regions[i])
    &&& forall|j: int|
        0 <= j < m.recycled.len() ==> #[trigger] m.recycled[j] % FRAME_SIZE_BYTES == 0
            && in_some_region(m.regions, m.recycled[j] as int)
}

/// A call on the allocator that hands out or takes back frames.
pub enum AllocatorCall {
    AllocFrame,
    AllocContiguous(nat),
    FreeFrame(u64),
}

/// The state after `call`, and the run `(start, bytes)` that it handed
/// out, if any.
pub open spec fn call_model(m: CursorView, call: AllocatorCall) -> (CursorView, Option<(int, int)>) {
    match call {
        AllocatorCall::AllocFrame => (
            alloc_frame_model(m).0,
            match alloc_frame_model(m).1 {
                Ok(a) => Some((a as int, FRAME_SIZE_BYTES as int)),
                Err(_) => None,
            },
        ),
        AllocatorCall::AllocContiguous(count) => (
            alloc_contiguous_model(m, count).0,
            match alloc_contiguous_model(m, count).1 {
                Ok(a) => Some((a as int, count * FRAME_SIZE_BYTES)),
                Err(_) => None,
            },
        ),
        AllocatorCall::FreeFrame(address) => (free_frame_model(m, address).0, None),
    }
}

/// The state after `calls` in order, and the runs they handed out.
pub open spec fn run_calls(m: CursorView, calls: Seq<AllocatorCall>) -> (
    CursorView,
    Seq<(int, int)>,
)
    decreases calls.len(),
{
    if calls.len() == 0 {
        (m, Seq::empty())
    } else {
        let before = run_calls(m, calls.drop_last());
        let after = call_model(before.0, calls.last());
        (
            after.0,
            match after.1 {
                Some(run) => before.1.push(run),
                None => before.1,
            },
        )
    }
}

/// A frame-aligned address inside a region that misses `[lo, hi)` has
/// its whole frame, or run up to the region's end, outside it.
proof fn lemma_inside_clear_region(r: FrameRegion, a: int, size: int, lo: int, hi: int)
    requires
        region_ok(r),
        r.start <= a,
        a + size <= r.end,
        r.end <= lo || hi <= r.start,
    ensures
        a + size <= lo || hi <= a,
{
}

/// One call keeps the frames where they belong and away from a range
/// that no region meets, and hands out no run that meets the range.
proof fn lemma_call_avoids(m: CursorView, call: AllocatorCall, lo: int, hi: int)
    requires
        pool_ok(m),
        clear_of(m.regions, lo, hi),
    ensures
        pool_ok(call_model(m, call).0),
        clear_of(call_model(m, call).0.regions, lo, hi),
        call_model(m, call).1 matches Some(run) ==> run.0 + run.1 <= lo || hi <= run.0,
{
    let post = call_model(m, call).0;
    match call {
        AllocatorCall::AllocFrame => {
            if m.recycled.len() > 0 {
                let a = m.recycled.last();
                assert(m.recycled[m.recycled.len() - 1] == a);
                let k = choose|k: int|
                    0 <= k < m.regions.len() && #[trigger] in_region(m.regions[k], a as int);
                assert(region_ok(m.regions[k]));
                lemma_inside_clear_region(m.regions[k], a as int, FRAME_SIZE_BYTES as int, lo, hi);
                assert(post.regions == m.regions);
                assert forall|j: int| 0 <= j < post.recycled.len() implies #[trigger] post.recycled[j]
                    % FRAME_SIZE_BYTES == 0 && in_some_region(post.regions, post.recycled[j] as int) by {
                    assert(post.recycled[j] == m.recycled[j]);
                }
            } else if first_open(m.regions, m.cursor as int) is Some {
                lemma_first_open_found(m.regions, m.cursor as int);
                let i = first_open(m.regions, m.cursor as int)->Some_0;
                let r = m.regions[i];
                assert(region_ok(r));
                assert(r.next + FRAME_SIZE_BYTES <= r.end);
                lemma_inside_clear_region(r, r.next as int, FRAME_SIZE_BYTES as int, lo, hi);
                let updated = FrameRegion { next: (r.next + FRAME_SIZE_BYTES) as u64, ..r };
                lemma_pool_update(m, i, updated, lo, hi);
                assert(post.regions == m.regions.update(i, updated));
                assert(post.recycled == m.recycled);
            }
        },
        AllocatorCall::AllocContiguous(count) => {
            let size = count * FRAME_SIZE_BYTES;
            if count != 0 && size <= u64::MAX && contiguous_scan(m.regions, m.cursor as int, size as int) is Ok {
                lemma_contiguous_scan_found(m.regions, m.cursor as int, size as int);
                let i = contiguous_scan(m.regions, m.cursor as int, size as int)->Ok_0;
                let r = m.regions[i];
                assert(region_ok(r));
                lemma_advance(r, count);
                lemma_inside_clear_region(r, r.next as int, size as int, lo, hi);
                let updated = FrameRegion { next: (r.next + size) as u64, ..r };
                lemma_pool_update(m, i, updated, lo, hi);
                assert(post.regions == m.regions.update(i, updated));
                assert(post.recycled == m.recycled);
                let q = CursorView { regions: m.regions.update(i, updated), ..m };
                assert(pool_ok(q));
                assert(q.regions == post.regions);
                assert(q.recycled == post.recycled);
                assert(pool_ok(post));
            }
        },
        AllocatorCall::FreeFrame(address) => {
            assert forall|j: int| 0 <= j < post.recycled.len() implies #[trigger] post.recycled[j]
                % FRAME_SIZE_BYTES == 0 && in_some_region(post.regions, post.recycled[j] as int) by {
                if j < m.recycled.len() {
                    assert(post.recycled[j] == m.recycled[j]);
                }
            }
            assert(post.regions == m.regions);
        },
    }
}

/// Moving the bump cursor of one region keeps the frames where they
/// belong and the regions away from `[lo, hi)`.
proof fn lemma_pool_update(m: CursorView, i: int, r: FrameRegion, lo: int, hi: int)
    requires
        pool_ok(m),
        clear_of(m.regions, lo, hi),
        0 <= i < m.regions.len(),
        region_ok(r),
        r.start == m.regions[i].start,
        r.end == m.regions[i].end,
    ensures
        pool_ok(CursorView { regions: m.regions.update(i, r), ..m }),
        clear_of(m.regions.update(i, r), lo, hi),
{
    let rs = m.regions.update(i, r);
    assert forall|k: int| 0 <= k < rs.len() implies region_ok(#[trigger] rs[k]) && (rs[k].end <= lo
        || hi <= rs[k].start) by {
        if k != i {
            assert(rs[k] == m.regions[k]);
        }
    }
    assert forall|j: int| 0 <= j < m.recycled.len() implies #[trigger] m.recycled[j]
        % FRAME_SIZE_BYTES == 0 && in_some_region(rs, m.recycled[j] as int) by {
        lemma_same_bounds_contain(m.regions, rs, m.recycled[j] as int);
    }
}

/// A run of calls keeps a range that no region meets out of everything
/// it hands out.
proof fn lemma_run_avoids(m: CursorView, calls: Seq<AllocatorCall>, lo: int, hi: int)
    requires
        pool_ok(m),
        clear_of(m.regions, lo, hi),
    ensures
        pool_ok(run_calls(m, calls).0),
        clear_of(run_calls(m, calls).0.regions, lo, hi),
        forall|k: int|
            0 <= k < run_calls(m, calls).1.len() ==> (#[trigger] run_calls(m, calls).1[k]).0
                + run_calls(m, calls).1[k].1 <= lo || hi <= run_calls(m, calls).1[k].0,
    decreases calls.len(),
{
    if calls.len() > 0 {
        lemma_run_avoids(m, calls.drop_last(), lo, hi);
        let before = run_calls(m, calls.drop_last());
        lemma_call_avoids(before.0, calls.last(), lo, hi);
        let issued = run_calls(m, calls).1;
        assert forall|k: int| 0 <= k < issued.len() implies (#[trigger] issued[k]).0 + issued[k].1
            <= lo || hi <= issued[k].0 by {
            if k < before.1.len() {
                assert(issued[k] == before.1[k]);
            }
        }
    }
}

/// Carving aligned bounds out of aligned regions leaves aligned regions.
proof fn lemma_carve_ok(rs: Seq<FrameRegion>, lo: int, hi: int)
    requires
        forall|k: int| 0 <= k < rs.len() ==> region_ok(#[trigger] rs[k]),
        0 <= lo,
        hi <= u64::MAX,
        lo % FRAME_SIZE_BYTES as int == 0,
        hi % FRAME_SIZE_BYTES as int == 0,
    ensures
        forall|k: int|
            0 <= k < carve(rs, lo, hi).len() ==> region_ok(#[trigger] carve(rs, lo, hi)[k]),
    decreases rs.len(),
{
    if rs.len() > 0 {
        lemma_carve_ok(rs.drop_last(), lo, hi);
        assert(region_ok(rs.last()));
        let head = carve(rs.drop_last(), lo, hi);
        let tail = carve_region(rs.last(), lo, hi);
        let all = carve(rs, lo, hi);
        assert(all == head + tail);
        assert forall|k: int| 0 <= k < all.len() implies region_ok(#[trigger] all[k]) by {
            if k < head.len() {
                assert(all[k] == head[k]);
            } else {
                assert(all[k] == tail[k - head.len()]);
            }
        }
    }
}

/// After a successful non-empty `reserve_range`, no sequence of
/// allocations and frees hands out a frame in the reserved range, widened
/// outward to frame boundaries.
pub proof fn lemma_reserved_range_never_issued(
    m: CursorView,
    base: u64,
    length: u64,
    calls: Seq<AllocatorCall>,
)
    requires
        cursor_wf(m),
        length != 0,
        reserve_range_model(m, base, length).1 is Ok,
    ensures
        ({
            let lo = round_down(base as int, FRAME_SIZE_BYTES as int);
            let hi = round_up(base + length, FRAME_SIZE_BYTES as int);
            let issued = run_calls(reserve_range_model(m, base, length).0, calls).1;
            forall|k: int|
                0 <= k < issued.len() ==> (#[trigger] issued[k]).0 + issued[k].1 <= lo || hi
                    <= issued[k].0
        }),
{
    let lo = round_down(base as int, FRAME_SIZE_BYTES as int);
    let hi = round_up(base + length, FRAME_SIZE_BYTES as int);
    lemma_round_down_aligned(base as int);
    lemma_round_down_aligned(base + length + FRAME_SIZE_BYTES - 1);
    lemma_carve_clear(m.regions, lo, hi);
    lemma_carve_ok(m.regions, lo, hi);
    lemma_run_avoids(reserve_range_model(m, base, length).0, calls, lo, hi);
}

/// Once a frame has been issued, by either allocation call, any
/// non-empty reservation is refused.
pub proof fn lemma_reserve_refused_after_allocation(
    m: CursorView,
    count: nat,
    base: u64,
    length: u64,
)
    requires
        cursor_wf(m),
        length != 0,
    ensures
        alloc_frame_model(m).1 is Ok ==> reserve_range_model(alloc_frame_model(m).0, base, length).1
            == Err::<(), FrameAllocatorError>(FrameAllocatorError::InvalidReserveRange),
        alloc_contiguous_model(m, count).1 is Ok ==> reserve_range_model(
            alloc_contiguous_model(m, count).0,
            base,
            length,
        ).1 == Err::<(), FrameAllocatorError>(FrameAllocatorError::InvalidReserveRange),
{
}

/// A failed operation leaves the allocator exactly as it was.
pub proof fn lemma_failed_operations_change_nothing(
    m: CursorView,
    count: nat,
    address: u64,
    base: u64,
    length: u64,
)
    ensures
        alloc_frame_model(m).1 is Err ==> alloc_frame_model(m).0 == m,
        alloc_contiguous_model(m, count).1 is Err ==> alloc_contiguous_model(m, count).0 == m,
        free_frame_model(m, address).1 is Err ==> free_frame_model(m, address).0 == m,
        reserve_range_model(m, base, length).1 is Err ==> reserve_range_model(m, base, length).0
            == m,
{
}

/// Seeding rounds every usable region inward to frame boundaries, the
/// start up and the end down, and keeps only those left non-empty.
pub proof fn lemma_seeded_regions_rounded_inward(input: Seq<MemoryRegion>)
    requires
        seed(input) is Ok,
    ensures
        forall|i: int|
            #![trigger seed(input)->Ok_0[i]]
            0 <= i < seed(input)->Ok_0.len() ==> exists|j: int|
                0 <= j < input.len() && #[trigger] input[j].kind == MemoryRegionKind::Usable
                    && seed(input)->Ok_0[i].start == round_up(
                    input[j].base as int,
                    FRAME_SIZE_BYTES as int,
                ) && seed(input)->Ok_0[i].next == seed(input)->Ok_0[i].start
                    && seed(input)->Ok_0[i].end == round_down(
                    input[j].base + input[j].length,
                    FRAME_SIZE_BYTES as int,
                ) && seed(input)->Ok_0[i].start < seed(input)->Ok_0[i].end,
    decreases input.len(),
{
    if input.len() > 0 {
        let prefix = input.drop_last();
        if seed(prefix) is Ok {
            lemma_seeded_regions_rounded_inward(prefix);
            let acc = seed(prefix)->Ok_0;
            let rs = seed(input)->Ok_0;
            assert forall|i: int|
                #![trigger rs[i]]
                0 <= i < rs.len() implies exists|j: int|
                    0 <= j < input.len() && #[trigger] input[j].kind == MemoryRegionKind::Usable
                        && rs[i].start == round_up(input[j].base as int, FRAME_SIZE_BYTES as int)
                        && rs[i].next == rs[i].start && rs[i].end == round_down(
                        input[j].base + input[j].length,
                        FRAME_SIZE_BYTES as int,
                    ) && rs[i].start < rs[i].end by {
                if i < acc.len() {
                    assert(rs[i] == acc[i]);
                    let j = choose|j: int|
                        0 <= j < prefix.len() && #[trigger] prefix[j].kind
                            == MemoryRegionKind::Usable && acc[i].start == round_up(
                            prefix[j].base as int,
                            FRAME_SIZE_BYTES as int,
                        ) && acc[i].next == acc[i].start && acc[i].end == round_down(
                            prefix[j].base + prefix[j].length,
                            FRAME_SIZE_BYTES as int,
                        ) && acc[i].start < acc[i].end;
                    assert(input[j] == prefix[j]);
                } else {
                    let j = input.len() - 1;
                    assert(input[j] == input.last());
                }
            }
        }
    }
}

} // verus!
