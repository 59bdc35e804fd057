//! The frame source: hands out 4096-byte physical frames from the
//! boot-supplied list of usable memory regions, in ascending order, through
//! a monotonic cursor. No frame is ever returned twice; once the regions are
//! exhausted the source deterministically returns nothing.

use vstd::prelude::*;

use vstd::arithmetic::div_mod::lemma_fundamental_div_mod;

use crate::memory::PAGE_SIZE;

verus! {

/// One region of physical memory as the boot loader reports it.
#[derive(Debug, Clone, Copy, PartialEq, Eq, Structural)]
pub struct MemoryRegion {
    /// First byte of the region.
    pub start: u64,
    /// One past the last byte of the region.
    pub end: u64,
    /// Whether the region is marked usable: free for the kernel to take.
    pub usable: bool,
}

/// The frame start addresses a single region contributes: one per full
/// 4096-byte stride, and none at all when the region is not usable.
pub open spec fn region_frames(r: MemoryRegion) -> Seq<u64> {
    if r.usable {
        Seq::new(((r.end - r.start) / PAGE_SIZE as int) as nat, |j: int| (r.start + PAGE_SIZE * j) as u64)
    } else {
        Seq::<u64>::empty()
    }
}

/// All usable frame start addresses, region by region in map order.
pub open spec fn usable_frames(regions: Seq<MemoryRegion>) -> Seq<u64>
    decreases regions.len(),
{
    if regions.len() == 0 {
        Seq::<u64>::empty()
    } else {
        region_frames(regions[0]) + usable_frames(regions.drop_first())
    }
}

/// The boot memory map is frame-aligned, each region nonreversed, and the
/// regions sorted by address without overlap.
pub open spec fn regions_wf(regions: Seq<MemoryRegion>) -> bool {
    &&& forall|i: int|
        0 <= i < regions.len() ==> (#[trigger] regions[i]).start % PAGE_SIZE == 0
            && regions[i].end % PAGE_SIZE == 0 && regions[i].start <= regions[i].end
    &&& forall|i: int, j: int|
        0 <= i < j < regions.len() ==> (#[trigger] regions[i]).end <= (#[trigger] regions[j]).start
}

/// The usable-frame sequence distributes over splitting the region list.
proof fn lemma_usable_frames_add(a: Seq<MemoryRegion>, b: Seq<MemoryRegion>)
    ensures
        usable_frames(a + b) == usable_frames(a) + usable_frames(b),
    decreases a.len(),
{
    if a.len() == 0 {
        assert(a + b =~= b);
        assert(usable_frames(a) + usable_frames(b) =~= usable_frames(b));
    } else {
        lemma_usable_frames_add(a.drop_first(), b);
        assert((a + b).drop_first() =~= a.drop_first() + b);
        assert((a + b)[0] == a[0]);
        assert(usable_frames(a + b) =~= usable_frames(a) + usable_frames(b));
    }
}

/// Every frame of a region list whose regions all start at or above `lb`
/// lies at or above `lb`.
proof fn lemma_frames_lower_bound(regions: Seq<MemoryRegion>, lb: int)
    requires
        forall|i: int| 0 <= i < regions.len() ==> lb <= (#[trigger] regions[i]).start,
        forall|i: int|
            0 <= i < regions.len() ==> (#[trigger] regions[i]).start <= regions[i].end,
    ensures
        forall|k: int| 0 <= k < usable_frames(regions).len() ==> lb <= usable_frames(regions)[k],
    decreases regions.len(),
{
    if regions.len() > 0 {
        let rest = regions.drop_first();
        assert(forall|j: int| 0 <= j < rest.len() ==> #[trigger] rest[j] == regions[j + 1]);
        lemma_frames_lower_bound(rest, lb);
        let r0 = regions[0];
        let f0 = region_frames(r0);
        assert forall|k: int| 0 <= k < usable_frames(regions).len() implies lb <= usable_frames(
            regions,
        )[k] by {
            if k < f0.len() {
                assert(usable_frames(regions)[k] == f0[k]);
                assert(f0[k] == (r0.start + PAGE_SIZE * k) as u64);
            } else {
                assert(usable_frames(regions)[k] == usable_frames(rest)[k - f0.len()]);
            }
        }
    }
}

/// Each frame of a region lies inside it: at or above the region's start and
/// strictly below its end.
proof fn lemma_region_frames_in_region(r: MemoryRegion, j: int)
    requires
        0 <= j < region_frames(r).len(),
        r.start <= r.end,
    ensures
        r.start <= region_frames(r)[j],
        region_frames(r)[j] + PAGE_SIZE <= r.end,
        region_frames(r)[j] == r.start + PAGE_SIZE * j,
{
    let d = r.end - r.start;
    let count = d / PAGE_SIZE as int;
    lemma_fundamental_div_mod(d as int, PAGE_SIZE as int);
    assert(PAGE_SIZE * (j + 1) <= PAGE_SIZE * count) by (nonlinear_arith)
        requires
            j + 1 <= count,
    ;
    assert(PAGE_SIZE * count <= d) by (nonlinear_arith)
        requires
            d == PAGE_SIZE * count + d % (PAGE_SIZE as int) && d % (PAGE_SIZE as int) >= 0,
    ;
    assert(PAGE_SIZE * j >= 0) by (nonlinear_arith)
        requires
            j >= 0,
    ;
}

/// Frames come in strictly ascending order, so no frame is ever handed out
/// twice.
pub proof fn lemma_usable_frames_ascending(regions: Seq<MemoryRegion>)
    requires
        regions_wf(regions),
    ensures
        forall|i: int, j: int|
            0 <= i < j < usable_frames(regions).len() ==> usable_frames(regions)[i]
                < usable_frames(regions)[j],
    decreases regions.len(),
{
    if regions.len() > 0 {
        let rest = regions.drop_first();
        assert(forall|j: int| 0 <= j < rest.len() ==> #[trigger] rest[j] == regions[j + 1]);
        lemma_usable_frames_ascending(rest);
        lemma_frames_lower_bound(rest, regions[0].end as int);
        let r0 = regions[0];
        let f0 = region_frames(r0);
        let frames = usable_frames(regions);
        assert forall|i: int, j: int| 0 <= i < j < frames.len() implies frames[i] < frames[j] by {
            if j < f0.len() {
                lemma_region_frames_in_region(r0, i);
                lemma_region_frames_in_region(r0, j);
                assert(PAGE_SIZE * i < PAGE_SIZE * j) by (nonlinear_arith)
                    requires
                        0 <= i < j,
                ;
            } else if i < f0.len() {
                lemma_region_frames_in_region(r0, i);
                assert(frames[j] == usable_frames(rest)[j - f0.len()]);
            } else {
                assert(frames[i] == usable_frames(rest)[i - f0.len()]);
                assert(frames[j] == usable_frames(rest)[j - f0.len()]);
            }
        }
    }
}

/// A `FrameAllocator` that returns usable frames from the bootloader's
/// memory map.
pub struct BootInfoFrameAllocator {
    memory_map: Vec<MemoryRegion>,
    next: usize,
}

impl BootInfoFrameAllocator {
    /// The memory map this allocator draws from.
    pub closed spec fn regions(&self) -> Seq<MemoryRegion> {
        self.memory_map@
    }

    /// How many frames have been requested so far.
    pub closed spec fn cursor(&self) -> int {
        self.next as int
    }

    /// The allocator's memory map is well formed.
    pub open spec fn wf(&self) -> bool {
        regions_wf(self.regions())
    }

    /// Create a `FrameAllocator` from the passed memory map. The caller must
    /// guarantee that the regions marked usable really are unused.
    pub fn init(memory_map: Vec<MemoryRegion>) -> (r: Self)
        requires
            regions_wf(memory_map@),
        ensures
            r.wf(),
            r.regions() == memory_map@,
            r.cursor() == 0,
    {
        BootInfoFrameAllocator { memory_map, next: 0 }
    }

    /// The `n`-th usable frame of the memory map, scanning the regions in
    /// order, if that many exist.
    fn usable_frame_at(&self, n: usize) -> (r: Option<u64>)
        requires
            self.wf(),
        ensures
            ({
                let frames = usable_frames(self.regions());
                if n < frames.len() {
                    r == Some(frames[n as int])
                } else {
                    r is None
                }
            }),
    {
        let ghost regions = self.regions();
        let total = self.memory_map.len();
        let mut idx: usize = 0;
        let mut skipped: u64 = 0;
        while idx < total
            invariant
                self.wf(),
                regions == self.regions(),
                total == regions.len(),
                idx <= total,
                skipped == usable_frames(regions.take(idx as int)).len(),
                skipped <= n,
            decreases total - idx,
        {
            let region = self.memory_map[idx];
            proof {
                assert(regions.take(idx as int + 1) =~= regions.take(idx as int) + seq![region]);
                lemma_usable_frames_add(regions.take(idx as int), seq![region]);
                assert(usable_frames(seq![region]) =~= region_frames(region)) by {
                    let s = seq![region];
                    assert(s.drop_first() =~= Seq::<MemoryRegion>::empty());
                    assert(usable_frames(s.drop_first()) =~= Seq::<u64>::empty());
                    assert(usable_frames(s) == region_frames(s[0]) + usable_frames(s.drop_first()));
                    assert(s[0] == region);
                }
            }
            if region.usable {
                let count = (region.end - region.start) / PAGE_SIZE;
                if n as u64 - skipped < count {
                    let offset = n as u64 - skipped;
                    proof {
                        lemma_region_frames_in_region(region, offset as int);
                        assert(regions =~= regions.take(idx as int + 1) + regions.skip(
                            idx as int + 1,
                        ));
                        lemma_usable_frames_add(
                            regions.take(idx as int + 1),
                            regions.skip(idx as int + 1),
                        );
                        assert(usable_frames(regions)[n as int] == region_frames(region)[
                        offset as int]);
                    }
                    return Some(region.start + PAGE_SIZE * offset);
                }
                skipped = skipped + count;
            }
            idx = idx + 1;
        }
        proof {
            assert(regions.take(total as int) =~= regions);
        }
        None
    }

    /// Returns the next usable frame, stepping the monotonic cursor, or
    /// `None` — deterministically, never retried — once the region list is
    /// exhausted.
    pub fn allocate_frame(&mut self) -> (r: Option<u64>)
        requires
            old(self).wf(),
            old(self).cursor() < usize::MAX,
        ensures
            final(self).wf(),
            final(self).regions() == old(self).regions(),
            final(self).cursor() == old(self).cursor() + 1,
            ({
                let frames = usable_frames(old(self).regions());
                if old(self).cursor() < frames.len() {
                    r == Some(frames[old(self).cursor()])
                } else {
                    r is None
                }
            }),
    {
        let frame = self.usable_frame_at(self.next);
        self.next = self.next + 1;
        frame
    }
}

} // verus!
