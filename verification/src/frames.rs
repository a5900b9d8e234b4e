use vstd::prelude::*;

verus! {

/// Usability tag of a firmware-reported memory region.
#[derive(Clone, Copy, PartialEq, Eq, Structural)]
pub enum RegionKind {
    Usable,
    Reserved,
}

/// One firmware-reported physical memory region, `[start, end)`.
#[derive(Clone, Copy, PartialEq, Eq, Structural)]
pub struct MemoryRegion {
    pub start: u64,
    pub end: u64,
    pub kind: RegionKind,
}

/// A region the allocator can parcel out: frame-aligned and well ordered.
pub open spec fn region_wf(r: MemoryRegion) -> bool {
    &&& r.start % 4096 == 0
    &&& r.end % 4096 == 0
    &&& r.start <= r.end
}

/// The 4 KiB-aligned frame start addresses a region contains.
pub open spec fn region_frames(r: MemoryRegion) -> Seq<u64> {
    Seq::new(((r.end - r.start) / 4096) as nat, |i: int| (r.start + 4096 * i) as u64)
}

/// The usable frames of the first `k` regions, in region order.
pub open spec fn usable_frames_upto(regions: Seq<MemoryRegion>, k: int) -> Seq<u64>
    decreases k,
{
    if k <= 0 {
        Seq::empty()
    } else {
        usable_frames_upto(regions, k - 1) + if regions[k - 1].kind is Usable {
            region_frames(regions[k - 1])
        } else {
            Seq::empty()
        }
    }
}

/// Every usable frame of the memory map, regions in order, frames ascending
/// within each region.
pub open spec fn usable_frames(regions: Seq<MemoryRegion>) -> Seq<u64> {
    usable_frames_upto(regions, regions.len() as int)
}

/// What one allocation returns at a given cursor: the usable frame at that
/// index, or nothing once the usable frames are spent.
pub open spec fn alloc_result(regions: Seq<MemoryRegion>, cursor: int) -> Option<u64> {
    if 0 <= cursor < usable_frames(regions).len() {
        Some(usable_frames(regions)[cursor])
    } else {
        None
    }
}

/// A frame allocator that never returns `None`: it owns no memory at all.
pub struct EmptyFrameAllocator;

impl EmptyFrameAllocator {
    /// There is never a frame to hand out.
    pub fn allocate_frame(&mut self) -> (r: Option<u64>)
        ensures
            r is None,
    {
        None
    }
}

/// A bump allocator over the firmware memory map: a cursor walks the
/// sequence of usable frames once and never revisits or reclaims a frame.
pub struct BootInfoFrameAllocator {
    pub regions: Vec<MemoryRegion>,
    pub next: usize,
}

impl BootInfoFrameAllocator {
    /// Every region of the map is frame-aligned and well ordered.
    pub open spec fn wf(self) -> bool {
        forall|k: int| 0 <= k < self.regions@.len() ==> region_wf(#[trigger] self.regions@[k])
    }

    /// Builds an allocator whose cursor sits before the first usable frame.
    ///
    /// The caller vouches that the frames marked usable in the map are
    /// really unused.
    pub fn init(regions: Vec<MemoryRegion>) -> (r: BootInfoFrameAllocator)
        requires
            forall|k: int| 0 <= k < regions@.len() ==> region_wf(#[trigger] regions@[k]),
        ensures
            r.wf(),
            r.regions@ == regions@,
            r.next == 0,
    {
        BootInfoFrameAllocator { regions, next: 0 }
    }

    /// Hands out the frame at the cursor, if any usable frame is left, and
    /// advances the cursor either way.  After the usable frames run out,
    /// every further call fails: nothing is ever reclaimed.
    pub fn allocate_frame(&mut self) -> (r: Option<u64>)
        requires
            old(self).wf(),
            old(self).next < usize::MAX,
        ensures
            final(self).wf(),
            final(self).regions@ == old(self).regions@,
            final(self).next == old(self).next + 1,
            r == alloc_result(old(self).regions@, old(self).next as int),
            old(self).next < usable_frames(old(self).regions@).len() ==> r == Some(
                usable_frames(old(self).regions@)[old(self).next as int],
            ),
            old(self).next >= usable_frames(old(self).regions@).len() ==> r is None,
    {
        let ghost regions = self.regions@;
        let mut remaining: usize = self.next;
        let mut i: usize = 0;
        let mut result: Option<u64> = None;
        while i < self.regions.len() && result.is_none()
            invariant
                self == old(self),
                self.wf(),
                i <= regions.len(),
                regions == self.regions@,
                result is None ==> remaining == old(self).next - usable_frames_upto(
                    regions,
                    i as int,
                ).len(),
                result is None ==> old(self).next >= usable_frames_upto(regions, i as int).len(),
                result matches Some(f) ==> (old(self).next < usable_frames(regions).len() && f
                    == usable_frames(regions)[old(self).next as int]),
            decreases regions.len() - i,
        {
            let r = self.regions[i];
            proof {
                assert(region_wf(self.regions@[i as int]));
                assert(region_wf(regions[i as int]));
            }
            if matches!(r.kind, RegionKind::Usable) {
                let count = (r.end - r.start) / 4096;
                if (remaining as u64) < count {
                    proof {
                        vstd::arithmetic::div_mod::lemma_fundamental_div_mod(
                            (r.end - r.start) as int,
                            4096,
                        );
                        assert(4096 * (count as int) <= r.end - r.start);
                    }
                    let frame = r.start + 4096 * (remaining as u64);
                    proof {
                        assert(region_wf(regions[i as int]));
                        assert(region_frames(regions[i as int])[remaining as int] == frame);
                        lemma_usable_prefix_stable(regions, i as int + 1, regions.len() as int);
                        assert(usable_frames_upto(regions, i as int + 1)[old(self).next as int]
                            == frame);
                    }
                    result = Some(frame);
                } else {
                    proof {
                        assert(usable_frames_upto(regions, i as int + 1).len()
                            == usable_frames_upto(regions, i as int).len() + count);
                    }
                    remaining = remaining - (count as usize);
                }
            } else {
                proof {
                    assert(usable_frames_upto(regions, i as int + 1) =~= usable_frames_upto(
                        regions,
                        i as int,
                    ));
                }
            }
            i = i + 1;
        }
        proof {
            if result is None {
                assert(old(self).next >= usable_frames(regions).len());
            }
        }
        self.next = self.next + 1;
        result
    }
}

/// Exactly `N` allocations succeed and then failure is permanent: a fresh
/// allocator's cursor is 0 and every call advances it by exactly one, so
/// after `k` calls the cursor is `k`; over a map with `N` usable frames the
/// call made at cursor `k` returns the `k`-th usable frame for `k < N` and
/// `None` for every `k >= N` — no frame is ever revisited or reclaimed.
pub proof fn lemma_exactly_n_allocations(regions: Seq<MemoryRegion>, k: int)
    ensures
        0 <= k < usable_frames(regions).len() ==> alloc_result(regions, k) == Some(
            usable_frames(regions)[k],
        ),
        k >= usable_frames(regions).len() ==> alloc_result(regions, k) is None,
{
}

/// Usable regions appear in address order and never overlap.
pub open spec fn regions_sorted(regions: Seq<MemoryRegion>) -> bool {
    forall|i: int, j: int|
        0 <= i < j < regions.len() && (#[trigger] regions[i]).kind is Usable
            && (#[trigger] regions[j]).kind is Usable ==> regions[i].end <= regions[j].start
}

proof fn lemma_usable_frames_increasing_upto(regions: Seq<MemoryRegion>, k: int)
    requires
        0 <= k <= regions.len(),
        forall|i: int| 0 <= i < regions.len() ==> region_wf(#[trigger] regions[i]),
        regions_sorted(regions),
    ensures
        forall|m1: int, m2: int|
            #![trigger usable_frames_upto(regions, k)[m1], usable_frames_upto(regions, k)[m2]]
            0 <= m1 < m2 < usable_frames_upto(regions, k).len() ==> usable_frames_upto(regions, k)[m1]
                < usable_frames_upto(regions, k)[m2],
        forall|m: int, j: int|
            0 <= m < usable_frames_upto(regions, k).len() && k <= j < regions.len() && (
            #[trigger] regions[j]).kind is Usable ==> #[trigger] usable_frames_upto(regions, k)[m]
                < regions[j].start,
    decreases k,
{
    if k > 0 {
        lemma_usable_frames_increasing_upto(regions, k - 1);
        let prev = usable_frames_upto(regions, k - 1);
        let cur = usable_frames_upto(regions, k);
        let r = regions[k - 1];
        assert(region_wf(r));
        if r.kind is Usable {
            vstd::arithmetic::div_mod::lemma_fundamental_div_mod((r.end - r.start) as int, 4096);
            let cnt = (r.end - r.start) / 4096;
            assert(4096 * cnt <= r.end - r.start);
            assert forall|t: int| 0 <= t < cnt implies r.start <= #[trigger] region_frames(r)[t]
                < r.end by {
                assert(4096 * t <= 4096 * (cnt - 1));
            }
            assert forall|m1: int, m2: int|
                #![trigger cur[m1], cur[m2]]
                0 <= m1 < m2 < cur.len() implies cur[m1] < cur[m2] by {
                if m2 >= prev.len() {
                    assert(cur[m2] == region_frames(r)[m2 - prev.len()]);
                    if m1 >= prev.len() {
                        assert(cur[m1] == region_frames(r)[m1 - prev.len()]);
                        assert(4096 * (m1 - prev.len()) < 4096 * (m2 - prev.len()));
                    } else {
                        assert(cur[m1] == prev[m1]);
                        assert(prev[m1] < r.start);
                    }
                } else {
                    assert(cur[m1] == prev[m1] && cur[m2] == prev[m2]);
                }
            }
            assert forall|m: int, j: int|
                0 <= m < cur.len() && k <= j < regions.len() && (#[trigger] regions[j]).kind
                    is Usable implies #[trigger] cur[m] < regions[j].start by {
                if m < prev.len() {
                    assert(cur[m] == prev[m]);
                } else {
                    assert(cur[m] == region_frames(r)[m - prev.len()]);
                    assert(r.end <= regions[j].start);
                }
            }
        } else {
            assert(cur =~= prev);
        }
    }
}

/// Monotonic, non-reclaiming allocation: over an ordered memory map the
/// sequence of usable frames is strictly increasing, so the frames handed
/// out by successive successful `allocate_frame` calls strictly increase and
/// never repeat.
pub proof fn lemma_usable_frames_increasing(regions: Seq<MemoryRegion>)
    requires
        forall|i: int| 0 <= i < regions.len() ==> region_wf(#[trigger] regions[i]),
        regions_sorted(regions),
    ensures
        forall|m1: int, m2: int|
            #![trigger usable_frames(regions)[m1], usable_frames(regions)[m2]]
            0 <= m1 < m2 < usable_frames(regions).len() ==> usable_frames(regions)[m1]
                < usable_frames(regions)[m2],
{
    lemma_usable_frames_increasing_upto(regions, regions.len() as int);
}

/// Frames already listed never move when later regions are appended: the
/// usable-frame sequence of a longer prefix extends that of a shorter one.
proof fn lemma_usable_prefix_stable(regions: Seq<MemoryRegion>, k: int, j: int)
    requires
        0 <= k <= j <= regions.len(),
    ensures
        usable_frames_upto(regions, k).len() <= usable_frames_upto(regions, j).len(),
        forall|m: int|
            0 <= m < usable_frames_upto(regions, k).len() ==> #[trigger] usable_frames_upto(
                regions,
                j,
            )[m] == usable_frames_upto(regions, k)[m],
    decreases j - k,
{
    if k < j {
        lemma_usable_prefix_stable(regions, k, j - 1);
    }
}

} // verus!
