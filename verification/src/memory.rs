use vstd::prelude::*;
use x86_64::structures::paging::{Page, PhysFrame, Size4KiB};
use x86_64::{PhysAddr, VirtAddr};

verus! {

/// First address of the kernel heap.
pub const HEAP_START: u64 = 0x4444_0000_0000;

/// Size of the kernel heap in bytes.
pub const HEAP_SIZE: u64 = 128 * 4096;

/// What the frame logic reads of one region of the boot memory map: its
/// frame numbers and whether it is usable RAM.
#[derive(Debug, Clone, Copy, PartialEq, Eq, Structural)]
pub struct MemoryRegionInfo {
    pub start_frame_number: u64,
    pub end_frame_number: u64,
    pub usable: bool,
}

/// The regions of a memory map that are usable RAM, in order.
pub open spec fn free_regions(regions: Seq<MemoryRegionInfo>) -> Seq<MemoryRegionInfo> {
    regions.filter(|r: MemoryRegionInfo| r.usable)
}

/// The usable regions of a memory map, in the order they appear.
pub fn get_free_memory_regions(mem_map: &[MemoryRegionInfo]) -> (free: Vec<MemoryRegionInfo>)
    ensures
        free@ == free_regions(mem_map@),
{
    let mut free: Vec<MemoryRegionInfo> = Vec::new();
    let mut i: usize = 0;
    while i < mem_map.len()
        invariant
            i <= mem_map@.len(),
            free@ == free_regions(mem_map@.take(i as int)),
        decreases mem_map@.len() - i,
    {
        let region = mem_map[i];
        proof {
            assert(mem_map@.take(i + 1).drop_last() =~= mem_map@.take(i as int));
            reveal_with_fuel(Seq::filter, 1);
        }
        if region.usable {
            free.push(region);
        }
        i = i + 1;
    }
    assert(mem_map@.take(mem_map@.len() as int) =~= mem_map@);
    free
}

/// Where a region starts and ends in bytes, and its size in KiB.
#[derive(Debug, Clone, Copy, PartialEq, Eq, Structural)]
pub struct RegionLayout {
    pub start: u64,
    pub end: u64,
    pub size_kib: u64,
}

/// Computes where a region lies in bytes and how many KiB it spans.
pub fn memory_region_layout(region: &MemoryRegionInfo) -> (layout: RegionLayout)
    requires
        region.start_frame_number <= region.end_frame_number,
        region.end_frame_number * 4096 <= u64::MAX,
    ensures
        layout.start == region.start_frame_number * 4096,
        layout.end == region.end_frame_number * 4096,
        layout.size_kib == (layout.end - layout.start) / 1024,
{
    let start = region.start_frame_number * 4096;
    let end = region.end_frame_number * 4096;
    let size_kib = (end - start) / 1024;
    RegionLayout { start, end, size_kib }
}


/// The frame numbers that a region hands out: `start..=end`, both included.
pub open spec fn region_frames(r: MemoryRegionInfo) -> Seq<u64> {
    if r.start_frame_number <= r.end_frame_number {
        Seq::new(
            (r.end_frame_number - r.start_frame_number + 1) as nat,
            |i: int| (r.start_frame_number + i) as u64,
        )
    } else {
        Seq::empty()
    }
}

/// The frame numbers of all usable regions, region after region.
pub open spec fn usable_frames(regions: Seq<MemoryRegionInfo>) -> Seq<u64>
    decreases regions.len(),
{
    if regions.len() == 0 {
        Seq::empty()
    } else {
        usable_frames(regions.drop_last()) + if regions.last().usable {
            region_frames(regions.last())
        } else {
            Seq::empty()
        }
    }
}

/// Physical addresses have no bit set from bit 52 up.
pub open spec fn valid_phys_addr(addr: int) -> bool {
    0 <= addr < 0x10_0000_0000_0000
}

/// The start address of the 4 KiB frame holding physical address `addr`,
/// through `PhysFrame::containing_address(PhysAddr::new(addr)).start_address()`
/// of the `x86_64` crate.
///
/// Trusted: `PhysAddr::new` keeps an address without bits 52..64 (and panics
/// on others, which `requires` leaves out); `containing_address` aligns it
/// down to 4096.
#[verifier::external_body]
fn frame_start_address(addr: u64) -> (start: u64)
    requires
        valid_phys_addr(addr as int),
    ensures
        start == addr - addr % 4096,
{
    PhysFrame::<Size4KiB>::containing_address(PhysAddr::new(addr)).start_address().as_u64()
}

/// Hands out the frames of the usable regions of a boot memory map, one
/// after the other.
pub struct BootFrameAlloc {
    memory_map: Vec<MemoryRegionInfo>,
    next: usize,
}

impl BootFrameAlloc {
    /// The frame numbers this allocator hands out, in order.
    pub closed spec fn frames(&self) -> Seq<u64> {
        usable_frames(self.memory_map@)
    }

    /// The regions it was made from.
    pub closed spec fn regions(&self) -> Seq<MemoryRegionInfo> {
        self.memory_map@
    }

    /// How many frames were asked for so far.
    pub closed spec fn allocated(&self) -> nat {
        self.next as nat
    }

    /// An allocator over `memory_map` that has handed out nothing yet.
    pub fn init(memory_map: Vec<MemoryRegionInfo>) -> (alloc: Self)
        ensures
            alloc.regions() == memory_map@,
            alloc.frames() == usable_frames(memory_map@),
            alloc.allocated() == 0,
    {
        BootFrameAlloc { memory_map, next: 0 }
    }

    /// The `next`-th usable frame number, if there are that many.
    fn nth_usable_frame(&self) -> (frame: Option<u64>)
        ensures
            frame == if self.allocated() < self.frames().len() {
                Some(self.frames()[self.allocated() as int])
            } else {
                None::<u64>
            },
    {
        let regions = &self.memory_map;
        let ghost all = regions@;
        let mut remaining: u128 = self.next as u128;
        let mut i: usize = 0;
        while i < regions.len()
            invariant
                i <= all.len(),
                all == regions@,
                all == self.memory_map@,
                usable_frames(all.take(i as int)).len() + remaining == self.next,
            decreases all.len() - i,
        {
            let r = regions[i];
            let ghost before = usable_frames(all.take(i as int));
            proof {
                assert(all.take(i + 1).drop_last() =~= all.take(i as int));
                assert(all.take(i + 1).last() == r);
            }
            if r.usable && r.start_frame_number <= r.end_frame_number {
                let count: u128 = (r.end_frame_number - r.start_frame_number) as u128 + 1;
                if remaining < count {
                    let frame = r.start_frame_number + remaining as u64;
                    proof {
                        let after = usable_frames(all.take(i + 1));
                        assert(after == before + region_frames(r));
                        assert(after[self.next as int] == frame);
                        lemma_usable_frames_concat(all.take(i + 1), all.skip(i + 1));
                        assert(all.take(i + 1) + all.skip(i + 1) =~= all);
                    }
                    return Some(frame);
                }
                remaining = remaining - count;
            }
            i = i + 1;
        }
        assert(all.take(all.len() as int) =~= all);
        None
    }

    /// Whether `allocate_frame` may be called: the count of frames asked for
    /// can still go up, and every usable frame up to and including the next
    /// one has a physical address without bits 52..64 set.
    pub fn can_allocate(&self) -> (ok: bool)
        ensures
            ok == (self.allocated() < usize::MAX && forall|i: int|
                0 <= i <= self.allocated() && i < self.frames().len() ==> valid_phys_addr(
                    #[trigger] self.frames()[i] * 4096,
                )),
    {
        if self.next == usize::MAX {
            return false;
        }
        let regions = &self.memory_map;
        let ghost all = regions@;
        let ghost wanted = self.next + 1;
        let mut remaining: u128 = self.next as u128 + 1;
        let mut i: usize = 0;
        while i < regions.len()
            invariant
                i <= all.len(),
                all == regions@,
                all == self.memory_map@,
                wanted == self.next + 1,
                self.next < usize::MAX,
                remaining <= wanted,
                remaining + (if usable_frames(all.take(i as int)).len() < wanted {
                    usable_frames(all.take(i as int)).len() as int
                } else {
                    wanted as int
                }) == wanted,
                forall|j: int|
                    0 <= j < usable_frames(all.take(i as int)).len() && j < wanted ==> valid_phys_addr(
                        #[trigger] usable_frames(all.take(i as int))[j] * 4096,
                    ),
            decreases all.len() - i,
        {
            let r = regions[i];
            let ghost before = usable_frames(all.take(i as int));
            proof {
                assert(all.take(i + 1).drop_last() =~= all.take(i as int));
                assert(all.take(i + 1).last() == r);
            }
            if r.usable && r.start_frame_number <= r.end_frame_number && remaining > 0 {
                let count: u128 = (r.end_frame_number - r.start_frame_number) as u128 + 1;
                let m: u128 = if remaining < count {
                    remaining
                } else {
                    count
                };
                let last = r.start_frame_number + (m - 1) as u64;
                let ghost after = usable_frames(all.take(i + 1));
                assert(after == before + region_frames(r));
                assert(before.len() + m - 1 < wanted);
                if last >= 0x100_0000_0000 {
                    proof {
                        let idx = before.len() + m - 1;
                        assert(after[idx as int] == last);
                        lemma_usable_frames_concat(all.take(i + 1), all.skip(i + 1));
                        assert(all.take(i + 1) + all.skip(i + 1) =~= all);
                        assert(usable_frames(all)[idx as int] == last);
                        assert(self.frames()[idx as int] == last);
                        assert(idx <= self.allocated());
                        assert(!valid_phys_addr(self.frames()[idx as int] * 4096));
                    }
                    return false;
                }
                proof {
                    assert forall|j: int| 0 <= j < after.len() && j < wanted implies valid_phys_addr(
                        #[trigger] after[j] * 4096,
                    ) by {
                        if j >= before.len() {
                            assert(after[j] == r.start_frame_number + (j - before.len()));
                        }
                    }
                }
                remaining = remaining - m;
            }
            i = i + 1;
        }
        proof {
            assert(all.take(all.len() as int) =~= all);
        }
        true
    }

    /// Hands out the start address of the next usable frame, or `None` once
    /// they are used up; either way the count of frames asked for goes up.
    pub fn allocate_frame(&mut self) -> (frame: Option<u64>)
        requires
            old(self).allocated() < usize::MAX,
            forall|i: int|
                0 <= i <= old(self).allocated() && i < old(self).frames().len() ==> valid_phys_addr(
                    #[trigger] old(self).frames()[i] * 4096,
                ),
        ensures
            final(self).regions() == old(self).regions(),
            final(self).frames() == old(self).frames(),
            final(self).allocated() == old(self).allocated() + 1,
            frame == if old(self).allocated() < old(self).frames().len() {
                Some((old(self).frames()[old(self).allocated() as int] * 4096) as u64)
            } else {
                None::<u64>
            },
    {
        let frame_number = self.nth_usable_frame();
        self.next = self.next + 1;
        match frame_number {
            Some(n) => Some(frame_start_address(n * 4096)),
            None => None,
        }
    }
}

/// The usable frames of two lists of regions one after the other are those
/// of the first list, then those of the second.
pub proof fn lemma_usable_frames_concat(a: Seq<MemoryRegionInfo>, b: Seq<MemoryRegionInfo>)
    ensures
        usable_frames(a + b) == usable_frames(a) + usable_frames(b),
    decreases b.len(),
{
    if b.len() == 0 {
        assert(a + b =~= a);
        assert(usable_frames(a) + usable_frames(b) =~= usable_frames(a));
    } else {
        lemma_usable_frames_concat(a, b.drop_last());
        assert((a + b).drop_last() =~= a + b.drop_last());
        assert((a + b).last() == b.last());
        let tail = if b.last().usable {
            region_frames(b.last())
        } else {
            Seq::empty()
        };
        assert(usable_frames(a) + usable_frames(b.drop_last()) + tail =~= usable_frames(a) + (
        usable_frames(b.drop_last()) + tail));
    }
}


/// A region hands out each frame from its start to its end, both included,
/// once and in order; a region whose end lies before its start hands out none.
pub proof fn lemma_region_frames(r: MemoryRegionInfo)
    ensures
        r.start_frame_number <= r.end_frame_number ==> region_frames(r).len()
            == r.end_frame_number - r.start_frame_number + 1,
        r.start_frame_number > r.end_frame_number ==> region_frames(r).len() == 0,
        forall|i: int|
            0 <= i < region_frames(r).len() ==> #[trigger] region_frames(r)[i]
                == r.start_frame_number + i,
        forall|f: u64|
            r.start_frame_number <= f <= r.end_frame_number ==> region_frames(r).contains(f),
{
    assert forall|f: u64| r.start_frame_number <= f <= r.end_frame_number implies region_frames(
        r,
    ).contains(f) by {
        let i = f - r.start_frame_number;
        assert(region_frames(r)[i] == f);
    }
}

/// Every frame of every usable region is among the frames handed out, and
/// the frames handed out number as many as the usable regions hold.
pub proof fn lemma_usable_frames_cover(regions: Seq<MemoryRegionInfo>)
    ensures
        forall|i: int, f: u64|
            0 <= i < regions.len() && (#[trigger] regions[i]).usable && regions[i].start_frame_number
                <= f <= regions[i].end_frame_number ==> #[trigger] usable_frames(regions).contains(f),
        usable_frames(regions).len() == usable_frame_count(regions),
    decreases regions.len(),
{
    if regions.len() > 0 {
        let init = regions.drop_last();
        let r = regions.last();
        lemma_usable_frames_cover(init);
        lemma_region_frames(r);
        let before = usable_frames(init);
        let tail = if r.usable {
            region_frames(r)
        } else {
            Seq::empty()
        };
        assert(usable_frames(regions) == before + tail);
        assert forall|i: int, f: u64|
            0 <= i < regions.len() && (#[trigger] regions[i]).usable
                && regions[i].start_frame_number <= f <= regions[i].end_frame_number implies #[trigger] usable_frames(
            regions,
        ).contains(f) by {
            if i < init.len() {
                assert(regions[i] == init[i]);
                assert(before.contains(f));
                let j = choose|j: int| 0 <= j < before.len() && before[j] == f;
                assert((before + tail)[j] == f);
            } else {
                assert(regions[i] == r);
                assert(tail.contains(f));
                let j = choose|j: int| 0 <= j < tail.len() && tail[j] == f;
                assert((before + tail)[before.len() + j] == f);
            }
        }
    }
}

/// How many frames the usable regions hold: `end - start + 1` for each usable
/// region whose end is not before its start.
pub open spec fn usable_frame_count(regions: Seq<MemoryRegionInfo>) -> int
    decreases regions.len(),
{
    if regions.len() == 0 {
        0
    } else {
        let r = regions.last();
        usable_frame_count(regions.drop_last()) + if r.usable && r.start_frame_number
            <= r.end_frame_number {
            r.end_frame_number - r.start_frame_number + 1
        } else {
            0
        }
    }
}

/// No two usable regions share a frame.
pub open spec fn usable_regions_disjoint(regions: Seq<MemoryRegionInfo>) -> bool {
    forall|i: int, j: int|
        0 <= i < j < regions.len() && (#[trigger] regions[i]).usable && (#[trigger] regions[j]).usable
            ==> regions[i].end_frame_number < regions[j].start_frame_number
            || regions[j].end_frame_number < regions[i].start_frame_number
}

/// Frame `f` lies in a usable region of `regions` before position `n`.
pub open spec fn in_usable_region(regions: Seq<MemoryRegionInfo>, n: int, f: u64) -> bool {
    exists|i: int|
        0 <= i < n && (#[trigger] regions[i]).usable && regions[i].start_frame_number <= f
            <= regions[i].end_frame_number
}

/// Every usable frame lies in a usable region.
pub proof fn lemma_frames_in_regions(regions: Seq<MemoryRegionInfo>)
    ensures
        forall|k: int|
            0 <= k < usable_frames(regions).len() ==> in_usable_region(
                regions,
                regions.len() as int,
                #[trigger] usable_frames(regions)[k],
            ),
    decreases regions.len(),
{
    if regions.len() > 0 {
        let init = regions.drop_last();
        let n = regions.len() as int;
        lemma_frames_in_regions(init);
        let before = usable_frames(init);
        assert forall|k: int| 0 <= k < usable_frames(regions).len() implies in_usable_region(
            regions,
            n,
            #[trigger] usable_frames(regions)[k],
        ) by {
            let f = usable_frames(regions)[k];
            if k < before.len() {
                assert(f == before[k]);
                assert(in_usable_region(init, n - 1, f));
                let i = choose|i: int|
                    0 <= i < n - 1 && (#[trigger] init[i]).usable && init[i].start_frame_number <= f
                        <= init[i].end_frame_number;
                assert(regions[i] == init[i]);
            } else {
                assert(regions[n - 1] == regions.last());
            }
        }
    }
}

/// When no two usable regions overlap, no frame number occurs twice among
/// the usable frames.
pub proof fn lemma_frames_unique(regions: Seq<MemoryRegionInfo>)
    requires
        usable_regions_disjoint(regions),
    ensures
        usable_frames(regions).no_duplicates(),
    decreases regions.len(),
{
    if regions.len() > 0 {
        let init = regions.drop_last();
        let n = regions.len() as int;
        let last = regions.last();
        assert forall|i: int, j: int|
            0 <= i < j < init.len() && (#[trigger] init[i]).usable && (#[trigger] init[j]).usable
                implies init[i].end_frame_number < init[j].start_frame_number
            || init[j].end_frame_number < init[i].start_frame_number by {
            assert(regions[i] == init[i] && regions[j] == init[j]);
        }
        lemma_frames_unique(init);
        lemma_frames_in_regions(init);
        let before = usable_frames(init);
        let all = usable_frames(regions);
        assert forall|a: int, b: int| 0 <= a < all.len() && 0 <= b < all.len() && a != b implies all[a]
            != all[b] by {
            if a < before.len() && b < before.len() {
                assert(all[a] == before[a] && all[b] == before[b]);
            } else if a >= before.len() && b >= before.len() {
            } else {
                let (x, y) = if a < before.len() {
                    (a, b)
                } else {
                    (b, a)
                };
                let f = before[x];
                assert(all[x] == f);
                assert(in_usable_region(init, n - 1, f));
                let i = choose|i: int|
                    0 <= i < n - 1 && (#[trigger] init[i]).usable && init[i].start_frame_number <= f
                        <= init[i].end_frame_number;
                assert(regions[i] == init[i]);
                assert(regions[n - 1] == last);
                assert(last.usable);
            }
        }
    }
}

impl BootFrameAlloc {
    /// The allocator hands out every frame of every usable region of its
    /// memory map, and as many frames as those regions hold in all.
    pub proof fn lemma_allocator_covers_regions(&self)
        ensures
            forall|i: int, f: u64|
                0 <= i < self.regions().len() && (#[trigger] self.regions()[i]).usable
                    && self.regions()[i].start_frame_number <= f
                    <= self.regions()[i].end_frame_number ==> #[trigger] self.frames().contains(f),
            self.frames().len() == usable_frame_count(self.regions()),
    {
        lemma_usable_frames_cover(self.memory_map@);
    }

    /// The allocator never hands out the same frame twice when no two usable
    /// regions of its memory map overlap: the `i`-th and the `j`-th frame it
    /// hands out differ.
    pub proof fn lemma_allocations_distinct(&self, i: int, j: int)
        requires
            usable_regions_disjoint(self.regions()),
            0 <= i < j < self.frames().len(),
        ensures
            self.frames()[i] != self.frames()[j],
    {
        lemma_frames_unique(self.memory_map@);
    }
}

/// Virtual addresses that `VirtAddr::new` accepts: bits 48..64 are copies of
/// bit 47, or all clear.
pub open spec fn virt_addr_accepted(addr: int) -> bool {
    0 <= addr < 0x1_0000_0000_0000 || 0xFFFF_8000_0000_0000 <= addr <= u64::MAX
}

/// The canonical form `VirtAddr::new` makes of an accepted address: bit 47
/// copied into bits 48..64.
pub open spec fn sign_extended(addr: int) -> int {
    if 0x8000_0000_0000 <= addr < 0x1_0000_0000_0000 {
        addr + 0xFFFF_0000_0000_0000
    } else {
        addr
    }
}

/// The start of the 4 KiB page that holds virtual address `addr`.
pub open spec fn page_start_of(addr: int) -> int {
    sign_extended(addr) - addr % 4096
}

/// The start address of the 4 KiB page holding virtual address `addr`,
/// through `Page::containing_address(VirtAddr::new(addr)).start_address()`
/// of the `x86_64` crate.
///
/// Trusted: `VirtAddr::new` accepts an address whose bits 48..64 are all
/// clear or all copies of bit 47 (it panics on others, which `requires`
/// leaves out) and copies bit 47 into bits 48..64; `containing_address`
/// aligns the result down to 4096.
#[verifier::external_body]
fn page_start(addr: u64) -> (start: u64)
    requires
        virt_addr_accepted(addr as int),
    ensures
        start == page_start_of(addr as int),
{
    Page::<Size4KiB>::containing_address(VirtAddr::new(addr)).start_address().as_u64()
}

/// The start addresses of the pages from the one holding `start` up to, but
/// not including, the one holding `end`.
pub open spec fn page_starts(start: int, end: int) -> Seq<u64> {
    let first = page_start_of(start);
    let last = page_start_of(end);
    Seq::new(
        if first < last {
            ((last - first) / 4096) as nat
        } else {
            0
        },
        |i: int| (first + i * 4096) as u64,
    )
}

/// Both addresses lie on the same side of the non-canonical hole: both in
/// the lower half, or both in the upper half once sign-extended.
pub open spec fn same_half(start: int, end: int) -> bool {
    (start < 0x8000_0000_0000) == (end < 0x8000_0000_0000)
}

/// The pages of the range `Page::range(containing(start), containing(end))`:
/// from the page holding `start` up to, and not including, the page holding
/// `end`. Both ends lie in the same half of the address space, so the range
/// steps through consecutive canonical pages.
pub fn pages_between(start: u64, end: u64) -> (pages: Vec<u64>)
    requires
        virt_addr_accepted(start as int),
        virt_addr_accepted(end as int),
        same_half(start as int, end as int),
    ensures
        pages@ == page_starts(start as int, end as int),
{
    let first = page_start(start);
    let last = page_start(end);
    let count: u64 = if first < last {
        (last - first) / 4096
    } else {
        0
    };
    let ghost expected = page_starts(start as int, end as int);
    let mut pages: Vec<u64> = Vec::new();
    let mut i: u64 = 0;
    while i < count
        invariant
            i <= count,
            first < last ==> count == (last - first) / 4096,
            !(first < last) ==> count == 0,
            first == page_start_of(start as int),
            last == page_start_of(end as int),
            expected == page_starts(start as int, end as int),
            expected.len() == count,
            pages@ == expected.take(i as int),
        decreases count - i,
    {
        assert(i * 4096 <= last - first);
        let page = first + i * 4096;
        assert(expected[i as int] == page);
        pages.push(page);
        assert(pages@ =~= expected.take(i + 1));
        i = i + 1;
    }
    assert(expected.take(count as int) =~= expected);
    pages
}

/// The pages that back the kernel heap. The end page, the one holding the
/// heap's last byte, is excluded, so these are the first 127 of its 128 pages.
pub fn heap_pages() -> (pages: Vec<u64>)
    ensures
        pages@ == page_starts(HEAP_START as int, (HEAP_START + HEAP_SIZE - 1) as int),
        pages@.len() == 127,
        forall|i: int| 0 <= i < 127 ==> #[trigger] pages@[i] == HEAP_START + i * 4096,
{
    pages_between(HEAP_START, HEAP_START + HEAP_SIZE - 1)
}

} // verus!
