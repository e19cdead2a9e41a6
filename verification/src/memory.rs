//! Virtual addresses and physical frames: where a virtual address points in
//! the four levels of page tables, and which frames of the machine's memory
//! map are free to be handed out.

use vstd::prelude::*;

verus! {

/// The number of bytes in a page, and in a frame.
pub const PAGE_SIZE: u64 = 4096;

/// The bits of an index into a page table, once it is shifted down: a page
/// table has 512 entries.
pub const IDX_MASK: u64 = 0x1ff;

/// The bits of the offset in a page.
pub const OFFSET_MASK: u64 = 0xfff;

/// The index that `addr` has in the page table of level `level`, for the
/// levels 1 to 4: nine bits of the address, the lowest of which is bit 12 at
/// level 1, 21 at level 2, 30 at level 3 and 39 at level 4.
pub open spec fn page_table_index(addr: int, level: int) -> int {
    if level == 1 {
        (addr / 0x1000) % 512
    } else if level == 2 {
        (addr / 0x20_0000) % 512
    } else if level == 3 {
        (addr / 0x4000_0000) % 512
    } else {
        (addr / 0x80_0000_0000) % 512
    }
}

/// The index of `addr` in the page table of level 4: bits 39 to 47.
pub fn level4_page_table_index(addr: u64) -> (index: u64)
    ensures
        index == page_table_index(addr as int, 4),
        index < 512,
{
    assert((addr >> 39) & 0x1ff == (addr / 0x80_0000_0000) % 512) by (bit_vector);
    (addr >> 39) & IDX_MASK
}

/// The index of `addr` in the page table of level 3: bits 30 to 38.
pub fn level3_page_table_index(addr: u64) -> (index: u64)
    ensures
        index == page_table_index(addr as int, 3),
        index < 512,
{
    assert((addr >> 30) & 0x1ff == (addr / 0x4000_0000) % 512) by (bit_vector);
    (addr >> 30) & IDX_MASK
}

/// The index of `addr` in the page table of level 2: bits 21 to 29.
pub fn level2_page_table_index(addr: u64) -> (index: u64)
    ensures
        index == page_table_index(addr as int, 2),
        index < 512,
{
    assert((addr >> 21) & 0x1ff == (addr / 0x20_0000) % 512) by (bit_vector);
    (addr >> 21) & IDX_MASK
}

/// The index of `addr` in the page table of level 1: bits 12 to 20.
pub fn level1_page_table_index(addr: u64) -> (index: u64)
    ensures
        index == page_table_index(addr as int, 1),
        index < 512,
{
    assert((addr >> 12) & 0x1ff == (addr / 0x1000) % 512) by (bit_vector);
    (addr >> 12) & IDX_MASK
}

/// The offset of `addr` in its page: bits 0 to 11.
pub fn offset_in_page(addr: u64) -> (offset: u64)
    ensures
        offset == addr % PAGE_SIZE,
{
    assert(addr & 0xfff == addr % 4096) by (bit_vector);
    addr & OFFSET_MASK
}

/// The first address of the frame that contains `addr`.
pub open spec fn frame_of(addr: int) -> int {
    addr - addr % (PAGE_SIZE as int)
}

/// One region of the machine's memory map: the addresses from `start_addr`
/// up to, and without, `end_addr`, and whether they are free to be used.
#[derive(Debug, Clone, Copy, PartialEq, Eq, Structural)]
pub struct MemoryRegion {
    pub start_addr: u64,
    pub end_addr: u64,
    pub usable: bool,
}

impl MemoryRegion {
    /// The number of frames that the region gives: none where it is not
    /// usable or empty, else one for every 4096 bytes from its start, the last
    /// of which may be cut short by its end.
    pub open spec fn frame_count(self) -> int {
        if self.usable && self.start_addr < self.end_addr {
            (self.end_addr - self.start_addr - 1) / (PAGE_SIZE as int) + 1
        } else {
            0
        }
    }

    /// The first addresses of the frames that the region gives, in ascending
    /// order.
    pub open spec fn frames(self) -> Seq<int> {
        Seq::new(
            self.frame_count() as nat,
            |k: int| frame_of(self.start_addr + k * (PAGE_SIZE as int)),
        )
    }
}

/// The first addresses of the frames that the usable regions of
/// `memory_map` give: region by region, and in each of them in ascending
/// order.
pub open spec fn usable_frames(memory_map: Seq<MemoryRegion>) -> Seq<int>
    decreases memory_map.len(),
{
    if memory_map.len() == 0 {
        Seq::empty()
    } else {
        memory_map[0].frames() + usable_frames(memory_map.skip(1))
    }
}

/// Every usable frame starts at a multiple of the frame size.
pub proof fn lemma_frames_are_aligned(memory_map: Seq<MemoryRegion>, n: int)
    requires
        0 <= n < usable_frames(memory_map).len(),
    ensures
        usable_frames(memory_map)[n] % (PAGE_SIZE as int) == 0,
    decreases memory_map.len(),
{
    if n >= memory_map[0].frame_count() {
        lemma_frames_are_aligned(memory_map.skip(1), n - memory_map[0].frame_count());
    }
}

/// Whether the regions of `memory_map` start at multiples of the frame size,
/// stand in ascending order, and share no address.
pub open spec fn is_ordered(memory_map: Seq<MemoryRegion>) -> bool {
    &&& forall|i: int|
        0 <= i < memory_map.len() ==> (#[trigger] memory_map[i]).start_addr % PAGE_SIZE == 0
            && memory_map[i].start_addr <= memory_map[i].end_addr
    &&& forall|i: int, j: int|
        0 <= i < j < memory_map.len() ==> (#[trigger] memory_map[i]).end_addr
            <= (#[trigger] memory_map[j]).start_addr
}

/// Without its first region an ordered memory map is ordered still.
proof fn lemma_rest_is_ordered(memory_map: Seq<MemoryRegion>)
    requires
        is_ordered(memory_map),
        memory_map.len() > 0,
    ensures
        is_ordered(memory_map.skip(1)),
{
    let rest = memory_map.skip(1);
    assert forall|i: int| 0 <= i < rest.len() implies (#[trigger] rest[i]).start_addr % PAGE_SIZE
        == 0 && rest[i].start_addr <= rest[i].end_addr by {
        assert(rest[i] == memory_map[i + 1]);
    }
    assert forall|i: int, j: int| 0 <= i < j < rest.len() implies (#[trigger] rest[i]).end_addr <= (
    #[trigger] rest[j]).start_addr by {
        assert(rest[i] == memory_map[i + 1]);
        assert(rest[j] == memory_map[j + 1]);
    }
}

/// In an ordered memory map, a usable frame does not start before the first
/// region.
proof fn lemma_frames_start_in_the_map(memory_map: Seq<MemoryRegion>, n: int)
    requires
        is_ordered(memory_map),
        0 <= n < usable_frames(memory_map).len(),
    ensures
        memory_map.len() > 0,
        memory_map[0].start_addr <= usable_frames(memory_map)[n],
    decreases memory_map.len(),
{
    let first = memory_map[0];
    let rest = memory_map.skip(1);
    if n >= first.frame_count() {
        lemma_rest_is_ordered(memory_map);
        lemma_frames_start_in_the_map(rest, n - first.frame_count());
        assert(rest[0] == memory_map[1]);
    }
}

/// No frame twice. In an ordered memory map the usable frames ascend, so
/// that two positions never give the same frame.
pub proof fn lemma_frames_ascend(memory_map: Seq<MemoryRegion>, m: int, n: int)
    requires
        is_ordered(memory_map),
        0 <= m < n < usable_frames(memory_map).len(),
    ensures
        usable_frames(memory_map)[m] < usable_frames(memory_map)[n],
    decreases memory_map.len(),
{
    let first = memory_map[0];
    let rest = memory_map.skip(1);
    let count = first.frame_count();
    if n >= count {
        lemma_rest_is_ordered(memory_map);
        if m >= count {
            lemma_frames_ascend(rest, m - count, n - count);
        } else {
            // the frame at `m` lies in the first region, the one at `n` behind it
            lemma_frames_start_in_the_map(rest, n - count);
            assert(rest[0] == memory_map[1]);
            assert(first.start_addr + m * 4096 < first.end_addr) by (nonlinear_arith)
                requires
                    0 <= m < (first.end_addr - first.start_addr - 1) / 4096 + 1,
                    first.start_addr < first.end_addr,
            ;
        }
    } else {
        assert(first.start_addr + m * 4096 < first.start_addr + n * 4096);
    }
}

/// What a frame allocator is, as plain mathematics.
pub struct FrameState {
    /// The machine's memory map.
    pub memory_map: Seq<MemoryRegion>,
    /// How many frames have been asked for.
    pub next: int,
}

impl FrameState {
    /// The frame that is handed out next, if there is one left.
    pub open spec fn frame(self) -> Option<int> {
        if self.next < usable_frames(self.memory_map).len() && self.next < usize::MAX {
            Some(usable_frames(self.memory_map)[self.next])
        } else {
            None
        }
    }

    /// The state after a frame has been asked for.
    pub open spec fn advance(self) -> FrameState {
        FrameState {
            next: if self.next < usize::MAX {
                self.next + 1
            } else {
                self.next
            },
            ..self
        }
    }
}

/// The frame at a position that lies in the first region is that region's;
/// a later position is counted from the end of the first region.
proof fn lemma_usable_frames_step(memory_map: Seq<MemoryRegion>, n: int)
    requires
        memory_map.len() > 0,
        0 <= n,
    ensures
        usable_frames(memory_map).len() == memory_map[0].frame_count() + usable_frames(
            memory_map.skip(1),
        ).len(),
        n < memory_map[0].frame_count() ==> usable_frames(memory_map)[n]
            == memory_map[0].frames()[n],
        memory_map[0].frame_count() <= n < usable_frames(memory_map).len() ==> usable_frames(
            memory_map,
        )[n] == usable_frames(memory_map.skip(1))[n - memory_map[0].frame_count()],
{
}

/// Hands out the frames of the usable regions of a memory map, each once,
/// in the order of the map.
pub struct BootInfoFrameAllocator {
    memory_map: Vec<MemoryRegion>,
    next: usize,
}

impl View for BootInfoFrameAllocator {
    type V = FrameState;

    closed spec fn view(&self) -> FrameState {
        FrameState { memory_map: self.memory_map@, next: self.next as int }
    }
}

impl BootInfoFrameAllocator {
    /// An allocator over `memory_map` that has handed out nothing yet.
    pub fn init(memory_map: Vec<MemoryRegion>) -> (r: Self)
        ensures
            r@ == (FrameState { memory_map: memory_map@, next: 0 }),
    {
        BootInfoFrameAllocator { memory_map, next: 0 }
    }

    /// The first address of the frame at position `n` among the usable
    /// frames, if there are that many.
    pub fn nth_usable_frame(&self, n: usize) -> (r: Option<u64>)
        ensures
            match r {
                Some(frame) => n < usable_frames(self@.memory_map).len() && frame == usable_frames(
                    self@.memory_map,
                )[n as int],
                None => n >= usable_frames(self@.memory_map).len(),
            },
    {
        let mut i: usize = 0;
        let mut left: usize = n;
        let ghost all = usable_frames(self.memory_map@);
        proof {
            assert(self.memory_map@.skip(0) =~= self.memory_map@);
        }
        while i < self.memory_map.len()
            invariant
                0 <= i <= self.memory_map@.len(),
                0 <= left <= n,
                all == usable_frames(self.memory_map@),
                all.len() - n == usable_frames(self.memory_map@.skip(i as int)).len() - left,
                left < usable_frames(self.memory_map@.skip(i as int)).len() ==> all[n as int]
                    == usable_frames(self.memory_map@.skip(i as int))[left as int],
            decreases self.memory_map@.len() - i,
        {
            let region = self.memory_map[i];
            proof {
                let rest = self.memory_map@.skip(i as int);
                assert(rest[0] == region);
                assert(rest.skip(1) =~= self.memory_map@.skip(i + 1));
                lemma_usable_frames_step(rest, left as int);
            }
            if region.usable && region.start_addr < region.end_addr {
                let count: u64 = (region.end_addr - region.start_addr - 1) / PAGE_SIZE + 1;
                if (left as u64) < count {
                    assert(left * 4096 <= region.end_addr - region.start_addr - 1) by (nonlinear_arith)
                        requires
                            left <= (region.end_addr - region.start_addr - 1) / 4096,
                            region.end_addr - region.start_addr - 1 >= 0,
                    ;
                    let addr: u64 = region.start_addr + (left as u64) * PAGE_SIZE;
                    return Some(addr - addr % PAGE_SIZE);
                }
                left = left - (count as usize);
            }
            i = i + 1;
        }
        proof {
            assert(self.memory_map@.skip(i as int) =~= Seq::empty());
        }
        None
    }

    /// Hands out the next frame by its first address, or `None` when the
    /// usable regions have no frame left.
    pub fn allocate_frame(&mut self) -> (r: Option<u64>)
        ensures
            final(self)@ == old(self)@.advance(),
            match r {
                Some(frame) => old(self)@.frame() == Some(frame as int) && frame % PAGE_SIZE == 0,
                None => old(self)@.frame() is None,
            },
    {
        if self.next == usize::MAX {
            return None;
        }
        proof {
            if self.next < usable_frames(self.memory_map@).len() {
                lemma_frames_are_aligned(self.memory_map@, self.next as int);
            }
        }
        let frame = self.nth_usable_frame(self.next);
        self.next = self.next + 1;
        frame
    }
}

/// The frame allocator that never has a frame to give.
pub struct EmptyFrameAllocator;

impl EmptyFrameAllocator {
    /// Fails.
    pub fn allocate_frame(&mut self) -> (r: Option<u64>)
        ensures
            r is None,
    {
        None
    }
}

} // verus!
