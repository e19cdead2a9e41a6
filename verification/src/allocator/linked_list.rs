//! The free-list allocator: a list of free regions, searched first-fit. A
//! region that is larger than the request is split, and the rest goes back
//! to the list. Freed blocks go to the front of the list; neighbours are
//! never merged.

use crate::allocator::{
    all_placed_in, as_int, checked_align_up, lemma_multiple_of_divisor, lemma_pow2_divides,
    lemma_pow2_positive, lemma_round_up, pairwise_disjoint, round_up, Allocation, Layout, Request,
};
use std::collections::VecDeque;
use vstd::arithmetic::power2::is_pow2;
use vstd::multiset::Multiset;
use vstd::prelude::*;

verus! {

/// The bytes that the record of a free region takes: a size and a link.
/// No free region and no block is smaller.
pub const NODE_SIZE: usize = 16;

/// The alignment of the record of a free region. Every free region and
/// every block starts at a multiple of it.
pub const NODE_ALIGN: usize = 8;

/// A range of addresses, `[start, start + size)`.
pub struct Region {
    pub start: int,
    pub size: int,
}

impl Region {
    /// The first address behind the region.
    pub open spec fn end(self) -> int {
        self.start + self.size
    }

    /// Whether some address belongs to both regions.
    pub open spec fn overlaps(self, other: Region) -> bool {
        &&& self.start < self.end()
        &&& other.start < other.end()
        &&& self.start < other.end()
        &&& other.start < self.end()
    }

    /// Whether every address of the region belongs to `other`.
    pub open spec fn within(self, other: Region) -> bool {
        other.start <= self.start && self.end() <= other.end()
    }

    /// Whether the region can stand in a free list over
    /// `[heap_start, heap_end)`: it can hold a record, and lies in the heap.
    pub open spec fn is_free_region_of(self, heap_start: int, heap_end: int) -> bool {
        &&& self.start % (NODE_ALIGN as int) == 0
        &&& self.size >= NODE_SIZE
        &&& heap_start <= self.start
        &&& self.end() <= heap_end
    }
}

/// The alignment that a block gets for a request aligned to `align`: at
/// least that of a record.
pub open spec fn padded_align(align: int) -> int {
    if align < NODE_ALIGN {
        NODE_ALIGN as int
    } else {
        align
    }
}

/// The size that a block gets for a request of `size` bytes aligned to
/// `align`: `size` rounded up to the padded alignment, and at least the size
/// of a record.
pub open spec fn padded_size(size: int, align: int) -> int {
    let rounded = round_up(size, padded_align(align));
    if rounded < NODE_SIZE {
        NODE_SIZE as int
    } else {
        rounded
    }
}

/// The block that an allocation occupies: it starts where the allocation
/// starts, and has the padded size.
pub open spec fn block_of(a: Allocation) -> Region {
    Region { start: a.addr, size: padded_size(a.size, a.align) }
}

/// Whether a block of `size` bytes aligned to `align` can be cut from the
/// front of `region`: the block must end inside the region, and what is left
/// behind it must be nothing, or enough for a record.
pub open spec fn fits(region: Region, size: int, align: int) -> bool {
    let end = round_up(region.start, align) + size;
    &&& end <= region.end()
    &&& (region.end() - end == 0 || region.end() - end >= NODE_SIZE)
}

/// The position in `free` of the first region that a block of `size` bytes
/// aligned to `align` fits in.
pub open spec fn first_fit(free: Seq<Region>, size: int, align: int) -> Option<int>
    decreases free.len(),
{
    if free.len() == 0 {
        None
    } else if fits(free[0], size, align) {
        Some(0)
    } else {
        match first_fit(free.skip(1), size, align) {
            Some(i) => Some(i + 1),
            None => None,
        }
    }
}

/// `first_fit` finds a region that fits and has no fitting region before
/// it, and finds none only where none fits.
pub proof fn lemma_first_fit(free: Seq<Region>, size: int, align: int)
    ensures
        match first_fit(free, size, align) {
            Some(i) => {
                &&& 0 <= i < free.len()
                &&& fits(free[i], size, align)
                &&& forall|j: int| 0 <= j < i ==> !fits(#[trigger] free[j], size, align)
            },
            None => forall|j: int| 0 <= j < free.len() ==> !fits(#[trigger] free[j], size, align),
        },
    decreases free.len(),
{
    if free.len() > 0 && !fits(free[0], size, align) {
        let rest = free.skip(1);
        lemma_first_fit(rest, size, align);
        match first_fit(rest, size, align) {
            Some(i) => {
                assert forall|j: int| 0 <= j < i + 1 implies !fits(
                    #[trigger] free[j],
                    size,
                    align,
                ) by {
                    if j > 0 {
                        assert(free[j] == rest[j - 1]);
                    }
                }
            },
            None => {
                assert forall|j: int| 0 <= j < free.len() implies !fits(
                    #[trigger] free[j],
                    size,
                    align,
                ) by {
                    if j > 0 {
                        assert(free[j] == rest[j - 1]);
                    }
                }
            },
        }
    }
}

/// The position that `first_fit` returns is the only one that fits and has
/// no fitting region before it.
pub proof fn lemma_first_fit_is(free: Seq<Region>, size: int, align: int, i: int)
    requires
        0 <= i <= free.len(),
        forall|j: int| 0 <= j < i ==> !fits(#[trigger] free[j], size, align),
        i < free.len() ==> fits(free[i], size, align),
    ensures
        first_fit(free, size, align) == (if i < free.len() {
            Some(i)
        } else {
            None
        }),
{
    lemma_first_fit(free, size, align);
}

/// What a free-list allocator is, as plain mathematics.
pub struct FreeListState {
    /// The first address of the heap.
    pub heap_start: int,
    /// The first address behind the heap.
    pub heap_end: int,
    /// The free regions, in the order in which they are searched.
    pub free: Seq<Region>,
    /// The outstanding allocations.
    pub live: Multiset<Allocation>,
}

impl FreeListState {
    /// The state before a heap is given: no free region, nothing
    /// outstanding.
    pub open spec fn empty() -> FreeListState {
        FreeListState { heap_start: 0, heap_end: 0, free: Seq::empty(), live: Multiset::empty() }
    }

    /// The state right after `init`: the whole heap is one free region.
    pub open spec fn fresh(heap_start: int, heap_size: int) -> FreeListState {
        FreeListState {
            heap_start,
            heap_end: heap_start + heap_size,
            free: seq![Region { start: heap_start, size: heap_size }],
            live: Multiset::empty(),
        }
    }

    /// Whether the outstanding allocation `a` is where the allocator may
    /// have put it: aligned as requested and as a record needs, with its
    /// whole block in the heap.
    pub open spec fn holds(self, a: Allocation) -> bool {
        &&& a.size >= 0
        &&& a.align > 0
        &&& a.addr % a.align == 0
        &&& block_of(a).is_free_region_of(self.heap_start, self.heap_end)
    }

    /// Whether `region` shares no address with a free region or with the
    /// block of an outstanding allocation.
    pub open spec fn is_unused(self, region: Region) -> bool {
        &&& forall|i: int| 0 <= i < self.free.len() ==> !region.overlaps(#[trigger] self.free[i])
        &&& forall|a: Allocation| #[trigger]
            self.live.contains(a) ==> !region.overlaps(block_of(a))
    }

    /// The invariant of the allocator. Every free region can hold a record
    /// and lies in the heap. Every outstanding allocation is aligned as
    /// requested and its block lies in the heap. No address belongs to two
    /// free regions, to two blocks, or to a free region and a block.
    pub open spec fn wf(self) -> bool {
        &&& 0 <= self.heap_start <= self.heap_end <= usize::MAX
        &&& forall|i: int|
            0 <= i < self.free.len() ==> (#[trigger] self.free[i]).is_free_region_of(
                self.heap_start,
                self.heap_end,
            )
        &&& forall|i: int, j: int|
            0 <= i < j < self.free.len() ==> !(#[trigger] self.free[i]).overlaps(
                #[trigger] self.free[j],
            )
        &&& forall|a: Allocation| #[trigger]
            self.live.contains(a) ==> self.holds(a) && self.live.count(a) == 1
        &&& forall|a: Allocation, b: Allocation|
            a != b && #[trigger] self.live.contains(a) && #[trigger] self.live.contains(b)
                ==> !block_of(a).overlaps(block_of(b))
        &&& forall|a: Allocation, i: int|
            #[trigger] self.live.contains(a) && 0 <= i < self.free.len() ==> !block_of(
                a,
            ).overlaps(#[trigger] self.free[i])
    }

    /// The state with `region` put at the front of the free list.
    pub open spec fn add_free_region(self, region: Region) -> FreeListState {
        FreeListState { free: seq![region] + self.free, ..self }
    }

    /// The state after a request for `size` bytes aligned to `align`, and
    /// the address handed out, if any. The block is cut from the front of the
    /// first free region that it fits in; what is left of that region goes to
    /// the front of the free list. A request that fits nowhere leaves the
    /// state as it is.
    pub open spec fn allocate(self, size: int, align: int) -> (FreeListState, Option<int>) {
        let block_size = padded_size(size, align);
        let block_align = padded_align(align);
        match first_fit(self.free, block_size, block_align) {
            None => (self, None),
            Some(i) => {
                let region = self.free[i];
                let start = round_up(region.start, block_align);
                let end = start + block_size;
                let others = self.free.remove(i);
                (
                    FreeListState {
                        free: if end < region.end() {
                            seq![Region { start: end, size: region.end() - end }] + others
                        } else {
                            others
                        },
                        live: self.live.insert(Allocation { addr: start, size, align }),
                        ..self
                    },
                    Some(start),
                )
            },
        }
    }

    /// The state after the outstanding allocation `a` is given back: its
    /// block goes to the front of the free list.
    pub open spec fn deallocate(self, a: Allocation) -> FreeListState {
        FreeListState { free: seq![block_of(a)] + self.free, live: self.live.remove(a), ..self }
    }
}

/// A padded size is a multiple of the alignment of a record, and not
/// smaller than a record or than the size asked for. A padded alignment is a
/// multiple of the alignment asked for and of that of a record.
pub proof fn lemma_padded(size: int, align: int)
    requires
        size >= 0,
        is_pow2(align),
    ensures
        padded_size(size, align) >= size,
        padded_size(size, align) >= NODE_SIZE,
        padded_size(size, align) % (NODE_ALIGN as int) == 0,
        padded_align(align) > 0,
        padded_align(align) % align == 0,
        padded_align(align) % (NODE_ALIGN as int) == 0,
        is_pow2(padded_align(align)),
{
    let a = padded_align(align);
    assert(is_pow2(8) && is_pow2(16)) by {
        reveal_with_fuel(is_pow2, 5);
    }
    lemma_pow2_positive(align);
    if align < NODE_ALIGN {
        lemma_pow2_divides(align, 8);
    } else {
        lemma_pow2_divides(8, align);
        vstd::arithmetic::div_mod::lemma_mod_self_0(align);
    }
    lemma_round_up(size, a);
    lemma_multiple_of_divisor(round_up(size, a), 8, a);
}

/// The requested bytes of an allocation belong to its block.
pub proof fn lemma_block_covers(a: Allocation)
    requires
        a.size >= 0,
    ensures
        block_of(a).start == a.addr,
        a.end() <= block_of(a).end(),
        block_of(a).size >= NODE_SIZE,
{
    lemma_round_up(a.size, padded_align(a.align));
}

/// Under the invariant, every outstanding allocation is aligned as
/// requested and lies in the heap, and no address belongs to two of them.
pub proof fn lemma_wf_live(s: FreeListState)
    requires
        s.wf(),
    ensures
        all_placed_in(s.live, s.heap_start, s.heap_end),
        pairwise_disjoint(s.live),
{
    assert forall|a: Allocation| s.live.contains(a) implies a.placed_in(
        s.heap_start,
        s.heap_end,
    ) by {
        lemma_block_covers(a);
    }
    assert forall|a: Allocation, b: Allocation|
        a != b && s.live.contains(a) && s.live.contains(b) implies !a.overlaps(b) by {
        lemma_block_covers(a);
        lemma_block_covers(b);
        assert(!block_of(a).overlaps(block_of(b)));
    }
    assert forall|a: Allocation| s.live.count(a) >= 2 implies !a.overlaps(a) by {
        assert(s.live.contains(a));
    }
}

/// Putting an unused region that can hold a record at the front of the free
/// list keeps the invariant.
pub proof fn lemma_add_free_region(s: FreeListState, region: Region)
    requires
        s.wf(),
        region.is_free_region_of(s.heap_start, s.heap_end),
        s.is_unused(region),
    ensures
        s.add_free_region(region).wf(),
{
    let t = s.add_free_region(region);
    assert forall|i: int| 0 <= i < t.free.len() implies (#[trigger] t.free[i]).is_free_region_of(
        t.heap_start,
        t.heap_end,
    ) by {
        if i > 0 {
            assert(t.free[i] == s.free[i - 1]);
        }
    }
    assert forall|i: int, j: int| 0 <= i < j < t.free.len() implies !(#[trigger] t.free[i]).overlaps(
        #[trigger] t.free[j],
    ) by {
        assert(t.free[j] == s.free[j - 1]);
        if i > 0 {
            assert(t.free[i] == s.free[i - 1]);
        }
    }
    assert forall|a: Allocation, i: int|
        #[trigger] t.live.contains(a) && 0 <= i < t.free.len() implies !block_of(a).overlaps(
        #[trigger] t.free[i],
    ) by {
        if i > 0 {
            assert(t.free[i] == s.free[i - 1]);
        }
    }
}

/// Taking a region out of the free list keeps the invariant, and leaves the
/// region unused.
pub proof fn lemma_take_region(s: FreeListState, i: int)
    requires
        s.wf(),
        0 <= i < s.free.len(),
    ensures
        (FreeListState { free: s.free.remove(i), ..s }).wf(),
        (FreeListState { free: s.free.remove(i), ..s }).is_unused(s.free[i]),
{
    let others = s.free.remove(i);
    assert forall|k: int| 0 <= k < others.len() implies #[trigger] others[k] == s.free[if k < i {
        k
    } else {
        k + 1
    }] by {}
    assert forall|k: int| 0 <= k < others.len() implies !s.free[i].overlaps(
        #[trigger] others[k],
    ) by {
        if k < i {
            assert(!s.free[k].overlaps(s.free[i]));
        } else {
            assert(!s.free[i].overlaps(s.free[k + 1]));
        }
    }
    assert forall|b: Allocation| #[trigger] s.live.contains(b) implies !s.free[i].overlaps(
        block_of(b),
    ) by {
        assert(!block_of(b).overlaps(s.free[i]));
    }
}

/// Making an allocation outstanding whose block is unused keeps the
/// invariant. The allocation was not outstanding before.
pub proof fn lemma_add_allocation(s: FreeListState, a: Allocation)
    requires
        s.wf(),
        s.holds(a),
        s.is_unused(block_of(a)),
    ensures
        (FreeListState { live: s.live.insert(a), ..s }).wf(),
        !s.live.contains(a),
{
    let t = FreeListState { live: s.live.insert(a), ..s };
    if s.live.contains(a) {
        assert(!block_of(a).overlaps(block_of(a)));
    }
    assert forall|b: Allocation| #[trigger] t.live.contains(b) implies t.holds(b) && t.live.count(
        b,
    ) == 1 by {
        if b != a {
            assert(s.live.contains(b));
        }
    }
    assert forall|b: Allocation, c: Allocation|
        b != c && #[trigger] t.live.contains(b) && #[trigger] t.live.contains(
            c,
        ) implies !block_of(b).overlaps(block_of(c)) by {
        if b != a {
            assert(s.live.contains(b));
        }
        if c != a {
            assert(s.live.contains(c));
        }
    }
    assert forall|b: Allocation, k: int|
        #[trigger] t.live.contains(b) && 0 <= k < t.free.len() implies !block_of(b).overlaps(
        #[trigger] t.free[k],
    ) by {
        if b != a {
            assert(s.live.contains(b));
        }
    }
}

/// A request keeps the invariant. The block that is handed out is aligned
/// as requested, lies in the heap, was not outstanding before, and shares no
/// address with an allocation that was.
pub proof fn lemma_allocate(s: FreeListState, size: int, align: int)
    requires
        s.wf(),
        size >= 0,
        is_pow2(align),
    ensures
        s.allocate(size, align).0.wf(),
        s.allocate(size, align).0.heap_start == s.heap_start,
        s.allocate(size, align).0.heap_end == s.heap_end,
        s.allocate(size, align).1 matches Some(addr) ==> {
            let a = Allocation { addr, size, align };
            &&& a.placed_in(s.heap_start, s.heap_end)
            &&& !s.live.contains(a)
            &&& forall|b: Allocation| s.live.contains(b) ==> !a.overlaps(b)
        },
{
    let block_size = padded_size(size, align);
    let block_align = padded_align(align);
    lemma_padded(size, align);
    lemma_pow2_positive(align);
    lemma_first_fit(s.free, block_size, block_align);
    if let Some(i) = first_fit(s.free, block_size, block_align) {
        let region = s.free[i];
        let start = round_up(region.start, block_align);
        let end = start + block_size;
        let a = Allocation { addr: start, size, align };
        let rest = Region { start: end, size: region.end() - end };
        lemma_round_up(region.start, block_align);
        lemma_multiple_of_divisor(start, align, block_align);
        lemma_multiple_of_divisor(start, NODE_ALIGN as int, block_align);
        lemma_block_covers(a);
        assert(block_of(a).within(region));

        // the region leaves the free list
        let taken = FreeListState { free: s.free.remove(i), ..s };
        lemma_take_region(s, i);
        // the block becomes an outstanding allocation
        let given = FreeListState { live: s.live.insert(a), ..taken };
        lemma_add_allocation(taken, a);
        assert forall|b: Allocation| s.live.contains(b) implies !a.overlaps(b) by {
            lemma_block_covers(b);
        }
        // what is left of the region goes back to the free list
        if end < region.end() {
            assert(rest.within(region));
            assert(given.is_unused(rest)) by {
                assert forall|b: Allocation| #[trigger] given.live.contains(b) implies !rest.overlaps(
                    block_of(b),
                ) by {
                    if b != a {
                        assert(taken.live.contains(b));
                    }
                }
            }
            lemma_add_free_region(given, rest);
            assert(s.allocate(size, align).0 == given.add_free_region(rest));
        } else {
            assert(s.allocate(size, align).0 == given);
        }
    }
}

/// Giving back an outstanding allocation keeps the invariant.
pub proof fn lemma_deallocate(s: FreeListState, a: Allocation)
    requires
        s.wf(),
        s.live.contains(a),
    ensures
        s.deallocate(a).wf(),
{
    let u = FreeListState { live: s.live.remove(a), ..s };
    assert(u.wf()) by {
        assert forall|b: Allocation| #[trigger] u.live.contains(b) implies u.holds(b)
            && u.live.count(b) == 1 by {
            assert(s.live.contains(b));
        }
        assert forall|b: Allocation, c: Allocation|
            b != c && #[trigger] u.live.contains(b) && #[trigger] u.live.contains(
                c,
            ) implies !block_of(b).overlaps(block_of(c)) by {
            assert(s.live.contains(b) && s.live.contains(c));
        }
        assert forall|b: Allocation, k: int|
            #[trigger] u.live.contains(b) && 0 <= k < u.free.len() implies !block_of(b).overlaps(
            #[trigger] u.free[k],
        ) by {
            assert(s.live.contains(b));
        }
    }
    assert(u.is_unused(block_of(a))) by {
        assert forall|b: Allocation| #[trigger] u.live.contains(b) implies !block_of(a).overlaps(
            block_of(b),
        ) by {
            assert(s.live.contains(b));
            assert(b != a);
        }
    }
    lemma_add_free_region(u, block_of(a));
    assert(s.deallocate(a) == u.add_free_region(block_of(a)));
}

impl FreeListState {
    /// Whether the caller may make the request `r` in this state: a size
    /// and an alignment that a layout can hold, or an allocation that is
    /// outstanding.
    pub open spec fn accepts(self, r: Request) -> bool {
        match r {
            Request::Allocate { size, align } => size >= 0 && is_pow2(align),
            Request::Deallocate { a } => self.live.contains(a),
        }
    }

    /// The state after the request `r`.
    pub open spec fn step(self, r: Request) -> FreeListState {
        match r {
            Request::Allocate { size, align } => self.allocate(size, align).0,
            Request::Deallocate { a } => self.deallocate(a),
        }
    }

    /// Whether the caller may make the requests `rs`, one after the other.
    pub open spec fn accepts_all(self, rs: Seq<Request>) -> bool
        decreases rs.len(),
    {
        rs.len() == 0 || (self.accepts(rs[0]) && self.step(rs[0]).accepts_all(rs.skip(1)))
    }

    /// The state after the requests `rs`, one after the other.
    pub open spec fn run(self, rs: Seq<Request>) -> FreeListState
        decreases rs.len(),
    {
        if rs.len() == 0 {
            self
        } else {
            self.step(rs[0]).run(rs.skip(1))
        }
    }
}

/// Whatever the caller asks for and gives back, in whatever order: the
/// invariant holds afterwards, so no address belongs to two outstanding
/// allocations, and each of them is aligned as requested and lies in the heap.
pub proof fn lemma_run(s: FreeListState, rs: Seq<Request>)
    requires
        s.wf(),
        s.accepts_all(rs),
    ensures
        s.run(rs).wf(),
        s.run(rs).heap_start == s.heap_start,
        s.run(rs).heap_end == s.heap_end,
        pairwise_disjoint(s.run(rs).live),
        all_placed_in(s.run(rs).live, s.heap_start, s.heap_end),
    decreases rs.len(),
{
    if rs.len() > 0 {
        match rs[0] {
            Request::Allocate { size, align } => {
                lemma_allocate(s, size, align);
            },
            Request::Deallocate { a } => {
                lemma_deallocate(s, a);
            },
        }
        lemma_run(s.step(rs[0]), rs.skip(1));
    } else {
        lemma_wf_live(s);
    }
}

/// Immediate reuse. After an allocation is given back, the same request
/// gets the same address again, and the allocator is as it was before the
/// allocation was given back: the free list has not grown.
pub proof fn lemma_reuse(s: FreeListState, a: Allocation)
    requires
        s.wf(),
        s.live.contains(a),
    ensures
        s.deallocate(a).allocate(a.size, a.align) == (s, Some(a.addr)),
{
    let t = s.deallocate(a);
    let block_size = padded_size(a.size, a.align);
    let block_align = padded_align(a.align);
    assert(t.free[0] == block_of(a));
    assert(fits(t.free[0], block_size, block_align));
    assert(t.free.remove(0) =~= s.free);
    assert(s.live.remove(a).insert(a) =~= s.live);
}

/// No sliver. A region is not used for a block when fewer bytes than a
/// record needs, but more than none, would be left behind the block.
pub proof fn lemma_no_sliver(region: Region, size: int, align: int)
    requires
        0 < region.end() - (round_up(region.start, align) + size) < NODE_SIZE,
    ensures
        !fits(region, size, align),
{
}

/// The record of one free region: where it starts and how many bytes it
/// has.
#[derive(Clone, Copy, Debug)]
pub struct ListNode {
    addr: usize,
    size: usize,
}

impl View for ListNode {
    type V = Region;

    closed spec fn view(&self) -> Region {
        Region { start: self.addr as int, size: self.size as int }
    }
}

impl ListNode {
    /// What every record satisfies: the region ends at an address.
    #[verifier::type_invariant]
    closed spec fn ends_at_an_address(self) -> bool {
        self.addr + self.size <= usize::MAX
    }

    /// The record of the region of `size` bytes at `addr`.
    pub fn new(addr: usize, size: usize) -> (r: Self)
        requires
            addr + size <= usize::MAX,
        ensures
            r@ == (Region { start: addr as int, size: size as int }),
    {
        ListNode { addr, size }
    }

    /// The first address of the region.
    pub fn start_addr(&self) -> (r: usize)
        ensures
            r == self@.start,
    {
        self.addr
    }

    /// The first address behind the region.
    pub fn end_addr(&self) -> (r: usize)
        ensures
            r == self@.end(),
    {
        proof {
            use_type_invariant(self);
        }
        self.addr + self.size
    }

    /// The number of bytes in the region.
    pub fn size(&self) -> (r: usize)
        ensures
            r == self@.size,
    {
        self.size
    }
}

/// A free-list allocator over a range of addresses.
pub struct LinkedListAllocator {
    regions: VecDeque<ListNode>,
    heap: Ghost<(int, int)>,
    live: Ghost<Multiset<Allocation>>,
}

impl View for LinkedListAllocator {
    type V = FreeListState;

    closed spec fn view(&self) -> FreeListState {
        FreeListState {
            heap_start: self.heap@.0,
            heap_end: self.heap@.1,
            free: Seq::new(self.regions@.len(), |i: int| self.regions@[i]@),
            live: self.live@,
        }
    }
}

impl LinkedListAllocator {
    /// An allocator without a heap.
    pub fn new() -> (r: Self)
        ensures
            r@ == FreeListState::empty(),
            r@.wf(),
    {
        let r = LinkedListAllocator {
            regions: VecDeque::new(),
            heap: Ghost((0, 0)),
            live: Ghost(Multiset::empty()),
        };
        proof {
            assert(r@.free =~= Seq::empty());
        }
        r
    }

    /// Gives the allocator the `heap_size` addresses from `heap_start` on, as
    /// one free region. The allocator must be as `new` made it, and the heap
    /// must be able to hold a record.
    pub fn init(&mut self, heap_start: usize, heap_size: usize)
        requires
            old(self)@ == FreeListState::empty(),
            heap_start % NODE_ALIGN == 0,
            heap_size >= NODE_SIZE,
            heap_start + heap_size <= usize::MAX,
        ensures
            final(self)@ == FreeListState::fresh(heap_start as int, heap_size as int),
            final(self)@.wf(),
    {
        self.heap = Ghost((heap_start as int, heap_start + heap_size));
        self.add_free_region(heap_start, heap_size);
        proof {
            assert(self@.free =~= seq![Region { start: heap_start as int, size: heap_size as int }]);
            assert(self@.live =~= Multiset::empty());
        }
    }

    /// Puts the region of `size` bytes at `addr` at the front of the free
    /// list. The region must be able to hold a record.
    pub fn add_free_region(&mut self, addr: usize, size: usize)
        requires
            addr % NODE_ALIGN == 0,
            size >= NODE_SIZE,
            addr + size <= usize::MAX,
        ensures
            final(self)@ == old(self)@.add_free_region(
                Region { start: addr as int, size: size as int },
            ),
            old(self)@.wf() && (Region { start: addr as int, size: size as int }).is_free_region_of(
                old(self)@.heap_start,
                old(self)@.heap_end,
            ) && old(self)@.is_unused(Region { start: addr as int, size: size as int })
                ==> final(self)@.wf(),
    {
        let node = ListNode::new(addr, size);
        self.regions.push_front(node);
        proof {
            let region = Region { start: addr as int, size: size as int };
            assert(self@.free =~= seq![region] + old(self)@.free);
            if old(self)@.wf() && region.is_free_region_of(
                old(self)@.heap_start,
                old(self)@.heap_end,
            ) && old(self)@.is_unused(region) {
                lemma_add_free_region(old(self)@, region);
            }
        }
    }

    /// Looks for the first free region that a block of `size` bytes aligned
    /// to `align` fits in, takes it out of the free list, and returns it with
    /// the address at which the block starts.
    pub fn find_region(&mut self, size: usize, align: usize) -> (r: Option<(ListNode, usize)>)
        requires
            align > 0,
        ensures
            match first_fit(old(self)@.free, size as int, align as int) {
                Some(i) => {
                    &&& r matches Some((node, start))
                    &&& node@ == old(self)@.free[i]
                    &&& start == round_up(node@.start, align as int)
                    &&& final(self)@ == (FreeListState {
                        free: old(self)@.free.remove(i),
                        ..old(self)@
                    })
                },
                None => r is None && final(self)@ == old(self)@,
            },
            old(self)@.wf() ==> final(self)@.wf(),
    {
        let mut i: usize = 0;
        while i < self.regions.len()
            invariant
                align > 0,
                *self == *old(self),
                0 <= i <= self.regions@.len(),
                forall|j: int|
                    0 <= j < i ==> !fits(#[trigger] self@.free[j], size as int, align as int),
            decreases self.regions@.len() - i,
        {
            let found = Self::alloc_from_region(&self.regions[i], size, align);
            if let Ok(alloc_start) = found {
                proof {
                    lemma_first_fit_is(self@.free, size as int, align as int, i as int);
                    if self@.wf() {
                        lemma_take_region(self@, i as int);
                    }
                }
                let taken = self.regions.remove(i);
                proof {
                    assert(self@.free =~= old(self)@.free.remove(i as int));
                }
                return Some((taken.unwrap(), alloc_start));
            }
            i = i + 1;
        }
        proof {
            lemma_first_fit_is(self@.free, size as int, align as int, i as int);
        }
        None
    }

    /// Tries to cut a block of `size` bytes aligned to `align` from the
    /// front of `region`, and returns the address at which the block starts.
    /// It fails when the block does not end inside the region, and when fewer
    /// bytes than a record needs, but more than none, would be left.
    pub fn alloc_from_region(region: &ListNode, size: usize, align: usize) -> (r: Result<usize, ()>)
        requires
            align > 0,
        ensures
            r is Ok <==> fits(region@, size as int, align as int),
            r matches Ok(start) ==> start == round_up(region@.start, align as int),
    {
        proof {
            use_type_invariant(region);
            lemma_round_up(region@.start, align as int);
        }
        let alloc_start: usize = match checked_align_up(region.start_addr(), align) {
            Some(start) => start,
            None => {
                return Err(());
            },
        };
        let alloc_end: usize = match alloc_start.checked_add(size) {
            Some(end) => end,
            None => {
                return Err(());
            },
        };
        if alloc_end > region.end_addr() {
            return Err(());
        }
        let excess_size: usize = region.end_addr() - alloc_end;
        if excess_size > 0 && excess_size < NODE_SIZE {
            return Err(());
        }
        Ok(alloc_start)
    }

    /// The size and alignment of the block for a request of `layout`, such
    /// that the block can hold a record once it is free again: the alignment
    /// is at least that of a record, and the size is rounded up to that
    /// alignment and is at least that of a record. `None` when the size of the
    /// block is no `usize`.
    pub fn size_align(layout: Layout) -> (r: Option<(usize, usize)>)
        ensures
            r == (if padded_size(layout.size() as int, layout.align() as int) <= usize::MAX {
                Some(
                    (
                        padded_size(layout.size() as int, layout.align() as int) as usize,
                        padded_align(layout.align() as int) as usize,
                    ),
                )
            } else {
                None
            }),
    {
        let align: usize = if layout.align() < NODE_ALIGN {
            NODE_ALIGN
        } else {
            layout.align()
        };
        proof {
            lemma_round_up(layout.size() as int, align as int);
        }
        match checked_align_up(layout.size(), align) {
            Some(rounded) => {
                let size: usize = if rounded < NODE_SIZE {
                    NODE_SIZE
                } else {
                    rounded
                };
                Some((size, align))
            },
            None => None,
        }
    }

    /// Hands out a block for `layout`, cut from the first free region that
    /// it fits in, or `None` when it fits in none.
    pub fn allocate(&mut self, layout: Layout) -> (r: Option<usize>)
        requires
            old(self)@.wf(),
        ensures
            final(self)@ == old(self)@.allocate(layout.size() as int, layout.align() as int).0,
            as_int(r) == old(self)@.allocate(layout.size() as int, layout.align() as int).1,
            final(self)@.wf(),
            r matches Some(addr) ==> {
                &&& Allocation::of(addr, layout).placed_in(
                    old(self)@.heap_start,
                    old(self)@.heap_end,
                )
                &&& forall|b: Allocation|
                    old(self)@.live.contains(b) ==> !Allocation::of(addr, layout).overlaps(b)
            },
    {
        let asked_size: usize = layout.size();
        let asked_align: usize = layout.align();
        let ghost before = self@;
        let ghost block_size = padded_size(asked_size as int, asked_align as int);
        let ghost block_align = padded_align(asked_align as int);
        proof {
            lemma_allocate(before, asked_size as int, asked_align as int);
            lemma_first_fit(before.free, block_size, block_align);
            lemma_padded(asked_size as int, asked_align as int);
        }
        let (size, align) = match Self::size_align(layout) {
            Some(padded) => padded,
            None => {
                proof {
                    if let Some(i) = first_fit(before.free, block_size, block_align) {
                        lemma_round_up(before.free[i].start, block_align);
                    }
                }
                return None;
            },
        };
        match self.find_region(size, align) {
            Some((region, alloc_start)) => {
                proof {
                    lemma_round_up(region@.start, block_align);
                    lemma_multiple_of_divisor(alloc_start as int, NODE_ALIGN as int, block_align);
                }
                let alloc_end: usize = alloc_start + size;
                let excess_size: usize = region.end_addr() - alloc_end;
                if excess_size > 0 {
                    self.add_free_region(alloc_end, excess_size);
                }
                self.live = Ghost(self.live@.insert(Allocation::of(alloc_start, layout)));
                proof {
                    assert(self@.free =~= before.allocate(
                        layout.size() as int,
                        layout.align() as int,
                    ).0.free);
                }
                Some(alloc_start)
            },
            None => None,
        }
    }

    /// The free regions, each by its first address and its size, in the
    /// order in which they are searched.
    pub fn free_regions(&self) -> (r: Vec<(usize, usize)>)
        ensures
            r@.len() == self@.free.len(),
            forall|i: int|
                0 <= i < r@.len() ==> (#[trigger] r@[i]).0 == self@.free[i].start && r@[i].1
                    == self@.free[i].size,
    {
        let mut r: Vec<(usize, usize)> = Vec::new();
        let mut i: usize = 0;
        while i < self.regions.len()
            invariant
                0 <= i <= self.regions@.len(),
                r@.len() == i,
                forall|j: int|
                    0 <= j < i ==> (#[trigger] r@[j]).0 == self@.free[j].start && r@[j].1
                        == self@.free[j].size,
            decreases self.regions@.len() - i,
        {
            let node = &self.regions[i];
            r.push((node.start_addr(), node.size()));
            i = i + 1;
        }
        r
    }

    /// Takes back the outstanding allocation of `layout` at `addr`: its
    /// block goes to the front of the free list.
    pub fn deallocate(&mut self, addr: usize, layout: Layout)
        requires
            old(self)@.wf(),
            old(self)@.live.contains(Allocation::of(addr, layout)),
        ensures
            final(self)@ == old(self)@.deallocate(Allocation::of(addr, layout)),
            final(self)@.wf(),
    {
        let ghost a = Allocation::of(addr, layout);
        proof {
            lemma_deallocate(self@, a);
            assert(self@.holds(a));
        }
        let padded = Self::size_align(layout);
        let (size, _) = padded.unwrap();
        self.add_free_region(addr, size);
        self.live = Ghost(self.live@.remove(a));
    }
}

} // verus!
