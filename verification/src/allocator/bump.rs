//! The bump allocator: a cursor that only moves forward, and a count of the
//! allocations that are outstanding. Memory comes back all at once, when the
//! count returns to zero.

use crate::allocator::{
    all_placed_in, as_int, checked_align_up, lemma_round_up, pairwise_disjoint, round_up,
    Allocation, Layout, Request,
};
use vstd::arithmetic::power2::is_pow2;
use vstd::multiset::Multiset;
use vstd::prelude::*;

verus! {

/// What a bump allocator is, as plain mathematics.
pub struct BumpState {
    /// The first address of the heap.
    pub heap_start: int,
    /// The last address of the heap; no allocation reaches beyond it.
    pub heap_end: int,
    /// The cursor: everything below it may be in use.
    pub next: int,
    /// How many allocations are outstanding.
    pub allocations: int,
    /// The outstanding allocations.
    pub live: Multiset<Allocation>,
}

impl BumpState {
    /// The state before a heap is given: an empty heap at address zero.
    pub open spec fn empty() -> BumpState {
        BumpState { heap_start: 0, heap_end: 0, next: 0, allocations: 0, live: Multiset::empty() }
    }

    /// The state right after `init`: the cursor at the start, nothing
    /// outstanding.
    pub open spec fn fresh(heap_start: int, heap_size: int) -> BumpState {
        BumpState {
            heap_start,
            heap_end: heap_start + heap_size - 1,
            next: heap_start,
            allocations: 0,
            live: Multiset::empty(),
        }
    }

    /// The invariant of the allocator: the cursor lies in the heap, the
    /// count is the number of outstanding allocations, each of them is
    /// aligned as requested and lies between the heap's start and the cursor,
    /// and no two of them share an address.
    pub open spec fn wf(self) -> bool {
        &&& 0 <= self.heap_start <= self.next <= self.heap_end <= usize::MAX
        &&& self.allocations == self.live.len()
        &&& self.allocations <= usize::MAX
        &&& all_placed_in(self.live, self.heap_start, self.next)
        &&& pairwise_disjoint(self.live)
    }

    /// Whether a request for `size` bytes aligned to `align` can be served:
    /// the aligned cursor plus `size` must not pass the heap's end, and the
    /// count must have room for one more.
    pub open spec fn can_allocate(self, size: int, align: int) -> bool {
        &&& round_up(self.next, align) + size <= self.heap_end
        &&& self.allocations < usize::MAX
    }

    /// The state after a request for `size` bytes aligned to `align`, and
    /// the address handed out, if any. A request that cannot be served leaves
    /// the state as it is.
    pub open spec fn allocate(self, size: int, align: int) -> (BumpState, Option<int>) {
        let start = round_up(self.next, align);
        if self.can_allocate(size, align) {
            (
                BumpState {
                    next: start + size,
                    allocations: self.allocations + 1,
                    live: self.live.insert(Allocation { addr: start, size, align }),
                    ..self
                },
                Some(start),
            )
        } else {
            (self, None)
        }
    }

    /// The state after the outstanding allocation `a` is given back: the
    /// count goes down by one, and when it reaches zero the cursor returns to
    /// the start of the heap. Otherwise the cursor stays.
    pub open spec fn deallocate(self, a: Allocation) -> BumpState {
        BumpState {
            next: if self.allocations == 1 {
                self.heap_start
            } else {
                self.next
            },
            allocations: self.allocations - 1,
            live: self.live.remove(a),
            ..self
        }
    }

    /// The state after the allocations in `frees` are given back, one after
    /// the other.
    pub open spec fn deallocate_all(self, frees: Seq<Allocation>) -> BumpState
        decreases frees.len(),
    {
        if frees.len() == 0 {
            self
        } else {
            self.deallocate(frees[0]).deallocate_all(frees.skip(1))
        }
    }
}

/// A successful allocation keeps the invariant; the block it hands out is
/// aligned as requested, lies between the old cursor and the heap's end, and
/// shares no address with an allocation that was outstanding before.
pub proof fn lemma_allocate(s: BumpState, size: int, align: int)
    requires
        s.wf(),
        size >= 0,
        align > 0,
    ensures
        s.allocate(size, align).0.wf(),
        s.allocate(size, align).0.heap_start == s.heap_start,
        s.allocate(size, align).0.heap_end == s.heap_end,
        s.allocate(size, align).1 matches Some(addr) ==> {
            let a = Allocation { addr, size, align };
            &&& a.placed_in(s.next, s.heap_end)
            &&& forall|b: Allocation| s.live.contains(b) ==> !a.overlaps(b)
        },
{
    lemma_round_up(s.next, align);
    let (t, r) = s.allocate(size, align);
    if s.can_allocate(size, align) {
        let a = Allocation { addr: round_up(s.next, align), size, align };
        assert(t.live.len() == s.live.len() + 1);
        assert forall|b: Allocation| t.live.contains(b) implies b.placed_in(
            t.heap_start,
            t.next,
        ) by {
            if b != a {
                assert(s.live.contains(b));
            }
        }
        assert forall|b: Allocation, c: Allocation|
            b != c && t.live.contains(b) && t.live.contains(c) implies !b.overlaps(c) by {
            if b != a {
                assert(s.live.contains(b));
            }
            if c != a {
                assert(s.live.contains(c));
            }
        }
        assert forall|b: Allocation| t.live.count(b) >= 2 implies !b.overlaps(b) by {
            if b == a {
                assert(s.live.contains(a));
            }
        }
    }
}

/// Giving back an outstanding allocation keeps the invariant.
pub proof fn lemma_deallocate(s: BumpState, a: Allocation)
    requires
        s.wf(),
        s.live.contains(a),
    ensures
        s.deallocate(a).wf(),
        s.deallocate(a).live.len() == s.live.len() - 1,
{
    let t = s.deallocate(a);
    assert(t.live.len() == s.live.len() - 1);
    assert forall|b: Allocation| t.live.contains(b) implies s.live.contains(b) by {}
    if s.allocations == 1 {
        assert forall|b: Allocation| !t.live.contains(b) by {
            if t.live.contains(b) {
                vstd::multiset::axiom_count_le_len(t.live, b);
            }
        }
    }
    assert forall|b: Allocation| t.live.count(b) >= 2 implies !b.overlaps(b) by {
        assert(s.live.count(b) >= 2);
    }
}

/// Bulk reclaim. While fewer allocations have been given back than were
/// outstanding, in whatever order, the cursor stays where it was. Once the
/// last one is given back, the count is zero and the cursor is at the start of
/// the heap again.
pub proof fn lemma_bulk_reclaim(s: BumpState, frees: Seq<Allocation>)
    requires
        frees.len() <= s.allocations,
    ensures
        s.deallocate_all(frees).allocations == s.allocations - frees.len(),
        s.deallocate_all(frees).heap_start == s.heap_start,
        s.deallocate_all(frees).heap_end == s.heap_end,
        frees.len() < s.allocations ==> s.deallocate_all(frees).next == s.next,
        0 < frees.len() == s.allocations ==> s.deallocate_all(frees).next == s.heap_start,
    decreases frees.len(),
{
    if frees.len() > 0 {
        lemma_bulk_reclaim(s.deallocate(frees[0]), frees.skip(1));
    }
}

impl BumpState {
    /// Whether the caller may make the request `r` in this state: a size
    /// and an alignment that a layout can hold, or an allocation that is
    /// outstanding.
    pub open spec fn accepts(self, r: Request) -> bool {
        match r {
            Request::Allocate { size, align } => size >= 0 && is_pow2(align),
            Request::Deallocate { a } => self.live.contains(a),
        }
    }

    /// The state after the request `r`.
    pub open spec fn step(self, r: Request) -> BumpState {
        match r {
            Request::Allocate { size, align } => self.allocate(size, align).0,
            Request::Deallocate { a } => self.deallocate(a),
        }
    }

    /// Whether the caller may make the requests `rs`, one after the other.
    pub open spec fn accepts_all(self, rs: Seq<Request>) -> bool
        decreases rs.len(),
    {
        rs.len() == 0 || (self.accepts(rs[0]) && self.step(rs[0]).accepts_all(rs.skip(1)))
    }

    /// The state after the requests `rs`, one after the other.
    pub open spec fn run(self, rs: Seq<Request>) -> BumpState
        decreases rs.len(),
    {
        if rs.len() == 0 {
            self
        } else {
            self.step(rs[0]).run(rs.skip(1))
        }
    }
}

/// Whatever the caller asks for and gives back, in whatever order: the
/// invariant holds afterwards, so no address belongs to two outstanding
/// allocations, and each of them is aligned as requested and lies in the heap.
pub proof fn lemma_run(s: BumpState, rs: Seq<Request>)
    requires
        s.wf(),
        s.accepts_all(rs),
    ensures
        s.run(rs).wf(),
        s.run(rs).heap_start == s.heap_start,
        s.run(rs).heap_end == s.heap_end,
        pairwise_disjoint(s.run(rs).live),
        all_placed_in(s.run(rs).live, s.heap_start, s.heap_end),
    decreases rs.len(),
{
    if rs.len() > 0 {
        match rs[0] {
            Request::Allocate { size, align } => {
                crate::allocator::lemma_pow2_positive(align);
                lemma_allocate(s, size, align);
            },
            Request::Deallocate { a } => {
                lemma_deallocate(s, a);
            },
        }
        lemma_run(s.step(rs[0]), rs.skip(1));
    }
}

/// A bump allocator over a range of addresses.
pub struct BumpAllocator {
    heap_start: usize,
    heap_end: usize,
    next: usize,
    allocations: usize,
    live: Ghost<Multiset<Allocation>>,
}

impl View for BumpAllocator {
    type V = BumpState;

    closed spec fn view(&self) -> BumpState {
        BumpState {
            heap_start: self.heap_start as int,
            heap_end: self.heap_end as int,
            next: self.next as int,
            allocations: self.allocations as int,
            live: self.live@,
        }
    }
}

impl BumpAllocator {
    /// An allocator without a heap.
    pub fn new() -> (r: Self)
        ensures
            r@ == BumpState::empty(),
            r@.wf(),
    {
        BumpAllocator {
            heap_start: 0,
            heap_end: 0,
            next: 0,
            allocations: 0,
            live: Ghost(Multiset::empty()),
        }
    }

    /// Gives the allocator the `heap_size` addresses from `heap_start` on.
    /// Nothing may be outstanding.
    pub fn init(&mut self, heap_start: usize, heap_size: usize)
        requires
            old(self)@.wf(),
            old(self)@.live.len() == 0,
            heap_size >= 1,
            heap_start + heap_size - 1 <= usize::MAX,
        ensures
            final(self)@ == BumpState::fresh(heap_start as int, heap_size as int),
            final(self)@.wf(),
    {
        self.heap_start = heap_start;
        self.heap_end = heap_start + (heap_size - 1);
        self.next = heap_start;
        proof {
            assert(self.live@ =~= Multiset::empty());
        }
    }

    /// Hands out `layout.size()` bytes aligned to `layout.align()` at the
    /// cursor, or `None` when the heap has no room for them.
    pub fn allocate(&mut self, layout: Layout) -> (r: Option<usize>)
        requires
            old(self)@.wf(),
        ensures
            final(self)@ == old(self)@.allocate(layout.size() as int, layout.align() as int).0,
            as_int(r) == old(self)@.allocate(layout.size() as int, layout.align() as int).1,
            r.is_some() <==> old(self)@.can_allocate(layout.size() as int, layout.align() as int),
            final(self)@.wf(),
            r matches Some(addr) ==> {
                &&& Allocation::of(addr, layout).placed_in(
                    old(self)@.heap_start,
                    old(self)@.heap_end,
                )
                &&& forall|b: Allocation|
                    old(self)@.live.contains(b) ==> !Allocation::of(addr, layout).overlaps(b)
            },
    {
        let size: usize = layout.size();
        let align: usize = layout.align();
        proof {
            lemma_allocate(self@, size as int, align as int);
            lemma_round_up(self.next as int, align as int);
        }
        let addr_start: usize = match checked_align_up(self.next, align) {
            Some(start) => start,
            None => {
                return None;
            },
        };
        let addr_end: usize = match addr_start.checked_add(size) {
            Some(end) => end,
            None => {
                return None;
            },
        };
        if addr_end > self.heap_end || self.allocations == usize::MAX {
            return None;
        }
        self.next = addr_end;
        self.allocations = self.allocations + 1;
        self.live = Ghost(self.live@.insert(Allocation::of(addr_start, layout)));
        Some(addr_start)
    }

    /// Takes back the outstanding allocation of `layout` at `addr`.
    pub fn deallocate(&mut self, addr: usize, layout: Layout)
        requires
            old(self)@.wf(),
            old(self)@.live.contains(Allocation::of(addr, layout)),
        ensures
            final(self)@ == old(self)@.deallocate(Allocation::of(addr, layout)),
            final(self)@.wf(),
    {
        proof {
            lemma_deallocate(self@, Allocation::of(addr, layout));
        }
        self.allocations = self.allocations - 1;
        if self.allocations == 0 {
            self.next = self.heap_start;
        }
        self.live = Ghost(self.live@.remove(Allocation::of(addr, layout)));
    }

    /// The first address of the heap.
    pub fn heap_start(&self) -> (r: usize)
        ensures
            r == self@.heap_start,
    {
        self.heap_start
    }

    /// The last address of the heap.
    pub fn heap_end(&self) -> (r: usize)
        ensures
            r == self@.heap_end,
    {
        self.heap_end
    }

    /// The cursor.
    pub fn next(&self) -> (r: usize)
        ensures
            r == self@.next,
    {
        self.next
    }

    /// How many allocations are outstanding.
    pub fn allocations(&self) -> (r: usize)
        ensures
            r == self@.allocations,
    {
        self.allocations
    }
}

} // verus!
