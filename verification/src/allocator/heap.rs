//! The three strategies behind one interface, so that the strategy can be
//! chosen when the program runs, and so that what holds of every strategy is
//! stated once.

use crate::allocator::bump::{BumpAllocator, BumpState};
use crate::allocator::fixed_size_block::{FixedSizeBlockAllocator, FixedSizeState};
use crate::allocator::linked_list::{FreeListState, LinkedListAllocator, NODE_ALIGN, NODE_SIZE};
use crate::allocator::{
    all_placed_in, as_int, lemma_pow2_positive, pairwise_disjoint, Allocation, Layout, Request,
};
use vstd::arithmetic::power2::is_pow2;
use vstd::multiset::Multiset;
use vstd::prelude::*;

verus! {

/// The strategies by which a heap can be managed.
#[derive(Debug, Clone, Copy, PartialEq, Eq, Structural)]
pub enum Strategy {
    /// A cursor that only moves forward; memory comes back all at once.
    Bump,
    /// A list of free regions, searched first-fit.
    LinkedList,
    /// Pools of blocks of fixed sizes, with a free list behind them.
    FixedSizeBlock,
}

/// What a heap is, as plain mathematics: the state of its strategy.
pub enum HeapState {
    Bump(BumpState),
    LinkedList(FreeListState),
    FixedSizeBlock(FixedSizeState),
}

impl HeapState {
    /// The state before a heap is given.
    pub open spec fn empty(strategy: Strategy) -> HeapState {
        match strategy {
            Strategy::Bump => HeapState::Bump(BumpState::empty()),
            Strategy::LinkedList => HeapState::LinkedList(FreeListState::empty()),
            Strategy::FixedSizeBlock => HeapState::FixedSizeBlock(FixedSizeState::empty()),
        }
    }

    /// The state right after `init`.
    pub open spec fn fresh(strategy: Strategy, heap_start: int, heap_size: int) -> HeapState {
        match strategy {
            Strategy::Bump => HeapState::Bump(BumpState::fresh(heap_start, heap_size)),
            Strategy::LinkedList => HeapState::LinkedList(
                FreeListState::fresh(heap_start, heap_size),
            ),
            Strategy::FixedSizeBlock => HeapState::FixedSizeBlock(
                FixedSizeState::fresh(heap_start, heap_size),
            ),
        }
    }

    /// The strategy of the heap.
    pub open spec fn strategy(self) -> Strategy {
        match self {
            HeapState::Bump(_) => Strategy::Bump,
            HeapState::LinkedList(_) => Strategy::LinkedList,
            HeapState::FixedSizeBlock(_) => Strategy::FixedSizeBlock,
        }
    }

    /// The invariant of the strategy.
    pub open spec fn wf(self) -> bool {
        match self {
            HeapState::Bump(s) => s.wf(),
            HeapState::LinkedList(s) => s.wf(),
            HeapState::FixedSizeBlock(s) => s.wf(),
        }
    }

    /// The outstanding allocations.
    pub open spec fn live(self) -> Multiset<Allocation> {
        match self {
            HeapState::Bump(s) => s.live,
            HeapState::LinkedList(s) => s.live,
            HeapState::FixedSizeBlock(s) => s.live,
        }
    }

    /// The first address of the heap.
    pub open spec fn heap_start(self) -> int {
        match self {
            HeapState::Bump(s) => s.heap_start,
            HeapState::LinkedList(s) => s.heap_start,
            HeapState::FixedSizeBlock(s) => s.heap_start(),
        }
    }

    /// An address that no allocation reaches beyond: the first address
    /// behind the heap, or for the bump strategy the last address of the heap.
    pub open spec fn heap_end(self) -> int {
        match self {
            HeapState::Bump(s) => s.heap_end,
            HeapState::LinkedList(s) => s.heap_end,
            HeapState::FixedSizeBlock(s) => s.heap_end(),
        }
    }

    /// The state after a request for `size` bytes aligned to `align`, and
    /// the address handed out, if any.
    pub open spec fn allocate(self, size: int, align: int) -> (HeapState, Option<int>) {
        match self {
            HeapState::Bump(s) => (HeapState::Bump(s.allocate(size, align).0), s.allocate(
                size,
                align,
            ).1),
            HeapState::LinkedList(s) => (
                HeapState::LinkedList(s.allocate(size, align).0),
                s.allocate(size, align).1,
            ),
            HeapState::FixedSizeBlock(s) => (
                HeapState::FixedSizeBlock(s.allocate(size, align).0),
                s.allocate(size, align).1,
            ),
        }
    }

    /// The state after the outstanding allocation `a` is given back.
    pub open spec fn deallocate(self, a: Allocation) -> HeapState {
        match self {
            HeapState::Bump(s) => HeapState::Bump(s.deallocate(a)),
            HeapState::LinkedList(s) => HeapState::LinkedList(s.deallocate(a)),
            HeapState::FixedSizeBlock(s) => HeapState::FixedSizeBlock(s.deallocate(a)),
        }
    }

    /// Whether the caller may make the request `r` in this state: a size
    /// and an alignment that a layout can hold, or an allocation that is
    /// outstanding.
    pub open spec fn accepts(self, r: Request) -> bool {
        match r {
            Request::Allocate { size, align } => size >= 0 && is_pow2(align),
            Request::Deallocate { a } => self.live().contains(a),
        }
    }

    /// The state after the request `r`.
    pub open spec fn step(self, r: Request) -> HeapState {
        match r {
            Request::Allocate { size, align } => self.allocate(size, align).0,
            Request::Deallocate { a } => self.deallocate(a),
        }
    }

    /// Whether the caller may make the requests `rs`, one after the other.
    pub open spec fn accepts_all(self, rs: Seq<Request>) -> bool
        decreases rs.len(),
    {
        rs.len() == 0 || (self.accepts(rs[0]) && self.step(rs[0]).accepts_all(rs.skip(1)))
    }

    /// The state after the requests `rs`, one after the other.
    pub open spec fn run(self, rs: Seq<Request>) -> HeapState
        decreases rs.len(),
    {
        if rs.len() == 0 {
            self
        } else {
            self.step(rs[0]).run(rs.skip(1))
        }
    }
}

/// Under the invariant of its strategy, every outstanding allocation of a
/// heap is aligned as requested and lies in the heap, and no address belongs
/// to two of them.
pub proof fn lemma_wf_live(s: HeapState)
    requires
        s.wf(),
    ensures
        all_placed_in(s.live(), s.heap_start(), s.heap_end()),
        pairwise_disjoint(s.live()),
{
    match s {
        HeapState::Bump(b) => {
            assert forall|a: Allocation| b.live.contains(a) implies a.placed_in(
                b.heap_start,
                b.heap_end,
            ) by {}
        },
        HeapState::LinkedList(l) => {
            crate::allocator::linked_list::lemma_wf_live(l);
        },
        HeapState::FixedSizeBlock(f) => {
            crate::allocator::fixed_size_block::lemma_wf_live(f);
        },
    }
}

/// Whatever the strategy, a request keeps its invariant and the bounds of
/// the heap. The block that is handed out is aligned as requested, lies in the
/// heap, and shares no address with an allocation that was outstanding
/// before. It is outstanding afterwards, and nothing else has changed among
/// the outstanding allocations. A request that fails changes nothing.
pub proof fn lemma_allocate(s: HeapState, size: int, align: int)
    requires
        s.wf(),
        size >= 0,
        is_pow2(align),
    ensures
        s.allocate(size, align).0.wf(),
        s.allocate(size, align).0.strategy() == s.strategy(),
        s.allocate(size, align).0.heap_start() == s.heap_start(),
        s.allocate(size, align).0.heap_end() == s.heap_end(),
        match s.allocate(size, align).1 {
            Some(addr) => {
                let a = Allocation { addr, size, align };
                &&& a.placed_in(s.heap_start(), s.heap_end())
                &&& forall|b: Allocation| s.live().contains(b) ==> !a.overlaps(b)
                &&& s.allocate(size, align).0.live() == s.live().insert(a)
            },
            None => s.allocate(size, align).0 == s,
        },
{
    lemma_pow2_positive(align);
    match s {
        HeapState::Bump(b) => {
            crate::allocator::bump::lemma_allocate(b, size, align);
        },
        HeapState::LinkedList(l) => {
            crate::allocator::linked_list::lemma_allocate(l, size, align);
        },
        HeapState::FixedSizeBlock(f) => {
            crate::allocator::fixed_size_block::lemma_allocate(f, size, align);
            crate::allocator::linked_list::lemma_allocate(f.fallback, size, align);
        },
    }
}

/// Whatever the strategy, giving back an outstanding allocation keeps its
/// invariant and the bounds of the heap, and takes that allocation, and
/// nothing else, from the outstanding ones.
pub proof fn lemma_deallocate(s: HeapState, a: Allocation)
    requires
        s.wf(),
        s.live().contains(a),
    ensures
        s.deallocate(a).wf(),
        s.deallocate(a).strategy() == s.strategy(),
        s.deallocate(a).heap_start() == s.heap_start(),
        s.deallocate(a).heap_end() == s.heap_end(),
        s.deallocate(a).live() == s.live().remove(a),
{
    match s {
        HeapState::Bump(b) => {
            crate::allocator::bump::lemma_deallocate(b, a);
        },
        HeapState::LinkedList(l) => {
            crate::allocator::linked_list::lemma_deallocate(l, a);
        },
        HeapState::FixedSizeBlock(f) => {
            crate::allocator::fixed_size_block::lemma_deallocate(f, a);
        },
    }
}

/// Whatever the strategy, and whatever the caller asks for and gives back,
/// in whatever order: no address belongs to two outstanding allocations, and
/// each of them is aligned as requested and lies in the heap.
pub proof fn lemma_run(s: HeapState, rs: Seq<Request>)
    requires
        s.wf(),
        s.accepts_all(rs),
    ensures
        s.run(rs).wf(),
        s.run(rs).heap_start() == s.heap_start(),
        s.run(rs).heap_end() == s.heap_end(),
        pairwise_disjoint(s.run(rs).live()),
        all_placed_in(s.run(rs).live(), s.heap_start(), s.heap_end()),
    decreases rs.len(),
{
    if rs.len() > 0 {
        match rs[0] {
            Request::Allocate { size, align } => {
                lemma_allocate(s, size, align);
            },
            Request::Deallocate { a } => {
                lemma_deallocate(s, a);
            },
        }
        lemma_run(s.step(rs[0]), rs.skip(1));
    } else {
        lemma_wf_live(s);
    }
}

/// A heap that is managed by one of the three strategies.
pub enum Heap {
    Bump(BumpAllocator),
    LinkedList(LinkedListAllocator),
    FixedSizeBlock(FixedSizeBlockAllocator),
}

impl View for Heap {
    type V = HeapState;

    open spec fn view(&self) -> HeapState {
        match self {
            Heap::Bump(a) => HeapState::Bump(a@),
            Heap::LinkedList(a) => HeapState::LinkedList(a@),
            Heap::FixedSizeBlock(a) => HeapState::FixedSizeBlock(a@),
        }
    }
}

impl Heap {
    /// A heap of the strategy `strategy`, without addresses to manage yet.
    pub fn new(strategy: Strategy) -> (r: Heap)
        ensures
            r@ == HeapState::empty(strategy),
            r@.wf(),
    {
        match strategy {
            Strategy::Bump => Heap::Bump(BumpAllocator::new()),
            Strategy::LinkedList => Heap::LinkedList(LinkedListAllocator::new()),
            Strategy::FixedSizeBlock => Heap::FixedSizeBlock(FixedSizeBlockAllocator::new()),
        }
    }

    /// The strategy of the heap.
    pub fn strategy(&self) -> (r: Strategy)
        ensures
            r == self@.strategy(),
    {
        match self {
            Heap::Bump(_) => Strategy::Bump,
            Heap::LinkedList(_) => Strategy::LinkedList,
            Heap::FixedSizeBlock(_) => Strategy::FixedSizeBlock,
        }
    }

    /// Gives the heap the `heap_size` addresses from `heap_start` on. The
    /// heap must be as `new` made it, and the range must be able to hold a
    /// record of a free list.
    pub fn init(&mut self, heap_start: usize, heap_size: usize)
        requires
            old(self)@ == HeapState::empty(old(self)@.strategy()),
            heap_start % NODE_ALIGN == 0,
            heap_size >= NODE_SIZE,
            heap_start + heap_size <= usize::MAX,
        ensures
            final(self)@ == HeapState::fresh(
                old(self)@.strategy(),
                heap_start as int,
                heap_size as int,
            ),
            final(self)@.wf(),
    {
        match self {
            Heap::Bump(a) => a.init(heap_start, heap_size),
            Heap::LinkedList(a) => a.init(heap_start, heap_size),
            Heap::FixedSizeBlock(a) => a.init(heap_start, heap_size),
        }
    }

    /// Hands out a block for `layout`, or `None` when the heap has no room
    /// for it. The block is aligned as requested, lies in the heap, and shares
    /// no address with an outstanding allocation.
    pub fn allocate(&mut self, layout: Layout) -> (r: Option<usize>)
        requires
            old(self)@.wf(),
        ensures
            final(self)@ == old(self)@.allocate(layout.size() as int, layout.align() as int).0,
            as_int(r) == old(self)@.allocate(layout.size() as int, layout.align() as int).1,
            final(self)@.wf(),
            match r {
                Some(addr) => {
                    &&& Allocation::of(addr, layout).placed_in(
                        old(self)@.heap_start(),
                        old(self)@.heap_end(),
                    )
                    &&& forall|b: Allocation|
                        old(self)@.live().contains(b) ==> !Allocation::of(addr, layout).overlaps(b)
                    &&& final(self)@.live() == old(self)@.live().insert(Allocation::of(addr, layout))
                },
                None => final(self)@ == old(self)@,
            },
    {
        let size: usize = layout.size();
        let align: usize = layout.align();
        proof {
            lemma_allocate(self@, size as int, align as int);
        }
        match self {
            Heap::Bump(a) => a.allocate(layout),
            Heap::LinkedList(a) => a.allocate(layout),
            Heap::FixedSizeBlock(a) => a.allocate(layout),
        }
    }

    /// Takes back the outstanding allocation of `layout` at `addr`.
    pub fn deallocate(&mut self, addr: usize, layout: Layout)
        requires
            old(self)@.wf(),
            old(self)@.live().contains(Allocation::of(addr, layout)),
        ensures
            final(self)@ == old(self)@.deallocate(Allocation::of(addr, layout)),
            final(self)@.wf(),
            final(self)@.live() == old(self)@.live().remove(Allocation::of(addr, layout)),
    {
        proof {
            lemma_deallocate(self@, Allocation::of(addr, layout));
        }
        match self {
            Heap::Bump(a) => a.deallocate(addr, layout),
            Heap::LinkedList(a) => a.deallocate(addr, layout),
            Heap::FixedSizeBlock(a) => a.deallocate(addr, layout),
        }
    }
}

} // verus!
