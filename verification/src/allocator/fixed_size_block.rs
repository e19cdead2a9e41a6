//! The fixed-size block allocator: one pool of free blocks for each of a few
//! block sizes, and a free-list allocator behind them that supplies new
//! blocks and serves the requests that are too large for any pool. A block
//! that has entered a pool stays with that pool.

use crate::allocator::linked_list::{
    block_of, lemma_block_covers, padded_align, padded_size, FreeListState, LinkedListAllocator,
    NODE_ALIGN, NODE_SIZE,
};
use crate::allocator::{
    all_placed_in, as_int, lemma_multiple_of_divisor, lemma_pow2_divides, lemma_pow2_positive,
    pairwise_disjoint, Allocation, Layout, Request,
};
use vstd::arithmetic::power2::is_pow2;
use vstd::multiset::Multiset;
use vstd::prelude::*;

verus! {

/// The block sizes, in ascending order. Each is a power of two, because a
/// block is aligned to its size.
pub const BLOCK_SIZES: [usize; 9] = [8, 16, 32, 64, 128, 256, 512, 1024, 2048];

/// The number of block sizes.
pub const NUM_CLASSES: usize = 9;

/// The size of the blocks of class `i`.
pub open spec fn class_size(i: int) -> int {
    BLOCK_SIZES[i] as int
}

/// The class that serves a request of `size` bytes aligned to `align`: the
/// smallest one whose blocks are at least as large as both. `None` when no
/// class is large enough.
pub open spec fn class_of(size: int, align: int) -> Option<int> {
    let required = if size >= align {
        size
    } else {
        align
    };
    if required <= 8 {
        Some(0)
    } else if required <= 16 {
        Some(1)
    } else if required <= 32 {
        Some(2)
    } else if required <= 64 {
        Some(3)
    } else if required <= 128 {
        Some(4)
    } else if required <= 256 {
        Some(5)
    } else if required <= 512 {
        Some(6)
    } else if required <= 1024 {
        Some(7)
    } else if required <= 2048 {
        Some(8)
    } else {
        None
    }
}

/// `class_of` names the smallest class whose blocks are at least as large
/// as the size and as the alignment, and names none only where no class is
/// large enough.
pub proof fn lemma_class_of(size: int, align: int)
    ensures
        match class_of(size, align) {
            Some(i) => {
                &&& 0 <= i < NUM_CLASSES
                &&& size <= class_size(i)
                &&& align <= class_size(i)
                &&& forall|j: int|
                    0 <= j < i ==> #[trigger] class_size(j) < size || class_size(j) < align
            },
            None => forall|j: int|
                0 <= j < NUM_CLASSES ==> #[trigger] class_size(j) < size || class_size(j) < align,
        },
{
}

/// Every block size is a power of two, so that it can be the alignment of
/// its blocks, and the sizes ascend. The smallest is the alignment of a record
/// of the free list, and a block of the fallback for a class is not smaller
/// than the class's size.
pub proof fn lemma_class_size(i: int)
    requires
        0 <= i < NUM_CLASSES,
    ensures
        is_pow2(class_size(i)),
        NODE_ALIGN <= class_size(i) <= 2048,
        forall|j: int| 0 <= j < i ==> #[trigger] class_size(j) < class_size(i),
        padded_align(class_size(i)) == class_size(i),
        class_size(i) <= padded_size(class_size(i), class_size(i)),
{
    reveal_with_fuel(is_pow2, 13);
    lemma_block_covers(Allocation { addr: 0, size: class_size(i), align: class_size(i) });
}

/// The allocation at `addr` that is made of the fallback for a block of
/// class `i`: the class's size, aligned to it.
pub open spec fn pool_block(i: int, addr: int) -> Allocation {
    Allocation { addr, size: class_size(i), align: class_size(i) }
}

/// The allocation by which the fallback knows the block of `a`: a block of
/// the class of `a`, or `a` itself where no class serves it.
pub open spec fn backing(a: Allocation) -> Allocation {
    match class_of(a.size, a.align) {
        Some(i) => pool_block(i, a.addr),
        None => a,
    }
}

/// What a fixed-size block allocator is, as plain mathematics.
pub struct FixedSizeState {
    /// For each class the addresses of its free blocks. The last one is
    /// handed out first.
    pub pools: Seq<Seq<usize>>,
    /// The free-list allocator behind the pools.
    pub fallback: FreeListState,
    /// The outstanding allocations.
    pub live: Multiset<Allocation>,
}

impl FixedSizeState {
    /// The state before a heap is given: empty pools, a fallback without a
    /// heap, nothing outstanding.
    pub open spec fn empty() -> FixedSizeState {
        FixedSizeState {
            pools: Seq::new(NUM_CLASSES as nat, |i: int| Seq::empty()),
            fallback: FreeListState::empty(),
            live: Multiset::empty(),
        }
    }

    /// The state right after `init`: empty pools, and the whole heap with the
    /// fallback.
    pub open spec fn fresh(heap_start: int, heap_size: int) -> FixedSizeState {
        FixedSizeState { fallback: FreeListState::fresh(heap_start, heap_size), ..Self::empty() }
    }

    /// The first address of the heap.
    pub open spec fn heap_start(self) -> int {
        self.fallback.heap_start
    }

    /// The first address behind the heap.
    pub open spec fn heap_end(self) -> int {
        self.fallback.heap_end
    }

    /// The invariant of the allocator. The fallback keeps its own. To the
    /// fallback, every block in a pool and the block of every outstanding
    /// allocation is an outstanding allocation of its own, and no two of them
    /// are the same one. Every outstanding allocation is aligned as requested
    /// and lies in the heap.
    pub open spec fn wf(self) -> bool {
        &&& self.fallback.wf()
        &&& self.pools.len() == NUM_CLASSES
        &&& all_placed_in(self.live, self.heap_start(), self.heap_end())
        &&& forall|a: Allocation| #[trigger]
            self.live.contains(a) ==> self.live.count(a) == 1 && self.fallback.live.contains(
                backing(a),
            )
        &&& forall|a: Allocation, b: Allocation|
            a != b && #[trigger] self.live.contains(a) && #[trigger] self.live.contains(b)
                ==> backing(a) != backing(b)
        &&& forall|i: int, k: int|
            0 <= i < NUM_CLASSES && 0 <= k < self.pools[i].len()
                ==> self.fallback.live.contains(pool_block(i, #[trigger] self.pools[i][k] as int))
        &&& forall|i: int, k: int, l: int|
            0 <= i < NUM_CLASSES && 0 <= k < l < self.pools[i].len()
                ==> #[trigger] self.pools[i][k] != #[trigger] self.pools[i][l]
        &&& forall|a: Allocation, i: int, k: int|
            #[trigger] self.live.contains(a) && 0 <= i < NUM_CLASSES && 0 <= k
                < self.pools[i].len() ==> backing(a) != pool_block(
                i,
                #[trigger] self.pools[i][k] as int,
            )
    }

    /// The state after a request for `size` bytes aligned to `align`, and
    /// the address handed out, if any. Where a class serves the request and
    /// its pool has a block, the block that entered the pool last is handed
    /// out and the fallback stays as it is. Where the pool is empty, the
    /// fallback is asked for one block of the class's size, aligned to it.
    /// Where no class serves the request, it goes to the fallback as it is.
    pub open spec fn allocate(self, size: int, align: int) -> (FixedSizeState, Option<int>) {
        match class_of(size, align) {
            Some(i) if self.pools[i].len() > 0 => {
                let addr = self.pools[i].last() as int;
                (
                    FixedSizeState {
                        pools: self.pools.update(i, self.pools[i].drop_last()),
                        live: self.live.insert(Allocation { addr, size, align }),
                        ..self
                    },
                    Some(addr),
                )
            },
            Some(i) => self.allocate_from_fallback(size, align, class_size(i), class_size(i)),
            None => self.allocate_from_fallback(size, align, size, align),
        }
    }

    /// The state after the request for `size` bytes aligned to `align` has
    /// been served by asking the fallback for `block_size` bytes aligned to
    /// `block_align`, and the address handed out, if any.
    pub open spec fn allocate_from_fallback(
        self,
        size: int,
        align: int,
        block_size: int,
        block_align: int,
    ) -> (FixedSizeState, Option<int>) {
        let (fallback, r) = self.fallback.allocate(block_size, block_align);
        match r {
            Some(addr) => (
                FixedSizeState {
                    fallback,
                    live: self.live.insert(Allocation { addr, size, align }),
                    ..self
                },
                r,
            ),
            None => (self, None),
        }
    }

    /// The state after the outstanding allocation `a` is given back. Where a
    /// class serves such a request, the block enters the pool of that class.
    /// Otherwise it goes back to the fallback.
    pub open spec fn deallocate(self, a: Allocation) -> FixedSizeState {
        match class_of(a.size, a.align) {
            Some(i) => FixedSizeState {
                pools: self.pools.update(i, self.pools[i].push(a.addr as usize)),
                live: self.live.remove(a),
                ..self
            },
            None => FixedSizeState {
                fallback: self.fallback.deallocate(a),
                live: self.live.remove(a),
                ..self
            },
        }
    }
}

/// The requested bytes of an allocation belong to the block by which the
/// fallback knows it.
pub proof fn lemma_backing_covers(a: Allocation)
    requires
        a.size >= 0,
    ensures
        block_of(backing(a)).start == a.addr,
        a.end() <= block_of(backing(a)).end(),
{
    lemma_class_of(a.size, a.align);
    lemma_block_covers(backing(a));
    if let Some(i) = class_of(a.size, a.align) {
        lemma_class_size(i);
    }
}

/// Under the invariant, every outstanding allocation is aligned as
/// requested and lies in the heap, and no address belongs to two of them.
pub proof fn lemma_wf_live(s: FixedSizeState)
    requires
        s.wf(),
    ensures
        all_placed_in(s.live, s.heap_start(), s.heap_end()),
        pairwise_disjoint(s.live),
{
    assert forall|a: Allocation, b: Allocation|
        a != b && s.live.contains(a) && s.live.contains(b) implies !a.overlaps(b) by {
        lemma_backing_covers(a);
        lemma_backing_covers(b);
        assert(s.fallback.live.contains(backing(a)));
        assert(s.fallback.live.contains(backing(b)));
        assert(!block_of(backing(a)).overlaps(block_of(backing(b))));
    }
    assert forall|a: Allocation| s.live.count(a) >= 2 implies !a.overlaps(a) by {
        assert(s.live.contains(a));
    }
}

/// A request keeps the invariant. The block that is handed out is aligned
/// as requested, lies in the heap, and shares no address with an allocation
/// that was outstanding before.
pub proof fn lemma_allocate(s: FixedSizeState, size: int, align: int)
    requires
        s.wf(),
        size >= 0,
        is_pow2(align),
    ensures
        s.allocate(size, align).0.wf(),
        s.allocate(size, align).0.heap_start() == s.heap_start(),
        s.allocate(size, align).0.heap_end() == s.heap_end(),
        s.allocate(size, align).1 matches Some(addr) ==> {
            let a = Allocation { addr, size, align };
            &&& a.placed_in(s.heap_start(), s.heap_end())
            &&& !s.live.contains(a)
            &&& forall|b: Allocation| s.live.contains(b) ==> !a.overlaps(b)
        },
{
    lemma_class_of(size, align);
    lemma_pow2_positive(align);
    let (t, r) = s.allocate(size, align);
    match class_of(size, align) {
        Some(i) if s.pools[i].len() > 0 => {
            let addr = s.pools[i].last() as int;
            let a = Allocation { addr, size, align };
            let last = s.pools[i].len() - 1;
            lemma_class_size(i);
            assert(s.pools[i][last] as int == addr);
            assert(s.fallback.live.contains(pool_block(i, addr)));
            assert(s.fallback.holds(pool_block(i, addr)));
            lemma_pow2_divides(align, class_size(i));
            lemma_multiple_of_divisor(addr, align, class_size(i));
            lemma_backing_covers(a);
            assert(a.placed_in(s.heap_start(), s.heap_end()));
            lemma_taken_from_pool(s, t, i, a);
        },
        Some(i) => {
            lemma_class_size(i);
            lemma_pow2_divides(align, class_size(i));
            let (fallback, r) = s.fallback.allocate(class_size(i), class_size(i));
            crate::allocator::linked_list::lemma_allocate(s.fallback, class_size(i), class_size(i));
            if let Some(addr) = r {
                let a = Allocation { addr, size, align };
                lemma_multiple_of_divisor(addr, align, class_size(i));
                lemma_taken_from_fallback(s, t, a);
            }
        },
        None => {
            let (fallback, r) = s.fallback.allocate(size, align);
            crate::allocator::linked_list::lemma_allocate(s.fallback, size, align);
            if let Some(addr) = r {
                let a = Allocation { addr, size, align };
                lemma_taken_from_fallback(s, t, a);
            }
        },
    }
    if let Some(addr) = r {
        let a = Allocation { addr, size, align };
        lemma_wf_live(t);
        assert(t.live.contains(a));
        assert forall|b: Allocation| s.live.contains(b) implies !a.overlaps(b) by {
            assert(t.live.contains(b));
        }
    }
}

/// Handing out the last block of the pool of class `i` as the allocation
/// `a` keeps the invariant.
proof fn lemma_taken_from_pool(s: FixedSizeState, t: FixedSizeState, i: int, a: Allocation)
    requires
        s.wf(),
        class_of(a.size, a.align) == Some(i),
        s.pools[i].len() > 0,
        a.addr == s.pools[i].last(),
        a.placed_in(s.heap_start(), s.heap_end()),
        t == (FixedSizeState {
            pools: s.pools.update(i, s.pools[i].drop_last()),
            live: s.live.insert(a),
            ..s
        }),
    ensures
        t.wf(),
        !s.live.contains(a),
{
    lemma_class_of(a.size, a.align);
    let last = s.pools[i].len() - 1;
    assert(s.pools[i][last] as int == a.addr);
    assert(backing(a) == pool_block(i, a.addr));
    if s.live.contains(a) {
        assert(backing(a) != pool_block(i, s.pools[i][last] as int));
    }
    assert forall|b: Allocation| #[trigger] t.live.contains(b) implies t.live.count(b) == 1
        && t.fallback.live.contains(backing(b)) && b.placed_in(t.heap_start(), t.heap_end()) by {
        if b != a {
            assert(s.live.contains(b));
        }
    }
    assert forall|b: Allocation, c: Allocation|
        b != c && #[trigger] t.live.contains(b) && #[trigger] t.live.contains(
            c,
        ) implies backing(b) != backing(c) by {
        if b != a {
            assert(s.live.contains(b));
            assert(backing(b) != pool_block(i, s.pools[i][last] as int));
        }
        if c != a {
            assert(s.live.contains(c));
            assert(backing(c) != pool_block(i, s.pools[i][last] as int));
        }
    }
    assert forall|j: int, k: int| 0 <= j < NUM_CLASSES && 0 <= k < t.pools[j].len() implies (
    #[trigger] t.pools[j][k]) == s.pools[j][k] && k < s.pools[j].len() by {}
    assert forall|b: Allocation, j: int, k: int|
        #[trigger] t.live.contains(b) && 0 <= j < NUM_CLASSES && 0 <= k
            < t.pools[j].len() implies backing(b) != pool_block(
        j,
        #[trigger] t.pools[j][k] as int,
    ) by {
        assert(t.pools[j][k] == s.pools[j][k]);
        if b != a {
            assert(s.live.contains(b));
        } else if j == i {
            assert(s.pools[i][k] != s.pools[i][last]);
        } else {
            lemma_class_size(j);
            assert(class_size(j) != class_size(i));
        }
    }
}

/// Handing out a block that the fallback has just supplied as the
/// allocation `a` keeps the invariant.
proof fn lemma_taken_from_fallback(s: FixedSizeState, t: FixedSizeState, a: Allocation)
    requires
        s.wf(),
        t.fallback.wf(),
        t.fallback.heap_start == s.fallback.heap_start,
        t.fallback.heap_end == s.fallback.heap_end,
        !s.fallback.live.contains(backing(a)),
        t.fallback.live == s.fallback.live.insert(backing(a)),
        a.placed_in(s.heap_start(), s.heap_end()),
        t == (FixedSizeState { fallback: t.fallback, live: s.live.insert(a), ..s }),
    ensures
        t.wf(),
        !s.live.contains(a),
{
    if s.live.contains(a) {
        assert(s.fallback.live.contains(backing(a)));
    }
    assert forall|b: Allocation| #[trigger] t.live.contains(b) implies t.live.count(b) == 1
        && t.fallback.live.contains(backing(b)) && b.placed_in(t.heap_start(), t.heap_end()) by {
        if b != a {
            assert(s.live.contains(b));
        }
    }
    assert forall|b: Allocation, c: Allocation|
        b != c && #[trigger] t.live.contains(b) && #[trigger] t.live.contains(
            c,
        ) implies backing(b) != backing(c) by {
        if b != a {
            assert(s.live.contains(b));
        }
        if c != a {
            assert(s.live.contains(c));
        }
    }
    assert forall|b: Allocation, j: int, k: int|
        #[trigger] t.live.contains(b) && 0 <= j < NUM_CLASSES && 0 <= k
            < t.pools[j].len() implies backing(b) != pool_block(
        j,
        #[trigger] t.pools[j][k] as int,
    ) by {
        assert(s.fallback.live.contains(pool_block(j, s.pools[j][k] as int)));
        if b != a {
            assert(s.live.contains(b));
        }
    }
}

/// A block that the fallback hands out for itself leaves the invariant in
/// place.
pub proof fn lemma_fallback_alloc(s: FixedSizeState, size: int, align: int)
    requires
        s.wf(),
        size >= 0,
        is_pow2(align),
    ensures
        (FixedSizeState { fallback: s.fallback.allocate(size, align).0, ..s }).wf(),
{
    let (fallback, r) = s.fallback.allocate(size, align);
    let t = FixedSizeState { fallback, ..s };
    crate::allocator::linked_list::lemma_allocate(s.fallback, size, align);
    if let Some(addr) = r {
        assert forall|b: Allocation| #[trigger] t.live.contains(b) implies t.fallback.live.contains(
            backing(b),
        ) by {
            assert(s.fallback.live.contains(backing(b)));
        }
        assert forall|j: int, k: int|
            0 <= j < NUM_CLASSES && 0 <= k < t.pools[j].len() implies t.fallback.live.contains(
            pool_block(j, #[trigger] t.pools[j][k] as int),
        ) by {
            assert(s.fallback.live.contains(pool_block(j, s.pools[j][k] as int)));
        }
    }
}

/// Giving back an outstanding allocation keeps the invariant.
pub proof fn lemma_deallocate(s: FixedSizeState, a: Allocation)
    requires
        s.wf(),
        s.live.contains(a),
    ensures
        s.deallocate(a).wf(),
        s.deallocate(a).heap_start() == s.heap_start(),
        s.deallocate(a).heap_end() == s.heap_end(),
{
    let t = s.deallocate(a);
    lemma_class_of(a.size, a.align);
    assert forall|b: Allocation| #[trigger] t.live.contains(b) implies s.live.contains(b) && b
        != a by {}
    match class_of(a.size, a.align) {
        Some(i) => {
            assert forall|j: int, k: int|
                0 <= j < NUM_CLASSES && 0 <= k < t.pools[j].len() implies t.fallback.live.contains(
                pool_block(j, #[trigger] t.pools[j][k] as int),
            ) by {
                if j == i && k == s.pools[i].len() {
                    assert(t.pools[j][k] as int == a.addr);
                    assert(s.fallback.live.contains(backing(a)));
                } else {
                    assert(t.pools[j][k] == s.pools[j][k]);
                }
            }
            assert forall|j: int, k: int, l: int|
                0 <= j < NUM_CLASSES && 0 <= k < l < t.pools[j].len() implies #[trigger] t.pools[j][k]
                != #[trigger] t.pools[j][l] by {
                assert(t.pools[j][k] == s.pools[j][k]);
                if j == i && l == s.pools[i].len() {
                    assert(backing(a) != pool_block(i, s.pools[i][k] as int));
                } else {
                    assert(t.pools[j][l] == s.pools[j][l]);
                }
            }
            assert forall|b: Allocation, j: int, k: int|
                #[trigger] t.live.contains(b) && 0 <= j < NUM_CLASSES && 0 <= k
                    < t.pools[j].len() implies backing(b) != pool_block(
                j,
                #[trigger] t.pools[j][k] as int,
            ) by {
                assert(s.live.contains(b));
                if j == i && k == s.pools[i].len() {
                    assert(backing(b) != backing(a));
                } else {
                    assert(t.pools[j][k] == s.pools[j][k]);
                }
            }
        },
        None => {
            crate::allocator::linked_list::lemma_deallocate(s.fallback, a);
            assert forall|b: Allocation| #[trigger] t.live.contains(b) implies t.fallback.live.contains(
                backing(b),
            ) by {
                assert(backing(b) != backing(a));
                assert(s.fallback.live.contains(backing(b)));
            }
            assert forall|j: int, k: int|
                0 <= j < NUM_CLASSES && 0 <= k < t.pools[j].len() implies t.fallback.live.contains(
                pool_block(j, #[trigger] t.pools[j][k] as int),
            ) by {
                assert(backing(a) != pool_block(j, s.pools[j][k] as int));
                assert(s.fallback.live.contains(pool_block(j, s.pools[j][k] as int)));
            }
        },
    }
}

impl FixedSizeState {
    /// Whether the caller may make the request `r` in this state: a size
    /// and an alignment that a layout can hold, or an allocation that is
    /// outstanding.
    pub open spec fn accepts(self, r: Request) -> bool {
        match r {
            Request::Allocate { size, align } => size >= 0 && is_pow2(align),
            Request::Deallocate { a } => self.live.contains(a),
        }
    }

    /// The state after the request `r`.
    pub open spec fn step(self, r: Request) -> FixedSizeState {
        match r {
            Request::Allocate { size, align } => self.allocate(size, align).0,
            Request::Deallocate { a } => self.deallocate(a),
        }
    }

    /// Whether the caller may make the requests `rs`, one after the other.
    pub open spec fn accepts_all(self, rs: Seq<Request>) -> bool
        decreases rs.len(),
    {
        rs.len() == 0 || (self.accepts(rs[0]) && self.step(rs[0]).accepts_all(rs.skip(1)))
    }

    /// The state after the requests `rs`, one after the other.
    pub open spec fn run(self, rs: Seq<Request>) -> FixedSizeState
        decreases rs.len(),
    {
        if rs.len() == 0 {
            self
        } else {
            self.step(rs[0]).run(rs.skip(1))
        }
    }
}

/// Whatever the caller asks for and gives back, in whatever order: the
/// invariant holds afterwards, so no address belongs to two outstanding
/// allocations, and each of them is aligned as requested and lies in the heap.
pub proof fn lemma_run(s: FixedSizeState, rs: Seq<Request>)
    requires
        s.wf(),
        s.accepts_all(rs),
    ensures
        s.run(rs).wf(),
        s.run(rs).heap_start() == s.heap_start(),
        s.run(rs).heap_end() == s.heap_end(),
        pairwise_disjoint(s.run(rs).live),
        all_placed_in(s.run(rs).live, s.heap_start(), s.heap_end()),
    decreases rs.len(),
{
    if rs.len() > 0 {
        match rs[0] {
            Request::Allocate { size, align } => {
                lemma_allocate(s, size, align);
            },
            Request::Deallocate { a } => {
                lemma_deallocate(s, a);
            },
        }
        lemma_run(s.step(rs[0]), rs.skip(1));
    } else {
        lemma_wf_live(s);
    }
}

/// Reuse from the pool. After an allocation that a class serves is given
/// back, a request that the same class serves gets the same address again,
/// and the fallback is not asked: it stays as it was, and so do the pools.
pub proof fn lemma_pool_reuse(s: FixedSizeState, a: Allocation, size: int, align: int)
    requires
        s.pools.len() == NUM_CLASSES,
        0 <= a.addr <= usize::MAX,
        class_of(a.size, a.align) is Some,
        class_of(size, align) == class_of(a.size, a.align),
    ensures
        s.deallocate(a).allocate(size, align) == (
            FixedSizeState {
                live: s.live.remove(a).insert(Allocation { addr: a.addr, size, align }),
                ..s
            },
            Some(a.addr),
        ),
{
    lemma_class_of(size, align);
    let i = class_of(size, align).unwrap();
    let t = s.deallocate(a);
    let u = t.allocate(size, align).0;
    assert(t.pools[i].last() == a.addr as usize);
    assert(t.pools[i].drop_last() =~= s.pools[i]);
    assert(u.pools =~= s.pools);
}

/// Chooses the class for `layout`: the smallest one whose blocks are at
/// least as large as the size and as the alignment. Returns its position in
/// `BLOCK_SIZES`, or `None` when no class is large enough.
pub fn list_index(layout: &Layout) -> (r: Option<usize>)
    ensures
        as_int(r) == class_of(layout.size() as int, layout.align() as int),
{
    let required_block_size: usize = if layout.size() >= layout.align() {
        layout.size()
    } else {
        layout.align()
    };
    let mut i: usize = 0;
    while i < NUM_CLASSES
        invariant
            0 <= i <= NUM_CLASSES,
            required_block_size == layout.size() || required_block_size == layout.align(),
            required_block_size >= layout.size(),
            required_block_size >= layout.align(),
            forall|j: int| 0 <= j < i ==> #[trigger] class_size(j) < required_block_size,
        decreases NUM_CLASSES - i,
    {
        if BLOCK_SIZES[i] >= required_block_size {
            proof {
                lemma_class_of(layout.size() as int, layout.align() as int);
                assert(class_size(i as int) >= required_block_size);
            }
            return Some(i);
        }
        i = i + 1;
    }
    proof {
        lemma_class_of(layout.size() as int, layout.align() as int);
        assert(class_size(8) < required_block_size);
    }
    None
}

/// A fixed-size block allocator over a range of addresses.
pub struct FixedSizeBlockAllocator {
    list_heads: Vec<Vec<usize>>,
    fallback_allocator: LinkedListAllocator,
    live: Ghost<Multiset<Allocation>>,
}

impl View for FixedSizeBlockAllocator {
    type V = FixedSizeState;

    closed spec fn view(&self) -> FixedSizeState {
        FixedSizeState {
            pools: Seq::new(self.list_heads@.len(), |i: int| self.list_heads@[i]@),
            fallback: self.fallback_allocator@,
            live: self.live@,
        }
    }
}

impl FixedSizeBlockAllocator {
    /// An allocator with empty pools and without a heap.
    pub fn new() -> (r: Self)
        ensures
            r@ == FixedSizeState::empty(),
            r@.wf(),
    {
        let mut list_heads: Vec<Vec<usize>> = Vec::new();
        let mut i: usize = 0;
        while i < NUM_CLASSES
            invariant
                0 <= i <= NUM_CLASSES,
                list_heads@.len() == i,
                forall|j: int| 0 <= j < i ==> (#[trigger] list_heads@[j])@ == Seq::<usize>::empty(),
            decreases NUM_CLASSES - i,
        {
            list_heads.push(Vec::new());
            i = i + 1;
        }
        let r = FixedSizeBlockAllocator {
            list_heads,
            fallback_allocator: LinkedListAllocator::new(),
            live: Ghost(Multiset::empty()),
        };
        proof {
            assert(r@.pools =~= FixedSizeState::empty().pools);
        }
        r
    }

    /// Gives the allocator the `heap_size` addresses from `heap_start` on.
    /// The allocator must be as `new` made it, and the heap must be able to
    /// hold a record of the free list.
    pub fn init(&mut self, heap_start: usize, heap_size: usize)
        requires
            old(self)@ == FixedSizeState::empty(),
            heap_start % NODE_ALIGN == 0,
            heap_size >= NODE_SIZE,
            heap_start + heap_size <= usize::MAX,
        ensures
            final(self)@ == FixedSizeState::fresh(heap_start as int, heap_size as int),
            final(self)@.wf(),
    {
        self.fallback_allocator.init(heap_start, heap_size);
    }

    /// The free-list allocator behind the pools.
    pub fn fallback(&self) -> (r: &LinkedListAllocator)
        ensures
            r@ == self@.fallback,
    {
        &self.fallback_allocator
    }

    /// The addresses of the free blocks in the pool of class `idx`; the last
    /// one is handed out first. Empty where there is no such class.
    pub fn pool(&self, idx: usize) -> (r: Vec<usize>)
        ensures
            r@ == (if idx < self@.pools.len() {
                self@.pools[idx as int]
            } else {
                Seq::empty()
            }),
    {
        if idx < self.list_heads.len() {
            self.list_heads[idx].clone()
        } else {
            Vec::new()
        }
    }

    /// Asks the fallback for a block for `layout`. The block is the
    /// fallback's alone: it is in no pool, and not among the outstanding
    /// allocations of this allocator.
    pub fn fallback_alloc(&mut self, layout: Layout) -> (r: Option<usize>)
        requires
            old(self)@.fallback.wf(),
        ensures
            final(self)@ == (FixedSizeState {
                fallback: old(self)@.fallback.allocate(
                    layout.size() as int,
                    layout.align() as int,
                ).0,
                ..old(self)@
            }),
            as_int(r) == old(self)@.fallback.allocate(
                layout.size() as int,
                layout.align() as int,
            ).1,
            old(self)@.wf() ==> final(self)@.wf(),
    {
        let size: usize = layout.size();
        let align: usize = layout.align();
        proof {
            if self@.wf() {
                lemma_fallback_alloc(self@, size as int, align as int);
            }
        }
        self.fallback_allocator.allocate(layout)
    }

    /// Hands out a block for `layout`: from the pool of its class where
    /// that has one, else from the fallback. `None` when the fallback has no
    /// room.
    pub fn allocate(&mut self, layout: Layout) -> (r: Option<usize>)
        requires
            old(self)@.wf(),
        ensures
            final(self)@ == old(self)@.allocate(layout.size() as int, layout.align() as int).0,
            as_int(r) == old(self)@.allocate(layout.size() as int, layout.align() as int).1,
            final(self)@.wf(),
            r matches Some(addr) ==> {
                &&& Allocation::of(addr, layout).placed_in(
                    old(self)@.heap_start(),
                    old(self)@.heap_end(),
                )
                &&& forall|b: Allocation|
                    old(self)@.live.contains(b) ==> !Allocation::of(addr, layout).overlaps(b)
            },
    {
        let asked_size: usize = layout.size();
        let asked_align: usize = layout.align();
        let ghost before = self@;
        proof {
            lemma_allocate(before, asked_size as int, asked_align as int);
            lemma_class_of(asked_size as int, asked_align as int);
        }
        match list_index(&layout) {
            Some(idx) => {
                match self.list_heads[idx].pop() {
                    Some(addr) => {
                        self.live = Ghost(self.live@.insert(Allocation::of(addr, layout)));
                        proof {
                            assert(self@.pools =~= before.pools.update(
                                idx as int,
                                before.pools[idx as int].drop_last(),
                            ));
                        }
                        Some(addr)
                    },
                    None => {
                        proof {
                            lemma_class_size(idx as int);
                            assert(self@.pools =~= before.pools);
                        }
                        let block_size: usize = BLOCK_SIZES[idx];
                        let block_align: usize = block_size;
                        let block_layout = Layout::from_size_align(block_size, block_align).unwrap();
                        let r = self.fallback_alloc(block_layout);
                        if let Some(addr) = r {
                            self.live = Ghost(self.live@.insert(Allocation::of(addr, layout)));
                        }
                        r
                    },
                }
            },
            None => {
                let r = self.fallback_alloc(layout);
                if let Some(addr) = r {
                    self.live = Ghost(self.live@.insert(Allocation::of(addr, layout)));
                }
                r
            },
        }
    }

    /// Takes back the outstanding allocation of `layout` at `addr`: its
    /// block enters the pool of its class, or goes back to the fallback where
    /// no class serves the layout.
    pub fn deallocate(&mut self, addr: usize, layout: Layout)
        requires
            old(self)@.wf(),
            old(self)@.live.contains(Allocation::of(addr, layout)),
        ensures
            final(self)@ == old(self)@.deallocate(Allocation::of(addr, layout)),
            final(self)@.wf(),
    {
        let ghost before = self@;
        let ghost a = Allocation::of(addr, layout);
        proof {
            lemma_deallocate(before, a);
        }
        match list_index(&layout) {
            Some(idx) => {
                self.list_heads[idx].push(addr);
                self.live = Ghost(self.live@.remove(a));
                proof {
                    assert(self@.pools =~= before.pools.update(
                        idx as int,
                        before.pools[idx as int].push(addr),
                    ));
                }
            },
            None => {
                proof {
                    assert(before.fallback.live.contains(backing(a)));
                }
                self.fallback_allocator.deallocate(addr, layout);
                self.live = Ghost(self.live@.remove(a));
            },
        }
    }
}

} // verus!
