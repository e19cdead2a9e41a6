//! Heap allocation strategies over a range of addresses.
//!
//! An allocator here never touches the memory it manages: it decides which
//! addresses a request gets, and remembers which ranges are free. Every
//! strategy offers the same three operations, `init`, `allocate` and
//! `deallocate`, and carries as ghost state the multiset of allocations that
//! are outstanding, so that its contracts can say that two outstanding
//! allocations never share an address.

pub mod bump;
pub mod fixed_size_block;
pub mod heap;
pub mod linked_list;

use vstd::arithmetic::div_mod::{
    lemma_fundamental_div_mod, lemma_mod_decreases, lemma_mod_multiples_basic,
};
use vstd::arithmetic::power2::is_pow2;
use vstd::multiset::Multiset;
use vstd::prelude::*;

verus! {

/// The size and alignment of a requested block. The alignment is always a
/// power of two.
#[derive(Clone, Copy, Debug)]
pub struct Layout {
    size: usize,
    align: usize,
}

impl Layout {
    /// What every `Layout` value satisfies: its alignment is a power of two.
    #[verifier::type_invariant]
    pub closed spec fn valid(self) -> bool {
        is_pow2(self.align as int)
    }

    /// The number of bytes requested, in contracts.
    pub closed spec fn spec_size(&self) -> usize {
        self.size
    }

    /// The alignment requested, in contracts.
    pub closed spec fn spec_align(&self) -> usize {
        self.align
    }

    /// Builds a layout, or returns `None` when `align` is not a power of two.
    pub fn from_size_align(size: usize, align: usize) -> (r: Option<Layout>)
        ensures
            r.is_some() <==> is_pow2(align as int),
            r matches Some(l) ==> l.size() == size && l.align() == align,
    {
        if is_power_of_two(align) {
            Some(Layout { size, align })
        } else {
            None
        }
    }

    /// The number of bytes requested.
    #[verifier::when_used_as_spec(spec_size)]
    pub fn size(&self) -> (r: usize)
        ensures
            r == self.size(),
    {
        self.size
    }

    /// The alignment requested, a power of two.
    #[verifier::when_used_as_spec(spec_align)]
    pub fn align(&self) -> (r: usize)
        ensures
            r == self.align(),
            is_pow2(r as int),
            r > 0,
    {
        proof {
            use_type_invariant(self);
            lemma_pow2_positive(self.align as int);
        }
        self.align
    }
}

/// Whether `n` is a power of two.
pub fn is_power_of_two(n: usize) -> (r: bool)
    ensures
        r == is_pow2(n as int),
{
    let mut m: usize = n;
    while m > 1 && m % 2 == 0
        invariant
            is_pow2(m as int) == is_pow2(n as int),
        decreases m,
    {
        proof {
            reveal(is_pow2);
        }
        m = m / 2;
    }
    proof {
        reveal(is_pow2);
    }
    m == 1
}

/// A power of two is positive.
pub proof fn lemma_pow2_positive(n: int)
    requires
        is_pow2(n),
    ensures
        n > 0,
{
    reveal(is_pow2);
}

/// Of two powers of two, the smaller divides the larger.
pub proof fn lemma_pow2_divides(a: int, b: int)
    requires
        is_pow2(a),
        is_pow2(b),
        a <= b,
    ensures
        b % a == 0,
    decreases a,
{
    reveal(is_pow2);
    if a > 1 {
        lemma_pow2_divides(a / 2, b / 2);
        let k = (b / 2) / (a / 2);
        lemma_fundamental_div_mod(b / 2, a / 2);
        assert(b == k * a) by (nonlinear_arith)
            requires
                b == 2 * (b / 2),
                a == 2 * (a / 2),
                b / 2 == (a / 2) * k,
        ;
        lemma_mod_multiples_basic(k, a);
    }
}

/// A multiple of `b` is a multiple of every divisor of `b`.
pub proof fn lemma_multiple_of_divisor(x: int, a: int, b: int)
    requires
        a > 0,
        b > 0,
        b % a == 0,
        x % b == 0,
    ensures
        x % a == 0,
{
    lemma_fundamental_div_mod(x, b);
    lemma_fundamental_div_mod(b, a);
    let k = (b / a) * (x / b);
    assert(x == k * a) by (nonlinear_arith)
        requires
            x == b * (x / b),
            b == a * (b / a),
            k == (b / a) * (x / b),
    ;
    lemma_mod_multiples_basic(k, a);
}

/// The least multiple of `align` that is not below `addr`, for a positive
/// `align`.
pub open spec fn round_up(addr: int, align: int) -> int {
    if addr % align == 0 {
        addr
    } else {
        addr - addr % align + align
    }
}

/// `round_up(addr, align)` is a multiple of `align`, lies in
/// `[addr, addr + align)`, and no multiple of `align` lies between `addr`
/// and it.
pub proof fn lemma_round_up(addr: int, align: int)
    requires
        align > 0,
    ensures
        round_up(addr, align) % align == 0,
        addr <= round_up(addr, align) < addr + align,
        forall|m: int| addr <= m < round_up(addr, align) ==> #[trigger] (m % align) != 0,
{
    let r = round_up(addr, align);
    let q = addr / align;
    lemma_fundamental_div_mod(addr, align);
    if addr % align != 0 {
        lemma_mod_multiples_basic(q + 1, align);
        assert((q + 1) * align == align * q + align) by (nonlinear_arith);
    }
    assert forall|m: int| addr <= m < r implies #[trigger] (m % align) != 0 by {
        if m % align == 0 {
            lemma_fundamental_div_mod(m, align);
            let k = m / align;
            assert(align * q < align * k < align * (q + 1)) by {
                assert(align * (q + 1) == align * q + align) by (nonlinear_arith);
            }
            assert(false) by (nonlinear_arith)
                requires
                    align > 0,
                    align * q < align * k < align * (q + 1),
            ;
        }
    }
}

/// Aligns `addr` upwards to `align`.
pub fn align_up(addr: usize, align: usize) -> (r: usize)
    requires
        align > 0,
        round_up(addr as int, align as int) <= usize::MAX,
    ensures
        r == round_up(addr as int, align as int),
{
    let rem: usize = addr % align;
    proof {
        lemma_mod_decreases(addr as nat, align as nat);
    }
    if rem == 0 {
        addr
    } else {
        addr - rem + align
    }
}

/// Aligns `addr` upwards to `align`, or returns `None` when the aligned
/// address does not fit in a `usize`.
pub fn checked_align_up(addr: usize, align: usize) -> (r: Option<usize>)
    requires
        align > 0,
    ensures
        r == (if round_up(addr as int, align as int) <= usize::MAX {
            Some(round_up(addr as int, align as int) as usize)
        } else {
            None
        }),
{
    let rem: usize = addr % align;
    proof {
        lemma_mod_decreases(addr as nat, align as nat);
    }
    if rem == 0 {
        Some(addr)
    } else {
        (addr - rem).checked_add(align)
    }
}

/// The allocator that never has anything to give.
pub struct Dummy;

impl Dummy {
    /// Fails, whatever is asked for.
    pub fn allocate(&self, layout: Layout) -> (r: Option<usize>)
        ensures
            r is None,
    {
        None
    }
}

/// One outstanding allocation: the address that was handed out, and the size
/// and alignment it was requested with.
pub struct Allocation {
    pub addr: int,
    pub size: int,
    pub align: int,
}

impl Allocation {
    /// The allocation of `layout` at `addr`.
    pub open spec fn of(addr: usize, layout: Layout) -> Allocation {
        Allocation { addr: addr as int, size: layout.size() as int, align: layout.align() as int }
    }

    /// The first address behind the allocation.
    pub open spec fn end(self) -> int {
        self.addr + self.size
    }

    /// Whether some address belongs to both allocations.
    pub open spec fn overlaps(self, other: Allocation) -> bool {
        &&& self.addr < self.end()
        &&& other.addr < other.end()
        &&& self.addr < other.end()
        &&& other.addr < self.end()
    }

    /// Whether the allocation is aligned as requested and lies in
    /// `[heap_start, heap_end)`.
    pub open spec fn placed_in(self, heap_start: int, heap_end: int) -> bool {
        &&& self.align > 0
        &&& self.addr % self.align == 0
        &&& self.size >= 0
        &&& heap_start <= self.addr
        &&& self.end() <= heap_end
    }
}

/// What a caller asks of an allocator.
pub enum Request {
    /// A block of `size` bytes, aligned to `align`.
    Allocate { size: int, align: int },
    /// To take the allocation `a` back.
    Deallocate { a: Allocation },
}

/// An address as `allocate` returns it, read as a mathematical integer.
pub open spec fn as_int(r: Option<usize>) -> Option<int> {
    match r {
        Some(a) => Some(a as int),
        None => None,
    }
}

/// No address belongs to two of the outstanding allocations.
pub open spec fn pairwise_disjoint(live: Multiset<Allocation>) -> bool {
    &&& forall|a: Allocation, b: Allocation|
        a != b && live.contains(a) && live.contains(b) ==> !a.overlaps(b)
    &&& forall|a: Allocation| live.count(a) >= 2 ==> !a.overlaps(a)
}

/// Every outstanding allocation is aligned as requested and lies in
/// `[heap_start, heap_end)`.
pub open spec fn all_placed_in(live: Multiset<Allocation>, heap_start: int, heap_end: int) -> bool {
    forall|a: Allocation| live.contains(a) ==> a.placed_in(heap_start, heap_end)
}

} // verus!
