use blog_os::allocator::bump::BumpAllocator;
use blog_os::allocator::Layout;

const HEAP: usize = 0x4444_0000;

fn layout(size: usize, align: usize) -> Layout {
    Layout::from_size_align(size, align).unwrap()
}

fn heap_of(size: usize) -> BumpAllocator {
    let mut heap = BumpAllocator::new();
    heap.init(HEAP, size);
    heap
}

#[test]
fn bump_new_has_no_heap() {
    let mut heap = BumpAllocator::new();
    assert_eq!(heap.heap_start(), 0);
    assert_eq!(heap.heap_end(), 0);
    assert_eq!(heap.next(), 0);
    assert_eq!(heap.allocations(), 0);
    assert_eq!(heap.allocate(layout(1, 1)), None);
}

#[test]
fn bump_init_sets_the_bounds() {
    let heap = heap_of(4096);
    assert_eq!(heap.heap_start(), HEAP);
    assert_eq!(heap.heap_end(), HEAP + 4095);
    assert_eq!(heap.next(), HEAP);
    assert_eq!(heap.allocations(), 0);
}

#[test]
fn bump_allocates_in_order() {
    let mut heap = heap_of(4096);
    assert_eq!(heap.allocate(layout(16, 8)), Some(HEAP));
    assert_eq!(heap.allocate(layout(16, 8)), Some(HEAP + 16));
    assert_eq!(heap.allocate(layout(1, 1)), Some(HEAP + 32));
    assert_eq!(heap.next(), HEAP + 33);
    assert_eq!(heap.allocations(), 3);
}

#[test]
fn bump_aligns_the_cursor_upwards() {
    let mut heap = heap_of(4096);
    assert_eq!(heap.allocate(layout(1, 1)), Some(HEAP));
    assert_eq!(heap.allocate(layout(8, 64)), Some(HEAP + 64));
    assert_eq!(heap.allocate(layout(3, 2)), Some(HEAP + 72));
    assert_eq!(heap.allocate(layout(1, 4)), Some(HEAP + 76));
    assert_eq!(heap.next(), HEAP + 77);
}

#[test]
fn bump_scenario_of_4096_bytes() {
    let mut heap = heap_of(4096);
    assert_eq!(heap.allocate(layout(4000, 8)), Some(HEAP));
    assert_eq!(heap.allocate(layout(200, 8)), None);
    assert_eq!(heap.next(), HEAP + 4000);
    assert_eq!(heap.allocations(), 1);
}

#[test]
fn bump_failure_changes_nothing() {
    let mut heap = heap_of(128);
    assert_eq!(heap.allocate(layout(100, 4)), Some(HEAP));
    assert_eq!(heap.allocate(layout(100, 4)), None);
    assert_eq!(heap.next(), HEAP + 100);
    assert_eq!(heap.allocations(), 1);
    assert_eq!(heap.allocate(layout(27, 1)), Some(HEAP + 100));
}

#[test]
fn bump_never_passes_the_last_address() {
    let mut whole = heap_of(4096);
    assert_eq!(whole.allocate(layout(4096, 1)), None);
    assert_eq!(whole.allocate(layout(4095, 1)), Some(HEAP));
    assert_eq!(whole.next(), whole.heap_end());
    assert_eq!(whole.allocate(layout(1, 1)), None);
    assert_eq!(whole.allocate(layout(0, 1)), Some(HEAP + 4095));
}

#[test]
fn bump_reclaims_in_bulk() {
    let mut heap = heap_of(4096);
    let a = heap.allocate(layout(100, 8)).unwrap();
    let b = heap.allocate(layout(200, 16)).unwrap();
    let c = heap.allocate(layout(300, 32)).unwrap();
    let cursor = heap.next();
    assert_eq!(heap.allocations(), 3);

    heap.deallocate(b, layout(200, 16));
    assert_eq!(heap.allocations(), 2);
    assert_eq!(heap.next(), cursor);
    heap.deallocate(c, layout(300, 32));
    assert_eq!(heap.allocations(), 1);
    assert_eq!(heap.next(), cursor);
    heap.deallocate(a, layout(100, 8));
    assert_eq!(heap.allocations(), 0);
    assert_eq!(heap.next(), HEAP);
}

#[test]
fn bump_reclaims_in_bulk_whatever_the_order() {
    let orders: [[usize; 3]; 6] =
        [[0, 1, 2], [0, 2, 1], [1, 0, 2], [1, 2, 0], [2, 0, 1], [2, 1, 0]];
    for order in orders {
        let mut heap = heap_of(1024);
        let layouts = [layout(10, 1), layout(20, 2), layout(30, 4)];
        let mut addrs = Vec::new();
        for l in layouts {
            addrs.push(heap.allocate(l).unwrap());
        }
        let cursor = heap.next();
        for (done, i) in order.iter().enumerate() {
            assert_eq!(heap.next(), cursor);
            heap.deallocate(addrs[*i], layouts[*i]);
            assert_eq!(heap.allocations(), 2 - done);
        }
        assert_eq!(heap.next(), HEAP);
    }
}

#[test]
fn bump_does_not_reuse_a_freed_block_while_others_are_out() {
    let mut heap = heap_of(4096);
    let a = heap.allocate(layout(64, 8)).unwrap();
    let _b = heap.allocate(layout(64, 8)).unwrap();
    heap.deallocate(a, layout(64, 8));
    assert_eq!(heap.allocate(layout(64, 8)), Some(HEAP + 128));
}

#[test]
fn bump_starts_over_after_a_reset() {
    let mut heap = heap_of(4096);
    let a = heap.allocate(layout(4000, 8)).unwrap();
    heap.deallocate(a, layout(4000, 8));
    assert_eq!(heap.allocate(layout(4000, 8)), Some(HEAP));
}

#[test]
fn bump_overflow_is_an_ordinary_failure() {
    let mut heap = BumpAllocator::new();
    heap.init(usize::MAX - 4096, 4096);
    assert_eq!(heap.allocate(layout(usize::MAX, 1)), None);
    assert_eq!(heap.allocate(layout(16, 1 << 63)), None);
    assert_eq!(heap.allocate(layout(8192, 1)), None);
    assert_eq!(heap.allocations(), 0);
    assert_eq!(heap.allocate(layout(16, 1)), Some(usize::MAX - 4096));
}

#[test]
fn bump_blocks_are_aligned_inside_the_heap_and_apart() {
    let mut heap = heap_of(4096);
    let requests = [(3, 1), (8, 8), (100, 64), (1, 2), (17, 16), (256, 256), (5, 4)];
    let mut got: Vec<(usize, usize)> = Vec::new();
    for (size, align) in requests {
        let addr = heap.allocate(layout(size, align)).unwrap();
        assert_eq!(addr % align, 0);
        assert!(heap.heap_start() <= addr && addr + size <= heap.heap_end());
        for (other, other_size) in &got {
            assert!(addr + size <= *other || *other + *other_size <= addr);
        }
        got.push((addr, size));
    }
}
