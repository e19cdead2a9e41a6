use blog_os::allocator::linked_list::{LinkedListAllocator, ListNode, NODE_ALIGN, NODE_SIZE};
use blog_os::allocator::Layout;

const HEAP: usize = 0x4444_0000;

fn layout(size: usize, align: usize) -> Layout {
    Layout::from_size_align(size, align).unwrap()
}

fn heap_of(size: usize) -> LinkedListAllocator {
    let mut heap = LinkedListAllocator::new();
    heap.init(HEAP, size);
    heap
}

#[test]
fn node_is_a_size_and_a_link() {
    assert_eq!(NODE_SIZE, 16);
    assert_eq!(NODE_ALIGN, 8);
}

#[test]
fn node_knows_its_bounds() {
    let node = ListNode::new(0x1000, 0x200);
    assert_eq!(node.start_addr(), 0x1000);
    assert_eq!(node.size(), 0x200);
    assert_eq!(node.end_addr(), 0x1200);
    let last = ListNode::new(usize::MAX - 16, 16);
    assert_eq!(last.end_addr(), usize::MAX);
}

#[test]
fn list_new_has_no_free_region() {
    let mut heap = LinkedListAllocator::new();
    assert!(heap.free_regions().is_empty());
    assert_eq!(heap.allocate(layout(1, 1)), None);
}

#[test]
fn list_init_makes_one_free_region() {
    let heap = heap_of(4096);
    assert_eq!(heap.free_regions(), vec![(HEAP, 4096)]);
}

#[test]
fn size_align_pads_to_a_record() {
    let padded = |size, align| LinkedListAllocator::size_align(layout(size, align));
    assert_eq!(padded(0, 1), Some((16, 8)));
    assert_eq!(padded(1, 1), Some((16, 8)));
    assert_eq!(padded(16, 8), Some((16, 8)));
    assert_eq!(padded(17, 1), Some((24, 8)));
    assert_eq!(padded(20, 8), Some((24, 8)));
    assert_eq!(padded(64, 8), Some((64, 8)));
    assert_eq!(padded(64, 32), Some((64, 32)));
    assert_eq!(padded(65, 32), Some((96, 32)));
    assert_eq!(padded(4000, 8), Some((4000, 8)));
    assert_eq!(padded(0, 4096), Some((16, 4096)));
    assert_eq!(padded(1, 4096), Some((4096, 4096)));
}

#[test]
fn size_align_notices_overflow() {
    let padded = |size, align| LinkedListAllocator::size_align(layout(size, align));
    assert_eq!(padded(usize::MAX, 1), None);
    assert_eq!(padded(usize::MAX - 6, 2), None);
    assert_eq!(padded(usize::MAX - 7, 8), Some((usize::MAX - 7, 8)));
    assert_eq!(padded(usize::MAX - 4095, 4096), Some((usize::MAX - 4095, 4096)));
    assert_eq!(padded(usize::MAX - 4094, 4096), None);
}

#[test]
fn region_that_fits_exactly_is_used() {
    let region = ListNode::new(HEAP, 64);
    assert_eq!(LinkedListAllocator::alloc_from_region(&region, 64, 8), Ok(HEAP));
}

#[test]
fn region_with_room_for_a_record_behind_the_block_is_used() {
    let region = ListNode::new(HEAP, 64 + NODE_SIZE);
    assert_eq!(LinkedListAllocator::alloc_from_region(&region, 64, 8), Ok(HEAP));
    let larger = ListNode::new(HEAP, 4096);
    assert_eq!(LinkedListAllocator::alloc_from_region(&larger, 64, 8), Ok(HEAP));
}

#[test]
fn region_that_would_leave_a_sliver_is_not_used() {
    let region = ListNode::new(HEAP, 64 + NODE_SIZE - 1);
    assert_eq!(LinkedListAllocator::alloc_from_region(&region, 64, 8), Err(()));
    for left in 1..NODE_SIZE {
        let region = ListNode::new(HEAP, 64 + left);
        assert_eq!(LinkedListAllocator::alloc_from_region(&region, 64, 8), Err(()));
    }
}

#[test]
fn region_that_is_too_small_is_not_used() {
    let region = ListNode::new(HEAP, 63);
    assert_eq!(LinkedListAllocator::alloc_from_region(&region, 64, 8), Err(()));
    let misaligned = ListNode::new(HEAP + 8, 64);
    assert_eq!(LinkedListAllocator::alloc_from_region(&misaligned, 64, 64), Err(()));
}

#[test]
fn region_is_entered_at_the_aligned_address() {
    let region = ListNode::new(HEAP + 8, 4096);
    assert_eq!(LinkedListAllocator::alloc_from_region(&region, 64, 64), Ok(HEAP + 64));
    assert_eq!(LinkedListAllocator::alloc_from_region(&region, 64, 8), Ok(HEAP + 8));
}

#[test]
fn region_overflow_is_an_ordinary_failure() {
    let region = ListNode::new(usize::MAX - 32, 32);
    assert_eq!(LinkedListAllocator::alloc_from_region(&region, usize::MAX, 8), Err(()));
    assert_eq!(LinkedListAllocator::alloc_from_region(&region, 16, 1 << 63), Err(()));
    assert_eq!(LinkedListAllocator::alloc_from_region(&region, 32, 1), Ok(usize::MAX - 32));
}

#[test]
fn heap_that_would_leave_a_sliver_serves_nothing() {
    let mut heap = heap_of(64 + NODE_SIZE - 1);
    assert_eq!(heap.allocate(layout(64, 8)), None);
    assert_eq!(heap.free_regions(), vec![(HEAP, 64 + NODE_SIZE - 1)]);
    assert_eq!(heap.allocate(layout(48, 8)), Some(HEAP));
    assert_eq!(heap.free_regions(), vec![(HEAP + 48, 31)]);
}

#[test]
fn add_free_region_puts_the_region_first() {
    let mut heap = LinkedListAllocator::new();
    heap.add_free_region(HEAP, 64);
    heap.add_free_region(HEAP + 1024, 128);
    assert_eq!(heap.free_regions(), vec![(HEAP + 1024, 128), (HEAP, 64)]);
}

#[test]
fn find_region_takes_the_first_that_fits() {
    let mut heap = LinkedListAllocator::new();
    heap.add_free_region(HEAP, 256);
    heap.add_free_region(HEAP + 1024, 32);
    heap.add_free_region(HEAP + 2048, 128);
    heap.add_free_region(HEAP + 4096, 16);

    let (node, start) = heap.find_region(64, 8).unwrap();
    assert_eq!((node.start_addr(), node.size(), start), (HEAP + 2048, 128, HEAP + 2048));
    assert_eq!(heap.free_regions(), vec![(HEAP + 4096, 16), (HEAP + 1024, 32), (HEAP, 256)]);

    let (node, start) = heap.find_region(64, 8).unwrap();
    assert_eq!((node.start_addr(), node.size(), start), (HEAP, 256, HEAP));
    assert_eq!(heap.free_regions(), vec![(HEAP + 4096, 16), (HEAP + 1024, 32)]);

    assert!(heap.find_region(64, 8).is_none());
    assert_eq!(heap.free_regions(), vec![(HEAP + 4096, 16), (HEAP + 1024, 32)]);
}

#[test]
fn find_region_skips_a_region_that_would_leave_a_sliver() {
    let mut heap = LinkedListAllocator::new();
    heap.add_free_region(HEAP, 64);
    heap.add_free_region(HEAP + 1024, 64 + 8);
    let (node, start) = heap.find_region(64, 8).unwrap();
    assert_eq!((node.start_addr(), start), (HEAP, HEAP));
}

#[test]
fn list_scenario_of_4096_bytes() {
    let mut heap = heap_of(4096);
    assert_eq!(heap.allocate(layout(4000, 8)), Some(HEAP));
    assert_eq!(heap.free_regions(), vec![(HEAP + 4000, 96)]);
    assert_eq!(heap.allocate(layout(200, 8)), None);
    assert_eq!(heap.free_regions(), vec![(HEAP + 4000, 96)]);
}

#[test]
fn list_splits_the_region_in_place() {
    let mut heap = heap_of(4096);
    assert_eq!(heap.allocate(layout(64, 8)), Some(HEAP));
    assert_eq!(heap.allocate(layout(64, 8)), Some(HEAP + 64));
    assert_eq!(heap.allocate(layout(1, 1)), Some(HEAP + 128));
    assert_eq!(heap.free_regions(), vec![(HEAP + 144, 4096 - 144)]);
}

#[test]
fn list_uses_a_whole_region() {
    let mut heap = heap_of(4096);
    assert_eq!(heap.allocate(layout(4096, 8)), Some(HEAP));
    assert!(heap.free_regions().is_empty());
    assert_eq!(heap.allocate(layout(1, 1)), None);
}

#[test]
fn list_reuses_a_freed_block_at_once() {
    let mut heap = heap_of(4096);
    let first = heap.allocate(layout(64, 8)).unwrap();
    let regions = heap.free_regions();
    heap.deallocate(first, layout(64, 8));
    assert_eq!(heap.free_regions().len(), regions.len() + 1);
    assert_eq!(heap.allocate(layout(64, 8)), Some(first));
    assert_eq!(heap.free_regions(), regions);
}

#[test]
fn list_reuses_the_block_freed_last() {
    let mut heap = heap_of(4096);
    let a = heap.allocate(layout(64, 8)).unwrap();
    let b = heap.allocate(layout(64, 8)).unwrap();
    let c = heap.allocate(layout(64, 8)).unwrap();
    heap.deallocate(a, layout(64, 8));
    heap.deallocate(c, layout(64, 8));
    heap.deallocate(b, layout(64, 8));
    assert_eq!(
        heap.free_regions(),
        vec![(b, 64), (c, 64), (a, 64), (HEAP + 192, 4096 - 192)]
    );
    assert_eq!(heap.allocate(layout(64, 8)), Some(b));
    assert_eq!(heap.allocate(layout(64, 8)), Some(c));
    assert_eq!(heap.allocate(layout(64, 8)), Some(a));
}

#[test]
fn list_frees_the_padded_block() {
    let mut heap = heap_of(4096);
    let a = heap.allocate(layout(1, 1)).unwrap();
    assert_eq!(heap.free_regions(), vec![(HEAP + 16, 4096 - 16)]);
    heap.deallocate(a, layout(1, 1));
    assert_eq!(heap.free_regions(), vec![(HEAP, 16), (HEAP + 16, 4096 - 16)]);
}

#[test]
fn list_does_not_merge_neighbours() {
    let mut heap = heap_of(4096);
    let a = heap.allocate(layout(2048, 8)).unwrap();
    let b = heap.allocate(layout(2048, 8)).unwrap();
    assert_eq!((a, b), (HEAP, HEAP + 2048));
    heap.deallocate(a, layout(2048, 8));
    heap.deallocate(b, layout(2048, 8));
    assert_eq!(heap.free_regions(), vec![(HEAP + 2048, 2048), (HEAP, 2048)]);
    assert_eq!(heap.allocate(layout(4096, 8)), None);
    assert_eq!(heap.allocate(layout(2048, 8)), Some(HEAP + 2048));
}

#[test]
fn list_gives_up_the_bytes_before_an_aligned_block() {
    let mut heap = LinkedListAllocator::new();
    heap.init(HEAP + 8, 4096);
    assert_eq!(heap.allocate(layout(64, 64)), Some(HEAP + 64));
    assert_eq!(heap.free_regions(), vec![(HEAP + 128, 4096 + 8 - 128)]);
}

#[test]
fn list_overflow_is_an_ordinary_failure() {
    let mut heap = heap_of(4096);
    assert_eq!(heap.allocate(layout(usize::MAX, 1)), None);
    assert_eq!(heap.allocate(layout(usize::MAX - 7, 8)), None);
    assert_eq!(heap.allocate(layout(16, 1 << 63)), None);
    assert_eq!(heap.free_regions(), vec![(HEAP, 4096)]);
}

#[test]
fn list_blocks_are_aligned_inside_the_heap_and_apart() {
    let mut heap = heap_of(8192);
    let requests = [(3, 1), (8, 8), (100, 64), (1, 2), (17, 16), (256, 256), (5, 4), (0, 1)];
    let mut got: Vec<(usize, usize, usize)> = Vec::new();
    for round in 0..3 {
        for (size, align) in requests {
            let addr = heap.allocate(layout(size, align)).unwrap();
            assert_eq!(addr % align, 0);
            assert!(HEAP <= addr && addr + size <= HEAP + 8192);
            for (other, other_size, _) in &got {
                assert!(addr + size <= *other || *other + *other_size <= addr);
            }
            got.push((addr, size, align));
        }
        let mut i = round;
        while i < got.len() {
            let (addr, size, align) = got.remove(i);
            heap.deallocate(addr, layout(size, align));
            i += 2;
        }
    }
}
