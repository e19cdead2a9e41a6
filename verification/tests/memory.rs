use blog_os::memory::{
    level1_page_table_index, level2_page_table_index, level3_page_table_index,
    level4_page_table_index, offset_in_page, BootInfoFrameAllocator, EmptyFrameAllocator,
    MemoryRegion, PAGE_SIZE,
};
use bootloader::bootinfo::{FrameRange, MemoryMap, MemoryRegionType};
use x86_64::structures::paging::PhysFrame;
use x86_64::{PhysAddr, VirtAddr};

fn region(start_addr: u64, end_addr: u64, usable: bool) -> MemoryRegion {
    MemoryRegion { start_addr, end_addr, usable }
}

#[test]
fn test_page_index() {
    let addr = VirtAddr::new(0xdeadbeaf);
    assert_eq!(u64::from(addr.p1_index()), level1_page_table_index(addr.as_u64()));
    assert_eq!(u64::from(addr.p2_index()), level2_page_table_index(addr.as_u64()));
    assert_eq!(u64::from(addr.p3_index()), level3_page_table_index(addr.as_u64()));
    assert_eq!(u64::from(addr.p4_index()), level4_page_table_index(addr.as_u64()));
    assert_eq!(u64::from(addr.page_offset()), offset_in_page(addr.as_u64()));
}

#[test]
fn page_indexes_of_known_addresses() {
    assert_eq!(level1_page_table_index(0xdeadbeaf), 0xdb);
    assert_eq!(level2_page_table_index(0xdeadbeaf), 0xf5);
    assert_eq!(level3_page_table_index(0xdeadbeaf), 3);
    assert_eq!(level4_page_table_index(0xdeadbeaf), 0);
    assert_eq!(offset_in_page(0xdeadbeaf), 0xeaf);

    let heap: u64 = 0x4444_4444_0000;
    assert_eq!(level4_page_table_index(heap), 0x88);
    assert_eq!(level3_page_table_index(heap), 0x111);
    assert_eq!(level2_page_table_index(heap), 0x22);
    assert_eq!(level1_page_table_index(heap), 0x40);
    assert_eq!(offset_in_page(heap), 0);
}

#[test]
fn page_indexes_have_nine_bits() {
    assert_eq!(level1_page_table_index(0x1ff << 12), 0x1ff);
    assert_eq!(level2_page_table_index(0x1ff << 21), 0x1ff);
    assert_eq!(level3_page_table_index(0x1ff << 30), 0x1ff);
    assert_eq!(level4_page_table_index(0x1ff << 39), 0x1ff);
    assert_eq!(level1_page_table_index(0x100 << 12), 0x100);
    assert_eq!(level4_page_table_index(u64::MAX), 0x1ff);
    assert_eq!(offset_in_page(u64::MAX), 0xfff);
    assert_eq!(level1_page_table_index(0xfff), 0);
}

#[test]
fn page_indexes_agree_with_the_architecture() {
    let mut addr: u64 = 0x1234_5678_9abc;
    for _ in 0..2000 {
        addr = addr.wrapping_mul(6364136223846793005).wrapping_add(1442695040888963407);
        let virt = VirtAddr::new_truncate(addr);
        let bits = virt.as_u64();
        assert_eq!(u64::from(virt.p1_index()), level1_page_table_index(bits));
        assert_eq!(u64::from(virt.p2_index()), level2_page_table_index(bits));
        assert_eq!(u64::from(virt.p3_index()), level3_page_table_index(bits));
        assert_eq!(u64::from(virt.p4_index()), level4_page_table_index(bits));
        assert_eq!(u64::from(virt.page_offset()), offset_in_page(bits));
    }
}

#[test]
fn frames_come_region_by_region() {
    let mut frames = BootInfoFrameAllocator::init(vec![
        region(0x0000, 0x1000, false),
        region(0x1000, 0x3000, true),
        region(0x3000, 0x8000, false),
        region(0x10_0000, 0x10_3000, true),
    ]);
    assert_eq!(frames.allocate_frame(), Some(0x1000));
    assert_eq!(frames.allocate_frame(), Some(0x2000));
    assert_eq!(frames.allocate_frame(), Some(0x10_0000));
    assert_eq!(frames.allocate_frame(), Some(0x10_1000));
    assert_eq!(frames.allocate_frame(), Some(0x10_2000));
    assert_eq!(frames.allocate_frame(), None);
    assert_eq!(frames.allocate_frame(), None);
}

#[test]
fn nth_usable_frame_counts_over_the_regions() {
    let frames = BootInfoFrameAllocator::init(vec![
        region(0x1000, 0x3000, true),
        region(0x5000, 0x5000, true),
        region(0x9000, 0x8000, true),
        region(0x20_0000, 0x40_0000, true),
    ]);
    assert_eq!(frames.nth_usable_frame(0), Some(0x1000));
    assert_eq!(frames.nth_usable_frame(1), Some(0x2000));
    assert_eq!(frames.nth_usable_frame(2), Some(0x20_0000));
    assert_eq!(frames.nth_usable_frame(2 + 511), Some(0x3f_f000));
    assert_eq!(frames.nth_usable_frame(2 + 512), None);
    assert_eq!(frames.nth_usable_frame(usize::MAX), None);
}

#[test]
fn a_region_that_is_cut_short_still_gives_its_last_frame() {
    let frames = BootInfoFrameAllocator::init(vec![region(0x1000, 0x2001, true)]);
    assert_eq!(frames.nth_usable_frame(0), Some(0x1000));
    assert_eq!(frames.nth_usable_frame(1), Some(0x2000));
    assert_eq!(frames.nth_usable_frame(2), None);
    let unaligned = BootInfoFrameAllocator::init(vec![region(0x1800, 0x3000, true)]);
    assert_eq!(unaligned.nth_usable_frame(0), Some(0x1000));
    assert_eq!(unaligned.nth_usable_frame(1), Some(0x2000));
    assert_eq!(unaligned.nth_usable_frame(2), None);
}

#[test]
fn an_empty_map_has_no_frame() {
    let mut frames = BootInfoFrameAllocator::init(Vec::new());
    assert_eq!(frames.allocate_frame(), None);
    let mut unusable = BootInfoFrameAllocator::init(vec![region(0, 0x10_0000, false)]);
    assert_eq!(unusable.allocate_frame(), None);
}

#[test]
fn frames_agree_with_the_iterators_over_the_boot_loaders_map() {
    let mut map = MemoryMap::new();
    let kinds = [
        MemoryRegionType::Usable,
        MemoryRegionType::Reserved,
        MemoryRegionType::Usable,
        MemoryRegionType::Kernel,
        MemoryRegionType::Usable,
    ];
    let bounds = [(0x1000, 0x5000), (0x5000, 0x9000), (0x9000, 0x9000), (0xa000, 0xf000), (0x10_0000, 0x10_7000)];
    for (kind, (start, end)) in kinds.iter().zip(bounds) {
        map.add_region(bootloader::bootinfo::MemoryRegion {
            range: FrameRange::new(start, end),
            region_type: *kind,
        });
    }
    let expected: Vec<u64> = map
        .iter()
        .filter(|r| r.region_type == MemoryRegionType::Usable)
        .map(|r| r.range.start_addr()..r.range.end_addr())
        .flat_map(|r| r.step_by(4096))
        .map(|addr| PhysFrame::<x86_64::structures::paging::Size4KiB>::containing_address(PhysAddr::new(addr)))
        .map(|frame| frame.start_address().as_u64())
        .collect();
    assert_eq!(expected.len(), 11);

    let regions: Vec<MemoryRegion> = map
        .iter()
        .map(|r| MemoryRegion {
            start_addr: r.range.start_addr(),
            end_addr: r.range.end_addr(),
            usable: r.region_type == MemoryRegionType::Usable,
        })
        .collect();
    let mut frames = BootInfoFrameAllocator::init(regions);
    for frame in expected {
        assert_eq!(frames.allocate_frame(), Some(frame));
    }
    assert_eq!(frames.allocate_frame(), None);
}

#[test]
fn empty_frame_allocator_never_allocates() {
    let mut frames = EmptyFrameAllocator;
    assert_eq!(frames.allocate_frame(), None);
    assert_eq!(frames.allocate_frame(), None);
    assert_eq!(PAGE_SIZE, 4096);
}
