use blog_os::allocator::{align_up, checked_align_up, is_power_of_two, Dummy, Layout};

#[test]
fn layout_keeps_size_and_alignment() {
    let l = Layout::from_size_align(24, 8).unwrap();
    assert_eq!(l.size(), 24);
    assert_eq!(l.align(), 8);
    let zero = Layout::from_size_align(0, 1).unwrap();
    assert_eq!(zero.size(), 0);
    assert_eq!(zero.align(), 1);
}

#[test]
fn layout_wants_a_power_of_two() {
    assert!(Layout::from_size_align(8, 0).is_none());
    assert!(Layout::from_size_align(8, 3).is_none());
    assert!(Layout::from_size_align(8, 12).is_none());
    assert!(Layout::from_size_align(8, usize::MAX).is_none());
    assert!(Layout::from_size_align(8, 1).is_some());
    assert!(Layout::from_size_align(usize::MAX, 4096).is_some());
    assert!(Layout::from_size_align(8, 1 << 63).is_some());
}

#[test]
fn powers_of_two() {
    assert!(!is_power_of_two(0));
    assert!(is_power_of_two(1));
    assert!(is_power_of_two(2));
    assert!(!is_power_of_two(3));
    assert!(is_power_of_two(4));
    assert!(!is_power_of_two(6));
    assert!(is_power_of_two(1024));
    assert!(!is_power_of_two(1025));
    assert!(is_power_of_two(1 << 63));
    assert!(!is_power_of_two((1 << 63) + 1));
    assert!(!is_power_of_two(usize::MAX));
}

#[test]
fn align_up_gives_the_next_multiple() {
    assert_eq!(align_up(0, 8), 0);
    assert_eq!(align_up(1, 8), 8);
    assert_eq!(align_up(7, 8), 8);
    assert_eq!(align_up(8, 8), 8);
    assert_eq!(align_up(9, 8), 16);
    assert_eq!(align_up(0x1234, 0x1000), 0x2000);
    assert_eq!(align_up(0x4444_4444_0001, 4096), 0x4444_4444_1000);
    assert_eq!(align_up(13, 1), 13);
}

#[test]
fn align_up_agrees_with_the_masking_form() {
    for align in [1usize, 2, 4, 8, 16, 64, 4096] {
        for addr in 0usize..300 {
            assert_eq!(align_up(addr, align), (addr + align - 1) & !(align - 1));
        }
    }
}

#[test]
fn checked_align_up_notices_overflow() {
    assert_eq!(checked_align_up(100, 64), Some(128));
    assert_eq!(checked_align_up(usize::MAX, 1), Some(usize::MAX));
    assert_eq!(checked_align_up(usize::MAX, 2), None);
    assert_eq!(checked_align_up(usize::MAX - 7, 8), Some(usize::MAX - 7));
    assert_eq!(checked_align_up(usize::MAX - 6, 8), None);
    assert_eq!(checked_align_up(1, 1 << 63), Some(1 << 63));
    assert_eq!(checked_align_up((1 << 63) + 1, 1 << 63), None);
}

#[test]
fn dummy_never_allocates() {
    let dummy = Dummy;
    assert_eq!(dummy.allocate(Layout::from_size_align(1, 1).unwrap()), None);
    assert_eq!(dummy.allocate(Layout::from_size_align(0, 8).unwrap()), None);
    assert_eq!(dummy.allocate(Layout::from_size_align(4096, 4096).unwrap()), None);
}
