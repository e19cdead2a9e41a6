use blog_os::interrupts::{InterruptIndex, PIC_1_OFFSET, PIC_2_OFFSET};
use blog_os::naked_interrupts::idt::{Entry, EntryOptions, Idt, IDT_ENTRIES, MINIMAL_VALID_OPTION};
use blog_os::test_harness::QemuExitCode;

#[test]
fn test_default() {
    let opt = EntryOptions::minimal();
    assert_eq!(MINIMAL_VALID_OPTION, opt.bits());
    assert_eq!(0b0000111000000000, opt.bits());
}

#[test]
fn test_stack_index() {
    let mut opt = EntryOptions::minimal();
    opt.set_stack_index(7);
    assert_eq!(0b0000111000000111, opt.bits());
}

#[test]
fn test_set_present() {
    let mut opt = EntryOptions::minimal();
    opt.set_stack_index(4).set_present(true);
    assert_eq!(0b1000111000000100, opt.bits());
}

#[test]
fn test_disable_interrupts() {
    let mut opt = EntryOptions::minimal();
    opt.disable_interrupts(false).set_stack_index(3).set_present(true);
    assert_eq!(0b1000111100000011, opt.bits());
}

#[test]
fn entry_options_new_is_present_and_disables_interrupts() {
    assert_eq!(0b1000111000000000, EntryOptions::new().bits());
}

#[test]
fn entry_options_present_bit_goes_both_ways() {
    let mut opt = EntryOptions::new();
    opt.set_present(false);
    assert_eq!(0b0000111000000000, opt.bits());
    opt.set_present(true);
    assert_eq!(0b1000111000000000, opt.bits());
}

#[test]
fn entry_options_interrupts_go_both_ways() {
    let mut opt = EntryOptions::new();
    opt.disable_interrupts(false);
    assert_eq!(0b1000111100000000, opt.bits());
    opt.disable_interrupts(true);
    assert_eq!(0b1000111000000000, opt.bits());
}

#[test]
fn entry_options_privilege_level() {
    let mut opt = EntryOptions::new();
    opt.set_privilege_level(3);
    assert_eq!(0b1110111000000000, opt.bits());
    opt.set_privilege_level(1);
    assert_eq!(0b1010111000000000, opt.bits());
    opt.set_privilege_level(0);
    assert_eq!(0b1000111000000000, opt.bits());
}

#[test]
fn entry_options_stack_index_is_replaced() {
    let mut opt = EntryOptions::new();
    opt.set_stack_index(7).set_stack_index(2);
    assert_eq!(0b1000111000000010, opt.bits());
    opt.set_stack_index(0);
    assert_eq!(0b1000111000000000, opt.bits());
}

#[test]
fn entry_options_fields_do_not_disturb_each_other() {
    let mut opt = EntryOptions::minimal();
    opt.set_privilege_level(2).set_stack_index(5).set_present(true).disable_interrupts(false);
    assert_eq!(0b1100111100000101, opt.bits());
    opt.set_privilege_level(0);
    assert_eq!(0b1000111100000101, opt.bits());
}

#[test]
fn interrupt_index_follows_the_controller() {
    assert_eq!(PIC_1_OFFSET, 32);
    assert_eq!(PIC_2_OFFSET, 40);
    assert_eq!(InterruptIndex::Timer.as_u8(), 32);
    assert_eq!(InterruptIndex::Keyboard.as_u8(), 33);
    assert_eq!(InterruptIndex::Timer.as_usize(), 32);
    assert_eq!(InterruptIndex::Keyboard.as_usize(), 33);
}

#[test]
fn qemu_exit_codes() {
    assert_eq!(QemuExitCode::Success.as_u32(), 0x10);
    assert_eq!(QemuExitCode::Failed.as_u32(), 0x11);
    assert_ne!(QemuExitCode::Success, QemuExitCode::Failed);
}

#[test]
fn entry_splits_the_address_of_the_handler() {
    let entry = Entry::new(0x08, 0x1234_5678_9abc_def0);
    assert_eq!(entry.pointer_low, 0xdef0);
    assert_eq!(entry.pointer_middle, 0x9abc);
    assert_eq!(entry.pointer_high, 0x1234_5678);
    assert_eq!(entry.gdt_selector, 0x08);
    assert_eq!(entry.options, EntryOptions::new());
    assert_eq!(entry.options.bits(), 0b1000111000000000);
    assert_eq!(entry.reserved, 0);
}

#[test]
fn entry_parts_make_up_the_address_again() {
    for handler in [0u64, 1, 0xffff, 0x1_0000, 0xffff_ffff, 0x1_0000_0000, 0xffff_8000_0020_1000, u64::MAX] {
        let entry = Entry::new(0x10, handler);
        let pointer = entry.pointer_low as u64
            | (entry.pointer_middle as u64) << 16
            | (entry.pointer_high as u64) << 32;
        assert_eq!(pointer, handler);
    }
}

#[test]
fn missing_entry_is_not_present() {
    let entry = Entry::missing();
    assert_eq!(entry.pointer_low, 0);
    assert_eq!(entry.pointer_middle, 0);
    assert_eq!(entry.pointer_high, 0);
    assert_eq!(entry.gdt_selector, 0);
    assert_eq!(entry.reserved, 0);
    assert_eq!(entry.options, EntryOptions::minimal());
    assert_eq!(entry.options.bits() & 0x8000, 0);
}

#[test]
fn new_table_has_only_missing_entries() {
    let idt = Idt::new();
    assert_eq!(idt.0.len(), IDT_ENTRIES);
    for entry in idt.0 {
        assert_eq!(entry, Entry::missing());
    }
}

#[test]
fn set_handler_fills_one_entry() {
    let mut idt = Idt::new();
    idt.set_handler(3, 0x08, 0xdead_beef);
    for (i, entry) in idt.0.iter().enumerate() {
        if i == 3 {
            assert_eq!(*entry, Entry::new(0x08, 0xdead_beef));
        } else {
            assert_eq!(*entry, Entry::missing());
        }
    }
}

#[test]
fn set_handler_hands_out_the_options_of_the_entry() {
    let mut idt = Idt::new();
    idt.set_handler(8, 0x08, 0x10_0000).set_stack_index(1);
    idt.set_handler(14, 0x08, 0x20_0000).set_privilege_level(3).set_present(false);
    assert_eq!(idt.0[8].options.bits(), 0b1000111000000001);
    assert_eq!(idt.0[8].pointer_middle, 0x10);
    assert_eq!(idt.0[14].options.bits(), 0b0110111000000000);
    assert_eq!(idt.0[0], Entry::missing());
    assert_eq!(idt.0[15], Entry::missing());
}
