//! The options of one entry of the interrupt descriptor table.

use vstd::prelude::*;

verus! {

/// The options with every field zero, except the three bits that must be
/// one.
pub const MINIMAL_VALID_OPTION: u16 = 0b0000111000000000;

/// Whether the entry is present: bit 15.
pub open spec fn present(bits: u16) -> bool {
    bits & 0x8000 != 0
}

/// Whether the processor disables interrupts when it calls the handler:
/// bit 8 is zero for such an interrupt gate, and one for a trap gate.
pub open spec fn interrupts_disabled(bits: u16) -> bool {
    bits & 0x0100 == 0
}

/// The least privilege level that may call the handler: bits 13 and 14.
pub open spec fn privilege_level(bits: u16) -> u16 {
    (bits >> 13) & 0x3
}

/// The stack that the processor switches to: bits 0 to 2, where 0 means
/// that it does not switch.
pub open spec fn stack_index(bits: u16) -> u16 {
    bits & 0x7
}

/// `bits` with the present bit set to `present`.
pub open spec fn with_present(bits: u16, present: bool) -> u16 {
    if present {
        bits | 0x8000
    } else {
        bits & 0x7fff
    }
}

/// `bits` with bit 8 cleared where interrupts are to be disabled, and
/// set where they are not.
pub open spec fn with_interrupts_disabled(bits: u16, disable: bool) -> u16 {
    if disable {
        bits & 0xfeff
    } else {
        bits | 0x0100
    }
}

/// `bits` with the privilege level replaced by `dpl`.
pub open spec fn with_privilege_level(bits: u16, dpl: u16) -> u16 {
    (bits & 0x9fff) | (dpl << 13)
}

/// `bits` with the stack index replaced by `index`.
pub open spec fn with_stack_index(bits: u16, index: u16) -> u16 {
    (bits & 0xfff8) | index
}

/// Setting the present bit sets it, and changes no other bit.
pub proof fn lemma_with_present(bits: u16, value: bool)
    ensures
        present(with_present(bits, value)) == value,
        with_present(bits, value) & 0x7fff == bits & 0x7fff,
        interrupts_disabled(with_present(bits, value)) == interrupts_disabled(bits),
        privilege_level(with_present(bits, value)) == privilege_level(bits),
        stack_index(with_present(bits, value)) == stack_index(bits),
{
    assert((bits | 0x8000) & 0x8000 != 0 && (bits & 0x7fff) & 0x8000 == 0 && (bits | 0x8000)
        & 0x7fff == bits & 0x7fff && (bits & 0x7fff) & 0x7fff == bits & 0x7fff) by (bit_vector);
    assert((bits | 0x8000) & 0x0100 == bits & 0x0100 && (bits & 0x7fff) & 0x0100 == bits & 0x0100)
        by (bit_vector);
    assert(((bits | 0x8000) >> 13) & 0x3 == (bits >> 13) & 0x3 && ((bits & 0x7fff) >> 13) & 0x3
        == (bits >> 13) & 0x3) by (bit_vector);
    assert((bits | 0x8000) & 0x7 == bits & 0x7 && (bits & 0x7fff) & 0x7 == bits & 0x7)
        by (bit_vector);
}

/// Setting bit 8 sets it as asked, and changes no other bit.
pub proof fn lemma_with_interrupts_disabled(bits: u16, value: bool)
    ensures
        interrupts_disabled(with_interrupts_disabled(bits, value)) == value,
        with_interrupts_disabled(bits, value) & 0xfeff == bits & 0xfeff,
        present(with_interrupts_disabled(bits, value)) == present(bits),
        privilege_level(with_interrupts_disabled(bits, value)) == privilege_level(bits),
        stack_index(with_interrupts_disabled(bits, value)) == stack_index(bits),
{
    assert((bits & 0xfeff) & 0x0100 == 0 && (bits | 0x0100) & 0x0100 != 0 && (bits & 0xfeff)
        & 0xfeff == bits & 0xfeff && (bits | 0x0100) & 0xfeff == bits & 0xfeff) by (bit_vector);
    assert((bits & 0xfeff) & 0x8000 == bits & 0x8000 && (bits | 0x0100) & 0x8000 == bits & 0x8000)
        by (bit_vector);
    assert(((bits & 0xfeff) >> 13) & 0x3 == (bits >> 13) & 0x3 && ((bits | 0x0100) >> 13) & 0x3
        == (bits >> 13) & 0x3) by (bit_vector);
    assert((bits & 0xfeff) & 0x7 == bits & 0x7 && (bits | 0x0100) & 0x7 == bits & 0x7)
        by (bit_vector);
}

/// Setting the privilege level sets it, and changes no other bit.
pub proof fn lemma_with_privilege_level(bits: u16, dpl: u16)
    requires
        dpl < 4,
    ensures
        privilege_level(with_privilege_level(bits, dpl)) == dpl,
        with_privilege_level(bits, dpl) & 0x9fff == bits & 0x9fff,
        present(with_privilege_level(bits, dpl)) == present(bits),
        interrupts_disabled(with_privilege_level(bits, dpl)) == interrupts_disabled(bits),
        stack_index(with_privilege_level(bits, dpl)) == stack_index(bits),
{
    assert(dpl < 4 ==> ((((bits & 0x9fff) | (dpl << 13)) >> 13) & 0x3 == dpl && ((bits & 0x9fff) | (
    dpl << 13)) & 0x9fff == bits & 0x9fff)) by (bit_vector);
    assert(dpl < 4 ==> (((bits & 0x9fff) | (dpl << 13)) & 0x8000 == bits & 0x8000 && ((bits
        & 0x9fff) | (dpl << 13)) & 0x0100 == bits & 0x0100 && ((bits & 0x9fff) | (dpl << 13)) & 0x7
        == bits & 0x7)) by (bit_vector);
}

/// Setting the stack index sets it, and changes no other bit.
pub proof fn lemma_with_stack_index(bits: u16, index: u16)
    requires
        index < 8,
    ensures
        stack_index(with_stack_index(bits, index)) == index,
        with_stack_index(bits, index) & 0xfff8 == bits & 0xfff8,
        present(with_stack_index(bits, index)) == present(bits),
        interrupts_disabled(with_stack_index(bits, index)) == interrupts_disabled(bits),
        privilege_level(with_stack_index(bits, index)) == privilege_level(bits),
{
    assert(index < 8 ==> (((bits & 0xfff8) | index) & 0x7 == index && ((bits & 0xfff8) | index)
        & 0xfff8 == bits & 0xfff8)) by (bit_vector);
    assert(index < 8 ==> (((bits & 0xfff8) | index) & 0x8000 == bits & 0x8000 && ((bits & 0xfff8)
        | index) & 0x0100 == bits & 0x0100 && (((bits & 0xfff8) | index) >> 13) & 0x3 == (bits
        >> 13) & 0x3)) by (bit_vector);
}

/// The options of one entry, packed in 16 bits:
///
/// | bits  | field                                                   |
/// |-------|---------------------------------------------------------|
/// | 0-2   | stack index: 0 keeps the stack, 1-7 switch to that one  |
/// | 3-7   | reserved                                                |
/// | 8     | 0 for an interrupt gate, 1 for a trap gate              |
/// | 9-11  | must be one                                             |
/// | 12    | must be zero                                            |
/// | 13-14 | privilege level                                         |
/// | 15    | present                                                 |
#[derive(Debug, Clone, Copy, PartialEq, Eq, Structural)]
pub struct EntryOptions(u16);

impl View for EntryOptions {
    type V = u16;

    closed spec fn view(&self) -> u16 {
        self.0
    }
}

impl EntryOptions {
    /// The options with every field zero, except the bits that must be one,
    /// in contracts.
    pub closed spec fn spec_minimal() -> EntryOptions {
        EntryOptions(MINIMAL_VALID_OPTION)
    }

    /// The options of a present entry that disables interrupts, in contracts.
    pub closed spec fn spec_new() -> EntryOptions {
        EntryOptions(0x8e00)
    }

    /// The options with every field zero, except the bits that must be one.
    #[verifier::when_used_as_spec(spec_minimal)]
    pub fn minimal() -> (r: Self)
        ensures
            r == Self::minimal(),
            r@ == MINIMAL_VALID_OPTION,
    {
        EntryOptions(MINIMAL_VALID_OPTION)
    }

    /// The options of a present entry that disables interrupts, at
    /// privilege level 0 and without a stack switch.
    #[verifier::when_used_as_spec(spec_new)]
    pub fn new() -> (r: Self)
        ensures
            r == Self::new(),
            r@ == 0x8e00,
            present(r@),
            interrupts_disabled(r@),
            privilege_level(r@) == 0,
            stack_index(r@) == 0,
    {
        let mut opt = Self::minimal();
        opt.set_present(true).disable_interrupts(true);
        proof {
            assert(with_interrupts_disabled(with_present(0x0e00, true), true) == 0x8e00)
                by (bit_vector);
            assert(present(0x8e00) && interrupts_disabled(0x8e00) && privilege_level(0x8e00) == 0
                && stack_index(0x8e00) == 0) by (bit_vector);
        }
        opt
    }

    /// The 16 bits.
    pub fn bits(&self) -> (r: u16)
        ensures
            r == self@,
    {
        self.0
    }

    /// Sets the present bit.
    pub fn set_present(&mut self, present: bool) -> (ret: &mut Self)
        ensures
            ret@ == with_present(old(self)@, present),
            *final(self) == *final(ret),
    {
        proof {
            assert(1u16 << 15 == 0x8000 && !(1u16 << 15) == 0x7fff) by (bit_vector);
        }
        if present {
            self.0 |= 1 << 15;
        } else {
            self.0 &= !(1 << 15);
        }
        self
    }

    /// Chooses whether the processor disables interrupts when it calls the
    /// handler.
    pub fn disable_interrupts(&mut self, disable: bool) -> (ret: &mut Self)
        ensures
            ret@ == with_interrupts_disabled(old(self)@, disable),
            *final(self) == *final(ret),
    {
        proof {
            assert(1u16 << 8 == 0x0100 && !(1u16 << 8) == 0xfeff) by (bit_vector);
        }
        if disable {
            self.0 &= !(1 << 8);
        } else {
            self.0 |= 1 << 8;
        }
        self
    }

    /// Sets the privilege level, which is one of 0 to 3.
    pub fn set_privilege_level(&mut self, dpl: u16) -> (ret: &mut Self)
        requires
            dpl < 4,
        ensures
            ret@ == with_privilege_level(old(self)@, dpl),
            *final(self) == *final(ret),
    {
        self.0 = (self.0 & 0x9fff) | (dpl << 13);
        self
    }

    /// Sets the stack index, which is one of 0 to 7.
    pub fn set_stack_index(&mut self, index: u16) -> (ret: &mut Self)
        requires
            index < 8,
        ensures
            ret@ == with_stack_index(old(self)@, index),
            *final(self) == *final(ret),
    {
        self.0 = (self.0 & 0xfff8) | index;
        self
    }
}

/// The number of entries of the table: the exceptions 0 to 15.
pub const IDT_ENTRIES: usize = 16;

/// One entry of the interrupt descriptor table: the address of the handler
/// in three parts, the selector of the code segment that the handler runs in,
/// and the options.
#[derive(Debug, Clone, Copy, PartialEq, Eq, Structural)]
pub struct Entry {
    /// Bits 0 to 15 of the handler's address.
    pub pointer_low: u16,
    /// The selector of a code segment in the global descriptor table.
    pub gdt_selector: u16,
    /// The options.
    pub options: EntryOptions,
    /// Bits 16 to 31 of the handler's address.
    pub pointer_middle: u16,
    /// Bits 32 to 63 of the handler's address.
    pub pointer_high: u32,
    /// Always zero.
    pub reserved: u32,
}

impl Entry {
    /// The address of the handler, put together from its three parts.
    pub open spec fn pointer(self) -> u64 {
        (self.pointer_low as u64) | ((self.pointer_middle as u64) << 16) | ((
        self.pointer_high as u64) << 32)
    }

    /// The entry for the handler at `handler` in the code segment of
    /// `gdt_selector`, in contracts.
    pub open spec fn spec_new(gdt_selector: u16, handler: u64) -> Entry {
        Entry {
            gdt_selector,
            pointer_low: (handler & 0xffff) as u16,
            pointer_middle: ((handler >> 16) & 0xffff) as u16,
            pointer_high: ((handler >> 32) & 0xffff_ffff) as u32,
            options: EntryOptions::new(),
            reserved: 0,
        }
    }

    /// The entry of an exception that has no handler, in contracts.
    pub open spec fn spec_missing() -> Entry {
        Entry {
            gdt_selector: 0,
            pointer_low: 0,
            pointer_middle: 0,
            pointer_high: 0,
            options: EntryOptions::minimal(),
            reserved: 0,
        }
    }

    /// The entry for the handler at the address `handler`, which runs in the
    /// code segment of `gdt_selector`: present, with interrupts disabled. The
    /// three parts of the address make up `handler` again.
    #[verifier::when_used_as_spec(spec_new)]
    pub fn new(gdt_selector: u16, handler: u64) -> (r: Entry)
        ensures
            r == Entry::new(gdt_selector, handler),
            r.pointer() == handler,
    {
        let pointer: u64 = handler;
        proof {
            lemma_pointer_parts(handler);
        }
        Entry {
            gdt_selector,
            pointer_low: (pointer & 0xffff) as u16,
            pointer_middle: ((pointer >> 16) & 0xffff) as u16,
            pointer_high: ((pointer >> 32) & 0xffff_ffff) as u32,
            options: EntryOptions::new(),
            reserved: 0,
        }
    }

    /// The entry of an exception that has no handler: not present, and zero
    /// but for the bits of the options that must be one.
    #[verifier::when_used_as_spec(spec_missing)]
    pub fn missing() -> (r: Entry)
        ensures
            r == Entry::missing(),
            !present(r.options@),
    {
        assert(!present(MINIMAL_VALID_OPTION)) by (bit_vector);
        Entry {
            gdt_selector: 0,
            pointer_low: 0,
            pointer_middle: 0,
            pointer_high: 0,
            options: EntryOptions::minimal(),
            reserved: 0,
        }
    }
}

/// The three parts that an address is split into make up the address again.
pub proof fn lemma_pointer_parts(handler: u64)
    ensures
        Entry::new(0, handler).pointer() == handler,
        handler & 0xffff <= u16::MAX,
        (handler >> 16) & 0xffff <= u16::MAX,
        (handler >> 32) & 0xffff_ffff <= u32::MAX,
{
    assert(handler & 0xffff <= 0xffff && (handler >> 16) & 0xffff <= 0xffff && (handler >> 32)
        & 0xffff_ffff <= 0xffff_ffff) by (bit_vector);
    let low = (handler & 0xffff) as u16;
    let middle = ((handler >> 16) & 0xffff) as u16;
    let high = ((handler >> 32) & 0xffff_ffff) as u32;
    assert((low as u64) | ((middle as u64) << 16) | ((high as u64) << 32) == handler)
        by (bit_vector)
        requires
            low == (handler & 0xffff) as u16,
            middle == ((handler >> 16) & 0xffff) as u16,
            high == ((handler >> 32) & 0xffff_ffff) as u32,
    ;
}

/// The interrupt descriptor table, as far as the exceptions go:
///
/// | entry | exception                   |
/// |-------|-----------------------------|
/// | 0     | divide by zero              |
/// | 1     | debug                       |
/// | 2     | non-maskable interrupt      |
/// | 3     | breakpoint                  |
/// | 4     | overflow                    |
/// | 5     | bound range exceeded        |
/// | 6     | invalid opcode              |
/// | 7     | device not available        |
/// | 8     | double fault                |
/// | 9     | coprocessor segment overrun |
/// | 10    | invalid TSS                 |
/// | 11    | segment not present         |
/// | 12    | stack-segment fault         |
/// | 13    | general protection fault    |
/// | 14    | page fault                  |
/// | 15    | reserved                    |
pub struct Idt(pub [Entry; 16]);

impl Idt {
    /// A table in which every entry is missing.
    pub fn new() -> (r: Idt)
        ensures
            forall|i: int| 0 <= i < IDT_ENTRIES ==> #[trigger] r.0[i] == Entry::missing(),
    {
        Idt([Entry::missing();16])
    }

    /// Sets the handler of the exception `entry`, which is one of 0 to 15,
    /// to the one at the address `handler` in the code segment of
    /// `gdt_selector`, and returns the options of the entry for further
    /// changes. The other entries stay as they are.
    pub fn set_handler(&mut self, entry: u8, gdt_selector: u16, handler: u64) -> (ret:
        &mut EntryOptions)
        requires
            entry < IDT_ENTRIES,
        ensures
            *ret == EntryOptions::new(),
            final(self).0[entry as int] == (Entry {
                options: *final(ret),
                ..Entry::new(gdt_selector, handler)
            }),
            forall|i: int|
                0 <= i < IDT_ENTRIES && i != entry ==> #[trigger] final(self).0[i] == old(self).0[i],
    {
        self.0[entry as usize] = Entry::new(gdt_selector, handler);
        &mut self.0[entry as usize].options
    }
}

} // verus!
