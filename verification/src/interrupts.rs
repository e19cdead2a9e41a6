//! Where the hardware interrupts stand in the interrupt descriptor table.

use vstd::prelude::*;

verus! {

/// The first entry of the primary interrupt controller. Its interrupts 0 to
/// 7 stand at the entries 32 to 39, behind the 32 entries of the processor's
/// own exceptions.
pub const PIC_1_OFFSET: u8 = 32;

/// The first entry of the secondary interrupt controller.
pub const PIC_2_OFFSET: u8 = PIC_1_OFFSET + 8;

/// A hardware interrupt, by the entry it stands at.
#[derive(Debug, Clone, Copy)]
pub enum InterruptIndex {
    /// The timer: the first line of the primary controller.
    Timer,
    /// The keyboard: the second line of the primary controller.
    Keyboard,
}

impl InterruptIndex {
    /// The entry of the interrupt, as a number.
    pub open spec fn entry(self) -> int {
        match self {
            InterruptIndex::Timer => PIC_1_OFFSET as int,
            InterruptIndex::Keyboard => PIC_1_OFFSET + 1,
        }
    }

    /// The entry of the interrupt.
    pub fn as_u8(self) -> (r: u8)
        ensures
            r == self.entry(),
            PIC_1_OFFSET <= r < PIC_2_OFFSET,
    {
        match self {
            InterruptIndex::Timer => PIC_1_OFFSET,
            InterruptIndex::Keyboard => PIC_1_OFFSET + 1,
        }
    }

    /// The entry of the interrupt, for indexing the table.
    pub fn as_usize(self) -> (r: usize)
        ensures
            r == self.entry(),
    {
        self.as_u8() as usize
    }
}

} // verus!
