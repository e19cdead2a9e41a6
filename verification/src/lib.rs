//! Building blocks of a small freestanding kernel, with their behaviour
//! stated as contracts and proved.
//!
//! The heart of the crate is [`allocator`]: three interchangeable heap
//! strategies that work on plain addresses and keep their bookkeeping in a
//! side table instead of inside the memory they hand out. Around it stand
//! the smaller rules of such a kernel: the options and entries of the
//! interrupt descriptor table ([`naked_interrupts`]), the places of the
//! hardware interrupts ([`interrupts`]), the indexes of a virtual address and
//! the frames of a memory map ([`memory`]), the text screen ([`vga_buffer`]),
//! the turns of a simple executor ([`task`]), and the exit codes of a test run
//! ([`test_harness`]).
//!
//! Nothing here reaches for the machine. The kernel around the library maps
//! the pages, loads the tables, holds the lock, and says where the screen is.

pub mod allocator;
pub mod interrupts;
pub mod memory;
pub mod naked_interrupts;
pub mod task;
pub mod test_harness;
pub mod vga_buffer;
