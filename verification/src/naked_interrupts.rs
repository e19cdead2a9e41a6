//! An interrupt descriptor table built by hand, without a crate for the
//! architecture: its entries and their options, as the processor wants them
//! laid out.

pub mod idt;
