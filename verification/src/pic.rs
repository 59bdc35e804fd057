//! Interrupt numbering for the two chained programmable interrupt
//! controllers. The controllers themselves are hardware; only the index
//! arithmetic lives here.

use vstd::prelude::*;

verus! {

/// Offset of the primary programmable interrupt controller.
pub const PIC_1_OFFSET: u8 = 32;

/// Offset of the secondary programmable interrupt controller.
pub const PIC_2_OFFSET: u8 = PIC_1_OFFSET + 8;

/// Index of the various interrupts in the controller.
#[derive(Debug, Clone, Copy)]
pub enum InterruptIndex {
    /// Offset of the timer hardware interrupt.
    Timer,
    /// Offset for keyboard interrupts.
    Keyboard,
}

impl InterruptIndex {
    /// The interrupt vector number: the timer sits at the primary
    /// controller's offset, the keyboard right after it.
    pub fn as_u8(self) -> (r: u8)
        ensures
            self matches InterruptIndex::Timer ==> r == PIC_1_OFFSET,
            self matches InterruptIndex::Keyboard ==> r == PIC_1_OFFSET + 1,
    {
        match self {
            InterruptIndex::Timer => PIC_1_OFFSET,
            InterruptIndex::Keyboard => PIC_1_OFFSET + 1,
        }
    }
}

} // verus!
