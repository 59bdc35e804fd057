//! Dynamic memory subsystem of the Crysalis kernel.
//!
//! The heart of the crate is a segregated free-list allocator
//! ([`fixed_size_block::FixedSizeBlockAllocator`]) layered over a first-fit
//! backing heap ([`linked_list::Heap`]), together with the frame source
//! ([`paging::BootInfoFrameAllocator`]) and the page-range computation that
//! establish the heap window at boot. All of it is modelled over plain
//! addresses, so every allocation decision is verified; the thin hardware
//! shell (page tables, port I/O, the text console) lives outside the library.

use vstd::prelude::*;

pub mod fixed_size_block;
pub mod linked_list;
pub mod memory;
pub mod paging;
pub mod pic;
pub mod vga;

pub use fixed_size_block::FixedSizeBlockAllocator;
pub use memory::{align_up, HEAP_SIZE, HEAP_START};
pub use paging::BootInfoFrameAllocator;

verus! {

/// Exit codes reported to the emulator through port-mapped I/O.
#[derive(Debug, Clone, Copy, PartialEq, Eq, Structural)]
pub enum QemuExitCode {
    /// Success code
    Success,
    /// Failure code
    Failed,
}

impl QemuExitCode {
    /// The numeric code written to the exit port for this outcome.
    pub fn as_u32(self) -> (r: u32)
        ensures
            self matches QemuExitCode::Success ==> r == 0x10,
            self matches QemuExitCode::Failed ==> r == 0x11,
    {
        match self {
            QemuExitCode::Success => 0x10,
            QemuExitCode::Failed => 0x11,
        }
    }
}

} // verus!
