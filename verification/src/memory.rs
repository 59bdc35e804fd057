//! The heap window: its fixed location, the pages that back it, and the
//! address-alignment helper shared with the first-fit heap.

use vstd::prelude::*;

use vstd::arithmetic::div_mod::{
    lemma_fundamental_div_mod, lemma_mod_decreases, lemma_mod_multiples_basic,
};

verus! {

/// Virtual address where the kernel's heap window begins.
pub const HEAP_START: u64 = 0x4444_4444_0000;

/// Size allocated for the kernel's heap, in bytes.
pub const HEAP_SIZE: u64 = 100 * 1024;

/// Size in bytes of one page, and of one physical frame.
pub const PAGE_SIZE: u64 = 4096;

/// The frame source ran out of physical frames while the heap window was
/// being mapped. Fatal to boot; the boot sequence decides how to halt.
#[derive(Debug, Clone, Copy, PartialEq, Eq, Structural)]
pub struct FrameAllocationFailed;

/// `addr` rounded up to the next multiple of `align`.
pub open spec fn spec_align_up(addr: int, align: int) -> int {
    if addr % align == 0 {
        addr
    } else {
        addr - addr % align + align
    }
}

/// Rounding up lands on a multiple of `align`, at most `align - 1` bytes
/// above `addr`.
pub proof fn lemma_align_up(addr: int, align: int)
    requires
        0 <= addr,
        0 < align,
    ensures
        spec_align_up(addr, align) % align == 0,
        addr <= spec_align_up(addr, align) < addr + align,
{
    if addr % align == 0 {
    } else {
        let q = addr / align;
        lemma_fundamental_div_mod(addr, align);
        assert((q + 1) * align == q * align + align) by (nonlinear_arith);
        assert(q * align == align * q) by (nonlinear_arith);
        lemma_mod_multiples_basic(q + 1, align);
    }
}

/// Align the given address `addr` upwards to alignment `align`.
pub fn align_up(addr: usize, align: usize) -> (r: usize)
    requires
        0 < align,
        spec_align_up(addr as int, align as int) <= usize::MAX,
    ensures
        r == spec_align_up(addr as int, align as int),
{
    let remainder = addr % align;
    if remainder == 0 {
        addr
    } else {
        proof {
            lemma_mod_decreases(addr as nat, align as nat);
        }
        addr - remainder + align
    }
}

/// Page-aligned start addresses of every page in the heap window
/// `[HEAP_START, HEAP_START + HEAP_SIZE)`, in ascending order. Every one of
/// these pages must be mapped to a fresh frame before the allocator may touch
/// the window.
pub fn heap_pages() -> (pages: Vec<u64>)
    ensures
        pages@.len() == HEAP_SIZE / PAGE_SIZE,
        forall|i: int| 0 <= i < pages@.len() ==> pages@[i] == HEAP_START + i * PAGE_SIZE,
{
    let heap_start_page = HEAP_START - HEAP_START % PAGE_SIZE;
    let page_count = HEAP_SIZE / PAGE_SIZE;
    let mut pages: Vec<u64> = Vec::new();
    let mut i: u64 = 0;
    while i < page_count
        invariant
            i <= page_count,
            page_count == HEAP_SIZE / PAGE_SIZE,
            heap_start_page == HEAP_START,
            pages@.len() == i,
            forall|j: int| 0 <= j < pages@.len() ==> pages@[j] == HEAP_START + j * PAGE_SIZE,
        decreases page_count - i,
    {
        pages.push(heap_start_page + i * PAGE_SIZE);
        i = i + 1;
    }
    pages
}

/// One step of the heap-mapping loop: the frame the frame source produced for
/// the next heap page, or the fatal error when the source is exhausted.
pub fn frame_for_page(frame: Option<u64>) -> (r: Result<u64, FrameAllocationFailed>)
    ensures
        frame matches Some(f) ==> r == Ok::<u64, FrameAllocationFailed>(f),
        frame is None ==> r == Err::<u64, FrameAllocationFailed>(FrameAllocationFailed),
{
    match frame {
        Some(f) => Ok(f),
        None => Err(FrameAllocationFailed),
    }
}

} // verus!
