//! Memory management core of a small bare-metal kernel: a first-fit,
//! header-per-block heap allocator over one contiguous address range,
//! together with the plain data that the board and console drivers are
//! built from.
pub mod allocation_size_parts;
pub mod board;
pub mod console;
pub mod memory;
pub mod sbi;
pub mod uart;

use vstd::prelude::*;

use crate::memory::{Allocation, Allocator, HEADER_SIZE, WORD_SIZE};

verus! {

/// The three fixed addresses of the platform: the UART's register block and
/// the bounds of the heap region `[heap_start, heap_end)`.
pub struct LinkerGlobals {
    pub uart_address: usize,
    pub heap_start: usize,
    pub heap_end: usize,
}

/// A region can hold a heap when it has room for one header and its end
/// leaves room for a block's overhead below the top of the address space.
pub open spec fn heap_region_ok(heap_start: int, heap_end: int) -> bool {
    heap_start + HEADER_SIZE <= heap_end && heap_end + HEADER_SIZE + WORD_SIZE <= usize::MAX
}

/// Performs all initialization needed before the application starts: lays
/// out the heap over the region that `globals` gives, as one free block.
/// Returns `None` when the region cannot hold a heap.
pub fn init(globals: &LinkerGlobals) -> (r: Option<Allocator>)
    ensures
        r is Some <==> heap_region_ok(globals.heap_start as int, globals.heap_end as int),
        r matches Some(a) ==> {
            &&& a.wf()
            &&& a.start() == globals.heap_start
            &&& a.end() == globals.heap_end
            &&& a.blocks() == seq![
                Allocation {
                    addr: globals.heap_start,
                    is_free: true,
                    size: (globals.heap_end - globals.heap_start - HEADER_SIZE) as usize,
                    padding: 0,
                },
            ]
        },
{
    let start = globals.heap_start;
    let end = globals.heap_end;
    if start > end || end - start < HEADER_SIZE || end > usize::MAX - HEADER_SIZE - WORD_SIZE {
        None
    } else {
        Some(Allocator::init(start, end))
    }
}

} // verus!
