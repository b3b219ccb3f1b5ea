use kernel::memory::{Allocation, Allocator, HEADER_SIZE, WORD_SIZE};
use kernel::{init, LinkerGlobals};

const START: usize = 0x1000;

fn heap(total: usize) -> Allocator {
    Allocator::init(START, START + total)
}

fn block(a: &Allocator, i: usize) -> Allocation {
    a.get_blocks()[i]
}

fn assert_tiles(a: &Allocator) {
    let blocks = a.get_blocks();
    assert_eq!(blocks[0].addr, a.heap_start());
    for i in 0..blocks.len() - 1 {
        let b = blocks[i];
        assert_eq!(blocks[i + 1].addr, b.addr + HEADER_SIZE + WORD_SIZE + b.size);
    }
    let last = blocks[blocks.len() - 1];
    assert_eq!(last.addr + HEADER_SIZE + WORD_SIZE + last.size, a.heap_end() + WORD_SIZE);
}

#[test]
fn init_makes_one_free_block() {
    let a = heap(256);
    assert_eq!(a.get_blocks().len(), 1);
    assert_eq!(
        block(&a, 0),
        Allocation { addr: START, is_free: true, size: 256 - HEADER_SIZE, padding: 0 }
    );
}

#[test]
fn init_from_globals() {
    let g = LinkerGlobals { uart_address: 0x1000_0000, heap_start: START, heap_end: START + 256 };
    let a = init(&g).unwrap();
    assert_eq!(a.heap_start(), START);
    assert_eq!(a.heap_end(), START + 256);
    assert_eq!(block(&a, 0).size, 240);
}

#[test]
fn init_refuses_region_without_room_for_header() {
    let g = LinkerGlobals { uart_address: 0, heap_start: START, heap_end: START + 8 };
    assert!(init(&g).is_none());
    let g = LinkerGlobals { uart_address: 0, heap_start: START + 8, heap_end: START };
    assert!(init(&g).is_none());
    let g = LinkerGlobals { uart_address: 0, heap_start: START, heap_end: usize::MAX };
    assert!(init(&g).is_none());
}

#[test]
fn scenario_two_slices_then_larger_request() {
    let mut a = heap(256);
    assert_eq!(block(&a, 0).size, 256 - HEADER_SIZE);

    let p1 = a.allocate(32, 8).unwrap();
    assert_eq!(p1, START + 24);
    assert_eq!(a.get_blocks().len(), 2);
    assert_eq!(
        block(&a, 1),
        Allocation { addr: START + 56, is_free: true, size: 184, padding: 0 }
    );

    let p2 = a.allocate(32, 8).unwrap();
    assert_eq!(p2, START + 80);
    assert_eq!(a.get_blocks().len(), 3);
    assert_tiles(&a);

    a.deallocate(p1);
    a.deallocate(p2);
    assert_tiles(&a);

    let p3 = a.allocate(56, 8).unwrap();
    assert_eq!(p3 % 8, 0);
    assert_tiles(&a);
}

#[test]
fn allocation_is_aligned() {
    let mut a = heap(512);
    let p = a.allocate(10, 64).unwrap();
    assert_eq!(p, 0x1040);
    assert_eq!(p % 64, 0);
    assert_eq!(block(&a, 0).padding, 40);
    assert_eq!(block(&a, 0).size, 50);
    let q = a.allocate(3, 16).unwrap();
    assert_eq!(q % 16, 0);
    assert_tiles(&a);
}

#[test]
fn offset_for_layout_values() {
    let b = Allocation { addr: START, is_free: true, size: 100, padding: 0 };
    assert_eq!(b.offset_for_layout(8), 0);
    assert_eq!(b.offset_for_layout(16), 8);
    assert_eq!(b.offset_for_layout(64), 40);
    assert_eq!(b.offset_for_layout(1), 0);
    let parts = b.get_size();
    assert_eq!(parts.get_total_size(), 124);
    assert_eq!(parts.get_header_and_ptr_size(), 24);
}

#[test]
fn data_fits_before_next_header() {
    let mut a = heap(512);
    let p = a.allocate(40, 32).unwrap();
    let b0 = block(&a, 0);
    let next = block(&a, 1);
    assert!(!b0.is_free);
    assert_eq!(next.addr, b0.addr + HEADER_SIZE + WORD_SIZE + b0.size);
    assert!(p + 40 <= next.addr);
    assert_eq!(p, next.addr - 40);
}

#[test]
fn exact_fit_leaves_no_free_block() {
    let mut a = heap(256);
    // capacity 240 == 216 + header + back-reference, no padding at align 8
    let p = a.allocate(216, 8).unwrap();
    assert_eq!(p, START + 24);
    assert_eq!(a.get_blocks().len(), 1);
    assert_eq!(block(&a, 0).size, 240);
    assert!(!block(&a, 0).is_free);
}

#[test]
fn split_only_when_rest_holds_a_byte_past_overhead() {
    let mut a = heap(256);
    assert!(a.allocate(217, 8).is_some());
    assert_eq!(a.get_blocks().len(), 1);
    let mut b = heap(256);
    assert!(b.allocate(215, 8).is_some());
    assert_eq!(b.get_blocks().len(), 2);
    assert_eq!(block(&b, 1).size, 1);
    assert_eq!(block(&b, 0).size, 215);
    let mut c = heap(256);
    assert!(c.allocate(208, 8).is_some());
    assert_eq!(c.get_blocks().len(), 2);
    assert_eq!(block(&c, 1).size, 8);
}

#[test]
fn reuse_after_free() {
    let mut a = heap(1024);
    let p = a.allocate(64, 8).unwrap();
    let _keep = a.allocate(16, 8).unwrap();
    a.deallocate(p);
    let q = a.allocate(64, 8).unwrap();
    assert_eq!(q, p);
    a.deallocate(q);
    let r = a.allocate(20, 8).unwrap();
    assert!(r <= p);
}

#[test]
fn forward_coalescing_later_block_first() {
    let mut a = heap(1024);
    let p1 = a.allocate(32, 8).unwrap();
    let p2 = a.allocate(48, 8).unwrap();
    let _p3 = a.allocate(16, 8).unwrap();
    assert_eq!(a.get_blocks().len(), 4);
    a.deallocate(p2);
    a.deallocate(p1);
    assert_eq!(a.get_blocks().len(), 3);
    let b0 = block(&a, 0);
    assert!(b0.is_free);
    assert_eq!(b0.size, 32 + 48 + HEADER_SIZE + WORD_SIZE);
    assert_tiles(&a);
}

#[test]
fn no_backward_coalescing_when_earlier_block_freed_first() {
    let mut a = heap(1024);
    let p1 = a.allocate(32, 8).unwrap();
    let p2 = a.allocate(48, 8).unwrap();
    let _p3 = a.allocate(16, 8).unwrap();
    a.deallocate(p1);
    a.deallocate(p2);
    assert_eq!(a.get_blocks().len(), 4);
    assert!(block(&a, 0).is_free);
    assert!(block(&a, 1).is_free);
    assert_eq!(block(&a, 0).size, 32);
    assert_eq!(block(&a, 1).size, 48);
}

#[test]
fn freeing_merges_with_free_tail() {
    let mut a = heap(256);
    let p = a.allocate(32, 8).unwrap();
    a.deallocate(p);
    assert_eq!(a.get_blocks().len(), 1);
    assert_eq!(block(&a, 0).size, 240);
    assert!(block(&a, 0).is_free);
}

#[test]
fn exhaustion_returns_none_and_leaves_heap() {
    let mut a = heap(256);
    let _p = a.allocate(100, 8).unwrap();
    let before: Vec<Allocation> = a.get_blocks().clone();
    assert!(a.allocate(1000, 8).is_none());
    assert_eq!(a.get_blocks(), &before);
    assert!(a.allocate(241, 8).is_none());
    assert_eq!(a.get_blocks(), &before);
}

#[test]
fn first_fit_skips_used_and_small_blocks() {
    let mut a = heap(1024);
    let p1 = a.allocate(16, 8).unwrap();
    let _p2 = a.allocate(16, 8).unwrap();
    a.deallocate(p1);
    // the freed first block is too small for 64 bytes
    let q = a.allocate(64, 8).unwrap();
    assert!(q > p1);
    // but serves 8 bytes
    let r = a.allocate(8, 8).unwrap();
    assert_eq!(r, p1);
}

#[test]
fn next_allocation_address() {
    let mut a = heap(256);
    assert_eq!(a.get_next_allocation_address(0), None);
    let _p = a.allocate(32, 8).unwrap();
    assert_eq!(a.get_next_allocation_address(0), Some(START + 56));
    assert_eq!(a.get_next_allocation_address(1), None);
    assert_eq!(a.find_next_free_with_size(32, 8), Some(1));
    assert_eq!(a.find_next_free_with_size(500, 8), None);
}

#[test]
fn mark_changes_only_flag() {
    let mut b = Allocation { addr: START, is_free: true, size: 10, padding: 3 };
    b.mark(false);
    assert_eq!(b, Allocation { addr: START, is_free: false, size: 10, padding: 3 });
}

#[test]
fn request_reaching_heap_end() {
    let mut a = heap(256);
    // the last block's footprint counts a back-reference word past the heap's
    // end, so its whole size cannot be handed out
    assert!(a.allocate(240, 8).is_none());
    assert!(a.allocate(233, 8).is_none());
    assert_eq!(a.get_blocks().len(), 1);
    assert!(block(&a, 0).is_free);
    let p = a.allocate(232, 8).unwrap();
    assert_eq!(p, START + 24);
    assert_eq!(p + 232, a.heap_end());
    assert_eq!(a.get_blocks().len(), 1);
}

#[test]
fn request_reaching_heap_end_after_split() {
    let mut a = heap(256);
    let _p = a.allocate(32, 8).unwrap();
    // the rest is one free block of 184 bytes at START + 56
    assert!(a.allocate(184, 8).is_none());
    let q = a.allocate(176, 8).unwrap();
    assert_eq!(q + 176, a.heap_end());
}

#[test]
fn maybe_split_leaves_too_small_block() {
    let mut a = heap(256);
    a.maybe_split(0, 300, 8);
    assert_eq!(a.get_blocks().len(), 1);
    assert_eq!(block(&a, 0).size, 240);
    a.maybe_split(0, 220, 8);
    assert_eq!(a.get_blocks().len(), 1);
    assert_eq!(block(&a, 0).size, 240);
}

#[test]
fn maybe_split_free_block() {
    let mut a = heap(256);
    a.maybe_split(0, 32, 8);
    assert_eq!(a.get_blocks().len(), 2);
    assert_eq!(
        block(&a, 0),
        Allocation { addr: START, is_free: true, size: 32, padding: 0 }
    );
    assert_eq!(
        block(&a, 1),
        Allocation { addr: START + 56, is_free: true, size: 184, padding: 0 }
    );
    assert_tiles(&a);
}
