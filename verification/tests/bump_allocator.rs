use kheap::bump::BumpAllocator;
use kheap::{HEAP_SIZE, HEAP_START};

#[test]
fn fresh_bump_allocator_serves_nothing() {
    let mut b = BumpAllocator::new();
    assert_eq!(b.allocate(16, 8), None);
}

#[test]
fn bump_advances_cursor() {
    let mut b = BumpAllocator::new();
    b.init(HEAP_START, HEAP_SIZE);
    assert_eq!(b.allocate(10, 8), Some(HEAP_START));
    // the cursor sits at an unaligned address and is rounded up
    assert_eq!(b.allocate(10, 8), Some(HEAP_START + 16));
    assert_eq!(b.allocate(8, 8), Some(HEAP_START + 32));
}

#[test]
fn bump_respects_alignment() {
    let mut b = BumpAllocator::new();
    b.init(HEAP_START, HEAP_SIZE);
    assert_eq!(b.allocate(5, 8), Some(HEAP_START));
    let a = b.allocate(5, 64).unwrap();
    assert_eq!(a % 64, 0);
    assert!(a >= HEAP_START + 5);
    let a = b.allocate(1, 4096).unwrap();
    assert_eq!(a % 4096, 0);
}

#[test]
fn bump_fails_when_window_is_spent() {
    let mut b = BumpAllocator::new();
    b.init(HEAP_START, HEAP_SIZE);
    assert_eq!(b.allocate(HEAP_SIZE, 8), Some(HEAP_START));
    assert_eq!(b.allocate(1, 1), None);
    // failure does not disturb the cursor
    assert_eq!(b.allocate(0, 1), Some(HEAP_START + HEAP_SIZE));
}

#[test]
fn bump_rewinds_when_last_block_is_returned() {
    let mut b = BumpAllocator::new();
    b.init(HEAP_START, HEAP_SIZE);
    assert_eq!(b.allocate(100, 8), Some(HEAP_START));
    assert_eq!(b.allocate(100, 8), Some(HEAP_START + 104));
    b.deallocate();
    // one block is still live: no rewind, the region is not reclaimed
    assert_eq!(b.allocate(8, 8), Some(HEAP_START + 208));
    b.deallocate();
    b.deallocate();
    // the last live block went away: the whole window is fresh again
    assert_eq!(b.allocate(100, 8), Some(HEAP_START));
}
