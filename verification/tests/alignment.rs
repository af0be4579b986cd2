use kheap::{align_up, normalize_layout, HEAP_SIZE, HEAP_START, NODE_ALIGN, NODE_SIZE, PAGE_SIZE};

#[test]
fn align_up_aligned_is_identity() {
    assert_eq!(align_up(0, 8), 0);
    assert_eq!(align_up(8, 8), 8);
    assert_eq!(align_up(4096, 4096), 4096);
    assert_eq!(align_up(HEAP_START, PAGE_SIZE), HEAP_START);
}

#[test]
fn align_up_rounds_to_next_multiple() {
    assert_eq!(align_up(1, 8), 8);
    assert_eq!(align_up(9, 16), 16);
    assert_eq!(align_up(17, 16), 32);
    assert_eq!(align_up(4097, 4096), 8192);
    assert_eq!(align_up(5, 1), 5);
}

#[test]
fn constants_are_consistent() {
    assert_eq!(PAGE_SIZE, 4096);
    assert_eq!(NODE_SIZE, 16);
    assert_eq!(NODE_ALIGN, 8);
    assert_eq!(HEAP_START % PAGE_SIZE, 0);
    assert_eq!(HEAP_SIZE, 50 * 1024);
}

#[test]
fn normalize_layout_pads_small_requests() {
    // a one-byte request becomes a whole node header
    assert_eq!(normalize_layout(1, 1), (16, 8));
    assert_eq!(normalize_layout(0, 1), (16, 8));
    assert_eq!(normalize_layout(16, 8), (16, 8));
}

#[test]
fn normalize_layout_rounds_size_to_alignment() {
    assert_eq!(normalize_layout(17, 8), (24, 8));
    assert_eq!(normalize_layout(1, 32), (32, 32));
    assert_eq!(normalize_layout(40, 16), (48, 16));
    assert_eq!(normalize_layout(4097, 4096), (8192, 4096));
}
