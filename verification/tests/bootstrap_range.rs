use kheap::bootstrap::{heap_page_range, HeapInitError};
use kheap::{HEAP_SIZE, HEAP_START, PAGE_SIZE};

#[test]
fn heap_window_needs_thirteen_pages() {
    // 50 KiB is twelve and a half pages: the inclusive range holds 13
    let (first, count) = heap_page_range(HEAP_START, HEAP_SIZE);
    assert_eq!(first, HEAP_START);
    assert_eq!(count, 13);
    assert_eq!(HEAP_SIZE / PAGE_SIZE, 12);
}

#[test]
fn page_range_covers_unaligned_windows() {
    assert_eq!(heap_page_range(4097, 1), (4096, 1));
    assert_eq!(heap_page_range(4095, 2), (0, 2));
    assert_eq!(heap_page_range(0, 4096), (0, 1));
    assert_eq!(heap_page_range(0, 4097), (0, 2));
    assert_eq!(heap_page_range(8192, 8192), (8192, 2));
}

#[test]
fn page_range_first_and_last_hold_window_bytes() {
    let (first, count) = heap_page_range(10_000, 20_000);
    assert_eq!(first % PAGE_SIZE, 0);
    assert!(first <= 10_000 && 10_000 < first + PAGE_SIZE);
    assert!(10_000 + 20_000 <= first + count * PAGE_SIZE);
    assert!(first + (count - 1) * PAGE_SIZE <= 10_000 + 20_000 - 1);
}

#[test]
fn frame_exhaustion_is_the_only_bootstrap_error() {
    // the kernel's bootstrap loop surfaces this variant when a page of the
    // window cannot be backed by a physical frame
    let e = HeapInitError::FrameAllocationFailed;
    assert_eq!(e, HeapInitError::FrameAllocationFailed);
    assert_eq!(format!("{:?}", e), "FrameAllocationFailed");
}
