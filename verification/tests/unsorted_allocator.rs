use kheap::linked_list::LinkedListAllocator;
use kheap::sorted_linked_list::Node;
use kheap::{HEAP_SIZE, HEAP_START};

#[test]
fn node_accessors() {
    let n = Node::new(HEAP_START, 64);
    assert_eq!(n.start(), HEAP_START);
    assert_eq!(n.end(), HEAP_START + 64);
    assert_eq!(n.addr, HEAP_START);
    assert_eq!(n.size, 64);
}

#[test]
fn unsorted_init_makes_one_region() {
    let mut a = LinkedListAllocator::new();
    a.init(HEAP_START, HEAP_SIZE);
    assert_eq!(a.free.len(), 1);
    assert_eq!(a.free[0].start(), HEAP_START);
    assert_eq!(a.free[0].end(), HEAP_START + HEAP_SIZE);
}

#[test]
fn first_fit_serves_and_splits() {
    let mut a = LinkedListAllocator::new();
    a.init(HEAP_START, HEAP_SIZE);
    let p = a.first_fit(64, 8).unwrap();
    assert_eq!(p, HEAP_START);
    // the tail is pushed back at the front of the list
    assert_eq!(a.free.len(), 1);
    assert_eq!(a.free[0].start(), HEAP_START + 64);
    assert_eq!(a.free[0].size, HEAP_SIZE - 64);
}

#[test]
fn freed_regions_stack_at_the_front() {
    let mut a = LinkedListAllocator::new();
    a.init(HEAP_START, HEAP_SIZE);
    let p1 = a.first_fit(64, 8).unwrap();
    let p2 = a.first_fit(64, 8).unwrap();
    a.add_region(p1, 64);
    a.add_region(p2, 64);
    // most recently freed first: p2, then p1, then the big tail
    assert_eq!(a.free.len(), 3);
    assert_eq!(a.free[0].start(), p2);
    assert_eq!(a.free[1].start(), p1);
    // and first fit reuses the most recently freed region first
    let q = a.first_fit(64, 8).unwrap();
    assert_eq!(q, p2);
}

#[test]
fn no_coalescing_without_sorting() {
    // the unsorted list never merges: two adjacent freed blocks cannot
    // serve a request of their combined size
    let mut a = LinkedListAllocator::new();
    a.init(HEAP_START, HEAP_SIZE);
    let p1 = a.first_fit(HEAP_SIZE / 2, 8).unwrap();
    let p2 = a.first_fit(HEAP_SIZE / 2, 8).unwrap();
    assert_eq!(p1 + HEAP_SIZE / 2, p2);
    a.add_region(p1, HEAP_SIZE / 2);
    a.add_region(p2, HEAP_SIZE / 2);
    assert_eq!(a.free.len(), 2);
    assert_eq!(a.first_fit(HEAP_SIZE, 8), None);
}

#[test]
fn unsorted_allocate_normalises_like_the_hook() {
    let mut a = LinkedListAllocator::new();
    a.init(HEAP_START, HEAP_SIZE);
    // a one-byte request is padded to a whole node header
    let p = a.allocate(1, 1).unwrap();
    assert_eq!(p, HEAP_START);
    assert_eq!(a.free[0].start(), HEAP_START + 16);
    a.deallocate(p, 1, 1);
    // the freed region holds the padded size and sits at the front
    assert_eq!(a.free[0].start(), HEAP_START);
    assert_eq!(a.free[0].size, 16);
    let q = a.allocate(16, 8).unwrap();
    assert_eq!(q, HEAP_START);
}

#[test]
fn unsorted_out_of_memory_returns_none() {
    let mut a = LinkedListAllocator::new();
    assert_eq!(a.first_fit(16, 8), None);
    a.init(HEAP_START, HEAP_SIZE);
    assert_eq!(a.first_fit(HEAP_SIZE + 8, 8), None);
}
