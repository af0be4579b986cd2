use kheap::sorted_linked_list::SortedLinkedListAllocator;
use kheap::{HEAP_SIZE, HEAP_START, NODE_ALIGN, NODE_SIZE};

fn fresh() -> SortedLinkedListAllocator {
    let mut a = SortedLinkedListAllocator::new();
    a.init(HEAP_START, HEAP_SIZE);
    a
}

/// The list invariants, checked on the concrete state: address-sorted,
/// strictly separated (coalesced), node-sized, node-aligned, in the window.
fn assert_invariants(a: &SortedLinkedListAllocator) {
    for i in 0..a.free.len() {
        let n = &a.free[i];
        assert!(n.size >= NODE_SIZE, "region shorter than a node header");
        assert_eq!(n.addr % NODE_ALIGN, 0, "region not node-aligned");
        assert!(n.addr >= HEAP_START, "region before the heap window");
        assert!(n.addr + n.size <= HEAP_START + HEAP_SIZE, "region past the heap window");
        if i + 1 < a.free.len() {
            assert!(
                n.addr + n.size < a.free[i + 1].addr,
                "regions out of order, overlapping or uncoalesced"
            );
        }
    }
}

#[test]
fn fresh_allocator_serves_nothing() {
    let mut a = SortedLinkedListAllocator::new();
    assert_eq!(a.allocate(16, 8), None);
    assert_eq!(a.get_length(), 1);
    assert_eq!(a.get_free_space(), 0);
}

#[test]
fn init_makes_one_region() {
    let a = fresh();
    assert_eq!(a.get_length(), 2);
    assert_eq!(a.get_free_space(), HEAP_SIZE);
    assert_invariants(&a);
}

#[test]
fn simple_allocation() {
    // two small blocks live side by side, each aligned and in the window
    let mut a = fresh();
    let p1 = a.allocate(4, 4).unwrap();
    let p2 = a.allocate(4, 4).unwrap();
    assert_eq!(p1, HEAP_START);
    assert_eq!(p2, HEAP_START + 16);
    assert_ne!(p1, p2);
    assert_invariants(&a);
    assert_eq!(a.get_free_space(), HEAP_SIZE - 32);
}

#[test]
fn allocation_respects_requested_alignment() {
    let mut a = fresh();
    for align in [1u64, 2, 4, 8, 16, 64, 256, 4096] {
        let p = a.allocate(24, align).unwrap();
        assert_eq!(p % align, 0);
        assert!(p >= HEAP_START && p < HEAP_START + HEAP_SIZE);
        assert_invariants(&a);
    }
}

#[test]
fn out_of_memory_returns_none() {
    let mut a = fresh();
    assert_eq!(a.allocate(HEAP_SIZE + 1, 8), None);
    let p = a.allocate(HEAP_SIZE, 8).unwrap();
    assert_eq!(p, HEAP_START);
    assert_eq!(a.get_length(), 1);
    assert_eq!(a.get_free_space(), 0);
    assert_eq!(a.allocate(1, 1), None);
    a.deallocate(p, HEAP_SIZE, 8);
    assert_eq!(a.get_free_space(), HEAP_SIZE);
}

#[test]
fn no_fit_leaves_tail_rule_intact() {
    // a region may be consumed exactly or must keep a node-sized tail:
    // carve the heap into one region of 24 bytes, then ask for 16 at
    // alignment 8 — the 8-byte tail would be unrepresentable, so the
    // request must skip it
    let mut a = fresh();
    let p1 = a.allocate(24, 8).unwrap(); // [0, 24)
    let p2 = a.allocate(16, 8).unwrap(); // [24, 40)
    let p3 = a.allocate(16, 8).unwrap(); // [40, 56)
    a.deallocate(p1, 24, 8); // free region of 24 bytes before p2
    let q = a.allocate(16, 8).unwrap();
    // 24 - 16 = 8 < 16: first fit must not split the 24-byte region
    assert_ne!(q, p1);
    assert_invariants(&a);
    // a 24-byte request consumes it exactly
    let q2 = a.allocate(24, 8).unwrap();
    assert_eq!(q2, p1);
    let _ = (p2, p3);
}

#[test]
fn reuse_memory() {
    // far more iterations than the heap could hold without reuse
    let mut a = fresh();
    let iterations = 2 * HEAP_SIZE / 16;
    for _ in 0..iterations {
        let p = a.allocate(8, 8).unwrap();
        assert_eq!(p, HEAP_START);
        a.deallocate(p, 8, 8);
    }
    assert_eq!(a.get_length(), 2);
    assert_eq!(a.get_free_space(), HEAP_SIZE);
    assert_invariants(&a);
}

#[test]
fn reuse_with_long_lived() {
    let mut a = fresh();
    let keeper = a.allocate(8, 8).unwrap();
    assert_eq!(keeper, HEAP_START);
    let iterations = 2 * HEAP_SIZE / 16;
    for _ in 0..iterations {
        let p = a.allocate(8, 8).unwrap();
        assert_eq!(p, HEAP_START + 16);
        assert_ne!(p, keeper);
        a.deallocate(p, 8, 8);
    }
    assert_invariants(&a);
    a.deallocate(keeper, 8, 8);
    assert_eq!(a.get_length(), 2);
    assert_eq!(a.get_free_space(), HEAP_SIZE);
}

#[test]
fn coalescing_round_trip() {
    // three large blocks fill most of the heap; freeing all three must give
    // back one region big enough for a block twice their size
    let mut a = fresh();
    let s = (HEAP_SIZE / 32) * 8; // 12800 bytes
    let p1 = a.allocate(s, 8).unwrap();
    let p2 = a.allocate(s, 8).unwrap();
    let p3 = a.allocate(s, 8).unwrap();
    assert_eq!(a.get_free_space(), HEAP_SIZE - 3 * s);
    // middle first: no merge is possible yet
    a.deallocate(p2, s, 8);
    assert_invariants(&a);
    assert_eq!(a.get_length(), 3);
    a.deallocate(p1, s, 8);
    assert_invariants(&a);
    assert_eq!(a.get_length(), 3); // p1 and p2 merged, tail still separate
    a.deallocate(p3, s, 8);
    assert_invariants(&a);
    assert_eq!(a.get_length(), 2);
    assert_eq!(a.get_free_space(), HEAP_SIZE);
    let big = a.allocate(2 * s, 8).unwrap();
    assert_eq!(big, HEAP_START);
    a.deallocate(big, 2 * s, 8);
}

#[test]
fn coalescing_in_any_order() {
    let mut a = fresh();
    let s = 1024u64;
    let blocks: Vec<u64> = (0..8).map(|_| a.allocate(s, 8).unwrap()).collect();
    // a scrambled order of frees
    for &i in &[5usize, 0, 3, 7, 1, 6, 2, 4] {
        a.deallocate(blocks[i], s, 8);
        assert_invariants(&a);
    }
    assert_eq!(a.get_length(), 2);
    assert_eq!(a.get_free_space(), HEAP_SIZE);
}

#[test]
fn empty_state_after_mixed_trace() {
    // a deterministic mixed trace of allocations and frees; at the end
    // everything is freed and the heap must be back in its initial state
    let mut a = fresh();
    let mut live: Vec<(u64, u64)> = Vec::new();
    let mut seed: u64 = 0x2545_f491_4f6c_dd1d;
    for step in 0..400 {
        seed = seed.wrapping_mul(6364136223846793005).wrapping_add(1442695040888963407);
        let want_alloc = live.len() < 4 || (seed >> 33) % 2 == 0;
        if want_alloc {
            let size = 8 + (seed >> 40) % 240;
            if let Some(p) = a.allocate(size, 8) {
                live.push((p, size));
            }
        } else {
            let idx = ((seed >> 20) as usize) % live.len();
            let (p, size) = live.swap_remove(idx);
            a.deallocate(p, size, 8);
        }
        assert_invariants(&a);
        let _ = step;
    }
    for (p, size) in live.drain(..) {
        a.deallocate(p, size, 8);
        assert_invariants(&a);
    }
    assert_eq!(a.get_length(), 2);
    assert_eq!(a.get_free_space(), HEAP_SIZE);
}

#[test]
fn free_bytes_plus_live_is_conserved() {
    // with node-sized alignments no front padding ever occurs, and the
    // free bytes plus the live blocks' normalised sizes always cover the
    // whole heap window
    let mut a = fresh();
    let mut live: Vec<(u64, u64, u64)> = Vec::new(); // (addr, size, normalised)
    let mut seed: u64 = 0x9e37_79b9_7f4a_7c15;
    let normalised = |size: u64| -> u64 {
        let s = if size < 16 { 16 } else { size };
        (s + 7) / 8 * 8
    };
    for _ in 0..300 {
        seed = seed.wrapping_mul(6364136223846793005).wrapping_add(1442695040888963407);
        if live.len() < 3 || (seed >> 33) % 3 != 0 {
            let size = 1 + (seed >> 40) % 200;
            if let Some(p) = a.allocate(size, 8) {
                live.push((p, size, normalised(size)));
            }
        } else {
            let idx = ((seed >> 20) as usize) % live.len();
            let (p, size, _) = live.swap_remove(idx);
            a.deallocate(p, size, 8);
        }
        let live_sum: u64 = live.iter().map(|t| t.2).sum();
        assert_eq!(a.get_free_space() + live_sum, HEAP_SIZE);
    }
}

#[test]
fn live_blocks_never_overlap() {
    let mut a = fresh();
    let mut live: Vec<(u64, u64)> = Vec::new(); // (addr, normalised size)
    let mut seed: u64 = 17;
    for _ in 0..200 {
        seed = seed.wrapping_mul(6364136223846793005).wrapping_add(1442695040888963407);
        if live.len() < 3 || (seed >> 33) % 3 != 0 {
            let size = 16 + (seed >> 40) % 128;
            let align = [8u64, 16, 32, 64][((seed >> 10) as usize) % 4];
            let nsize = {
                let s = if size < 16 { 16 } else { size };
                (s + align - 1) / align * align
            };
            if let Some(p) = a.allocate(size, align) {
                for &(q, qs) in &live {
                    assert!(p + nsize <= q || q + qs <= p, "live blocks overlap");
                }
                live.push((p, nsize));
            }
        } else {
            let idx = ((seed >> 20) as usize) % live.len();
            let (p, nsize) = live.swap_remove(idx);
            // free with the original layout: size == normalised size, align 8
            // gives the same normalisation as any align up to nsize
            a.deallocate(p, nsize, 8);
        }
        assert_invariants(&a);
    }
}

#[test]
fn front_padding_is_consumed_into_the_block() {
    // carve the free list so its first region starts 8 bytes off a 64-byte
    // boundary, then allocate at alignment 64: the pre-pad bytes vanish
    // from the free bytes together with the block
    let mut a = fresh();
    let p0 = a.allocate(56, 8).unwrap(); // [0, 56); region now starts at 56...
    assert_eq!(p0, HEAP_START);
    let free_before = a.get_free_space();
    let p = a.allocate(64, 64).unwrap();
    assert_eq!(p % 64, 0);
    assert!(p > HEAP_START + 56);
    let pad = p - (HEAP_START + 56);
    assert_eq!(a.get_free_space(), free_before - 64 - pad);
    assert_invariants(&a);
}
