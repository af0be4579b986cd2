//! A monotonic bump allocator over a fixed heap window: allocation advances a
//! cursor and never reclaims a single block; deallocation only counts live
//! blocks, and the cursor rewinds to the start of the window when the last
//! live block is returned.
use vstd::prelude::*;

verus! {

use crate::{align_up, spec_align_up, PAGE_SIZE};

/// The bump allocator's whole state: the heap window, the cursor, and the
/// count of live allocations.
pub struct BumpAllocator {
    /// First byte of the heap window.
    pub heap_start: u64,
    /// Length of the heap window in bytes.
    pub heap_size: u64,
    /// Next candidate address: everything below it is spent.
    pub next: u64,
    /// Number of allocations handed out and not yet returned.
    pub allocations: u64,
}

impl BumpAllocator {
    /// First byte past the heap window.
    pub open spec fn heap_end(self) -> int {
        self.heap_start + self.heap_size
    }

    /// The cursor lies in the heap window, and the window leaves headroom for
    /// rounding the cursor up to any supported alignment.
    pub open spec fn wf(self) -> bool {
        &&& self.heap_end() + PAGE_SIZE <= u64::MAX
        &&& self.heap_start <= self.next <= self.heap_end()
    }

    /// An empty allocator over a zero-sized window at address zero.
    pub fn new() -> (r: Self)
        ensures
            r.wf(),
            r.heap_start == 0,
            r.heap_size == 0,
            r.next == 0,
            r.allocations == 0,
    {
        Self { heap_start: 0, heap_size: 0, next: 0, allocations: 0 }
    }

    /// Record the heap window and park the cursor at its start.
    pub fn init(&mut self, heap_start: u64, heap_size: u64)
        requires
            heap_start + heap_size + PAGE_SIZE <= u64::MAX,
        ensures
            final(self).wf(),
            final(self).heap_start == heap_start,
            final(self).heap_size == heap_size,
            final(self).next == heap_start,
            final(self).allocations == old(self).allocations,
    {
        self.heap_start = heap_start;
        self.heap_size = heap_size;
        self.next = heap_start;
    }

    /// Serve a request of `size` bytes at alignment `align`: round the cursor
    /// up, and fail with `None` exactly when the rounded block would leave
    /// the heap window. The returned address is aligned, past every earlier
    /// block, and the block lies in the window.
    pub fn allocate(&mut self, size: u64, align: u64) -> (r: Option<u64>)
        requires
            old(self).wf(),
            0 < align <= PAGE_SIZE,
            old(self).allocations < u64::MAX,
        ensures
            final(self).wf(),
            final(self).heap_start == old(self).heap_start,
            final(self).heap_size == old(self).heap_size,
            ({
                let p = spec_align_up(old(self).next as int, align as int);
                if p + size > old(self).heap_end() {
                    r is None && *final(self) == *old(self)
                } else {
                    &&& r == Some(p as u64)
                    &&& final(self).next == p + size
                    &&& final(self).allocations == old(self).allocations + 1
                }
            }),
            r matches Some(a) ==> a % align == 0 && old(self).next <= a && a + size
                <= old(self).heap_end(),
    {
        proof {
            crate::lemma_align_up(self.next as int, align as int);
        }
        let p = align_up(self.next, align);
        match p.checked_add(size) {
            Some(block_end) => {
                if block_end <= self.heap_start + self.heap_size {
                    self.next = block_end;
                    self.allocations = self.allocations + 1;
                    Some(p)
                } else {
                    None
                }
            },
            None => None,
        }
    }

    /// Return one live block: only the count moves, and when it reaches zero
    /// the cursor rewinds to the start of the window. The block itself is
    /// never reclaimed individually.
    pub fn deallocate(&mut self)
        requires
            old(self).wf(),
            old(self).allocations > 0,
        ensures
            final(self).wf(),
            final(self).heap_start == old(self).heap_start,
            final(self).heap_size == old(self).heap_size,
            final(self).allocations == old(self).allocations - 1,
            final(self).next == if final(self).allocations == 0 {
                old(self).heap_start
            } else {
                old(self).next
            },
    {
        self.allocations = self.allocations - 1;
        if self.allocations == 0 {
            self.next = self.heap_start;
        }
    }
}

} // verus!
