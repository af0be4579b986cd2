//! The pure part of the heap bootstrap: the inclusive range of pages that
//! covers the heap window, and the error the bootstrap surfaces when the
//! machine cannot supply a physical frame for one of them. Mapping the pages
//! is the kernel's page-table work; once every page is mapped, the chosen
//! allocator's `init` receives the window.
use vstd::prelude::*;

verus! {

use vstd::arithmetic::div_mod::{
    lemma_div_is_ordered, lemma_div_multiples_vanish, lemma_fundamental_div_mod,
    lemma_mod_bound, lemma_mod_decreases,
};
use crate::PAGE_SIZE;

/// Why the heap bootstrap can fail: a page of the window could not be backed
/// because the frame allocator ran out of physical frames. It is the only
/// failure the bootstrap surfaces; the kernel entry point treats it as fatal.
#[derive(Clone, Copy, Debug, PartialEq, Eq, Structural)]
pub enum HeapInitError {
    /// The frame allocator returned no frame for a page of the heap window.
    FrameAllocationFailed,
}

/// The page containing byte `a`: its address rounded down to a page base.
pub open spec fn page_base(a: int) -> int {
    a - a % (PAGE_SIZE as int)
}

/// How many pages the inclusive page range covering `size` bytes at `start`
/// holds.
pub open spec fn heap_page_count(start: int, size: int) -> int {
    (page_base(start + size - 1) - page_base(start)) / (PAGE_SIZE as int) + 1
}

/// The inclusive range of pages covering `size` bytes at `start`: the first
/// page's base address and the number of pages. Page `i` of the range begins
/// at the base plus `i` pages; together the pages cover the whole window,
/// and both the first and the last page hold at least one of its bytes.
pub fn heap_page_range(start: u64, size: u64) -> (r: (u64, u64))
    requires
        size > 0,
        start + size <= u64::MAX,
    ensures
        r.0 == page_base(start as int),
        r.1 == heap_page_count(start as int, size as int),
        r.0 % PAGE_SIZE == 0,
        r.1 >= 1,
        r.0 <= start < r.0 + PAGE_SIZE,
        start + size <= r.0 + r.1 * PAGE_SIZE,
        r.0 + (r.1 - 1) * PAGE_SIZE <= start + size - 1,
{
    let p: u64 = PAGE_SIZE;
    proof {
        lemma_mod_decreases(start as nat, p as nat);
        lemma_mod_decreases((start + size - 1) as nat, p as nat);
        lemma_fundamental_div_mod(start as int, p as int);
        lemma_fundamental_div_mod(start as int + size as int - 1, p as int);
        lemma_mod_bound(start as int, p as int);
        lemma_mod_bound(start as int + size as int - 1, p as int);
        lemma_div_is_ordered(start as int, start as int + size as int - 1, p as int);
        let qa = (start as int) / (p as int);
        let qb = (start as int + size as int - 1) / (p as int);
        assert(page_base(start as int) == (p as int) * qa);
        assert(page_base(start as int + size as int - 1) == (p as int) * qb);
        lemma_div_multiples_vanish(qb - qa, p as int);
        assert((p as int) * qb - (p as int) * qa == (p as int) * (qb - qa)) by (nonlinear_arith);
    }
    let first = start - start % p;
    let last = (start + size - 1) - (start + size - 1) % p;
    let count = (last - first) / p + 1;
    (first, count)
}

} // verus!
