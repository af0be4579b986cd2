//! A kernel heap allocator core: a bump allocator, an unsorted free-list
//! allocator, and the production sorted free-list allocator with coalescing,
//! together with the pure part of the heap bootstrap.
//!
//! The allocators are pure bookkeepers: they manage byte ranges of a fixed
//! heap window as plain addresses, and never touch the bytes themselves.
//! Addresses and sizes are `u64`, the width of an x86_64 virtual address.
//! The free list of the sorted allocator is held as an address-sorted vector
//! of region descriptors, the safe rendering of a node header threaded
//! through the free regions.
use vstd::prelude::*;

pub mod bootstrap;
pub mod bump;
pub mod laws;
pub mod linked_list;
pub mod sorted_linked_list;

verus! {

use vstd::arithmetic::div_mod::{
    lemma_fundamental_div_mod, lemma_mod_bound, lemma_mod_decreases, lemma_mod_multiples_basic,
};
use vstd::arithmetic::power2::is_pow2;

/// Default virtual address of the kernel heap window.
pub const HEAP_START: u64 = 0x4444_4444_0000;

/// Default size of the kernel heap window in bytes.
pub const HEAP_SIZE: u64 = 50 * 1024;

/// Size of a virtual-memory page in bytes.
pub const PAGE_SIZE: u64 = 4096;

/// The smallest multiple of `align` that is at least `addr`.
pub open spec fn spec_align_up(addr: int, align: int) -> int
    recommends
        addr >= 0,
        align > 0,
{
    if addr % align == 0 {
        addr
    } else {
        addr + align - addr % align
    }
}

/// Byte size of a free-node header (a size word and a link word).
pub const NODE_SIZE: u64 = 16;

/// Address alignment of a free-node header (one machine word).
pub const NODE_ALIGN: u64 = 8;

/// Round `addr` up to the next multiple of `align`.
pub fn align_up(addr: u64, align: u64) -> (r: u64)
    requires
        align > 0,
        spec_align_up(addr as int, align as int) <= u64::MAX,
    ensures
        r == spec_align_up(addr as int, align as int),
{
    let remainder = addr % align;
    if remainder == 0 {
        addr
    } else {
        proof {
            lemma_mod_decreases(addr as nat, align as nat);
        }
        addr - remainder + align
    }
}

/// Rounding up yields the smallest aligned value at or above `addr`.
pub proof fn lemma_align_up(addr: int, align: int)
    requires
        addr >= 0,
        align > 0,
    ensures
        spec_align_up(addr, align) % align == 0,
        addr <= spec_align_up(addr, align) < addr + align,
{
    if addr % align != 0 {
        let r = addr % align;
        lemma_fundamental_div_mod(addr, align);
        lemma_mod_multiples_basic(addr / align + 1, align);
        assert(addr + align - r == (addr / align + 1) * align) by (nonlinear_arith)
            requires
                addr == align * (addr / align) + r,
        ;
        lemma_mod_bound(addr, align);
    }
}

/// A power of two is positive.
pub proof fn lemma_pow2_positive(n: int)
    requires
        is_pow2(n),
    ensures
        n > 0,
{
    reveal(vstd::arithmetic::power2::is_pow2);
}

/// A smaller power of two divides a larger one.
pub proof fn lemma_pow2_divides(a: int, b: int)
    requires
        is_pow2(a),
        is_pow2(b),
        a <= b,
    ensures
        0 < a <= b,
        b % a == 0,
    decreases b,
{
    reveal(vstd::arithmetic::power2::is_pow2);
    if a == b {
        lemma_mod_multiples_basic(1, a);
    } else if a == 1 {
        lemma_fundamental_div_mod(b, 1);
    } else {
        lemma_fundamental_div_mod(a, 2);
        lemma_fundamental_div_mod(b, 2);
        lemma_pow2_divides(a / 2, b / 2);
        lemma_fundamental_div_mod(b / 2, a / 2);
        let m = (b / 2) / (a / 2);
        assert(b == m * a) by (nonlinear_arith)
            requires
                b / 2 == (a / 2) * m,
                b % 2 == 0,
                a % 2 == 0,
                b == 2 * (b / 2) + b % 2,
                a == 2 * (a / 2) + a % 2,
        ;
        lemma_mod_multiples_basic(m, a);
    }
}

/// Divisibility is carried down a chain: a multiple of `m` is a multiple of
/// every divisor `d` of `m`.
pub proof fn lemma_mod_chain(x: int, m: int, d: int)
    requires
        m > 0,
        d > 0,
        x % m == 0,
        m % d == 0,
    ensures
        x % d == 0,
{
    lemma_fundamental_div_mod(x, m);
    lemma_fundamental_div_mod(m, d);
    assert(x == ((m / d) * (x / m)) * d) by (nonlinear_arith)
        requires
            x == m * (x / m),
            m == d * (m / d),
    ;
    lemma_mod_multiples_basic((m / d) * (x / m), d);
}

/// The node header's alignment is a power of two.
pub proof fn lemma_node_align_pow2()
    ensures
        is_pow2(NODE_ALIGN as int),
{
    reveal(vstd::arithmetic::power2::is_pow2);
    assert(is_pow2(1));
    assert(is_pow2(2));
    assert(is_pow2(4));
    assert(is_pow2(8));
}

/// Alignment after layout normalisation: at least the node header's.
pub open spec fn spec_norm_align(align: int) -> int {
    if align < NODE_ALIGN {
        NODE_ALIGN as int
    } else {
        align
    }
}

/// Request size after layout normalisation: at least a node header, rounded
/// up to a multiple of the normalised alignment.
pub open spec fn spec_norm_size(size: int, align: int) -> int {
    spec_align_up(
        if size < NODE_SIZE {
            NODE_SIZE as int
        } else {
            size
        },
        spec_norm_align(align),
    )
}

/// Pad a request so that a region freed with the same layout can hold a node
/// header at a node-aligned address: alignment at least `NODE_ALIGN`, size at
/// least `NODE_SIZE` and a multiple of the padded alignment. Allocation and
/// deallocation apply the same normalisation, so paired calls see one size.
pub fn normalize_layout(size: u64, align: u64) -> (r: (u64, u64))
    requires
        0 < align <= PAGE_SIZE,
        size + PAGE_SIZE <= u64::MAX,
    ensures
        r.0 == spec_norm_size(size as int, align as int),
        r.1 == spec_norm_align(align as int),
{
    let na = if align < NODE_ALIGN {
        NODE_ALIGN
    } else {
        align
    };
    let base = if size < NODE_SIZE {
        NODE_SIZE
    } else {
        size
    };
    proof {
        lemma_align_up(base as int, na as int);
    }
    let ns = align_up(base, na);
    (ns, na)
}

/// What layout normalisation guarantees, for a power-of-two alignment within
/// the supported range: the padded alignment is a power of two, at least the
/// node header's, a multiple of the requested alignment and of the header's;
/// the padded size is a multiple of the padded alignment and at least a node
/// header, and pads the request by less than a header plus a page.
pub proof fn lemma_normalize_layout(size: int, align: int)
    requires
        is_pow2(align),
        align <= PAGE_SIZE,
        size >= 0,
    ensures
        NODE_ALIGN <= spec_norm_align(align) <= PAGE_SIZE,
        is_pow2(spec_norm_align(align)),
        spec_norm_align(align) % align == 0,
        spec_norm_align(align) % (NODE_ALIGN as int) == 0,
        spec_norm_size(size, align) % spec_norm_align(align) == 0,
        spec_norm_size(size, align) % (NODE_ALIGN as int) == 0,
        NODE_SIZE <= spec_norm_size(size, align),
        size <= spec_norm_size(size, align) < size + NODE_SIZE + PAGE_SIZE,
{
    lemma_node_align_pow2();
    let na = spec_norm_align(align);
    let base: int = if size < NODE_SIZE {
        NODE_SIZE as int
    } else {
        size
    };
    if align < NODE_ALIGN {
        lemma_pow2_divides(align, NODE_ALIGN as int);
    } else {
        lemma_pow2_divides(NODE_ALIGN as int, align);
        lemma_mod_multiples_basic(1, align);
    }
    lemma_align_up(base, na);
    lemma_mod_chain(spec_norm_size(size, align), na, NODE_ALIGN as int);
}

} // verus!
