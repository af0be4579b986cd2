//! The production allocator: an address-sorted free list with first-fit
//! placement, alignment-aware splitting, and coalescing of adjacent regions
//! on deallocation.
//!
//! The kernel threads the list through the free regions themselves; here the
//! list is a sorted vector of region descriptors, one per free region, and
//! the head sentinel of the in-place list is implicit. The list invariants:
//! regions are address-sorted, pairwise disjoint and never adjacent, each
//! holds at least a node header at a node-aligned address, and each lies
//! wholly in the heap window.
use vstd::prelude::*;

verus! {

use vstd::arithmetic::div_mod::lemma_add_mod_noop;
use vstd::arithmetic::power2::is_pow2;
use vstd::set_lib::set_int_range;
use crate::{
    align_up, lemma_align_up, lemma_mod_chain, lemma_node_align_pow2, lemma_normalize_layout,
    lemma_pow2_divides, normalize_layout, spec_align_up, spec_norm_align, spec_norm_size,
    NODE_ALIGN, NODE_SIZE, PAGE_SIZE,
};

/// A free region: the safe rendering of the node header that the kernel
/// stores at the first bytes of the region itself.
#[derive(Clone, Copy, Debug, PartialEq, Eq, Structural)]
pub struct Node {
    /// First byte of the region; where the in-place header would live.
    pub addr: u64,
    /// Length of the region in bytes, header included.
    pub size: u64,
}

/// First byte past a free region.
pub open spec fn node_end(n: Node) -> int {
    n.addr + n.size
}

/// The region holds at least a node header, at a node-aligned address, and
/// lies wholly in the heap window of `sz` bytes at `hs`.
pub open spec fn node_ok(n: Node, hs: int, sz: int) -> bool {
    &&& n.size >= NODE_SIZE
    &&& n.addr % NODE_ALIGN == 0
    &&& hs <= n.addr
    &&& node_end(n) <= hs + sz
}

/// Consecutive regions are strictly ordered with a gap: a region ends before
/// the next begins, so adjacent free regions cannot coexist uncoalesced.
pub open spec fn nodes_separated(ns: Seq<Node>) -> bool {
    forall|k: int|
        #![trigger ns[k], ns[k + 1]]
        0 <= k < ns.len() - 1 ==> node_end(ns[k]) < ns[k + 1].addr
}

/// Total bytes held by the regions of the list.
pub open spec fn free_bytes_of(ns: Seq<Node>) -> int
    decreases ns.len(),
{
    if ns.len() == 0 {
        0
    } else {
        free_bytes_of(ns.drop_last()) + ns.last().size
    }
}

/// The set of byte addresses covered by one region.
pub open spec fn region(addr: int, size: int) -> Set<int> {
    set_int_range(addr, addr + size)
}

/// The set of byte addresses covered by the whole list.
pub open spec fn free_set_of(ns: Seq<Node>) -> Set<int>
    decreases ns.len(),
{
    if ns.len() == 0 {
        Set::empty()
    } else {
        free_set_of(ns.drop_last()).union(region(ns.last().addr as int, ns.last().size as int))
    }
}

/// Whether a region can serve `size` bytes at alignment `align`: the block
/// starts at the region's address rounded up to `align`, must end inside the
/// region, and may not leave a tail shorter than a node header, which could
/// not be put back on the list.
pub open spec fn fits(n: Node, size: int, align: int) -> bool {
    let start = spec_align_up(n.addr as int, align);
    &&& start + size <= node_end(n)
    &&& (node_end(n) - (start + size) == 0 || node_end(n) - (start + size) >= NODE_SIZE)
}

/// Index of the first region at or after position `i` that can serve the
/// request, if any.
pub open spec fn find_fit_from(ns: Seq<Node>, size: int, align: int, i: int) -> Option<int>
    decreases ns.len() - i,
{
    if i < 0 || i >= ns.len() {
        None::<int>
    } else if fits(ns[i], size, align) {
        Some(i)
    } else {
        find_fit_from(ns, size, align, i + 1)
    }
}

/// Index of the first region that can serve the request: first fit.
pub open spec fn find_fit(ns: Seq<Node>, size: int, align: int) -> Option<int> {
    find_fit_from(ns, size, align, 0)
}

/// What the held byte set is: the bytes that some region covers.
pub proof fn lemma_free_set_contains(ns: Seq<Node>, x: int)
    ensures
        free_set_of(ns).contains(x) <==> exists|k: int|
            0 <= k < ns.len() && (#[trigger] ns[k]).addr <= x < node_end(ns[k]),
    decreases ns.len(),
{
    if ns.len() > 0 {
        let front = ns.drop_last();
        lemma_free_set_contains(front, x);
        if free_set_of(ns).contains(x) {
            if free_set_of(front).contains(x) {
                let k = choose|k: int| 0 <= k < front.len() && (#[trigger] front[k]).addr <= x
                    < node_end(front[k]);
                assert(ns[k].addr <= x < node_end(ns[k]));
            } else {
                assert(ns[ns.len() - 1].addr <= x < node_end(ns[ns.len() - 1]));
            }
        }
        if exists|k: int| 0 <= k < ns.len() && (#[trigger] ns[k]).addr <= x < node_end(ns[k]) {
            let k = choose|k: int| 0 <= k < ns.len() && (#[trigger] ns[k]).addr <= x < node_end(
                ns[k],
            );
            if k < ns.len() - 1 {
                assert(front[k].addr <= x < node_end(front[k]));
                assert(free_set_of(front).contains(x));
            } else {
                assert(region(ns.last().addr as int, ns.last().size as int).contains(x));
            }
            assert(free_set_of(ns).contains(x));
        }
    }
}

/// In a separated list, at most one region covers any byte.
pub proof fn lemma_covering_unique(ns: Seq<Node>, x: int, j: int, k: int)
    requires
        nodes_separated(ns),
        0 <= j < ns.len(),
        0 <= k < ns.len(),
        ns[j].addr <= x < node_end(ns[j]),
        ns[k].addr <= x < node_end(ns[k]),
    ensures
        j == k,
{
    if j < k {
        lemma_separated_pair(ns, j, k);
    } else if k < j {
        lemma_separated_pair(ns, k, j);
    }
}

/// Carving the block from a region's address up to `block_end` out of region
/// `i` — dropping the region when the block reaches its end, else keeping
/// only the tail — takes exactly the block's bytes out of the held set, and
/// they were all held before.
#[verifier::rlimit(100)]
#[verifier::spinoff_prover]
pub proof fn lemma_carve_free_set(ns: Seq<Node>, i: int, block_end: int)
    requires
        nodes_separated(ns),
        0 <= i < ns.len(),
        ns[i].addr <= block_end <= node_end(ns[i]),
        node_end(ns[i]) <= u64::MAX,
    ensures
        ({
            let consumed = region(ns[i].addr as int, block_end - ns[i].addr);
            let post = if block_end == node_end(ns[i]) {
                ns.remove(i)
            } else {
                ns.update(
                    i,
                    (Node { addr: block_end as u64, size: (node_end(ns[i]) - block_end) as u64 }),
                )
            };
            &&& consumed.subset_of(free_set_of(ns))
            &&& free_set_of(post) == free_set_of(ns).difference(consumed)
        }),
{
    let consumed = region(ns[i].addr as int, block_end - ns[i].addr);
    let post = if block_end == node_end(ns[i]) {
        ns.remove(i)
    } else {
        ns.update(
            i,
            (Node { addr: block_end as u64, size: (node_end(ns[i]) - block_end) as u64 }),
        )
    };
    assert forall|x: int| consumed.contains(x) implies free_set_of(ns).contains(x) by {
        lemma_free_set_contains(ns, x);
        assert(ns[i].addr <= x < node_end(ns[i]));
    }
    assert forall|x: int|
        #![trigger free_set_of(post).contains(x)]
        #![trigger free_set_of(ns).contains(x)]
        free_set_of(post).contains(x) == (free_set_of(ns).contains(x) && !consumed.contains(
            x,
        )) by {
        lemma_free_set_contains(ns, x);
        lemma_free_set_contains(post, x);
        if free_set_of(post).contains(x) {
            let k = choose|k: int|
                0 <= k < post.len() && (#[trigger] post[k]).addr <= x < node_end(post[k]);
            if block_end == node_end(ns[i]) {
                let j = if k < i {
                    k
                } else {
                    k + 1
                };
                assert(post[k] == ns[j]);
                assert(ns[j].addr <= x < node_end(ns[j]));
                if consumed.contains(x) {
                    lemma_covering_unique(ns, x, j, i);
                }
            } else {
                if k == i {
                    assert(ns[i].addr <= x < node_end(ns[i]));
                } else {
                    assert(post[k] == ns[k]);
                    if consumed.contains(x) {
                        lemma_covering_unique(ns, x, k, i);
                    }
                }
            }
        }
        if free_set_of(ns).contains(x) && !consumed.contains(x) {
            let j = choose|j: int|
                0 <= j < ns.len() && (#[trigger] ns[j]).addr <= x < node_end(ns[j]);
            if block_end == node_end(ns[i]) {
                assert(j != i);
                let k = if j < i {
                    j
                } else {
                    j - 1
                };
                assert(post[k] == ns[j]);
                assert(post[k].addr <= x < node_end(post[k]));
            } else {
                if j == i {
                    assert(post[i].addr <= x < node_end(post[i]));
                } else {
                    assert(post[j] == ns[j]);
                    assert(post[j].addr <= x < node_end(post[j]));
                }
            }
            assert(free_set_of(post).contains(x));
        }
    }
    assert(free_set_of(post) =~= free_set_of(ns).difference(consumed));
}

/// What first fit finds, scanning from position `i`: a fitting region that
/// no earlier region at or after `i` could serve, or a guarantee that none
/// at or after `i` fits.
pub proof fn lemma_find_fit_from_props(ns: Seq<Node>, size: int, align: int, i: int)
    requires
        0 <= i <= ns.len(),
    ensures
        match find_fit_from(ns, size, align, i) {
            Some(j) => i <= j < ns.len() && fits(ns[j], size, align) && forall|k: int|
                i <= k < j ==> !fits(#[trigger] ns[k], size, align),
            None => forall|k: int| i <= k < ns.len() ==> !fits(#[trigger] ns[k], size, align),
        },
    decreases ns.len() - i,
{
    if i < ns.len() && !fits(ns[i], size, align) {
        lemma_find_fit_from_props(ns, size, align, i + 1);
    }
}

/// What first fit finds: the first fitting region, if any region fits.
pub proof fn lemma_find_fit_props(ns: Seq<Node>, size: int, align: int)
    ensures
        match find_fit(ns, size, align) {
            Some(j) => 0 <= j < ns.len() && fits(ns[j], size, align) && forall|k: int|
                0 <= k < j ==> !fits(#[trigger] ns[k], size, align),
            None => forall|k: int| 0 <= k < ns.len() ==> !fits(#[trigger] ns[k], size, align),
        },
{
    lemma_find_fit_from_props(ns, size, align, 0);
}

/// Position at or after `i` of the first region whose address is not below
/// `addr`: where a region freed at `addr` belongs in the sorted list.
pub open spec fn insertion_point_from(ns: Seq<Node>, addr: int, i: int) -> int
    decreases ns.len() - i,
{
    if i < 0 || i >= ns.len() {
        i
    } else if ns[i].addr < addr {
        insertion_point_from(ns, addr, i + 1)
    } else {
        i
    }
}

/// Where a region freed at `addr` belongs in the sorted list.
pub open spec fn insertion_point(ns: Seq<Node>, addr: int) -> int {
    insertion_point_from(ns, addr, 0)
}

/// The insertion point is pinned by pointwise facts: if every region before
/// `i` lies below `addr` and the one at `i`, if any, does not, then `i` is
/// the insertion point.
pub proof fn lemma_insertion_point_from_is(ns: Seq<Node>, addr: int, k: int, i: int)
    requires
        0 <= k <= i <= ns.len(),
        forall|j: int| k <= j < i ==> (#[trigger] ns[j]).addr < addr,
        i < ns.len() ==> ns[i].addr >= addr,
    ensures
        insertion_point_from(ns, addr, k) == i,
    decreases i - k,
{
    if k < i {
        lemma_insertion_point_from_is(ns, addr, k + 1, i);
    }
}

/// The insertion point, pinned from the front of the list.
pub proof fn lemma_insertion_point_is(ns: Seq<Node>, addr: int, i: int)
    requires
        0 <= i <= ns.len(),
        forall|j: int| 0 <= j < i ==> (#[trigger] ns[j]).addr < addr,
        i < ns.len() ==> ns[i].addr >= addr,
    ensures
        insertion_point(ns, addr) == i,
{
    lemma_insertion_point_from_is(ns, addr, 0, i);
}

/// The byte range of `size` bytes at `addr` overlaps no region of the list.
pub open spec fn range_disjoint(ns: Seq<Node>, addr: int, size: int) -> bool {
    forall|k: int|
        0 <= k < ns.len() ==> (addr + size <= (#[trigger] ns[k]).addr || node_end(ns[k]) <= addr)
}

/// The list after a region of `size` bytes at `addr` is put back: inserted at
/// its sorted position and merged with the region before it and the region
/// after it wherever they touch exactly.
pub open spec fn add_region_spec(ns: Seq<Node>, addr: int, size: int) -> Seq<Node> {
    let i = insertion_point(ns, addr);
    let back = i > 0 && node_end(ns[i - 1]) == addr;
    let fwd = i < ns.len() && addr + size == ns[i].addr;
    if back && fwd {
        ns.update(
            i - 1,
            (Node { addr: ns[i - 1].addr, size: (ns[i - 1].size + size + ns[i].size) as u64 }),
        ).remove(i)
    } else if back {
        ns.update(i - 1, (Node { addr: ns[i - 1].addr, size: (ns[i - 1].size + size) as u64 }))
    } else if fwd {
        ns.update(i, (Node { addr: addr as u64, size: (size + ns[i].size) as u64 }))
    } else {
        ns.insert(i, (Node { addr: addr as u64, size: size as u64 }))
    }
}

/// Replacing one region changes the held bytes by the difference in size.
pub proof fn lemma_free_bytes_update(ns: Seq<Node>, i: int, n: Node)
    requires
        0 <= i < ns.len(),
    ensures
        free_bytes_of(ns.update(i, n)) == free_bytes_of(ns) - ns[i].size + n.size,
    decreases ns.len(),
{
    if i == ns.len() - 1 {
        assert(ns.update(i, n).drop_last() =~= ns.drop_last());
    } else {
        assert(ns.update(i, n).drop_last() =~= ns.drop_last().update(i, n));
        lemma_free_bytes_update(ns.drop_last(), i, n);
    }
}

/// Taking one region out gives up exactly its bytes.
pub proof fn lemma_free_bytes_remove(ns: Seq<Node>, i: int)
    requires
        0 <= i < ns.len(),
    ensures
        free_bytes_of(ns.remove(i)) == free_bytes_of(ns) - ns[i].size,
    decreases ns.len(),
{
    if i == ns.len() - 1 {
        assert(ns.remove(i) =~= ns.drop_last());
    } else {
        assert(ns.remove(i).drop_last() =~= ns.drop_last().remove(i));
        lemma_free_bytes_remove(ns.drop_last(), i);
    }
}

/// Putting one region in adds exactly its bytes.
pub proof fn lemma_free_bytes_insert(ns: Seq<Node>, i: int, n: Node)
    requires
        0 <= i <= ns.len(),
    ensures
        free_bytes_of(ns.insert(i, n)) == free_bytes_of(ns) + n.size,
    decreases ns.len(),
{
    if i == ns.len() {
        assert(ns.insert(i, n).drop_last() =~= ns);
    } else {
        assert(ns.insert(i, n).drop_last() =~= ns.drop_last().insert(i, n));
        assert(ns.insert(i, n).last() == ns.last());
        lemma_free_bytes_insert(ns.drop_last(), i, n);
    }
}

/// What the insertion point is: every region before it lies below `addr`,
/// and the region at it, if any, does not.
pub proof fn lemma_insertion_point_from_props(ns: Seq<Node>, addr: int, i: int)
    requires
        0 <= i <= ns.len(),
    ensures
        i <= insertion_point_from(ns, addr, i) <= ns.len(),
        forall|k: int|
            i <= k < insertion_point_from(ns, addr, i) ==> (#[trigger] ns[k]).addr < addr,
        insertion_point_from(ns, addr, i) < ns.len() ==> ns[insertion_point_from(
            ns,
            addr,
            i,
        )].addr >= addr,
    decreases ns.len() - i,
{
    if i < ns.len() && ns[i].addr < addr {
        lemma_insertion_point_from_props(ns, addr, i + 1);
    }
}

/// What the insertion point is, from the front of the list.
pub proof fn lemma_insertion_point_props(ns: Seq<Node>, addr: int)
    ensures
        0 <= insertion_point(ns, addr) <= ns.len(),
        forall|k: int| 0 <= k < insertion_point(ns, addr) ==> (#[trigger] ns[k]).addr < addr,
        insertion_point(ns, addr) < ns.len() ==> ns[insertion_point(ns, addr)].addr >= addr,
{
    lemma_insertion_point_from_props(ns, addr, 0);
}

/// Putting a non-overlapping region back keeps every list invariant, and
/// grows the held bytes by exactly the region's size.
#[verifier::rlimit(100)]
#[verifier::spinoff_prover]
pub proof fn lemma_add_region_wf(ns: Seq<Node>, addr: int, size: int, hs: int, sz: int)
    requires
        0 <= hs,
        hs + sz <= u64::MAX,
        forall|k: int| 0 <= k < ns.len() ==> node_ok(#[trigger] ns[k], hs, sz),
        nodes_separated(ns),
        NODE_SIZE <= size,
        addr % (NODE_ALIGN as int) == 0,
        hs <= addr,
        addr + size <= hs + sz,
        range_disjoint(ns, addr, size),
    ensures
        ({
            let post = add_region_spec(ns, addr, size);
            &&& forall|k: int| 0 <= k < post.len() ==> node_ok(#[trigger] post[k], hs, sz)
            &&& nodes_separated(post)
            &&& free_bytes_of(post) == free_bytes_of(ns) + size
        }),
{
    let post = add_region_spec(ns, addr, size);
    let i = insertion_point(ns, addr);
    lemma_insertion_point_props(ns, addr);
    // the freed region slots between its neighbours without overlap
    if i < ns.len() {
        assert(addr + size <= ns[i].addr);
    }
    if i > 0 {
        assert(node_end(ns[i - 1]) <= addr);
    }
    let back = i > 0 && node_end(ns[i - 1]) == addr;
    let fwd = i < ns.len() && addr + size == ns[i].addr;
    if back && fwd {
        let grown = (Node { addr: ns[i - 1].addr, size: (ns[i - 1].size + size + ns[i].size) as u64 });
        let mid = ns.update(i - 1, grown);
        assert(post =~= mid.remove(i));
        lemma_free_bytes_update(ns, i - 1, grown);
        lemma_free_bytes_remove(mid, i);
        assert forall|k: int| 0 <= k < post.len() implies node_ok(#[trigger] post[k], hs, sz) by {
            if k < i - 1 {
                assert(post[k] == ns[k]);
            } else if k == i - 1 {
                assert(node_end(ns[i]) <= hs + sz);
            } else {
                assert(post[k] == ns[k + 1]);
            }
        }
        assert forall|k: int| 0 <= k < post.len() - 1 implies node_end(#[trigger] post[k])
            < post[k + 1].addr by {
            if k < i - 2 {
                assert(node_end(ns[k]) < ns[k + 1].addr);
            } else if k == i - 2 {
                assert(node_end(ns[i - 2]) < ns[i - 1].addr);
            } else if k == i - 1 {
                assert(node_end(ns[i]) < ns[i + 1].addr);
            } else {
                lemma_separated_pair(ns, k + 1, k + 2);
            }
        }
    } else if back {
        let grown = (Node { addr: ns[i - 1].addr, size: (ns[i - 1].size + size) as u64 });
        assert(post =~= ns.update(i - 1, grown));
        lemma_free_bytes_update(ns, i - 1, grown);
        assert forall|k: int| 0 <= k < post.len() implies node_ok(#[trigger] post[k], hs, sz) by {
            if k != i - 1 {
                assert(post[k] == ns[k]);
            }
        }
        assert forall|k: int| 0 <= k < post.len() - 1 implies node_end(#[trigger] post[k])
            < post[k + 1].addr by {
            if k == i - 1 {
                // the grown region still ends strictly before the next one
                assert(node_end(post[k]) == addr + size);
                assert(post[k + 1] == ns[i]);
            } else {
                assert(node_end(ns[k]) < ns[k + 1].addr);
            }
        }
    } else if fwd {
        let grown = (Node { addr: addr as u64, size: (size + ns[i].size) as u64 });
        assert(post =~= ns.update(i, grown));
        lemma_free_bytes_update(ns, i, grown);
        assert forall|k: int| 0 <= k < post.len() implies node_ok(#[trigger] post[k], hs, sz) by {
            if k != i {
                assert(post[k] == ns[k]);
            }
        }
        assert forall|k: int| 0 <= k < post.len() - 1 implies node_end(#[trigger] post[k])
            < post[k + 1].addr by {
            if k == i - 1 {
                assert(node_end(ns[i - 1]) < addr) by {
                    assert(node_end(ns[i - 1]) <= addr && node_end(ns[i - 1]) != addr);
                }
                assert(post[k] == ns[k]);
            } else if k == i {
                assert(node_end(post[k]) == node_end(ns[i]));
                assert(post[k + 1] == ns[i + 1]);
                assert(node_end(ns[i]) < ns[i + 1].addr);
            } else {
                assert(node_end(ns[k]) < ns[k + 1].addr);
            }
        }
    } else {
        let fresh = (Node { addr: addr as u64, size: size as u64 });
        assert(post =~= ns.insert(i, fresh));
        lemma_free_bytes_insert(ns, i, fresh);
        assert forall|k: int| 0 <= k < post.len() implies node_ok(#[trigger] post[k], hs, sz) by {
            if k < i {
                assert(post[k] == ns[k]);
            } else if k > i {
                assert(post[k] == ns[k - 1]);
            }
        }
        assert forall|k: int| 0 <= k < post.len() - 1 implies node_end(#[trigger] post[k])
            < post[k + 1].addr by {
            if k < i - 1 {
                assert(post[k] == ns[k] && post[k + 1] == ns[k + 1]);
                assert(node_end(ns[k]) < ns[k + 1].addr);
            } else if k == i - 1 {
                assert(post[k] == ns[k] && post[k + 1] == fresh);
                assert(node_end(ns[i - 1]) <= addr && node_end(ns[i - 1]) != addr);
            } else if k == i {
                assert(post[k] == fresh && post[k + 1] == ns[i]);
                assert(addr + size <= ns[i].addr && addr + size != ns[i].addr);
            } else {
                assert(post[k] == ns[k - 1] && post[k + 1] == ns[k]);
                lemma_separated_pair(ns, k - 1, k);
            }
        }
    }
}

/// Putting a non-overlapping region back adds exactly its bytes to the held
/// set, whether it is inserted on its own or merged into its neighbours.
#[verifier::rlimit(100)]
#[verifier::spinoff_prover]
pub proof fn lemma_add_region_free_set(ns: Seq<Node>, addr: int, size: int, hs: int, sz: int)
    requires
        0 <= hs,
        hs + sz <= u64::MAX,
        forall|k: int| 0 <= k < ns.len() ==> node_ok(#[trigger] ns[k], hs, sz),
        nodes_separated(ns),
        NODE_SIZE <= size,
        hs <= addr,
        addr + size <= hs + sz,
        range_disjoint(ns, addr, size),
    ensures
        free_set_of(add_region_spec(ns, addr, size)) == free_set_of(ns).union(
            region(addr, size),
        ),
{
    let post = add_region_spec(ns, addr, size);
    let i = insertion_point(ns, addr);
    lemma_insertion_point_props(ns, addr);
    if i < ns.len() {
        assert(addr + size <= ns[i].addr);
    }
    if i > 0 {
        assert(node_end(ns[i - 1]) <= addr);
    }
    let back = i > 0 && node_end(ns[i - 1]) == addr;
    let fwd = i < ns.len() && addr + size == ns[i].addr;
    assert forall|x: int|
        #![trigger free_set_of(post).contains(x)]
        #![trigger free_set_of(ns).contains(x)]
        free_set_of(post).contains(x) == (free_set_of(ns).contains(x) || region(
            addr,
            size,
        ).contains(x)) by {
        lemma_free_set_contains(ns, x);
        lemma_free_set_contains(post, x);
        if free_set_of(post).contains(x) {
            let k = choose|k: int|
                0 <= k < post.len() && (#[trigger] post[k]).addr <= x < node_end(post[k]);
            if back && fwd {
                if k < i - 1 {
                    assert(post[k] == ns[k]);
                } else if k == i - 1 {
                    if x < addr {
                        assert(ns[i - 1].addr <= x < node_end(ns[i - 1]));
                    } else if x >= addr + size {
                        assert(ns[i].addr <= x < node_end(ns[i]));
                    }
                } else {
                    assert(post[k] == ns[k + 1]);
                    assert(ns[k + 1].addr <= x < node_end(ns[k + 1]));
                }
            } else if back {
                if k == i - 1 {
                    if x < addr {
                        assert(ns[i - 1].addr <= x < node_end(ns[i - 1]));
                    }
                } else {
                    assert(post[k] == ns[k]);
                }
            } else if fwd {
                if k == i {
                    if x >= addr + size {
                        assert(ns[i].addr <= x < node_end(ns[i]));
                    }
                } else {
                    assert(post[k] == ns[k]);
                }
            } else {
                if k < i {
                    assert(post[k] == ns[k]);
                } else if k == i {
                } else {
                    assert(post[k] == ns[k - 1]);
                    assert(ns[k - 1].addr <= x < node_end(ns[k - 1]));
                }
            }
        }
        if free_set_of(ns).contains(x) {
            let j = choose|j: int|
                0 <= j < ns.len() && (#[trigger] ns[j]).addr <= x < node_end(ns[j]);
            if back && fwd {
                if j < i - 1 {
                    assert(post[j] == ns[j]);
                    assert(post[j].addr <= x < node_end(post[j]));
                } else if j == i - 1 || j == i {
                    assert(post[i - 1].addr <= x < node_end(post[i - 1]));
                } else {
                    assert(post[j - 1] == ns[j]);
                    assert(post[j - 1].addr <= x < node_end(post[j - 1]));
                }
            } else if back {
                if j == i - 1 {
                    assert(post[i - 1].addr <= x < node_end(post[i - 1]));
                } else {
                    assert(post[j] == ns[j]);
                    assert(post[j].addr <= x < node_end(post[j]));
                }
            } else if fwd {
                if j == i {
                    assert(post[i].addr <= x < node_end(post[i]));
                } else {
                    assert(post[j] == ns[j]);
                    assert(post[j].addr <= x < node_end(post[j]));
                }
            } else {
                if j < i {
                    assert(post[j] == ns[j]);
                    assert(post[j].addr <= x < node_end(post[j]));
                } else {
                    assert(post[j + 1] == ns[j]);
                    assert(post[j + 1].addr <= x < node_end(post[j + 1]));
                }
            }
            assert(free_set_of(post).contains(x));
        }
        if region(addr, size).contains(x) {
            if back {
                assert(post[i - 1].addr <= x < node_end(post[i - 1]));
            } else if fwd {
                assert(post[i].addr <= x < node_end(post[i]));
            } else {
                assert(post[i].addr <= x < node_end(post[i]));
            }
            assert(free_set_of(post).contains(x));
        }
    }
    assert(free_set_of(post) =~= free_set_of(ns).union(region(addr, size)));
}

/// A block start rounded up to a power-of-two alignment is node-aligned
/// whenever the region's own address is.
proof fn lemma_start_node_aligned(addr: int, align: int)
    requires
        addr >= 0,
        is_pow2(align),
        align <= PAGE_SIZE,
        addr % (NODE_ALIGN as int) == 0,
    ensures
        spec_align_up(addr, align) % (NODE_ALIGN as int) == 0,
{
    lemma_node_align_pow2();
    if align <= NODE_ALIGN {
        lemma_pow2_divides(align, NODE_ALIGN as int);
        lemma_mod_chain(addr, NODE_ALIGN as int, align);
        lemma_align_up(addr, align);
    } else {
        lemma_pow2_divides(NODE_ALIGN as int, align);
        lemma_align_up(addr, align);
        lemma_mod_chain(spec_align_up(addr, align), align, NODE_ALIGN as int);
    }
}

/// Separation of consecutive regions extends to any earlier/later pair.
pub proof fn lemma_separated_pair(ns: Seq<Node>, i: int, j: int)
    requires
        nodes_separated(ns),
        0 <= i < j < ns.len(),
    ensures
        node_end(ns[i]) < ns[j].addr,
    decreases j - i,
{
    assert(node_end(ns[i]) < ns[i + 1].addr);
    if i + 1 < j {
        lemma_separated_pair(ns, i + 1, j);
    } else {
        assert(ns[i + 1] == ns[j]);
    }
}

/// A separated list inside a window of `sz` bytes can neither hold more than
/// `sz` bytes nor more than one region per `NODE_SIZE` bytes of window.
pub proof fn lemma_separated_span(ns: Seq<Node>, hs: int, sz: int)
    requires
        sz >= 0,
        forall|k: int| 0 <= k < ns.len() ==> node_ok(#[trigger] ns[k], hs, sz),
        nodes_separated(ns),
    ensures
        free_bytes_of(ns) <= sz,
        ns.len() * NODE_SIZE <= sz,
    decreases ns.len(),
{
    if ns.len() > 0 {
        let last = ns.last();
        let front = ns.drop_last();
        assert forall|k: int| 0 <= k < front.len() implies node_ok(
            #[trigger] front[k],
            hs,
            last.addr - hs,
        ) by {
            lemma_separated_pair(ns, k, ns.len() - 1);
        }
        lemma_separated_span(front, hs, last.addr - hs);
    }
}

/// The sorted free-list allocator: the heap window it was initialised with,
/// and its free regions in address order.
pub struct SortedLinkedListAllocator {
    /// First byte of the heap window.
    pub heap_start: u64,
    /// Length of the heap window in bytes.
    pub heap_size: u64,
    /// The free regions, address-sorted; the head sentinel is implicit.
    pub free: Vec<Node>,
}

impl Node {
    /// A region of `size` bytes at `addr`.
    pub fn new(addr: u64, size: u64) -> (n: Node)
        ensures
            n.addr == addr,
            n.size == size,
    {
        Node { addr, size }
    }

    /// First byte of the region.
    pub fn start(&self) -> (r: u64)
        ensures
            r == self.addr,
    {
        self.addr
    }

    /// First byte past the region.
    pub fn end(&self) -> (r: u64)
        requires
            node_end(*self) <= u64::MAX,
        ensures
            r == node_end(*self),
    {
        self.addr + self.size
    }
}

impl SortedLinkedListAllocator {
    /// The free regions, in address order.
    pub open spec fn nodes(self) -> Seq<Node> {
        self.free@
    }

    /// First byte past the heap window.
    pub open spec fn heap_end(self) -> int {
        self.heap_start + self.heap_size
    }

    /// The list invariants: every region is in the window, node-aligned and
    /// at least a header long; regions are sorted, disjoint and coalesced.
    /// The window leaves headroom for rounding up to a page.
    pub open spec fn wf(self) -> bool {
        &&& self.heap_end() + PAGE_SIZE <= u64::MAX
        &&& forall|k: int|
            0 <= k < self.nodes().len() ==> node_ok(
                #[trigger] self.nodes()[k],
                self.heap_start as int,
                self.heap_size as int,
            )
        &&& nodes_separated(self.nodes())
    }

    /// Total bytes held by the free list.
    pub open spec fn free_bytes(self) -> int {
        free_bytes_of(self.nodes())
    }

    /// The set of byte addresses the free list owns.
    pub open spec fn free_set(self) -> Set<int> {
        free_set_of(self.nodes())
    }

    /// An allocator with no heap: every request fails until `init`.
    pub fn new() -> (r: Self)
        ensures
            r.wf(),
            r.heap_start == 0,
            r.heap_size == 0,
            r.nodes() =~= Seq::<Node>::empty(),
    {
        Self { heap_start: 0, heap_size: 0, free: Vec::new() }
    }

    /// Hand the allocator its heap window: one giant free region covering
    /// all of it. Establishes every list invariant.
    pub fn init(&mut self, start: u64, size: u64)
        requires
            start % PAGE_SIZE == 0,
            size >= NODE_SIZE,
            start + size + PAGE_SIZE <= u64::MAX,
        ensures
            final(self).wf(),
            final(self).heap_start == start,
            final(self).heap_size == size,
            final(self).nodes() =~= seq![(Node { addr: start, size: size })],
            final(self).free_bytes() == size,
            final(self).free_set() == region(start as int, size as int),
    {
        proof {
            lemma_mod_chain(start as int, PAGE_SIZE as int, NODE_ALIGN as int);
        }
        self.heap_start = start;
        self.heap_size = size;
        self.free = Vec::new();
        self.free.push(Node::new(start, size));
        proof {
            assert(self.nodes().drop_last() =~= Seq::<Node>::empty());
            assert(free_bytes_of(Seq::<Node>::empty()) == 0);
            assert(free_set_of(Seq::<Node>::empty()) == Set::<int>::empty());
            assert(self.free_set() =~= region(start as int, size as int));
        }
    }

    /// Number of list nodes, the head sentinel included, as the kernel's
    /// list walk would count them.
    pub fn get_length(&self) -> (r: u64)
        requires
            self.wf(),
        ensures
            r == self.nodes().len() + 1,
    {
        proof {
            lemma_separated_span(self.nodes(), self.heap_start as int, self.heap_size as int);
        }
        (self.free.len() as u64) + 1
    }

    /// Total bytes held by the free list; the head sentinel contributes none.
    pub fn get_free_space(&self) -> (r: u64)
        requires
            self.wf(),
        ensures
            r == self.free_bytes(),
    {
        proof {
            lemma_separated_span(self.nodes(), self.heap_start as int, self.heap_size as int);
        }
        let mut space: u64 = 0;
        let mut i: usize = 0;
        #[verifier::loop_isolation(false)]
        while i < self.free.len()
            invariant
                0 <= i <= self.free.len(),
                space == free_bytes_of(self.nodes().take(i as int)),
            decreases self.free.len() - i,
        {
            proof {
                let pre = self.nodes().take(i as int + 1);
                assert(pre.drop_last() =~= self.nodes().take(i as int));
                assert forall|k: int| 0 <= k < pre.len() implies node_ok(
                    #[trigger] pre[k],
                    self.heap_start as int,
                    self.heap_size as int,
                ) by {}
                lemma_separated_span(pre, self.heap_start as int, self.heap_size as int);
            }
            space = space + self.free[i].size;
            i = i + 1;
        }
        proof {
            assert(self.nodes().take(self.nodes().len() as int) =~= self.nodes());
        }
        space
    }

    /// Whether `region` can serve `requested` bytes at alignment `align`:
    /// exactly when it fits, the aligned block address and the bytes that
    /// would remain past the block.
    pub fn check_region(region: &Node, requested: u64, align: u64) -> (r: Option<(u64, u64)>)
        requires
            0 < align <= PAGE_SIZE,
            node_end(*region) + PAGE_SIZE <= u64::MAX,
        ensures
            r is Some <==> fits(*region, requested as int, align as int),
            r matches Some((start, rem)) ==> ({
                &&& start == spec_align_up(region.addr as int, align as int)
                &&& rem == node_end(*region) - (start + requested)
            }),
    {
        proof {
            lemma_align_up(region.addr as int, align as int);
        }
        let start = align_up(region.addr, align);
        let region_end = region.end();
        match start.checked_add(requested) {
            Some(block_end) => {
                if block_end <= region_end {
                    let rem = region_end - block_end;
                    if rem == 0 || rem >= NODE_SIZE {
                        Some((start, rem))
                    } else {
                        None
                    }
                } else {
                    None
                }
            },
            None => None,
        }
    }

    /// The last `size` bytes of `region`, as a region of their own: what is
    /// left behind when an allocation consumes the front of a free region.
    fn split_region(region: &Node, size: u64) -> (n: Node)
        requires
            node_end(*region) <= u64::MAX,
            size <= region.size,
        ensures
            n.addr == node_end(*region) - size,
            n.size == size,
    {
        Node::new(region.end() - size, size)
    }

    /// First-fit allocation: serve from the first region that fits. The
    /// block starts at the region's address rounded up to `align`; any bytes
    /// before the block are consumed into it, and the bytes after it are
    /// split off as a new region unless there are none. Returns the block
    /// address, or `None` when no region fits.
    ///
    /// `size` must be node-aligned, as layout normalisation makes it, so
    /// that a split leaves the tail region node-aligned.
    #[verifier::loop_isolation(false)]
    pub fn first_fit(&mut self, size: u64, align: u64) -> (r: Option<u64>)
        requires
            old(self).wf(),
            is_pow2(align as int),
            align <= PAGE_SIZE,
            size % NODE_ALIGN == 0,
        ensures
            final(self).wf(),
            final(self).heap_start == old(self).heap_start,
            final(self).heap_size == old(self).heap_size,
            match find_fit(old(self).nodes(), size as int, align as int) {
                None => r is None && final(self).nodes() == old(self).nodes(),
                Some(i) => ({
                    let n = old(self).nodes()[i];
                    let start = spec_align_up(n.addr as int, align as int);
                    let rem = node_end(n) - (start + size);
                    &&& r == Some(start as u64)
                    &&& start % (align as int) == 0
                    &&& n.addr <= start
                    &&& start + size <= node_end(n)
                    &&& if rem == 0 {
                        final(self).nodes() == old(self).nodes().remove(i)
                    } else {
                        final(self).nodes() == old(self).nodes().update(
                            i,
                            (Node { addr: (start + size) as u64, size: rem as u64 }),
                        )
                    }
                }),
            },
    {
        proof {
            crate::lemma_pow2_positive(align as int);
        }
        let mut idx: usize = 0;
        while idx < self.free.len()
            invariant
                *self == *old(self),
                0 <= idx <= self.free.len(),
                find_fit(self.nodes(), size as int, align as int) == find_fit_from(
                    self.nodes(),
                    size as int,
                    align as int,
                    idx as int,
                ),
            decreases self.free.len() - idx,
        {
            let node = self.free[idx];
            match Self::check_region(&node, size, align) {
                Some((start, rem)) => {
                    proof {
                        lemma_align_up(node.addr as int, align as int);
                        lemma_start_node_aligned(node.addr as int, align as int);
                    }
                    let ghost pre = self.nodes();
                    let ghost gi = idx as int;
                    if rem == 0 {
                        self.free.remove(idx);
                        proof {
                            assert forall|k: int|
                                0 <= k < self.nodes().len() - 1 implies node_end(
                                #[trigger] self.nodes()[k],
                            ) < self.nodes()[k + 1].addr by {
                                if k == gi - 1 {
                                    lemma_separated_pair(pre, gi - 1, gi + 1);
                                } else if k >= gi {
                                    lemma_separated_pair(pre, k + 1, k + 2);
                                }
                            }
                        }
                    } else {
                        let tail = Self::split_region(&node, rem);
                        self.free.set(idx, tail);
                        proof {
                            lemma_add_mod_noop(
                                start as int,
                                size as int,
                                NODE_ALIGN as int,
                            );
                        }
                    }
                    return Some(start);
                },
                None => {
                    idx = idx + 1;
                },
            }
        }
        None
    }

    /// Put a free region of `size` bytes at `addr` back on the list, at its
    /// sorted position, merging it with the region before it and the region
    /// after it wherever they touch: both merges together keep the list free
    /// of adjacent regions. The region must not overlap any free region —
    /// an overlap would mean a double free.
    #[verifier::loop_isolation(false)]
    #[verifier::rlimit(50)]
    pub fn add_region_sorted(&mut self, addr: u64, size: u64)
        requires
            old(self).wf(),
            size >= NODE_SIZE,
            addr % NODE_ALIGN == 0,
            old(self).heap_start <= addr,
            addr + size <= old(self).heap_end(),
            range_disjoint(old(self).nodes(), addr as int, size as int),
        ensures
            final(self).wf(),
            final(self).heap_start == old(self).heap_start,
            final(self).heap_size == old(self).heap_size,
            final(self).nodes() == add_region_spec(old(self).nodes(), addr as int, size as int),
            final(self).free_bytes() == old(self).free_bytes() + size,
    {
        let mut i: usize = 0;
        while i < self.free.len() && self.free[i].start() < addr
            invariant
                *self == *old(self),
                0 <= i <= self.free.len(),
                forall|k: int| 0 <= k < i ==> (#[trigger] self.nodes()[k]).addr < addr,
                insertion_point(self.nodes(), addr as int) == insertion_point_from(
                    self.nodes(),
                    addr as int,
                    i as int,
                ),
            decreases self.free.len() - i,
        {
            i = i + 1;
        }
        let ghost pre = self.nodes();
        let ghost gi = i as int;
        proof {
            assert(insertion_point(pre, addr as int) == gi);
            if gi < pre.len() {
                // the region at the insertion point begins at or after the
                // freed region's end; the one below ends at or before it
                assert(addr + size <= pre[gi].addr);
            }
            if gi > 0 {
                assert(node_end(pre[gi - 1]) <= addr);
            }
            lemma_add_region_wf(
                pre,
                addr as int,
                size as int,
                self.heap_start as int,
                self.heap_size as int,
            );
        }
        let has_back = i > 0 && self.free[i - 1].end() == addr;
        let has_fwd = i < self.free.len() && addr + size == self.free[i].start();
        if has_back && has_fwd {
            let grown = Node::new(
                self.free[i - 1].start(),
                self.free[i - 1].size + size + self.free[i].size,
            );
            self.free.set(i - 1, grown);
            self.free.remove(i);
        } else if has_back {
            let grown = Node::new(self.free[i - 1].start(), self.free[i - 1].size + size);
            self.free.set(i - 1, grown);
        } else if has_fwd {
            let grown = Node::new(addr, size + self.free[i].size);
            self.free.set(i, grown);
        } else {
            self.free.insert(i, Node::new(addr, size));
        }
        proof {
            assert(self.nodes() =~= add_region_spec(pre, addr as int, size as int));
        }
    }

    /// Serve an allocation of `size` bytes at power-of-two alignment `align`
    /// (at most a page): normalise the layout as the global allocation hook
    /// does, then place first-fit. Returns the block address — aligned as
    /// requested, inside the heap window — or `None` exactly when no free
    /// region fits the normalised request. The bytes held by the list shrink
    /// by the normalised size plus any front padding consumed by alignment.
    pub fn allocate(&mut self, size: u64, align: u64) -> (r: Option<u64>)
        requires
            old(self).wf(),
            is_pow2(align as int),
            align <= PAGE_SIZE,
            size + PAGE_SIZE <= u64::MAX,
        ensures
            final(self).wf(),
            final(self).heap_start == old(self).heap_start,
            final(self).heap_size == old(self).heap_size,
            ({
                let nsize = spec_norm_size(size as int, align as int);
                let nalign = spec_norm_align(align as int);
                match find_fit(old(self).nodes(), nsize, nalign) {
                    None => r is None && final(self).nodes() == old(self).nodes(),
                    Some(i) => ({
                        let n = old(self).nodes()[i];
                        let start = spec_align_up(n.addr as int, nalign);
                        let rem = node_end(n) - (start + nsize);
                        &&& r == Some(start as u64)
                        &&& start % (align as int) == 0
                        &&& start % (NODE_ALIGN as int) == 0
                        &&& old(self).heap_start <= start
                        &&& start + nsize <= old(self).heap_end()
                        &&& (if rem == 0 {
                            final(self).nodes() == old(self).nodes().remove(i)
                        } else {
                            final(self).nodes() == old(self).nodes().update(
                                i,
                                (Node { addr: (start + nsize) as u64, size: rem as u64 }),
                            )
                        })
                        &&& final(self).free_bytes() == old(self).free_bytes() - nsize - (start
                            - n.addr)
                        &&& region(n.addr as int, start + nsize - n.addr).subset_of(
                            old(self).free_set(),
                        )
                        &&& final(self).free_set() == old(self).free_set().difference(
                            region(n.addr as int, start + nsize - n.addr),
                        )
                        &&& region(start, nsize).subset_of(old(self).free_set())
                        &&& final(self).free_set().disjoint(region(start, nsize))
                    }),
                }
            }),
    {
        proof {
            lemma_normalize_layout(size as int, align as int);
            crate::lemma_pow2_positive(align as int);
        }
        let (nsize, nalign) = normalize_layout(size, align);
        let ghost pre = self.nodes();
        let r = self.first_fit(nsize, nalign);
        proof {
            lemma_find_fit_props(pre, nsize as int, nalign as int);
            if let Some(i) = find_fit(pre, nsize as int, nalign as int) {
                let n = pre[i];
                let start = spec_align_up(n.addr as int, nalign as int);
                let rem = node_end(n) - (start + nsize);
                lemma_mod_chain(start, nalign as int, align as int);
                lemma_mod_chain(start, nalign as int, NODE_ALIGN as int);
                assert(node_ok(n, old(self).heap_start as int, old(self).heap_size as int));
                if rem == 0 {
                    lemma_free_bytes_remove(pre, i);
                } else {
                    lemma_free_bytes_update(
                        pre,
                        i,
                        (Node { addr: (start + nsize) as u64, size: rem as u64 }),
                    );
                }
                lemma_carve_free_set(pre, i, start + nsize);
                let consumed = region(n.addr as int, start + nsize - n.addr);
                assert forall|x: int| region(start, nsize as int).contains(x) implies old(
                    self,
                ).free_set().contains(x) by {
                    assert(consumed.contains(x));
                }
                assert(region(start, nsize as int).subset_of(old(self).free_set()));
                assert forall|x: int| self.free_set().contains(x) implies !region(
                    start,
                    nsize as int,
                ).contains(x) by {
                    if region(start, nsize as int).contains(x) {
                        assert(consumed.contains(x));
                    }
                }
                assert(self.free_set().disjoint(region(start, nsize as int)));
            }
        }
        r
    }

    /// Return the block at `ptr` that an allocation with the same `size` and
    /// `align` handed out: normalise the layout exactly as `allocate` did,
    /// then put the region back on the list, coalescing with its neighbours.
    /// The block must still be live — it lies in the heap window at a
    /// node-aligned address and overlaps no free region; an overlap would
    /// mean a double free. The bytes held by the list grow by exactly the
    /// normalised size.
    pub fn deallocate(&mut self, ptr: u64, size: u64, align: u64)
        requires
            old(self).wf(),
            is_pow2(align as int),
            align <= PAGE_SIZE,
            size + PAGE_SIZE <= u64::MAX,
            ptr % NODE_ALIGN == 0,
            old(self).heap_start <= ptr,
            ptr + spec_norm_size(size as int, align as int) <= old(self).heap_end(),
            range_disjoint(
                old(self).nodes(),
                ptr as int,
                spec_norm_size(size as int, align as int),
            ),
        ensures
            final(self).wf(),
            final(self).heap_start == old(self).heap_start,
            final(self).heap_size == old(self).heap_size,
            final(self).nodes() == add_region_spec(
                old(self).nodes(),
                ptr as int,
                spec_norm_size(size as int, align as int),
            ),
            final(self).free_bytes() == old(self).free_bytes() + spec_norm_size(
                size as int,
                align as int,
            ),
            final(self).free_set() == old(self).free_set().union(
                region(ptr as int, spec_norm_size(size as int, align as int)),
            ),
    {
        proof {
            lemma_normalize_layout(size as int, align as int);
            crate::lemma_pow2_positive(align as int);
            lemma_add_region_free_set(
                old(self).nodes(),
                ptr as int,
                spec_norm_size(size as int, align as int),
                old(self).heap_start as int,
                old(self).heap_size as int,
            );
        }
        let (nsize, _nalign) = normalize_layout(size, align);
        self.add_region_sorted(ptr, nsize);
    }
}

} // verus!
