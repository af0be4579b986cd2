//! The simpler free-list variant: regions are kept in insertion order, a
//! freed region is pushed at the front of the list, and nothing is ever
//! coalesced. First-fit allocation scans from the front, so from the most
//! recently freed region.
use vstd::prelude::*;

pub use crate::sorted_linked_list::Node;

verus! {

use vstd::arithmetic::div_mod::lemma_add_mod_noop;
use vstd::arithmetic::power2::is_pow2;
use crate::sorted_linked_list::{
    find_fit, find_fit_from, fits, free_bytes_of, lemma_free_bytes_insert,
    lemma_free_bytes_remove, node_end, node_ok,
};
use crate::{
    align_up, lemma_align_up, lemma_mod_chain, lemma_node_align_pow2, lemma_pow2_divides,
    spec_align_up, NODE_ALIGN, NODE_SIZE, PAGE_SIZE,
};

/// Regions cover pairwise disjoint byte ranges, in no particular order.
pub open spec fn nodes_disjoint(ns: Seq<Node>) -> bool {
    forall|j: int, k: int|
        #![trigger ns[j], ns[k]]
        0 <= j < k < ns.len() ==> (node_end(ns[j]) <= ns[k].addr || node_end(ns[k]) <= ns[j].addr)
}

/// The unsorted free-list allocator: the heap window it was initialised
/// with, and its free regions in insertion order, most recent first.
pub struct LinkedListAllocator {
    /// First byte of the heap window.
    pub heap_start: u64,
    /// Length of the heap window in bytes.
    pub heap_size: u64,
    /// The free regions, most recently freed first; the head sentinel of the
    /// in-place list is implicit.
    pub free: Vec<Node>,
}

impl LinkedListAllocator {
    /// The free regions, in list order.
    pub open spec fn nodes(self) -> Seq<Node> {
        self.free@
    }

    /// First byte past the heap window.
    pub open spec fn heap_end(self) -> int {
        self.heap_start + self.heap_size
    }

    /// The list invariants: every region is in the window, node-aligned and
    /// at least a header long, and regions are pairwise disjoint. The window
    /// leaves headroom for rounding up to a page.
    pub open spec fn wf(self) -> bool {
        &&& self.heap_end() + PAGE_SIZE <= u64::MAX
        &&& forall|k: int|
            0 <= k < self.nodes().len() ==> node_ok(
                #[trigger] self.nodes()[k],
                self.heap_start as int,
                self.heap_size as int,
            )
        &&& nodes_disjoint(self.nodes())
    }

    /// Total bytes held by the free list.
    pub open spec fn free_bytes(self) -> int {
        free_bytes_of(self.nodes())
    }

    /// An allocator with no heap: every request fails until `init`.
    pub fn new() -> (r: Self)
        ensures
            r.wf(),
            r.heap_start == 0,
            r.heap_size == 0,
            r.nodes() =~= Seq::<Node>::empty(),
    {
        Self { heap_start: 0, heap_size: 0, free: Vec::new() }
    }

    /// Hand the allocator its heap window: one giant free region covering
    /// all of it.
    pub fn init(&mut self, start: u64, size: u64)
        requires
            start % PAGE_SIZE == 0,
            size >= NODE_SIZE,
            start + size + PAGE_SIZE <= u64::MAX,
        ensures
            final(self).wf(),
            final(self).heap_start == start,
            final(self).heap_size == size,
            final(self).nodes() =~= seq![(Node { addr: start, size: size })],
    {
        proof {
            crate::lemma_mod_chain(start as int, PAGE_SIZE as int, NODE_ALIGN as int);
        }
        self.heap_start = start;
        self.heap_size = size;
        self.free = Vec::new();
        self.add_region(start, size);
    }

    /// Push a free region of `size` bytes at `addr` onto the front of the
    /// list. The region must not overlap any free region — an overlap would
    /// mean a double free.
    pub fn add_region(&mut self, addr: u64, size: u64)
        requires
            old(self).wf(),
            size >= NODE_SIZE,
            addr % NODE_ALIGN == 0,
            old(self).heap_start <= addr,
            addr + size <= old(self).heap_end(),
            forall|k: int|
                0 <= k < old(self).nodes().len() ==> (addr + size <= (#[trigger] old(
                    self,
                ).nodes()[k]).addr || node_end(old(self).nodes()[k]) <= addr),
        ensures
            final(self).wf(),
            final(self).heap_start == old(self).heap_start,
            final(self).heap_size == old(self).heap_size,
            final(self).nodes() == old(self).nodes().insert(
                0,
                (Node { addr: addr, size: size }),
            ),
            final(self).free_bytes() == old(self).free_bytes() + size,
    {
        let ghost pre = self.nodes();
        self.free.insert(0, Node::new(addr, size));
        proof {
            assert(self.nodes() =~= pre.insert(0, (Node { addr: addr, size: size })));
            lemma_free_bytes_insert(pre, 0, (Node { addr: addr, size: size }));
            assert forall|j: int, k: int|
                #![trigger self.nodes()[j], self.nodes()[k]]
                0 <= j < k < self.nodes().len() implies (node_end(self.nodes()[j])
                <= self.nodes()[k].addr || node_end(self.nodes()[k]) <= self.nodes()[j].addr) by {
                if j > 0 {
                    assert(self.nodes()[j] == pre[j - 1] && self.nodes()[k] == pre[k - 1]);
                } else {
                    assert(self.nodes()[k] == pre[k - 1]);
                }
            }
        }
    }

    /// Whether `region` can serve `requested` bytes at alignment `align`:
    /// exactly when it fits, the aligned block address and the bytes that
    /// would remain past the block.
    pub fn check_region(region: &Node, requested: u64, align: u64) -> (r: Option<(u64, u64)>)
        requires
            0 < align <= PAGE_SIZE,
            node_end(*region) + PAGE_SIZE <= u64::MAX,
        ensures
            r is Some <==> fits(*region, requested as int, align as int),
            r matches Some((start, rem)) ==> ({
                &&& start == spec_align_up(region.addr as int, align as int)
                &&& rem == node_end(*region) - (start + requested)
            }),
    {
        proof {
            lemma_align_up(region.addr as int, align as int);
        }
        let start = align_up(region.addr, align);
        let region_end = region.end();
        match start.checked_add(requested) {
            Some(block_end) => {
                if block_end <= region_end {
                    let rem = region_end - block_end;
                    if rem == 0 || rem >= NODE_SIZE {
                        Some((start, rem))
                    } else {
                        None
                    }
                } else {
                    None
                }
            },
            None => None,
        }
    }

    /// First-fit allocation: serve from the first region in list order that
    /// fits — the most recently freed first. The region is unlinked; any
    /// bytes past the block are pushed back at the front of the list as a
    /// new region. Returns the block address, or `None` when no region fits.
    ///
    /// `size` must be node-aligned, as layout normalisation makes it, so
    /// that the pushed-back tail is node-aligned.
    #[verifier::loop_isolation(false)]
    pub fn first_fit(&mut self, size: u64, align: u64) -> (r: Option<u64>)
        requires
            old(self).wf(),
            is_pow2(align as int),
            align <= PAGE_SIZE,
            size % NODE_ALIGN == 0,
        ensures
            final(self).wf(),
            final(self).heap_start == old(self).heap_start,
            final(self).heap_size == old(self).heap_size,
            match find_fit(old(self).nodes(), size as int, align as int) {
                None => r is None && final(self).nodes() == old(self).nodes(),
                Some(i) => ({
                    let n = old(self).nodes()[i];
                    let start = spec_align_up(n.addr as int, align as int);
                    let rem = node_end(n) - (start + size);
                    &&& r == Some(start as u64)
                    &&& start % (align as int) == 0
                    &&& n.addr <= start
                    &&& start + size <= node_end(n)
                    &&& (if rem == 0 {
                        final(self).nodes() == old(self).nodes().remove(i)
                    } else {
                        final(self).nodes() == old(self).nodes().remove(i).insert(
                            0,
                            (Node { addr: (start + size) as u64, size: rem as u64 }),
                        )
                    })
                    &&& final(self).free_bytes() == old(self).free_bytes() - size - (start
                        - n.addr)
                }),
            },
    {
        proof {
            crate::lemma_pow2_positive(align as int);
        }
        let mut idx: usize = 0;
        while idx < self.free.len()
            invariant
                *self == *old(self),
                0 <= idx <= self.free.len(),
                find_fit(self.nodes(), size as int, align as int) == find_fit_from(
                    self.nodes(),
                    size as int,
                    align as int,
                    idx as int,
                ),
            decreases self.free.len() - idx,
        {
            let node = self.free[idx];
            match Self::check_region(&node, size, align) {
                Some((start, rem)) => {
                    proof {
                        lemma_align_up(node.addr as int, align as int);
                        lemma_node_align_pow2();
                        if align <= NODE_ALIGN {
                            lemma_pow2_divides(align as int, NODE_ALIGN as int);
                            lemma_mod_chain(
                                node.addr as int,
                                NODE_ALIGN as int,
                                align as int,
                            );
                        } else {
                            lemma_pow2_divides(NODE_ALIGN as int, align as int);
                            lemma_mod_chain(start as int, align as int, NODE_ALIGN as int);
                        }
                        lemma_add_mod_noop(start as int, size as int, NODE_ALIGN as int);
                    }
                    let ghost pre = self.nodes();
                    let ghost gi = idx as int;
                    self.free.remove(idx);
                    proof {
                        lemma_free_bytes_remove(pre, gi);
                        assert forall|j: int, k: int|
                            #![trigger self.nodes()[j], self.nodes()[k]]
                            0 <= j < k < self.nodes().len() implies (node_end(self.nodes()[j])
                            <= self.nodes()[k].addr || node_end(self.nodes()[k])
                            <= self.nodes()[j].addr) by {
                            let pj = if j < gi {
                                j
                            } else {
                                j + 1
                            };
                            let pk = if k < gi {
                                k
                            } else {
                                k + 1
                            };
                            assert(self.nodes()[j] == pre[pj] && self.nodes()[k] == pre[pk]);
                        }
                    }
                    if rem != 0 {
                        proof {
                            assert forall|k: int| 0 <= k < self.nodes().len() implies ((start
                                + size) + rem <= (#[trigger] self.nodes()[k]).addr || node_end(
                                self.nodes()[k],
                            ) <= (start + size) as int) by {
                                let pk = if k < gi {
                                    k
                                } else {
                                    k + 1
                                };
                                assert(self.nodes()[k] == pre[pk]);
                                if pk < gi {
                                    assert(node_end(pre[pk]) <= pre[gi].addr || node_end(pre[gi])
                                        <= pre[pk].addr);
                                } else {
                                    assert(node_end(pre[gi]) <= pre[pk].addr || node_end(pre[pk])
                                        <= pre[gi].addr);
                                }
                            }
                        }
                        self.add_region(start + size, rem);
                    }
                    return Some(start);
                },
                None => {
                    idx = idx + 1;
                },
            }
        }
        None
    }

    /// Serve an allocation of `size` bytes at power-of-two alignment `align`
    /// (at most a page): normalise the layout as the global allocation hook
    /// does, then place first-fit in list order. Returns the block address —
    /// aligned as requested, inside the heap window — or `None` exactly when
    /// no free region fits the normalised request.
    pub fn allocate(&mut self, size: u64, align: u64) -> (r: Option<u64>)
        requires
            old(self).wf(),
            is_pow2(align as int),
            align <= PAGE_SIZE,
            size + PAGE_SIZE <= u64::MAX,
        ensures
            final(self).wf(),
            final(self).heap_start == old(self).heap_start,
            final(self).heap_size == old(self).heap_size,
            ({
                let nsize = crate::spec_norm_size(size as int, align as int);
                let nalign = crate::spec_norm_align(align as int);
                match find_fit(old(self).nodes(), nsize, nalign) {
                    None => r is None && final(self).nodes() == old(self).nodes(),
                    Some(i) => ({
                        let n = old(self).nodes()[i];
                        let start = spec_align_up(n.addr as int, nalign);
                        let rem = node_end(n) - (start + nsize);
                        &&& r == Some(start as u64)
                        &&& start % (align as int) == 0
                        &&& old(self).heap_start <= start
                        &&& start + nsize <= old(self).heap_end()
                        &&& (if rem == 0 {
                            final(self).nodes() == old(self).nodes().remove(i)
                        } else {
                            final(self).nodes() == old(self).nodes().remove(i).insert(
                                0,
                                (Node { addr: (start + nsize) as u64, size: rem as u64 }),
                            )
                        })
                        &&& final(self).free_bytes() == old(self).free_bytes() - nsize - (start
                            - n.addr)
                    }),
                }
            }),
    {
        proof {
            crate::lemma_normalize_layout(size as int, align as int);
            crate::lemma_pow2_positive(align as int);
        }
        let (nsize, nalign) = crate::normalize_layout(size, align);
        let ghost pre = self.nodes();
        let r = self.first_fit(nsize, nalign);
        proof {
            crate::sorted_linked_list::lemma_find_fit_props(pre, nsize as int, nalign as int);
            if let Some(i) = find_fit(pre, nsize as int, nalign as int) {
                let start = spec_align_up(pre[i].addr as int, nalign as int);
                lemma_mod_chain(start, nalign as int, align as int);
                assert(node_ok(pre[i], old(self).heap_start as int, old(self).heap_size as int));
            }
        }
        r
    }

    /// Return the block at `ptr` that an allocation with the same `size` and
    /// `align` handed out: normalise the layout exactly as `allocate` did and
    /// push the region onto the front of the list. The block must still be
    /// live — it lies in the heap window at a node-aligned address and
    /// overlaps no free region; an overlap would mean a double free.
    pub fn deallocate(&mut self, ptr: u64, size: u64, align: u64)
        requires
            old(self).wf(),
            is_pow2(align as int),
            align <= PAGE_SIZE,
            size + PAGE_SIZE <= u64::MAX,
            ptr % NODE_ALIGN == 0,
            old(self).heap_start <= ptr,
            ptr + crate::spec_norm_size(size as int, align as int) <= old(self).heap_end(),
            forall|k: int|
                0 <= k < old(self).nodes().len() ==> (ptr + crate::spec_norm_size(
                    size as int,
                    align as int,
                ) <= (#[trigger] old(self).nodes()[k]).addr || node_end(old(self).nodes()[k])
                    <= ptr),
        ensures
            final(self).wf(),
            final(self).heap_start == old(self).heap_start,
            final(self).heap_size == old(self).heap_size,
            final(self).nodes() == old(self).nodes().insert(
                0,
                (Node { addr: ptr, size: crate::spec_norm_size(size as int, align as int) as u64 }),
            ),
            final(self).free_bytes() == old(self).free_bytes() + crate::spec_norm_size(
                size as int,
                align as int,
            ),
    {
        proof {
            crate::lemma_normalize_layout(size as int, align as int);
            crate::lemma_pow2_positive(align as int);
        }
        let (nsize, _nalign) = crate::normalize_layout(size, align);
        self.add_region(ptr, nsize);
    }
}

} // verus!
