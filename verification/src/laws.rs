//! The global laws of the sorted free-list allocator, proved from the
//! operations' contracts: a fully freed heap has coalesced back to one
//! region, an allocate-free pair restores the list exactly, and live blocks
//! never overlap.
use vstd::prelude::*;

verus! {

use crate::sorted_linked_list::{
    add_region_spec, find_fit, fits, free_bytes_of, free_set_of, lemma_add_region_free_set,
    lemma_add_region_wf, lemma_find_fit_props, lemma_free_set_contains, lemma_insertion_point_is,
    lemma_separated_pair, node_end, node_ok, nodes_separated, range_disjoint, region, Node,
};
use crate::{spec_align_up, NODE_ALIGN, NODE_SIZE};

/// When the list holds every byte of the heap window, it has coalesced back
/// to a single region covering the window, and holds exactly the window's
/// bytes: freeing everything leaves the heap as `init` made it, whatever the
/// order of the frees.
pub proof fn lemma_full_window_single_node(ns: Seq<Node>, hs: int, sz: int)
    requires
        0 <= hs,
        0 < sz,
        hs + sz <= u64::MAX,
        forall|k: int| 0 <= k < ns.len() ==> node_ok(#[trigger] ns[k], hs, sz),
        nodes_separated(ns),
        free_set_of(ns) == region(hs, sz),
    ensures
        ns =~= seq![(Node { addr: hs as u64, size: sz as u64 })],
        free_bytes_of(ns) == sz,
{
    assert(region(hs, sz).contains(hs));
    lemma_free_set_contains(ns, hs);
    let k0 = choose|k: int| 0 <= k < ns.len() && (#[trigger] ns[k]).addr <= hs < node_end(ns[k]);
    assert(ns[k0].addr == hs);
    if k0 > 0 {
        lemma_separated_pair(ns, 0, k0);
        assert(false);
    }
    let e = node_end(ns[0]);
    if e < hs + sz {
        assert(region(hs, sz).contains(e));
        lemma_free_set_contains(ns, e);
        let m = choose|m: int| 0 <= m < ns.len() && (#[trigger] ns[m]).addr <= e < node_end(
            ns[m],
        );
        if m > 0 {
            lemma_separated_pair(ns, 0, m);
        }
        assert(false);
    }
    assert(e == hs + sz);
    if ns.len() > 1 {
        lemma_separated_pair(ns, 0, 1);
        assert(node_end(ns[1]) <= hs + sz);
        assert(false);
    }
    assert(ns[0] == (Node { addr: hs as u64, size: sz as u64 }));
    assert(ns.drop_last() =~= Seq::<Node>::empty());
    assert(free_bytes_of(Seq::<Node>::empty()) == 0);
}

/// Freeing the last live block restores the heap to its initial state,
/// whatever order the blocks came back in: when the list holds every byte of
/// the window but the block's, putting the block back coalesces the list
/// into the single region `init` made.
pub proof fn lemma_last_free_restores_window(
    ns: Seq<Node>,
    hs: int,
    sz: int,
    addr: int,
    size: int,
)
    requires
        0 <= hs,
        hs + sz <= u64::MAX,
        forall|k: int| 0 <= k < ns.len() ==> node_ok(#[trigger] ns[k], hs, sz),
        nodes_separated(ns),
        NODE_SIZE <= size,
        addr % (NODE_ALIGN as int) == 0,
        hs <= addr,
        addr + size <= hs + sz,
        range_disjoint(ns, addr, size),
        free_set_of(ns).union(region(addr, size)) == region(hs, sz),
    ensures
        add_region_spec(ns, addr, size) =~= seq![(Node { addr: hs as u64, size: sz as u64 })],
        free_bytes_of(add_region_spec(ns, addr, size)) == sz,
{
    lemma_add_region_wf(ns, addr, size, hs, sz);
    lemma_add_region_free_set(ns, addr, size, hs, sz);
    lemma_full_window_single_node(add_region_spec(ns, addr, size), hs, sz);
}

/// Freeing a block right after allocating it restores the list exactly,
/// when the block needed no front padding: the region it was carved from
/// comes back whole, merged with the split-off tail if there was one. A loop
/// that allocates and frees one layout therefore sees the same list — and
/// the same success — at every iteration, however often it runs.
pub proof fn lemma_alloc_free_restores(ns: Seq<Node>, size: int, align: int, i: int)
    requires
        nodes_separated(ns),
        0 < size,
        0 < align,
        find_fit(ns, size, align) == Some(i),
        spec_align_up(ns[i].addr as int, align) == ns[i].addr,
        node_end(ns[i]) <= u64::MAX,
    ensures
        ({
            let n = ns[i];
            let rem = node_end(n) - (n.addr + size);
            let post = if rem == 0 {
                ns.remove(i)
            } else {
                ns.update(i, (Node { addr: (n.addr + size) as u64, size: rem as u64 }))
            };
            add_region_spec(post, n.addr as int, size) =~= ns
        }),
{
    lemma_find_fit_props(ns, size, align);
    let n = ns[i];
    let addr = n.addr as int;
    let rem = node_end(n) - (addr + size);
    assert(fits(n, size, align));
    assert forall|j: int| 0 <= j < i implies (#[trigger] ns[j]).addr < addr by {
        lemma_separated_pair(ns, j, i);
    }
    if rem == 0 {
        let post = ns.remove(i);
        if i < post.len() {
            assert(post[i] == ns[i + 1]);
            assert(node_end(ns[i]) < ns[i + 1].addr);
        }
        lemma_insertion_point_is(post, addr, i);
        if i > 0 {
            assert(post[i - 1] == ns[i - 1]);
            lemma_separated_pair(ns, i - 1, i);
        }
        assert(add_region_spec(post, addr, size) == post.insert(
            i,
            (Node { addr: addr as u64, size: size as u64 }),
        ));
        assert((Node { addr: addr as u64, size: size as u64 }) == n);
        assert(post.insert(i, n) =~= ns);
    } else {
        let tail = (Node { addr: (addr + size) as u64, size: rem as u64 });
        let post = ns.update(i, tail);
        lemma_insertion_point_is(post, addr, i);
        if i > 0 {
            assert(post[i - 1] == ns[i - 1]);
            lemma_separated_pair(ns, i - 1, i);
        }
        assert(addr + size == post[i].addr);
        assert(add_region_spec(post, addr, size) == post.update(
            i,
            (Node { addr: addr as u64, size: (size + post[i].size) as u64 }),
        ));
        assert((Node { addr: addr as u64, size: (size + post[i].size) as u64 }) == n);
        assert(post.update(i, n) =~= ns);
    }
}

/// A block placed at an alignment no larger than the node header's needs no
/// front padding: every free region's address is node-aligned, so the block
/// begins exactly where the region does. Requests at such alignments
/// therefore satisfy the padding-free hypothesis of
/// `lemma_alloc_free_restores` at every free region.
pub proof fn lemma_no_padding_at_node_align(n: Node, align: int)
    requires
        n.addr % crate::NODE_ALIGN == 0,
        vstd::arithmetic::power2::is_pow2(align),
        align <= NODE_ALIGN,
    ensures
        spec_align_up(n.addr as int, align) == n.addr,
{
    crate::lemma_node_align_pow2();
    crate::lemma_pow2_divides(align, NODE_ALIGN as int);
    crate::lemma_mod_chain(n.addr as int, NODE_ALIGN as int, align);
}

/// Two live blocks never overlap: a block that is live owns none of the
/// bytes the list holds, and a newly returned block is carved wholly from
/// bytes the list held.
pub proof fn lemma_live_blocks_disjoint(fs: Set<int>, p1: int, s1: int, p2: int, s2: int)
    requires
        region(p1, s1).disjoint(fs),
        region(p2, s2).subset_of(fs),
    ensures
        region(p1, s1).disjoint(region(p2, s2)),
{
    assert forall|x: int| region(p1, s1).contains(x) implies !region(p2, s2).contains(x) by {
        if region(p2, s2).contains(x) {
            assert(fs.contains(x));
        }
    }
}

/// A live block's bytes stay out of the held set across an allocation:
/// allocation only takes bytes out.
pub proof fn lemma_live_after_allocate(fs: Set<int>, consumed: Set<int>, p: int, s: int)
    requires
        region(p, s).disjoint(fs),
    ensures
        region(p, s).disjoint(fs.difference(consumed)),
{
    assert forall|x: int| region(p, s).contains(x) implies !fs.difference(consumed).contains(
        x,
    ) by {
        assert(!fs.contains(x));
    }
}

/// A live block's bytes stay out of the held set when another, disjoint
/// block is freed: only that block's bytes come back.
pub proof fn lemma_live_after_deallocate(fs: Set<int>, p1: int, s1: int, p2: int, s2: int)
    requires
        region(p1, s1).disjoint(fs),
        region(p1, s1).disjoint(region(p2, s2)),
    ensures
        region(p1, s1).disjoint(fs.union(region(p2, s2))),
{
    assert forall|x: int| region(p1, s1).contains(x) implies !fs.union(region(p2, s2)).contains(
        x,
    ) by {
        assert(!fs.contains(x) && !region(p2, s2).contains(x));
    }
}

} // verus!

