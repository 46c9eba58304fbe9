use vstd::prelude::*;

use crate::allocator::{Allocation, Release, Vitalloc};
use crate::heap::{block_took, is_free, normalizable, normalized_size, HeapBlock};
use crate::layout::Layout;
use crate::utils::{align_up_spec, is_pow2};

verus! {

/// Address `x` lies in block `j` and is handed out, i.e. it belongs to a live allocation.
pub open spec fn handed_out(bs: Seq<HeapBlock>, j: int, x: int) -> bool {
    &&& 0 <= j < bs.len()
    &&& bs[j].contains(x)
    &&& !is_free(bs[j].spec_holes(), x)
}

impl<const BS: usize, const BA: usize, const LS: usize, const LA: usize> Vitalloc<BS, BA, LS, LA> {
    /// Live allocations never overlap: a small allocation is made only of
    /// memory that no live allocation holds, all of it is held afterwards, and
    /// what was held before stays held.
    pub proof fn lemma_no_overlap(bs: Seq<HeapBlock>, nbs: Seq<HeapBlock>, layout: Layout, p: usize)
        requires
            Self::blocks_wf(bs),
            layout.wf(),
            Self::allocate_result(bs, nbs, layout, Allocation::Served(p)),
        ensures
            forall|j: int, x: int|
                #[trigger] handed_out(bs, j, x) ==> !(p <= x < p + normalized_size(layout.size as int)),
            forall|j: int, x: int|
                0 <= j < nbs.len() && nbs[j].contains(p as int) && p <= x < p + normalized_size(
                    layout.size as int,
                ) ==> #[trigger] handed_out(nbs, j, x),
            forall|j: int, x: int| #[trigger] handed_out(bs, j, x) ==> handed_out(nbs, j, x),
    {
        let ns = normalized_size(layout.size as int);
        let align = layout.align as int;
        assert(!Self::is_large(layout) && normalizable(layout.size as int));
        let i = choose|i: int| #[trigger] Self::served_by(bs, nbs, i, ns, align, p as int);
        assert(block_took(bs[i], nbs[i], ns, align, p as int));
        assert forall|j: int, x: int| #[trigger] handed_out(bs, j, x) implies !(p <= x < p + ns) by {
            if j != i {
                assert(Self::apart(bs[i], bs[j]));
            }
        }
        assert forall|j: int, x: int|
            0 <= j < nbs.len() && nbs[j].contains(p as int) && p <= x < p + ns implies #[trigger] handed_out(
            nbs,
            j,
            x,
        ) by {
            if j != i {
                assert(Self::apart(nbs[i], nbs[j]));
            }
        }
        assert forall|j: int, x: int| #[trigger] handed_out(bs, j, x) implies handed_out(nbs, j, x) by {
            if j != i {
                assert(nbs[j] == bs[j]);
            }
        }
    }

    /// A deallocation leaves every other live allocation where it was: each
    /// address handed out before and outside the freed region is still handed
    /// out by a block of the chain, so small-path memory always lies in the chain.
    pub proof fn lemma_dealloc_keeps_live(
        bs: Seq<HeapBlock>,
        nbs: Seq<HeapBlock>,
        addr: usize,
        layout: Layout,
        r: Release,
        j: int,
        x: int,
    )
        requires
            Self::blocks_wf(bs),
            Self::deallocate_result(bs, nbs, addr, layout, r),
            handed_out(bs, j, x),
            !Self::is_large(layout) ==> !(addr <= x < addr + normalized_size(layout.size as int)),
        ensures
            exists|k: int| #[trigger] handed_out(nbs, k, x),
    {
        let ns = normalized_size(layout.size as int);
        if Self::is_large(layout) {
            assert(handed_out(nbs, j, x));
        } else if exists|i: int| #[trigger] Self::frees(bs, i, addr as int, layout.size as int) {
            let i = choose|i: int| #[trigger] Self::frees(bs, i, addr as int, layout.size as int);
            assert(Self::frees(bs, i, addr as int, layout.size as int));
            if bs[i].spec_in_use() == ns && bs.len() > 1 {
                if j == i {
                    assert(bs[i].contains(x));
                    assert(false);
                } else if j < i {
                    assert(nbs[j] == bs[j]);
                    assert(handed_out(nbs, j, x));
                } else {
                    assert(nbs[j - 1] == bs[j]);
                    assert(handed_out(nbs, j - 1, x));
                }
            } else {
                if j != i {
                    assert(nbs[j] == bs[j]);
                }
                assert(handed_out(nbs, j, x));
            }
        } else {
            assert(handed_out(nbs, j, x));
        }
    }

    /// The allocation and the deallocation of one layout take the same path:
    /// for a large layout neither touches the blocks, and the deallocation
    /// hands back exactly what the allocation forwarded; for a small one
    /// nothing is forwarded, and only whole heap blocks go back.
    pub proof fn lemma_routing_symmetry(
        bs0: Seq<HeapBlock>,
        bs1: Seq<HeapBlock>,
        bs2: Seq<HeapBlock>,
        bs3: Seq<HeapBlock>,
        layout: Layout,
        addr: usize,
        r1: Allocation,
        r2: Release,
    )
        requires
            Self::allocate_result(bs0, bs1, layout, r1),
            Self::deallocate_result(bs2, bs3, addr, layout, r2),
        ensures
            Self::is_large(layout) ==> {
                &&& bs1 == bs0
                &&& bs3 == bs2
                &&& r1 matches Allocation::Forward(l) ==> r2 == Release::Region { addr, layout: l }
                &&& r1 == Allocation::Refused ==> r2 == Release::Nothing
                &&& (r1 is Forward || r1 is Refused)
            },
            !Self::is_large(layout) ==> {
                &&& !(r1 is Forward)
                &&& r2 matches Release::Region { layout: l, .. } ==> l == Self::block_layout()
            },
    {
        if !Self::is_large(layout) && r2 is Region {
            let i = choose|i: int| #[trigger] Self::frees(bs2, i, addr as int, layout.size as int);
            assert(Self::frees(bs2, i, addr as int, layout.size as int));
        }
    }

    /// The boundary between the paths is `LS`: a request of `LS` bytes is
    /// large and, where its padded size fits in a `usize`, is forwarded as
    /// `LS` rounded up to a multiple of `LA` with alignment `LA`, without
    /// touching the blocks; one of `LS - 1` bytes is small.
    pub proof fn lemma_boundary(
        bs: Seq<HeapBlock>,
        nbs1: Seq<HeapBlock>,
        nbs2: Seq<HeapBlock>,
        align: usize,
        r1: Allocation,
        r2: Allocation,
    )
        requires
            Self::config_ok(),
            is_pow2(align as int),
            Self::allocate_result(bs, nbs1, (Layout { size: LS, align }), r1),
            Self::allocate_result(bs, nbs2, (Layout { size: (LS - 1) as usize, align }), r2),
        ensures
            Self::is_large((Layout { size: LS, align })),
            !Self::is_large((Layout { size: (LS - 1) as usize, align })),
            nbs1 == bs,
            (r1 is Forward || r1 is Refused),
            LS + LA - 1 <= usize::MAX ==> r1 == Allocation::Forward(
                Layout { size: align_up_spec(LS as int, LA as int) as usize, align: LA },
            ),
            !(r2 is Forward),
    {
    }

    /// A large request is one matched pair of calls to the backing allocator:
    /// the allocation forwards the padded layout, the deallocation hands the
    /// same address back with the same layout, and the blocks stay as they were.
    /// The forwarded alignment honours any requested alignment up to `LA`.
    pub proof fn lemma_large_round_trip(
        bs0: Seq<HeapBlock>,
        bs1: Seq<HeapBlock>,
        bs2: Seq<HeapBlock>,
        layout: Layout,
        forwarded: Layout,
        addr: usize,
        r: Release,
    )
        requires
            Self::config_ok(),
            layout.wf(),
            Self::is_large(layout),
            Self::allocate_result(bs0, bs1, layout, Allocation::Forward(forwarded)),
            Self::deallocate_result(bs1, bs2, addr, layout, r),
        ensures
            bs1 == bs0,
            bs2 == bs0,
            r == (Release::Region { addr, layout: forwarded }),
            forwarded.align == LA,
            forwarded.size >= layout.size,
            forwarded.size % LA == 0,
            forwarded.size < layout.size + LA,
            layout.align <= LA ==> forwarded.align % layout.align == 0,
    {
        crate::utils::lemma_align_up_via_down(layout.size as int, LA as int);
        reveal_with_fuel(is_pow2, 1);
        if layout.align <= LA {
            crate::utils::lemma_pow2_divides(layout.align as int, LA as int);
        }
    }

    /// A deallocation never unlinks the last block, even when it empties it.
    pub proof fn lemma_last_block_kept(
        bs: Seq<HeapBlock>,
        nbs: Seq<HeapBlock>,
        addr: usize,
        layout: Layout,
        r: Release,
    )
        requires
            Self::deallocate_result(bs, nbs, addr, layout, r),
            bs.len() == 1,
        ensures
            nbs.len() == 1,
            !Self::is_large(layout) ==> (r == Release::Nothing),
    {
        if !Self::is_large(layout) && exists|i: int|
            #[trigger] Self::frees(bs, i, addr as int, layout.size as int) {
            let i = choose|i: int| #[trigger] Self::frees(bs, i, addr as int, layout.size as int);
            assert(Self::frees(bs, i, addr as int, layout.size as int));
        }
    }

    /// A deallocation that leaves its block with nothing handed out unlinks
    /// that block, unless it is the only one, and hands its region back once;
    /// a block that keeps live allocations stays.
    pub proof fn lemma_reclamation(
        bs: Seq<HeapBlock>,
        nbs: Seq<HeapBlock>,
        addr: usize,
        layout: Layout,
        r: Release,
        i: int,
    )
        requires
            Self::blocks_wf(bs),
            !Self::is_large(layout),
            Self::frees(bs, i, addr as int, layout.size as int),
            Self::deallocate_result(bs, nbs, addr, layout, r),
        ensures
            (r is Region) <==> nbs.len() == bs.len() - 1,
            (r is Region) ==> nbs == bs.remove(i) && r == (Release::Region {
                addr: bs[i].spec_base() as usize,
                layout: Self::block_layout(),
            }),
            (r is Nothing) ==> nbs.len() == bs.len() && (nbs[i].spec_is_empty() ==> bs.len() == 1),
    {
        assert(Self::frees(bs, i, addr as int, layout.size as int));
        assert(bs[i].wf());
        if r is Nothing {
            let ns = normalized_size(layout.size as int);
            assert(nbs.len() == bs.len());
            assert(nbs[i].wf());
            nbs[i].lemma_empty_iff_unused();
        }
    }
}

} // verus!
