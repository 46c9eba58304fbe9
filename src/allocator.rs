use vstd::prelude::*;

use crate::heap::{
    block_gave_back, block_took, carved, has_fit, is_free, normalizable, normalize, normalized_size,
    region_in_use, HeapBlock, Hole, MIN_SIZE,
};
use crate::layout::Layout;
use crate::utils::is_pow2;

verus! {

/// What the front end needs done to finish an allocation.
#[derive(Clone, Copy, Debug, PartialEq, Eq, Structural)]
pub enum Allocation {
    /// Served from a heap block at this address.
    Served(usize),
    /// A large request: hand this layout to the backing allocator and return its result.
    Forward(Layout),
    /// No heap block can serve the request: obtain a region of this layout from
    /// the backing allocator and pass it to `allocate_in_new_block`.
    NeedBlock(Layout),
    /// The request size cannot be represented once rounded up.
    Refused,
}

/// What the front end needs done to finish a deallocation.
#[derive(Clone, Copy, Debug, PartialEq, Eq, Structural)]
pub enum Release {
    /// Nothing is left to do.
    Nothing,
    /// Return this region, with this layout, to the backing allocator.
    Region { addr: usize, layout: Layout },
}

/// An allocator over a growable heap made of fixed-size blocks.
///
/// * `BS`: the size of a heap block,
/// * `BA`: the alignment asked of the backing allocator for a heap block,
/// * `LS`: requests of at least this size bypass the heap blocks,
/// * `LA`: the alignment asked of the backing allocator for such large requests.
///
/// The allocator never calls the backing allocator itself: `allocate` and `deallocate`
/// say what is to be asked of it, and `allocate_in_new_block` takes the region it gave.
pub struct Vitalloc<const BS: usize, const BA: usize, const LS: usize, const LA: usize> {
    blocks: Vec<HeapBlock>,
}

/// The default parameters: 64 KiB blocks aligned on 4 KiB, requests of 16 KiB
/// and more sent to the backing allocator with a 4 KiB alignment.
pub type DefaultVitalloc = Vitalloc<65536, 4096, 16384, 4096>;

impl<const BS: usize, const BA: usize, const LS: usize, const LA: usize> Vitalloc<BS, BA, LS, LA> {
    /// The parameters are consistent: the large threshold lies below the block
    /// size, a block can hold a hole, both alignments are powers of two and
    /// the block size is a multiple of the block alignment.
    pub open spec fn config_ok() -> bool {
        &&& 0 < LS < BS
        &&& MIN_SIZE <= BS
        &&& is_pow2(BA as int)
        &&& is_pow2(LA as int)
        &&& BS % BA == 0
    }

    /// The layout asked of the backing allocator for a new heap block.
    pub open spec fn block_layout() -> Layout {
        Layout { size: BS, align: BA }
    }

    /// The request bypasses the heap blocks.
    pub open spec fn is_large(layout: Layout) -> bool {
        layout.size >= LS
    }

    /// The heap blocks, in the order they were created.
    pub closed spec fn spec_blocks(&self) -> Seq<HeapBlock> {
        self.blocks@
    }

    /// Blocks `b` and `c` do not overlap.
    pub open spec fn apart(b: HeapBlock, c: HeapBlock) -> bool {
        b.end() <= c.spec_base() || c.end() <= b.spec_base()
    }

    /// The front end is well formed: the parameters are consistent and so are
    /// its blocks.
    pub open spec fn wf(&self) -> bool {
        &&& Self::config_ok()
        &&& Self::blocks_wf(self.spec_blocks())
    }

    /// `[base, base + BS)` meets none of the blocks.
    pub open spec fn fresh_region(&self, base: int) -> bool {
        forall|i: int|
            0 <= i < self.spec_blocks().len() ==> #[trigger] self.spec_blocks()[i].end() <= base
                || base + BS <= self.spec_blocks()[i].spec_base()
    }

    /// Block `i` is the first block that can serve the normalised request.
    pub open spec fn is_first_serving(bs: Seq<HeapBlock>, i: int, size: int, align: int) -> bool {
        &&& 0 <= i < bs.len()
        &&& has_fit(bs[i].spec_holes(), size, align)
        &&& forall|j: int| 0 <= j < i ==> !has_fit(#[trigger] bs[j].spec_holes(), size, align)
    }

    /// The request was served at `p` by block `i`, the first block that could
    /// serve it; no other block changed.
    pub open spec fn served_by(
        bs: Seq<HeapBlock>,
        nbs: Seq<HeapBlock>,
        i: int,
        size: int,
        align: int,
        p: int,
    ) -> bool {
        &&& Self::is_first_serving(bs, i, size, align)
        &&& nbs == bs.update(i, nbs[i])
        &&& block_took(bs[i], nbs[i], size, align, p)
    }

    /// Block `i` holds address `addr`.
    pub open spec fn owns(bs: Seq<HeapBlock>, i: int, addr: int) -> bool {
        0 <= i < bs.len() && bs[i].contains(addr)
    }

    /// Block `i` holds `addr`, and the normalised region there is memory that
    /// the block has handed out.
    pub open spec fn frees(bs: Seq<HeapBlock>, i: int, addr: int, size: int) -> bool {
        &&& Self::owns(bs, i, addr)
        &&& normalizable(size)
        &&& region_in_use(
            bs[i].spec_holes(),
            bs[i].spec_base(),
            bs[i].end(),
            addr,
            normalized_size(size),
        )
    }

    /// What `allocate` does, from the blocks `bs` before the call to the
    /// blocks `nbs` after it, for the request `layout` and result `r`.
    pub open spec fn allocate_result(
        bs: Seq<HeapBlock>,
        nbs: Seq<HeapBlock>,
        layout: Layout,
        r: Allocation,
    ) -> bool {
        let ns = normalized_size(layout.size as int);
        let align = layout.align as int;
        if Self::is_large(layout) {
            &&& nbs == bs
            &&& r == match Self::large_layout(layout) {
                Some(l) => Allocation::Forward(l),
                None => Allocation::Refused,
            }
        } else if !normalizable(layout.size as int) {
            &&& nbs == bs
            &&& r == Allocation::Refused
        } else {
            match r {
                Allocation::Served(p) => {
                    exists|i: int| #[trigger] Self::served_by(bs, nbs, i, ns, align, p as int)
                },
                Allocation::NeedBlock(l) => {
                    &&& l == Self::block_layout()
                    &&& nbs == bs
                    &&& forall|i: int|
                        0 <= i < bs.len() ==> !has_fit(#[trigger] bs[i].spec_holes(), ns, align)
                },
                _ => false,
            }
        }
    }

    /// What `deallocate` does, from the blocks `bs` before the call to the
    /// blocks `nbs` after it, for the region at `addr` of `layout` and result `r`.
    pub open spec fn deallocate_result(
        bs: Seq<HeapBlock>,
        nbs: Seq<HeapBlock>,
        addr: usize,
        layout: Layout,
        r: Release,
    ) -> bool {
        let ns = normalized_size(layout.size as int);
        if Self::is_large(layout) {
            &&& nbs == bs
            &&& r == match Self::large_layout(layout) {
                Some(l) => Release::Region { addr, layout: l },
                None => Release::Nothing,
            }
        } else if exists|i: int| #[trigger] Self::frees(bs, i, addr as int, layout.size as int) {
            forall|i: int|
                #[trigger] Self::frees(bs, i, addr as int, layout.size as int) ==> if bs[i].spec_in_use()
                    == ns && bs.len() > 1 {
                    &&& nbs == bs.remove(i)
                    &&& r == Release::Region {
                        addr: bs[i].spec_base() as usize,
                        layout: Self::block_layout(),
                    }
                    &&& forall|x: int|
                        #[trigger] bs[i].contains(x) ==> is_free(bs[i].spec_holes(), x) || (addr <= x
                            < addr + ns)
                } else {
                    &&& nbs == bs.update(i, nbs[i])
                    &&& block_gave_back(bs[i], nbs[i], addr as int, ns)
                    &&& r == Release::Nothing
                }
        } else {
            &&& nbs == bs
            &&& r == Release::Nothing
        }
    }

    /// What the large path forwards to the backing allocator.
    pub open spec fn large_layout(layout: Layout) -> Option<Layout> {
        layout.padded_spec(LA as int)
    }

    /// Every block is well formed, has the configured size and alignment, and
    /// no two blocks overlap.
    pub open spec fn blocks_wf(bs: Seq<HeapBlock>) -> bool {
        &&& forall|i: int|
            0 <= i < bs.len() ==> (#[trigger] bs[i]).wf() && bs[i].spec_capacity() == BS
                && bs[i].spec_base() % BA as int == 0
        &&& forall|i: int, j: int|
            #![trigger bs[i], bs[j]]
            0 <= i < bs.len() && 0 <= j < bs.len() && i != j ==> Self::apart(bs[i], bs[j])
    }

    proof fn lemma_replace_keeps_wf(bs: Seq<HeapBlock>, i: int, nb: HeapBlock)
        requires
            Self::blocks_wf(bs),
            0 <= i < bs.len(),
            nb.wf(),
            nb.spec_base() == bs[i].spec_base(),
            nb.spec_capacity() == bs[i].spec_capacity(),
        ensures
            Self::blocks_wf(bs.update(i, nb)),
    {
        let nbs = bs.update(i, nb);
        assert forall|j: int, k: int|
            0 <= j < nbs.len() && 0 <= k < nbs.len() && j != k implies Self::apart(
            #[trigger] nbs[j],
            #[trigger] nbs[k],
        ) by {
            assert(Self::apart(bs[j], bs[k]));
        }
    }

    proof fn lemma_push_keeps_wf(bs: Seq<HeapBlock>, nb: HeapBlock)
        requires
            Self::blocks_wf(bs),
            nb.wf(),
            nb.spec_capacity() == BS,
            nb.spec_base() % BA as int == 0,
            forall|i: int|
                0 <= i < bs.len() ==> #[trigger] bs[i].end() <= nb.spec_base() || nb.end()
                    <= bs[i].spec_base(),
        ensures
            Self::blocks_wf(bs.push(nb)),
    {
        let nbs = bs.push(nb);
        assert forall|j: int, k: int|
            0 <= j < nbs.len() && 0 <= k < nbs.len() && j != k implies Self::apart(
            #[trigger] nbs[j],
            #[trigger] nbs[k],
        ) by {
            if j < bs.len() && k < bs.len() {
                assert(Self::apart(bs[j], bs[k]));
            } else if j < bs.len() {
                assert(nbs[j] == bs[j]);
                assert(bs[j].end() <= nb.spec_base() || nb.end() <= bs[j].spec_base());
            } else {
                assert(nbs[k] == bs[k]);
                assert(bs[k].end() <= nb.spec_base() || nb.end() <= bs[k].spec_base());
            }
        }
    }

    /// A front end with no heap block.
    pub fn new() -> (r: Self)
        requires
            Self::config_ok(),
        ensures
            r.wf(),
            r.spec_blocks().len() == 0,
    {
        Vitalloc { blocks: Vec::new() }
    }

    /// The number of heap blocks.
    pub fn block_count(&self) -> (r: usize)
        ensures
            r == self.spec_blocks().len(),
    {
        self.blocks.len()
    }

    /// Heap block `i`, counting from the oldest.
    pub fn block(&self, i: usize) -> (r: &HeapBlock)
        requires
            i < self.spec_blocks().len(),
        ensures
            *r == self.spec_blocks()[i as int],
    {
        &self.blocks[i]
    }

    /// The layout forwarded to the backing allocator for a large request:
    /// the size padded to a multiple of `LA`, with alignment `LA`.
    fn padded(&self, layout: Layout) -> (r: Option<Layout>)
        requires
            self.wf(),
        ensures
            r == Self::large_layout(layout),
    {
        layout.padded(LA)
    }

    /// Whether `[base, base + BS)` meets none of the blocks.
    pub fn is_fresh_region(&self, base: usize) -> (r: bool)
        requires
            self.wf(),
            base + BS <= usize::MAX,
        ensures
            r == self.fresh_region(base as int),
    {
        let mut i: usize = 0;
        while i < self.blocks.len()
            invariant
                self.wf(),
                base + BS <= usize::MAX,
                0 <= i <= self.spec_blocks().len(),
                forall|j: int|
                    0 <= j < i ==> #[trigger] self.spec_blocks()[j].end() <= base || base + BS
                        <= self.spec_blocks()[j].spec_base(),
            decreases self.spec_blocks().len() - i,
        {
            let b = &self.blocks[i];
            let b_end = b.base() + b.capacity();
            if !(b_end <= base || base + BS <= b.base()) {
                return false;
            }
            i = i + 1;
        }
        true
    }

    /// Allocation, up to the point where the backing allocator is needed.
    ///
    /// A large request (`size >= LS`) changes nothing and is forwarded with its
    /// size padded to a multiple of `LA` and alignment `LA`. A small request is
    /// normalised and served from the first block, oldest first, that has a
    /// fitting hole; where none has, nothing changes and a new block of
    /// `{BS, BA}` is asked for.
    pub fn allocate(&mut self, layout: Layout) -> (r: Allocation)
        requires
            old(self).wf(),
            layout.wf(),
        ensures
            final(self).wf(),
            Self::allocate_result(old(self).spec_blocks(), final(self).spec_blocks(), layout, r),
            r matches Allocation::Served(p) ==> p % layout.align == 0 && exists|i: int|
                #[trigger] Self::owns(final(self).spec_blocks(), i, p as int),
    {
        if layout.size >= LS {
            return match self.padded(layout) {
                Some(l) => Allocation::Forward(l),
                None => Allocation::Refused,
            };
        }
        if normalize(layout.size).is_none() {
            return Allocation::Refused;
        }
        let ghost ns = normalized_size(layout.size as int);
        let ghost bs = self.blocks@;
        let mut i: usize = 0;
        while i < self.blocks.len()
            invariant
                self.wf(),
                self.blocks@ == bs,
                bs == old(self).spec_blocks(),
                layout.wf(),
                layout.size < LS,
                normalizable(layout.size as int),
                ns == normalized_size(layout.size as int),
                0 <= i <= bs.len(),
                forall|j: int|
                    0 <= j < i ==> !has_fit(#[trigger] bs[j].spec_holes(), ns, layout.align as int),
            decreases bs.len() - i,
        {
            assert(self.spec_blocks()[i as int].wf());
            match self.blocks[i].allocate_first_fit(layout) {
                Ok(p) => {
                    proof {
                        let nbs = self.blocks@;
                        assert(nbs =~= bs.update(i as int, nbs[i as int]));
                        assert(Self::is_first_serving(bs, i as int, ns, layout.align as int));
                        assert(block_took(bs[i as int], nbs[i as int], ns, layout.align as int, p as int));
                        assert(Self::served_by(bs, nbs, i as int, ns, layout.align as int, p as int));
                        Self::lemma_replace_keeps_wf(bs, i as int, nbs[i as int]);
                        assert(Self::owns(self.spec_blocks(), i as int, p as int));
                        assert(Self::served_by(
                            old(self).spec_blocks(),
                            self.spec_blocks(),
                            i as int,
                            ns,
                            layout.align as int,
                            p as int,
                        ));
                    }
                    let r = Allocation::Served(p);
                    assert(r matches Allocation::Served(q) && q == p);
                    return r;
                },
                Err(_) => {
                    proof {
                        assert(self.blocks@ =~= bs);
                    }
                },
            }
            i = i + 1;
        }
        Allocation::NeedBlock(Layout { size: BS, align: BA })
    }

    /// Serves a small request from a new heap block over `[base, base + BS)`,
    /// the region the backing allocator gave after `allocate` asked for a block.
    ///
    /// On success the block joins the end of the chain. On `None` nothing
    /// changes, and the region is to go back to the backing allocator.
    pub fn allocate_in_new_block(&mut self, base: usize, layout: Layout) -> (r: Option<usize>)
        requires
            old(self).wf(),
            layout.wf(),
            !Self::is_large(layout),
            base % BA == 0,
            base + BS <= usize::MAX,
            old(self).fresh_region(base as int),
        ensures
            final(self).wf(),
            ({
                let bs = old(self).spec_blocks();
                let nbs = final(self).spec_blocks();
                let ns = normalized_size(layout.size as int);
                let align = layout.align as int;
                let fresh = seq![Hole { addr: base, size: BS }];
                match r {
                    Some(p) => {
                        &&& normalizable(layout.size as int)
                        &&& has_fit(fresh, ns, align)
                        &&& nbs.len() == bs.len() + 1
                        &&& nbs.drop_last() == bs
                        &&& nbs.last().spec_base() == base
                        &&& nbs.last().spec_capacity() == BS
                        &&& carved(fresh, nbs.last().spec_holes(), ns, align, p as int)
                        &&& p % layout.align == 0
                        &&& base <= p && p + ns <= base + BS
                        &&& nbs.last().spec_in_use() == ns
                    },
                    None => {
                        &&& !(normalizable(layout.size as int) && has_fit(fresh, ns, align))
                        &&& nbs == bs
                    },
                }
            }),
    {
        let mut block = HeapBlock::new(base, BS);
        let ghost fresh = block;
        assert(fresh.spec_holes() =~= seq![Hole { addr: base, size: BS }]);
        match block.allocate_first_fit(layout) {
            Ok(p) => {
                self.blocks.push(block);
                proof {
                    let bs = old(self).spec_blocks();
                    assert(self.blocks@.drop_last() =~= bs);
                    assert(self.blocks@ =~= bs.push(block));
                    Self::lemma_push_keeps_wf(bs, block);
                }
                Some(p)
            },
            Err(_) => None,
        }
    }

    /// Deallocation, up to the point where the backing allocator is needed.
    ///
    /// A large request changes nothing, and the region goes back to the
    /// backing allocator with the layout that `allocate` forwarded. A small one
    /// is freed in the block that holds `addr`. When that leaves the block with
    /// nothing handed out and it is not the only block, the block leaves the
    /// chain and its region is to go back to the backing allocator. A region
    /// that no block holds as handed out changes nothing.
    pub fn deallocate(&mut self, addr: usize, layout: Layout) -> (r: Release)
        requires
            old(self).wf(),
            layout.wf(),
        ensures
            final(self).wf(),
            Self::deallocate_result(old(self).spec_blocks(), final(self).spec_blocks(), addr, layout, r),
    {
        if layout.size >= LS {
            return match self.padded(layout) {
                Some(l) => Release::Region { addr, layout: l },
                None => Release::Nothing,
            };
        }
        let ghost bs = self.blocks@;
        let len = self.blocks.len();
        let mut i: usize = 0;
        while i < len && !self.blocks[i].contains_addr(addr)
            invariant
                self.wf(),
                self.blocks@ == bs,
                len == bs.len(),
                0 <= i <= len,
                forall|j: int| 0 <= j < i ==> !(#[trigger] bs[j]).contains(addr as int),
            decreases len - i,
        {
            i = i + 1;
        }
        if i == len {
            return Release::Nothing;
        }
        proof {
            assert(Self::owns(bs, i as int, addr as int));
            assert forall|j: int| Self::owns(bs, j, addr as int) implies j == i by {
                if j != i {
                    assert(Self::apart(bs[j], bs[i as int]));
                }
            }
            assert(self.spec_blocks()[i as int].wf());
        }
        let freed = self.blocks[i].deallocate(addr, layout.size);
        if !freed {
            proof {
                assert(self.blocks@ =~= bs);
            }
            return Release::Nothing;
        }
        let ghost ns = normalized_size(layout.size as int);
        proof {
            let nbs = self.blocks@;
            assert(nbs =~= bs.update(i as int, nbs[i as int]));
            Self::lemma_replace_keeps_wf(bs, i as int, nbs[i as int]);
            nbs[i as int].lemma_empty_iff_unused();
            assert(Self::frees(bs, i as int, addr as int, layout.size as int));
            assert(block_gave_back(bs[i as int], nbs[i as int], addr as int, ns));
        }
        if self.blocks[i].is_empty() && len > 1 {
            let ghost mid = self.blocks@;
            let block = self.blocks.remove(i);
            let base = block.base();
            let r = Release::Region { addr: base, layout: Layout { size: BS, align: BA } };
            proof {
                let nb = mid[i as int];
                assert(nb.spec_holes()[0] == Hole { addr: nb.spec_base() as usize, size: BS });
                assert forall|x: int| #[trigger] bs[i as int].contains(x) implies is_free(
                    bs[i as int].spec_holes(),
                    x,
                ) || (addr <= x < addr + ns) by {
                    assert(nb.spec_holes()[0].contains(x));
                    assert(is_free(nb.spec_holes(), x));
                }
                Self::lemma_remove_keeps_wf(mid, i as int);
                assert(self.blocks@ =~= bs.remove(i as int));
                assert(bs[i as int].spec_in_use() == ns);
                assert(r matches Release::Region { addr: a, layout: l } && a == bs[i as int].spec_base()
                    && l == Self::block_layout());
            }
            r
        } else {
            let r = Release::Nothing;
            proof {
                assert(!(bs[i as int].spec_in_use() == ns && bs.len() > 1));
                assert(r matches Release::Nothing);
            }
            r
        }
    }

    proof fn lemma_remove_keeps_wf(bs: Seq<HeapBlock>, i: int)
        requires
            Self::blocks_wf(bs),
            0 <= i < bs.len(),
        ensures
            Self::blocks_wf(bs.remove(i)),
    {
        let nbs = bs.remove(i);
        assert forall|j: int| 0 <= j < nbs.len() implies (#[trigger] nbs[j]).wf()
            && nbs[j].spec_capacity() == BS && nbs[j].spec_base() % BA as int == 0 by {
            if j < i {
                assert(nbs[j] == bs[j]);
            } else {
                assert(nbs[j] == bs[j + 1]);
            }
        }
        assert forall|j: int, k: int|
            0 <= j < nbs.len() && 0 <= k < nbs.len() && j != k implies Self::apart(
            #[trigger] nbs[j],
            #[trigger] nbs[k],
        ) by {
            let j2 = if j < i { j } else { j + 1 };
            let k2 = if k < i { k } else { k + 1 };
            assert(nbs[j] == bs[j2]);
            assert(nbs[k] == bs[k2]);
            assert(Self::apart(bs[j2], bs[k2]));
        }
    }
}

} // verus!
