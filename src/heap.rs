use vstd::prelude::*;

use crate::layout::Layout;
use crate::utils::{align_up, align_up_spec, is_pow2, lemma_align_up_via_down};

verus! {

/// The smallest region the free list can track: one hole descriptor, two words.
pub const MIN_SIZE: usize = 16;

/// The alignment of a hole descriptor; every tracked size is a multiple of it.
pub const HOLE_ALIGN: usize = 8;

/// One contiguous free region of a heap block.
#[derive(Clone, Copy, Debug, PartialEq, Eq, Structural)]
pub struct Hole {
    pub addr: usize,
    pub size: usize,
}

impl Hole {
    pub open spec fn end(self) -> int {
        self.addr + self.size
    }

    pub open spec fn contains(self, x: int) -> bool {
        self.addr <= x < self.end()
    }
}

/// A hole list inside `[lo, hi)`: every hole lies in the range and can hold a
/// descriptor, and the holes are sorted by address, do not overlap, and are
/// coalesced (a gap separates any two of them).
pub open spec fn holes_wf(hs: Seq<Hole>, lo: int, hi: int) -> bool {
    &&& forall|i: int|
        0 <= i < hs.len() ==> lo <= #[trigger] hs[i].addr && hs[i].end() <= hi && hs[i].size
            >= MIN_SIZE
    &&& forall|i: int, j: int|
        #![trigger hs[i], hs[j]]
        0 <= i < j < hs.len() ==> hs[i].end() < hs[j].addr
}

/// Address `x` lies in one of the holes.
pub open spec fn is_free(hs: Seq<Hole>, x: int) -> bool {
    exists|i: int| 0 <= i < hs.len() && #[trigger] hs[i].contains(x)
}

/// The sum of the hole sizes.
pub open spec fn total(hs: Seq<Hole>) -> int
    decreases hs.len(),
{
    if hs.len() == 0 {
        0
    } else {
        total(hs.drop_last()) + hs.last().size
    }
}

/// A request size as the free list handles it: at least `MIN_SIZE`, rounded
/// up to a multiple of `HOLE_ALIGN`.
pub open spec fn normalized_size(size: int) -> int {
    align_up_spec(if size < MIN_SIZE { MIN_SIZE as int } else { size }, HOLE_ALIGN as int)
}

/// The normalised size is representable.
pub open spec fn normalizable(size: int) -> bool {
    (if size < MIN_SIZE { MIN_SIZE as int } else { size }) + HOLE_ALIGN - 1 <= usize::MAX
}

/// Where a request of `size` bytes aligned to `align` would start in hole `h`.
pub open spec fn fit_addr(h: Hole, align: int) -> int {
    align_up_spec(h.addr as int, align)
}

/// Hole `h` can serve the request: the aligned region ends inside it, and the
/// padding left in front and behind is either nothing or a valid hole.
pub open spec fn fits(h: Hole, size: int, align: int) -> bool {
    let a = fit_addr(h, align);
    let front = a - h.addr;
    let back = h.end() - (a + size);
    &&& back >= 0
    &&& (front == 0 || front >= MIN_SIZE)
    &&& (back == 0 || back >= MIN_SIZE)
}

/// Hole `i` is the first hole, in address order, that can serve the request.
pub open spec fn is_first_fit(hs: Seq<Hole>, i: int, size: int, align: int) -> bool {
    &&& 0 <= i < hs.len()
    &&& fits(hs[i], size, align)
    &&& forall|j: int| 0 <= j < i ==> !fits(#[trigger] hs[j], size, align)
}

/// Some hole can serve the request.
pub open spec fn has_fit(hs: Seq<Hole>, size: int, align: int) -> bool {
    exists|i: int| 0 <= i < hs.len() && fits(#[trigger] hs[i], size, align)
}

/// What is left of hole `h` once `[p, p + size)` is cut out of it: the part
/// in front of the region and the part behind it, each where it is not empty.
pub open spec fn leftovers(h: Hole, p: int, size: int) -> Seq<Hole> {
    let front = if p > h.addr {
        seq![Hole { addr: h.addr, size: (p - h.addr) as usize }]
    } else {
        Seq::empty()
    };
    let back = if p + size < h.end() {
        seq![Hole { addr: (p + size) as usize, size: (h.end() - (p + size)) as usize }]
    } else {
        Seq::empty()
    };
    front + back
}

/// The hole list after `[p, p + size)` is cut out of hole `i`.
pub open spec fn carve(hs: Seq<Hole>, i: int, p: int, size: int) -> Seq<Hole> {
    hs.take(i) + leftovers(hs[i], p, size) + hs.skip(i + 1)
}

/// What a first-fit allocation of `size` bytes aligned to `align` does to a
/// hole list: it cuts the region starting at `p` out of the first hole that fits.
pub open spec fn carved(pre: Seq<Hole>, post: Seq<Hole>, size: int, align: int, p: int) -> bool {
    exists|i: int|
        #![trigger is_first_fit(pre, i, size, align)]
        is_first_fit(pre, i, size, align) && p == fit_addr(pre[i], align) && post == carve(
            pre,
            i,
            p,
            size,
        )
}

/// `k` is where a hole starting at `a` goes in the sorted list.
pub open spec fn is_insert_pos(hs: Seq<Hole>, a: int, k: int) -> bool {
    &&& 0 <= k <= hs.len()
    &&& forall|j: int| 0 <= j < k ==> #[trigger] hs[j].addr < a
    &&& forall|j: int| k <= j < hs.len() ==> #[trigger] hs[j].addr > a
}

/// The hole list after the region `[a, a + size)` is put back at position `k`,
/// merged with the hole before it and the hole after it where they touch it.
pub open spec fn merge_at(hs: Seq<Hole>, k: int, a: int, size: int) -> Seq<Hole> {
    let with_prev = k > 0 && hs[k - 1].end() == a;
    let with_next = k < hs.len() && a + size == hs[k].addr;
    let start = if with_prev { hs[k - 1].addr as int } else { a };
    let end = if with_next { hs[k].end() } else { a + size };
    let lo = if with_prev { k - 1 } else { k };
    let hi = if with_next { k + 1 } else { k };
    hs.take(lo) + seq![Hole { addr: start as usize, size: (end - start) as usize }] + hs.skip(hi)
}

/// What freeing `[a, a + size)` does to a hole list.
pub open spec fn released(pre: Seq<Hole>, post: Seq<Hole>, a: int, size: int) -> bool {
    exists|k: int|
        #![trigger is_insert_pos(pre, a, k)]
        is_insert_pos(pre, a, k) && post == merge_at(pre, k, a, size)
}

/// The region `[a, a + size)` lies in `[lo, hi)` and no hole meets it: it is
/// memory that the list holds as allocated.
pub open spec fn region_in_use(hs: Seq<Hole>, lo: int, hi: int, a: int, size: int) -> bool {
    &&& lo <= a
    &&& a + size <= hi
    &&& forall|j: int| 0 <= j < hs.len() ==> #[trigger] hs[j].end() <= a || a + size <= hs[j].addr
}

spec fn carve_ok(hs: Seq<Hole>, i: int, p: int, size: int, lo: int, hi: int) -> bool {
    &&& holes_wf(hs, lo, hi)
    &&& 0 <= lo
    &&& hi <= usize::MAX
    &&& 0 <= i < hs.len()
    &&& hs[i].addr <= p
    &&& size >= MIN_SIZE
    &&& p + size <= hs[i].end()
    &&& (p == hs[i].addr || p - hs[i].addr >= MIN_SIZE)
    &&& (p + size == hs[i].end() || hs[i].end() - (p + size) >= MIN_SIZE)
}

proof fn lemma_leftovers(h: Hole, p: int, size: int, hi: int)
    requires
        h.addr <= p,
        size >= MIN_SIZE,
        p + size <= h.end(),
        h.end() <= hi <= usize::MAX,
        p == h.addr || p - h.addr >= MIN_SIZE,
        p + size == h.end() || h.end() - (p + size) >= MIN_SIZE,
    ensures
        ({
            let mid = leftovers(h, p, size);
            &&& mid.len() <= 2
            &&& forall|j: int|
                0 <= j < mid.len() ==> h.addr <= #[trigger] mid[j].addr && mid[j].end() <= h.end()
                    && mid[j].size >= MIN_SIZE && (mid[j].end() <= p || p + size <= mid[j].addr)
            &&& mid.len() == 2 ==> mid[0].end() < mid[1].addr
            &&& forall|x: int| h.contains(x) && x < p ==> mid[0].contains(x)
            &&& forall|x: int| h.contains(x) && x >= p + size ==> mid[mid.len() - 1].contains(x)
            &&& total(mid) == h.size - size
        }),
{
    reveal_with_fuel(total, 3);
    let mid = leftovers(h, p, size);
    if mid.len() == 2 {
        assert(mid.drop_last().drop_last() =~= Seq::<Hole>::empty());
    } else if mid.len() == 1 {
        assert(mid.drop_last() =~= Seq::<Hole>::empty());
    }
}

proof fn lemma_carve_shape(hs: Seq<Hole>, i: int, p: int, size: int, lo: int, hi: int)
    requires
        carve_ok(hs, i, p, size, lo, hi),
    ensures
        ({
            let c = carve(hs, i, p, size);
            let mid = leftovers(hs[i], p, size);
            let m = mid.len() as int;
            &&& c.len() == hs.len() - 1 + m
            &&& forall|j: int| 0 <= j < i ==> c[j] == hs[j]
            &&& forall|j: int| i + m <= j < c.len() ==> c[j] == hs[j - m + 1]
            &&& forall|j: int| i <= j < i + m ==> c[j] == mid[j - i]
        }),
{
    let c = carve(hs, i, p, size);
    let mid = leftovers(hs[i], p, size);
    let m = mid.len() as int;
    assert(c.len() == hs.len() - 1 + m);
    assert forall|j: int| 0 <= j < i implies c[j] == hs[j] by {}
    assert forall|j: int| i + m <= j < c.len() implies c[j] == hs[j - m + 1] by {}
    assert forall|j: int| i <= j < i + m implies c[j] == mid[j - i] by {}
}

proof fn lemma_carve(hs: Seq<Hole>, i: int, p: int, size: int, lo: int, hi: int)
    requires
        carve_ok(hs, i, p, size, lo, hi),
    ensures
        holes_wf(carve(hs, i, p, size), lo, hi),
        forall|x: int|
            is_free(carve(hs, i, p, size), x) <==> (is_free(hs, x) && !(p <= x < p + size)),
        total(carve(hs, i, p, size)) == total(hs) - size,
{
    lemma_carve_wf(hs, i, p, size, lo, hi);
    lemma_carve_free(hs, i, p, size, lo, hi);
    lemma_carve_total(hs, i, p, size, lo, hi);
}

proof fn lemma_carve_wf(hs: Seq<Hole>, i: int, p: int, size: int, lo: int, hi: int)
    requires
        carve_ok(hs, i, p, size, lo, hi),
    ensures
        holes_wf(carve(hs, i, p, size), lo, hi),
{
    let h = hs[i];
    let c = carve(hs, i, p, size);
    let mid = leftovers(h, p, size);
    let m = mid.len() as int;
    lemma_leftovers(h, p, size, hi);
    lemma_carve_shape(hs, i, p, size, lo, hi);
    assert forall|j: int| 0 <= j < c.len() implies lo <= #[trigger] c[j].addr && c[j].end() <= hi
        && c[j].size >= MIN_SIZE by {
        if j < i {
        } else if j < i + m {
            assert(mid[j - i] == c[j]);
        } else {
            assert(c[j] == hs[j - m + 1]);
        }
    }
    assert forall|j1: int, j2: int| 0 <= j1 < j2 < c.len() implies #[trigger] c[j1].end()
        < #[trigger] c[j2].addr by {
        if j1 < i {
            if j2 < i {
                assert(hs[j1].end() < hs[j2].addr);
            } else if j2 < i + m {
                assert(hs[j1].end() < hs[i].addr);
                assert(mid[j2 - i] == c[j2]);
            } else {
                assert(hs[j1].end() < hs[j2 - m + 1].addr);
            }
        } else if j1 < i + m {
            assert(mid[j1 - i] == c[j1]);
            if j2 < i + m {
                assert(mid[j2 - i] == c[j2]);
            } else {
                assert(hs[i].end() < hs[j2 - m + 1].addr);
            }
        } else {
            assert(hs[j1 - m + 1].end() < hs[j2 - m + 1].addr);
        }
    }
}

proof fn lemma_carve_free(hs: Seq<Hole>, i: int, p: int, size: int, lo: int, hi: int)
    requires
        carve_ok(hs, i, p, size, lo, hi),
    ensures
        forall|x: int|
            is_free(carve(hs, i, p, size), x) <==> (is_free(hs, x) && !(p <= x < p + size)),
{
    let h = hs[i];
    let c = carve(hs, i, p, size);
    let mid = leftovers(h, p, size);
    let m = mid.len() as int;
    lemma_leftovers(h, p, size, hi);
    lemma_carve_shape(hs, i, p, size, lo, hi);
    assert forall|x: int| is_free(c, x) implies is_free(hs, x) && !(p <= x < p + size) by {
        let j = choose|j: int| 0 <= j < c.len() && #[trigger] c[j].contains(x);
        if j < i {
            assert(hs[j].end() < hs[i].addr);
            assert(hs[j].contains(x));
        } else if j < i + m {
            assert(mid[j - i] == c[j]);
            assert(hs[i].contains(x));
        } else {
            assert(hs[i].end() < hs[j - m + 1].addr);
            assert(hs[j - m + 1].contains(x));
        }
    }
    assert forall|x: int| is_free(hs, x) && !(p <= x < p + size) implies is_free(c, x) by {
        let j = choose|j: int| 0 <= j < hs.len() && #[trigger] hs[j].contains(x);
        if j < i {
            assert(c[j].contains(x));
        } else if j == i {
            if x < p {
                assert(c[i].contains(x));
            } else {
                assert(c[i + m - 1].contains(x));
            }
        } else {
            assert(c[j + m - 1].contains(x));
        }
    }
}

proof fn lemma_carve_total(hs: Seq<Hole>, i: int, p: int, size: int, lo: int, hi: int)
    requires
        carve_ok(hs, i, p, size, lo, hi),
    ensures
        total(carve(hs, i, p, size)) == total(hs) - size,
{
    let mid = leftovers(hs[i], p, size);
    lemma_leftovers(hs[i], p, size, hi);
    lemma_total_concat(hs.take(i), mid);
    lemma_total_concat(hs.take(i) + mid, hs.skip(i + 1));
    lemma_total_concat(hs.take(i), hs.skip(i));
    assert(hs =~= hs.take(i) + hs.skip(i));
    lemma_total_concat(seq![hs[i]], hs.skip(i + 1));
    assert(hs.skip(i) =~= seq![hs[i]] + hs.skip(i + 1));
    reveal_with_fuel(total, 2);
    assert(seq![hs[i]].drop_last() =~= Seq::<Hole>::empty());
}

spec fn merge_ok(hs: Seq<Hole>, k: int, a: int, size: int, lo: int, hi: int) -> bool {
    &&& holes_wf(hs, lo, hi)
    &&& 0 <= lo
    &&& hi <= usize::MAX
    &&& is_insert_pos(hs, a, k)
    &&& region_in_use(hs, lo, hi, a, size)
    &&& size >= MIN_SIZE
}

/// The hole that `merge_at` puts in place.
spec fn merged_hole(hs: Seq<Hole>, k: int, a: int, size: int) -> Hole {
    merge_at(hs, k, a, size)[merge_lo(hs, k, a)]
}

spec fn merge_lo(hs: Seq<Hole>, k: int, a: int) -> int {
    if k > 0 && hs[k - 1].end() == a { k - 1 } else { k }
}

spec fn merge_hi(hs: Seq<Hole>, k: int, a: int, size: int) -> int {
    if k < hs.len() && a + size == hs[k].addr { k + 1 } else { k }
}

proof fn lemma_merge_shape(hs: Seq<Hole>, k: int, a: int, size: int, lo: int, hi: int)
    requires
        merge_ok(hs, k, a, size, lo, hi),
    ensures
        ({
            let c = merge_at(hs, k, a, size);
            let l = merge_lo(hs, k, a);
            let u = merge_hi(hs, k, a, size);
            let mh = merged_hole(hs, k, a, size);
            &&& 0 <= l <= k <= u <= hs.len()
            &&& c.len() == hs.len() - (u - l) + 1
            &&& forall|j: int| 0 <= j < l ==> c[j] == hs[j]
            &&& forall|j: int| l < j < c.len() ==> c[j] == hs[j + u - l - 1]
            &&& mh.addr == (if l < k { hs[k - 1].addr as int } else { a })
            &&& mh.end() == (if u > k { hs[k].end() } else { a + size })
            &&& forall|j: int| 0 <= j < l ==> hs[j].end() < mh.addr
            &&& forall|j: int| u <= j < hs.len() ==> mh.end() < hs[j].addr
            &&& lo <= mh.addr && mh.end() <= hi && mh.size >= size
        }),
{
    let c = merge_at(hs, k, a, size);
    let l = merge_lo(hs, k, a);
    let u = merge_hi(hs, k, a, size);
    assert(c.len() == hs.len() - (u - l) + 1);
    assert forall|j: int| 0 <= j < l implies c[j] == hs[j] by {}
    assert forall|j: int| l < j < c.len() implies c[j] == hs[j + u - l - 1] by {}
    if k > 0 {
        assert(hs[k - 1].addr < a);
        assert(hs[k - 1].end() <= a);
    }
    if k < hs.len() {
        assert(hs[k].addr > a);
        assert(a + size <= hs[k].addr);
    }
    assert forall|j: int| 0 <= j < l implies hs[j].end() < merged_hole(hs, k, a, size).addr by {
        if j < k - 1 {
            assert(hs[j].end() < hs[k - 1].addr);
        }
    }
    assert forall|j: int| u <= j < hs.len() implies merged_hole(hs, k, a, size).end()
        < hs[j].addr by {
        if j > k {
            assert(hs[k].end() < hs[j].addr);
        }
    }
}

proof fn lemma_merge_wf(hs: Seq<Hole>, k: int, a: int, size: int, lo: int, hi: int)
    requires
        merge_ok(hs, k, a, size, lo, hi),
    ensures
        holes_wf(merge_at(hs, k, a, size), lo, hi),
{
    let c = merge_at(hs, k, a, size);
    let l = merge_lo(hs, k, a);
    let u = merge_hi(hs, k, a, size);
    lemma_merge_shape(hs, k, a, size, lo, hi);
    assert forall|j: int| 0 <= j < c.len() implies lo <= #[trigger] c[j].addr && c[j].end() <= hi
        && c[j].size >= MIN_SIZE by {
        if j > l {
            assert(c[j] == hs[j + u - l - 1]);
        }
    }
    assert forall|j1: int, j2: int| 0 <= j1 < j2 < c.len() implies #[trigger] c[j1].end()
        < #[trigger] c[j2].addr by {
        if j1 < l {
            if j2 < l {
                assert(hs[j1].end() < hs[j2].addr);
            } else if j2 > l {
                assert(c[j2] == hs[j2 + u - l - 1]);
                assert(hs[j1].end() < hs[j2 + u - l - 1].addr);
            }
        } else if j1 == l {
            assert(c[j2] == hs[j2 + u - l - 1]);
        } else {
            assert(c[j1] == hs[j1 + u - l - 1]);
            assert(c[j2] == hs[j2 + u - l - 1]);
            assert(hs[j1 + u - l - 1].end() < hs[j2 + u - l - 1].addr);
        }
    }
}

proof fn lemma_merge_free(hs: Seq<Hole>, k: int, a: int, size: int, lo: int, hi: int)
    requires
        merge_ok(hs, k, a, size, lo, hi),
    ensures
        forall|x: int|
            #![trigger is_free(merge_at(hs, k, a, size), x)]
            #![trigger is_free(hs, x)]
            is_free(merge_at(hs, k, a, size), x) <==> (is_free(hs, x) || a <= x < a + size),
{
    let c = merge_at(hs, k, a, size);
    let l = merge_lo(hs, k, a);
    let u = merge_hi(hs, k, a, size);
    lemma_merge_shape(hs, k, a, size, lo, hi);
    assert forall|x: int| is_free(c, x) implies is_free(hs, x) || a <= x < a + size by {
        let j = choose|j: int| 0 <= j < c.len() && #[trigger] c[j].contains(x);
        if j < l {
            assert(hs[j].contains(x));
        } else if j == l {
            if x < a {
                assert(hs[k - 1].contains(x));
            } else if x >= a + size {
                assert(hs[k].contains(x));
            }
        } else {
            assert(c[j] == hs[j + u - l - 1]);
            assert(hs[j + u - l - 1].contains(x));
        }
    }
    assert forall|x: int| is_free(hs, x) || a <= x < a + size implies is_free(c, x) by {
        if a <= x < a + size {
            assert(c[l].contains(x));
        } else {
            let j = choose|j: int| 0 <= j < hs.len() && #[trigger] hs[j].contains(x);
            if j < l {
                assert(c[j].contains(x));
            } else if j < u {
                assert(c[l].contains(x));
            } else {
                assert(c[j - u + l + 1] == hs[j]);
                assert(c[j - u + l + 1].contains(x));
            }
        }
    }
}

proof fn lemma_merge_total(hs: Seq<Hole>, k: int, a: int, size: int, lo: int, hi: int)
    requires
        merge_ok(hs, k, a, size, lo, hi),
    ensures
        total(merge_at(hs, k, a, size)) == total(hs) + size,
{
    let l = merge_lo(hs, k, a);
    let u = merge_hi(hs, k, a, size);
    let mh = merged_hole(hs, k, a, size);
    lemma_merge_shape(hs, k, a, size, lo, hi);
    let mid = hs.subrange(l, u);
    assert(merge_at(hs, k, a, size) =~= hs.take(l) + seq![mh] + hs.skip(u));
    assert(hs =~= hs.take(l) + mid + hs.skip(u));
    lemma_total_concat(hs.take(l), seq![mh]);
    lemma_total_concat(hs.take(l) + seq![mh], hs.skip(u));
    lemma_total_concat(hs.take(l), mid);
    lemma_total_concat(hs.take(l) + mid, hs.skip(u));
    reveal_with_fuel(total, 3);
    assert(seq![mh].drop_last() =~= Seq::<Hole>::empty());
    if u - l == 2 {
        assert(mid.drop_last().drop_last() =~= Seq::<Hole>::empty());
    } else if u - l == 1 {
        assert(mid.drop_last() =~= Seq::<Hole>::empty());
    }
}

proof fn lemma_merge(hs: Seq<Hole>, k: int, a: int, size: int, lo: int, hi: int)
    requires
        merge_ok(hs, k, a, size, lo, hi),
    ensures
        holes_wf(merge_at(hs, k, a, size), lo, hi),
        forall|x: int|
            #![trigger is_free(merge_at(hs, k, a, size), x)]
            #![trigger is_free(hs, x)]
            is_free(merge_at(hs, k, a, size), x) <==> (is_free(hs, x) || a <= x < a + size),
        total(merge_at(hs, k, a, size)) == total(hs) + size,
{
    lemma_merge_wf(hs, k, a, size, lo, hi);
    lemma_merge_free(hs, k, a, size, lo, hi);
    lemma_merge_total(hs, k, a, size, lo, hi);
}

/// The total of a concatenation is the sum of the totals.
pub proof fn lemma_total_concat(a: Seq<Hole>, b: Seq<Hole>)
    ensures
        total(a + b) == total(a) + total(b),
    decreases b.len(),
{
    if b.len() == 0 {
        assert(a + b =~= a);
    } else {
        lemma_total_concat(a, b.drop_last());
        assert((a + b).drop_last() =~= a + b.drop_last());
    }
}

/// The holes of a well-formed list add up to no more than the range they lie in,
/// and to less when there are two holes or more.
pub proof fn lemma_total_bound(hs: Seq<Hole>, lo: int, hi: int)
    requires
        holes_wf(hs, lo, hi),
        lo <= hi,
    ensures
        total(hs) <= hi - lo,
        hs.len() >= 1 ==> total(hs) <= hs.last().end() - lo,
        hs.len() >= 2 ==> total(hs) < hi - lo,
        hs.len() >= 1 ==> total(hs) >= MIN_SIZE,
    decreases hs.len(),
{
    if hs.len() > 0 {
        let last = hs.last();
        let rest = hs.drop_last();
        assert(last == hs[hs.len() - 1]);
        assert forall|j1: int, j2: int| 0 <= j1 < j2 < rest.len() implies #[trigger] rest[j1].end()
            < #[trigger] rest[j2].addr by {
            assert(hs[j1] == rest[j1] && hs[j2] == rest[j2]);
        }
        assert forall|j: int| 0 <= j < rest.len() implies lo <= #[trigger] rest[j].addr
            && rest[j].end() <= last.addr && rest[j].size >= MIN_SIZE by {
            assert(hs[j] == rest[j]);
            assert(hs[j].end() < hs[hs.len() - 1].addr);
        }
        lemma_total_bound(rest, lo, last.addr as int);
        if rest.len() >= 1 {
            assert(rest.last() == hs[hs.len() - 2]);
            assert(hs[hs.len() - 2].end() < hs[hs.len() - 1].addr);
        }
    }
}

/// Looking at the two holes around the insertion point decides whether a
/// region meets no hole.
proof fn lemma_insert_check(hs: Seq<Hole>, lo: int, hi: int, a: int, size: int, k: int)
    requires
        holes_wf(hs, lo, hi),
        lo <= a,
        a + size <= hi,
        size >= MIN_SIZE,
        0 <= k <= hs.len(),
        forall|j: int| 0 <= j < k ==> #[trigger] hs[j].addr < a,
        k < hs.len() ==> hs[k].addr >= a,
    ensures
        ((k == 0 || hs[k - 1].end() <= a) && (k == hs.len() || a + size <= hs[k].addr)) == region_in_use(
            hs,
            lo,
            hi,
            a,
            size,
        ),
        region_in_use(hs, lo, hi, a, size) ==> is_insert_pos(hs, a, k),
{
    assert forall|j: int| k <= j < hs.len() implies #[trigger] hs[j].addr >= a by {
        if j > k {
            assert(hs[k].end() < hs[j].addr);
        }
    }
    if (k == 0 || hs[k - 1].end() <= a) && (k == hs.len() || a + size <= hs[k].addr) {
        assert forall|j: int| 0 <= j < hs.len() implies #[trigger] hs[j].end() <= a || a + size
            <= hs[j].addr by {
            if j < k - 1 {
                assert(hs[j].end() < hs[k - 1].addr);
            } else if j > k {
                assert(hs[k].end() < hs[j].addr);
            }
        }
    }
    if region_in_use(hs, lo, hi, a, size) {
        if k > 0 {
            assert(hs[k - 1].end() <= a || a + size <= hs[k - 1].addr);
        }
        if k < hs.len() {
            assert(hs[k].end() <= a || a + size <= hs[k].addr);
        }
        assert forall|j: int| k <= j < hs.len() implies #[trigger] hs[j].addr > a by {
            assert(hs[j].end() <= a || a + size <= hs[j].addr);
        }
    }
}

/// Why a heap block could not serve a request.
#[derive(Clone, Copy, Debug, PartialEq, Eq, Structural)]
pub enum FitError {
    /// No hole of the block can hold the request.
    Exhausted,
    /// The normalised request size does not fit in a `usize`.
    Overflow,
}

/// Rounds a request size up to what the free list tracks, or `None` on overflow.
pub fn normalize(size: usize) -> (r: Option<usize>)
    ensures
        r == (if normalizable(size as int) {
            Some(normalized_size(size as int) as usize)
        } else {
            None::<usize>
        }),
        r matches Some(n) ==> n >= MIN_SIZE && n >= size && n % HOLE_ALIGN == 0,
{
    let s: usize = if size < MIN_SIZE {
        MIN_SIZE
    } else {
        size
    };
    if s > usize::MAX - (HOLE_ALIGN - 1) {
        None
    } else {
        proof {
            reveal_with_fuel(is_pow2, 4);
        }
        Some(align_up(s, HOLE_ALIGN))
    }
}

/// Where hole `h` would serve the request, or `None` when it cannot.
fn fit_at(h: Hole, size: usize, align: usize) -> (r: Option<usize>)
    requires
        is_pow2(align as int),
        h.end() <= usize::MAX,
    ensures
        r == (if fits(h, size as int, align as int) {
            Some(fit_addr(h, align as int) as usize)
        } else {
            None::<usize>
        }),
{
    proof {
        reveal_with_fuel(is_pow2, 1);
        lemma_align_up_via_down(h.addr as int, align as int);
    }
    let rem = h.addr % align;
    let a = if rem == 0 {
        h.addr
    } else {
        let pad = align - rem;
        if h.addr > usize::MAX - pad {
            return None;
        }
        h.addr + pad
    };
    let end = h.addr + h.size;
    if a > end || size > end - a {
        return None;
    }
    let front = a - h.addr;
    let back = end - a - size;
    if (front == 0 || front >= MIN_SIZE) && (back == 0 || back >= MIN_SIZE) {
        Some(a)
    } else {
        None
    }
}

/// What a successful first-fit allocation of `size` bytes aligned to `align`
/// at `p` does to a block: the region lay in free memory inside the block, was
/// cut out of the first hole that fits, and is now counted as handed out.
pub open spec fn block_took(pre: HeapBlock, post: HeapBlock, size: int, align: int, p: int) -> bool {
    let hs = pre.spec_holes();
    let ns = post.spec_holes();
    &&& post.wf()
    &&& post.spec_base() == pre.spec_base()
    &&& post.spec_capacity() == pre.spec_capacity()
    &&& carved(hs, ns, size, align, p)
    &&& p % align == 0
    &&& pre.contains(p)
    &&& p + size <= pre.end()
    &&& forall|x: int| p <= x < p + size ==> is_free(hs, x)
    &&& forall|x: int|
        #![trigger is_free(ns, x)]
        #![trigger is_free(hs, x)]
        is_free(ns, x) <==> (is_free(hs, x) && !(p <= x < p + size))
    &&& post.spec_in_use() == pre.spec_in_use() + size
}

/// What freeing `[a, a + size)` does to a block: the region becomes free,
/// merged with the holes it touches, and is no longer counted as handed out.
pub open spec fn block_gave_back(pre: HeapBlock, post: HeapBlock, a: int, size: int) -> bool {
    let hs = pre.spec_holes();
    let ns = post.spec_holes();
    &&& post.wf()
    &&& post.spec_base() == pre.spec_base()
    &&& post.spec_capacity() == pre.spec_capacity()
    &&& released(hs, ns, a, size)
    &&& forall|x: int|
        #![trigger is_free(ns, x)]
        #![trigger is_free(hs, x)]
        is_free(ns, x) <==> (is_free(hs, x) || a <= x < a + size)
    &&& post.spec_in_use() == pre.spec_in_use() - size
}

/// One region obtained from the backing allocator, with the free list that
/// serves small requests inside it.
pub struct HeapBlock {
    base: usize,
    capacity: usize,
    holes: Vec<Hole>,
    /// The bytes currently handed out from this block.
    in_use: Ghost<int>,
}

impl HeapBlock {
    pub closed spec fn spec_base(&self) -> int {
        self.base as int
    }

    pub closed spec fn spec_capacity(&self) -> int {
        self.capacity as int
    }

    pub closed spec fn spec_holes(&self) -> Seq<Hole> {
        self.holes@
    }

    /// The bytes of the block that are currently handed out.
    pub closed spec fn spec_in_use(&self) -> int {
        self.in_use@
    }

    pub open spec fn end(&self) -> int {
        self.spec_base() + self.spec_capacity()
    }

    /// Address `x` belongs to the block's region.
    pub open spec fn contains(&self, x: int) -> bool {
        self.spec_base() <= x < self.end()
    }

    /// The block is well formed: its region is representable and can hold a
    /// hole, its hole list is well formed inside it, and the holes plus the
    /// bytes handed out make up the whole region.
    pub open spec fn wf(&self) -> bool {
        &&& self.spec_base() >= 0
        &&& self.spec_capacity() >= MIN_SIZE
        &&& self.end() <= usize::MAX
        &&& holes_wf(self.spec_holes(), self.spec_base(), self.end())
        &&& total(self.spec_holes()) + self.spec_in_use() == self.spec_capacity()
    }

    /// Nothing is handed out: the block is one hole spanning its region.
    pub open spec fn spec_is_empty(&self) -> bool {
        self.spec_holes() == seq![
            Hole { addr: self.spec_base() as usize, size: self.spec_capacity() as usize },
        ]
    }

    /// A block over `[base, base + capacity)` with the whole region free.
    pub fn new(base: usize, capacity: usize) -> (r: Self)
        requires
            capacity >= MIN_SIZE,
            base + capacity <= usize::MAX,
        ensures
            r.wf(),
            r.spec_base() == base,
            r.spec_capacity() == capacity,
            r.spec_is_empty(),
            r.spec_in_use() == 0,
    {
        let mut holes: Vec<Hole> = Vec::new();
        holes.push(Hole { addr: base, size: capacity });
        let r = HeapBlock { base, capacity, holes, in_use: Ghost(0) };
        proof {
            reveal_with_fuel(total, 2);
            assert(r.holes@.drop_last() =~= Seq::<Hole>::empty());
        }
        r
    }

    /// The smallest allocation the free list can track.
    pub fn min_size() -> (r: usize)
        ensures
            r == MIN_SIZE,
    {
        MIN_SIZE
    }

    pub fn base(&self) -> (r: usize)
        ensures
            r == self.spec_base(),
    {
        self.base
    }

    pub fn capacity(&self) -> (r: usize)
        ensures
            r == self.spec_capacity(),
    {
        self.capacity
    }

    /// The free regions of the block, by increasing address.
    pub fn holes(&self) -> (r: &Vec<Hole>)
        ensures
            r@ == self.spec_holes(),
    {
        &self.holes
    }

    /// Whether address `addr` belongs to the block's region.
    pub fn contains_addr(&self, addr: usize) -> (r: bool)
        ensures
            r == self.contains(addr as int),
    {
        self.base <= addr && addr - self.base < self.capacity
    }

    /// Whether nothing is handed out from the block.
    pub fn is_empty(&self) -> (r: bool)
        ensures
            r == self.spec_is_empty(),
    {
        let r = self.holes.len() == 1 && self.holes[0].addr == self.base && self.holes[0].size
            == self.capacity;
        proof {
            if r {
                assert(self.holes@ =~= seq![
                    Hole { addr: self.spec_base() as usize, size: self.spec_capacity() as usize },
                ]);
            }
        }
        r
    }

    /// A well-formed block is one maximal hole exactly when nothing is handed out.
    pub proof fn lemma_empty_iff_unused(&self)
        requires
            self.wf(),
        ensures
            self.spec_is_empty() <==> self.spec_in_use() == 0,
    {
        let hs = self.spec_holes();
        lemma_total_bound(hs, self.spec_base(), self.end());
        if self.spec_in_use() == 0 {
            reveal_with_fuel(total, 2);
            assert(hs.len() == 1);
            assert(hs.drop_last() =~= Seq::<Hole>::empty());
            assert(hs =~= seq![
                Hole { addr: self.spec_base() as usize, size: self.spec_capacity() as usize },
            ]);
        }
        if self.spec_is_empty() {
            reveal_with_fuel(total, 2);
            assert(hs.drop_last() =~= Seq::<Hole>::empty());
        }
    }

    /// First-fit allocation inside the block.
    ///
    /// The request size is first normalised (`normalized_size`). The holes are
    /// tried in address order; the first one that fits gives the region
    /// `[p, p + normalized_size)`, with `p` the first suitably aligned address in
    /// it, and is replaced by what is left of it in front and behind.
    pub fn allocate_first_fit(&mut self, layout: Layout) -> (r: Result<usize, FitError>)
        requires
            old(self).wf(),
            layout.wf(),
        ensures
            final(self).wf(),
            ({
                let ns = normalized_size(layout.size as int);
                match r {
                    Ok(p) => {
                        &&& normalizable(layout.size as int)
                        &&& block_took(*old(self), *final(self), ns, layout.align as int, p as int)
                    },
                    Err(FitError::Overflow) => {
                        &&& !normalizable(layout.size as int)
                        &&& *final(self) == *old(self)
                    },
                    Err(FitError::Exhausted) => {
                        &&& normalizable(layout.size as int)
                        &&& !has_fit(old(self).spec_holes(), ns, layout.align as int)
                        &&& *final(self) == *old(self)
                    },
                }
            }),
    {
        let ns = match normalize(layout.size) {
            Some(n) => n,
            None => return Err(FitError::Overflow),
        };
        let ghost pre = self.holes@;
        let ghost lo = self.base as int;
        let ghost hi = self.base + self.capacity;
        let mut i: usize = 0;
        while i < self.holes.len()
            invariant
                self.wf(),
                *self == *old(self),
                self.holes@ == pre,
                lo == self.base,
                hi == self.base + self.capacity,
                ns == normalized_size(layout.size as int),
                ns >= MIN_SIZE,
                layout.wf(),
                0 <= i <= pre.len(),
                forall|j: int| 0 <= j < i ==> !fits(#[trigger] pre[j], ns as int, layout.align as int),
            decreases pre.len() - i,
        {
            let h = self.holes[i];
            match fit_at(h, ns, layout.align) {
                Some(p) => {
                    proof {
                        lemma_align_up_via_down(h.addr as int, layout.align as int);
                        reveal_with_fuel(is_pow2, 1);
                    }
                    let front = p - h.addr;
                    let back_start = p + ns;
                    let back = h.addr + h.size - back_start;
                    if front > 0 && back > 0 {
                        self.holes.set(i, Hole { addr: h.addr, size: front });
                        self.holes.insert(i + 1, Hole { addr: back_start, size: back });
                    } else if front > 0 {
                        self.holes.set(i, Hole { addr: h.addr, size: front });
                    } else if back > 0 {
                        self.holes.set(i, Hole { addr: back_start, size: back });
                    } else {
                        self.holes.remove(i);
                    }
                    proof {
                        assert(self.holes@ =~= carve(pre, i as int, p as int, ns as int));
                        assert(carve_ok(pre, i as int, p as int, ns as int, lo, hi));
                        lemma_carve(pre, i as int, p as int, ns as int, lo, hi);
                        assert(is_first_fit(pre, i as int, ns as int, layout.align as int));
                        self.in_use@ = self.in_use@ + ns;
                        assert forall|x: int| p <= x < p + ns implies is_free(pre, x) by {
                            assert(pre[i as int].contains(x));
                        }
                    }
                    return Ok(p);
                },
                None => {},
            }
            i = i + 1;
        }
        Err(FitError::Exhausted)
    }

    /// Frees `[addr, addr + normalized_size(size))`, merging it with the holes
    /// it touches.
    ///
    /// The region is accepted only where it lies inside the block and meets no
    /// hole; otherwise nothing changes and the result is `false`.
    pub fn deallocate(&mut self, addr: usize, size: usize) -> (r: bool)
        requires
            old(self).wf(),
        ensures
            final(self).wf(),
            final(self).spec_base() == old(self).spec_base(),
            final(self).spec_capacity() == old(self).spec_capacity(),
            r == (normalizable(size as int) && region_in_use(
                old(self).spec_holes(),
                old(self).spec_base(),
                old(self).end(),
                addr as int,
                normalized_size(size as int),
            )),
            r ==> block_gave_back(*old(self), *final(self), addr as int, normalized_size(size as int)),
            !r ==> *final(self) == *old(self),
    {
        let ns = match normalize(size) {
            Some(n) => n,
            None => return false,
        };
        let ghost pre = self.holes@;
        let ghost lo = self.base as int;
        let ghost hi = self.base + self.capacity;
        if addr < self.base || ns > self.capacity || addr - self.base > self.capacity - ns {
            return false;
        }
        let mut k: usize = 0;
        while k < self.holes.len() && self.holes[k].addr < addr
            invariant
                self.wf(),
                *self == *old(self),
                self.holes@ == pre,
                0 <= k <= pre.len(),
                forall|j: int| 0 <= j < k ==> #[trigger] pre[j].addr < addr,
            decreases pre.len() - k,
        {
            k = k + 1;
        }
        let len = self.holes.len();
        let prev_ok = k == 0 || self.holes[k - 1].addr + self.holes[k - 1].size <= addr;
        let next_ok = k == len || addr + ns <= self.holes[k].addr;
        proof {
            lemma_insert_check(pre, lo, hi, addr as int, ns as int, k as int);
        }
        if !(prev_ok && next_ok) {
            return false;
        }
        self.put_back(k, addr, ns);
        proof {
            assert(merge_ok(pre, k as int, addr as int, ns as int, lo, hi));
            lemma_merge(pre, k as int, addr as int, ns as int, lo, hi);
            lemma_total_bound(self.holes@, lo, hi);
            self.in_use@ = self.in_use@ - ns;
        }
        true
    }

    /// Puts the region `[addr, addr + size)` back into the hole list at
    /// position `k`, merging it with the neighbours it touches.
    fn put_back(&mut self, k: usize, addr: usize, size: usize)
        requires
            old(self).wf(),
            merge_ok(
                old(self).spec_holes(),
                k as int,
                addr as int,
                size as int,
                old(self).spec_base(),
                old(self).end(),
            ),
        ensures
            final(self).spec_holes() == merge_at(
                old(self).spec_holes(),
                k as int,
                addr as int,
                size as int,
            ),
            final(self).spec_base() == old(self).spec_base(),
            final(self).spec_capacity() == old(self).spec_capacity(),
            final(self).spec_in_use() == old(self).spec_in_use(),
    {
        let ghost pre = self.holes@;
        let len = self.holes.len();
        proof {
            if k > 0 {
                assert(pre[k - 1].addr < addr);
            }
            if k < len {
                assert(pre[k as int].addr > addr);
            }
        }
        let with_prev = k > 0 && self.holes[k - 1].addr + self.holes[k - 1].size == addr;
        let with_next = k < len && addr + size == self.holes[k].addr;
        if with_prev && with_next {
            let start = self.holes[k - 1].addr;
            let end = self.holes[k].addr + self.holes[k].size;
            self.holes.set(k - 1, Hole { addr: start, size: end - start });
            self.holes.remove(k);
        } else if with_prev {
            let start = self.holes[k - 1].addr;
            self.holes.set(k - 1, Hole { addr: start, size: addr + size - start });
        } else if with_next {
            let end = self.holes[k].addr + self.holes[k].size;
            self.holes.set(k, Hole { addr, size: end - addr });
        } else {
            self.holes.insert(k, Hole { addr, size });
        }
        assert(self.holes@ =~= merge_at(pre, k as int, addr as int, size as int));
    }
}

} // verus!