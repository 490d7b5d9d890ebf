//! The shape of the pool of free blocks, and the lemmas about it.
use vstd::prelude::*;
use crate::block::{Block, aligner_spec};

verus! {

/// Two neighbouring entries are in order: an empty entry sits at the address
/// of its right neighbour, a non-empty one ends strictly before it.
pub open spec fn linked(a: Block, b: Block) -> bool {
    if a.size == 0 {
        a.start == b.start
    } else {
        a.end_spec() < b.start
    }
}

/// The pool's shape: sorted by address, free spans neither overlapping nor
/// adjacent, empty entries only as placeholders before their right
/// neighbour, and no trailing empty entry.
pub open spec fn pool_wf(p: Seq<Block>) -> bool {
    &&& forall|i: int| 0 <= i < p.len() ==> (#[trigger] p[i]).wf()
    &&& forall|i: int| 0 <= i < p.len() - 1 ==> #[trigger] linked(p[i], p[i + 1])
    &&& p.len() > 0 ==> p.last().size > 0
}

/// No free span of the pool shares an address with `x`.
pub open spec fn avoids(p: Seq<Block>, x: Block) -> bool {
    forall|i: int| 0 <= i < p.len() && (#[trigger] p[i]).size > 0 ==> p[i].disjoint(x)
}

/// The address past the pool's last free span, or zero for an empty pool.
pub open spec fn pool_top(p: Seq<Block>) -> int {
    if p.len() == 0 {
        0
    } else {
        p.last().end_spec()
    }
}

/// Some entry of the pool `p` holds all of `b`.
pub open spec fn tracks(p: Seq<Block>, b: Block) -> bool {
    exists|i: int| 0 <= i < p.len() && b.within(#[trigger] p[i])
}

/// Every non-empty span outside the pool `a` and outside `b` is outside the pool `c`.
pub open spec fn keeps_out(a: Seq<Block>, c: Seq<Block>, b: Block) -> bool {
    forall|x: Block| x.size > 0 && avoids(a, x) && x.disjoint(b) ==> #[trigger] avoids(c, x)
}

/// Every non-empty span that some entry of `a` holds, some entry of `c` holds.
pub open spec fn retains(a: Seq<Block>, c: Seq<Block>) -> bool {
    forall|b: Block| b.size > 0 && tracks(a, b) ==> #[trigger] tracks(c, b)
}

/// Every non-empty span that `a` holds and that shares no address with
/// `res`, `c` holds.
pub open spec fn retains_apart(a: Seq<Block>, c: Seq<Block>, res: Block) -> bool {
    forall|x: Block| x.size > 0 && tracks(a, x) && x.disjoint(res) ==> #[trigger] tracks(c, x)
}

/// `c` is the pool `a` with `block` inserted at `ind`, the entries from
/// `ind` up to the first placeholder at or after it moved one place right,
/// over that placeholder; with no such placeholder the pool grew by one.
pub open spec fn shifted_at(a: Seq<Block>, c: Seq<Block>, ind: int, block: Block, k: int) -> bool {
    &&& ind <= k <= a.len()
    &&& forall|j: int| ind <= j < k ==> (#[trigger] a[j]).size > 0
    &&& k < a.len() ==> a[k].size == 0
    &&& c.len() == if k < a.len() { a.len() as int } else { a.len() + 1 as int }
    &&& forall|i: int| 0 <= i < c.len() ==> #[trigger] c[i] == if i < ind {
        a[i]
    } else if i == ind {
        block
    } else if i <= k {
        a[i - 1]
    } else {
        a[i]
    }
}

/// `shifted_at` for the first placeholder at or after `ind`, whichever it is.
pub open spec fn shifted(a: Seq<Block>, c: Seq<Block>, ind: int, block: Block) -> bool {
    exists|k: int| shifted_at(a, c, ind, block, k)
}

/// `c` is the pool `a` with entry `ind` taken out: the last entry is cut off
/// with the placeholders before it, another one becomes a placeholder, as do
/// the placeholders just before it; every other entry stays.
pub open spec fn removed(a: Seq<Block>, c: Seq<Block>, ind: int) -> bool {
    if ind == a.len() - 1 {
        &&& c.len() <= ind
        &&& c == a.subrange(0, c.len() as int)
        &&& forall|j: int| c.len() <= j < ind ==> (#[trigger] a[j]).size == 0
    } else {
        &&& c.len() == a.len()
        &&& forall|i: int| ind < i < a.len() ==> #[trigger] c[i] == a[i]
        &&& c[ind] == (Block { start: a[ind + 1].start, size: 0 })
        &&& forall|i: int| 0 <= i < ind && #[trigger] c[i] != a[i] ==> a[i].size == 0 && c[i] == c[ind]
        &&& forall|i: int| 0 <= i < ind && (#[trigger] a[i]).size == 0 && a[i].start == a[ind].start ==> c[i] == c[ind]
    }
}

/// `(l, r)` is the merge range of `b` in the pool `p`: everything before `l`
/// ends at or before `b`, everything from `r` on starts at or after its end,
/// and between them stand only placeholders at the address of entry `r`.
pub open spec fn bound_of(p: Seq<Block>, b: Block, l: int, r: int) -> bool {
    &&& 0 <= l <= r <= p.len()
    &&& forall|k: int| 0 <= k < l ==> (#[trigger] p[k]).end_spec() <= b.start
    &&& forall|k: int| r <= k < p.len() ==> (#[trigger] p[k]).start >= b.end_spec()
    &&& forall|k: int| l <= k < r ==> (#[trigger] p[k]).size == 0
    &&& l < r ==> r < p.len()
    &&& forall|k: int| l <= k < r ==> (#[trigger] p[k]).start == p[r].start
    &&& l > 0 ==> p[l - 1].size > 0
    &&& r < p.len() ==> p[r].size > 0
}

/// The entry `e` can serve `size` bytes aligned to `align`.
pub open spec fn fits(e: Block, size: int, align: usize) -> bool {
    aligner_spec(e.start, align) + size <= e.size
}

/// Some entry of the pool can serve the request.
pub open spec fn has_fit(p: Seq<Block>, size: int, align: usize) -> bool {
    exists|i: int| 0 <= i < p.len() && fits(#[trigger] p[i], size, align)
}

/// The lowest index whose entry can serve the request.
pub open spec fn first_fit(p: Seq<Block>, size: int, align: usize) -> int {
    choose|i: int| 0 <= i < p.len() && fits(p[i], size, align) && forall|j: int| 0 <= j < i ==> !fits(#[trigger] p[j], size, align)
}

/// Where an entry serves a request aligned to `align`: its first aligned address.
pub open spec fn fit_start(e: Block, align: usize) -> int {
    e.start + aligner_spec(e.start, align)
}

/// The free span that starts where `b` ends can grow `b` to `new_size` bytes.
pub open spec fn grows_into(p: Seq<Block>, b: Block, new_size: int) -> bool {
    exists|i: int| 0 <= i < p.len() && (#[trigger] p[i]).size > 0 && b.left_to_spec(p[i]) && b.size + p[i].size >= new_size
}

/// An earlier entry ends no later than a later one starts, strictly when it is non-empty.
pub proof fn lemma_ordered(p: Seq<Block>, i: int, j: int)
    requires
        pool_wf(p),
        0 <= i < j < p.len(),
    ensures
        p[i].end_spec() <= p[j].start,
        p[i].size > 0 ==> p[i].end_spec() < p[j].start,
    decreases j - i,
{
    assert(linked(p[i], p[i + 1]));
    if j > i + 1 {
        lemma_ordered(p, i + 1, j);
    }
}

/// An empty entry stands at the address of a later non-empty entry.
pub proof fn lemma_empty_chain(p: Seq<Block>, i: int) -> (j: int)
    requires
        pool_wf(p),
        0 <= i < p.len(),
        p[i].size == 0,
    ensures
        i < j < p.len(),
        p[j].size > 0,
        p[j].start == p[i].start,
    decreases p.len() - i,
{
    assert(linked(p[i], p[i + 1]));
    if p[i + 1].size > 0 {
        i + 1
    } else {
        lemma_empty_chain(p, i + 1)
    }
}

/// Every entry ends at or below the pool's top.
pub proof fn lemma_below_top(p: Seq<Block>, i: int)
    requires
        pool_wf(p),
        0 <= i < p.len(),
    ensures
        p[i].end_spec() <= pool_top(p),
        p[i].start <= pool_top(p),
{
    if i < p.len() - 1 {
        lemma_ordered(p, i, p.len() - 1);
    }
}

/// A span that avoids the pool's non-empty entries avoids its placeholders too.
pub proof fn lemma_avoids_empty(p: Seq<Block>, x: Block, i: int)
    requires
        pool_wf(p),
        avoids(p, x),
        x.size > 0,
        0 <= i < p.len(),
    ensures
        p[i].start < x.start || p[i].start >= x.end_spec(),
        p[i].disjoint(x),
{
    if p[i].size == 0 {
        let j = lemma_empty_chain(p, i);
        assert(p[j].disjoint(x));
    } else {
        assert(p[i].disjoint(x));
    }
}

/// An entry that was inserted is tracked.
pub proof fn lemma_tracks_inserted(p: Seq<Block>, b: Block, i: int)
    requires
        0 <= i < p.len(),
        p[i] == b,
    ensures
        tracks(p, b),
{
    assert(b.within(p[i]));
}

/// Taking an entry out of a pool keeps every span outside it outside.
pub proof fn lemma_removed_avoids(a: Seq<Block>, c: Seq<Block>, ind: int)
    requires
        0 <= ind < a.len(),
        removed(a, c, ind),
    ensures
        forall|x: Block| #[trigger] avoids(a, x) ==> avoids(c, x),
{
    assert forall|x: Block| #[trigger] avoids(a, x) implies avoids(c, x) by {
        assert forall|i: int| 0 <= i < c.len() && (#[trigger] c[i]).size > 0 implies c[i].disjoint(x) by {
            if ind == a.len() - 1 {
                assert(c[i] == a[i]);
            } else if c[i] != a[i] {
                if i < ind {
                    assert(c[i] == c[ind]);
                }
            }
            assert(a[i].size > 0);
        }
    }
}

/// A non-empty entry other than the one taken out keeps its index.
pub proof fn lemma_removed_keeps(a: Seq<Block>, c: Seq<Block>, ind: int, i: int)
    requires
        0 <= ind < a.len(),
        removed(a, c, ind),
        0 <= i < a.len(),
        i != ind,
        a[i].size > 0,
    ensures
        i < c.len(),
        c[i] == a[i],
{
    if ind == a.len() - 1 {
        if i >= c.len() {
            assert(a[i].size == 0);
        }
    } else if c[i] != a[i] {
        if i < ind {
            assert(c[i] == c[ind]);
        }
    }
}

/// An index that fits with none before it is the first fit.
pub proof fn lemma_first_fit(p: Seq<Block>, size: int, align: usize, n: int)
    requires
        0 <= n < p.len(),
        fits(p[n], size, align),
        forall|j: int| 0 <= j < n ==> !fits(#[trigger] p[j], size, align),
    ensures
        first_fit(p, size, align) == n,
{
    let f = first_fit(p, size, align);
    assert(0 <= f < p.len() && fits(p[f], size, align) && forall|j: int| 0 <= j < f ==> !fits(#[trigger] p[j], size, align));
    if f < n {
        assert(!fits(p[f], size, align));
    } else if f > n {
        assert(!fits(p[n], size, align));
    }
}

/// A span outside the pool is outside it everywhere in its merge range.
pub proof fn lemma_bound_avoids(p: Seq<Block>, b: Block, l: int, r: int)
    requires
        bound_of(p, b, l, r),
    ensures
        avoids(p, b),
{
    assert forall|i: int| 0 <= i < p.len() && (#[trigger] p[i]).size > 0 implies p[i].disjoint(b) by {}
}

/// A growth of the pool keeps a free span after `b` that could grow it.
pub proof fn lemma_grows_into_kept(a: Seq<Block>, c: Seq<Block>, b: Block, new_size: int)
    requires
        retains(a, c),
        avoids(c, b),
        b.size > 0,
    ensures
        grows_into(a, b, new_size) ==> grows_into(c, b, new_size),
{
    if grows_into(a, b, new_size) {
        let i = choose|i: int| 0 <= i < a.len() && (#[trigger] a[i]).size > 0 && b.left_to_spec(a[i]) && b.size + a[i].size >= new_size;
        assert(a[i].within(a[i]));
        assert(tracks(a, a[i]));
        assert(tracks(c, a[i]));
        let j = choose|j: int| 0 <= j < c.len() && a[i].within(#[trigger] c[j]);
        assert(c[j].disjoint(b));
        assert(c[j].size > 0);
    }
}

} // verus!
