//! The pool of free blocks and the allocation algorithms on it.
use vstd::prelude::*;
use crate::block::{Block, aligner, aligner_spec};
use crate::breaker::Breaker;
use crate::pool::{
    linked, pool_wf, avoids, pool_top, tracks, keeps_out, retains, retains_apart, removed, bound_of, fits,
    has_fit, first_fit, fit_start, grows_into, shifted, shifted_at, lemma_ordered, lemma_empty_chain, lemma_below_top,
    lemma_avoids_empty, lemma_tracks_inserted, lemma_removed_avoids, lemma_removed_keeps, lemma_first_fit,
    lemma_bound_avoids, lemma_grows_into_kept,
};

verus! {

/// The least number of bytes requested from the breaker at once.
pub const BRK_MIN: usize = 200;
/// The cap on the extra bytes requested beyond what was asked for.
pub const BRK_MIN_EXTRA: usize = 500;
/// The extra bytes requested per byte asked for, before the cap.
pub const BRK_MULTIPLIER: usize = 1;

/// The number of bytes to request from the breaker for a need of `size`.
///
/// Breaker calls are costly, so the request is rounded up.
pub fn canonicalize_brk(size: usize) -> (r: usize)
    requires
        size + min_int(BRK_MULTIPLIER * size, BRK_MIN_EXTRA as int) <= usize::MAX,
    ensures
        r == canonical_spec(size as int),
        r >= size,
{
    let extra = if BRK_MULTIPLIER * size < BRK_MIN_EXTRA { BRK_MULTIPLIER * size } else { BRK_MIN_EXTRA };
    let want = size + extra;
    if want < BRK_MIN { BRK_MIN } else { want }
}

/// The smaller of two integers.
pub open spec fn min_int(a: int, b: int) -> int {
    if a < b { a } else { b }
}

/// The bytes requested from the breaker for a need of `size`:
/// `max(BRK_MIN, size + min(BRK_MULTIPLIER * size, BRK_MIN_EXTRA))`.
pub open spec fn canonical_spec(size: int) -> int {
    let want = size + min_int(BRK_MULTIPLIER * size, BRK_MIN_EXTRA as int);
    if want < BRK_MIN { BRK_MIN as int } else { want }
}

/// Bytes that one pool entry takes in the pool's backing buffer.
pub const ENTRY_SIZE: usize = 16;
/// Alignment of the pool's backing buffer.
pub const ENTRY_ALIGN: usize = 8;
/// Spare capacity that the pool always keeps beyond its length.
///
/// Growing the pool pushes at most this many entries before the new buffer is
/// in place, so growth never has to grow again.
pub const EXTRA_ELEMENTS: usize = 2;

/// The largest number of entries that the pool can be grown to hold.
pub const MAX_RESERVE: usize = (usize::MAX / ENTRY_SIZE - 17) / 2 - EXTRA_ELEMENTS;

/// The capacity that the pool grows to when it must hold `needed` entries:
/// twice the need with the headroom, plus slack.
pub open spec fn grown_capacity(needed: int) -> int {
    (needed + EXTRA_ELEMENTS) * 2 + 16 + 1
}

/// The memory bookkeeper: the pool of free blocks.
///
/// The pool's entries live, as far as the address space goes, in a buffer
/// that the bookkeeper took from the very memory it manages; growing the pool
/// takes a new buffer from the breaker and frees the old one into the pool.
pub struct Bookkeeper {
    /// The free blocks, in address order.
    pool: Vec<Block>,
    /// The number of entries that the backing buffer holds.
    cap: usize,
    /// The span of address space that backs the pool.
    buf: Block,
}

impl Bookkeeper {
    /// The pool's entries.
    pub closed spec fn entries(&self) -> Seq<Block> {
        self.pool@
    }

    /// The number of entries that the backing buffer holds.
    pub closed spec fn capacity(&self) -> nat {
        self.cap as nat
    }

    /// The span that backs the pool.
    pub closed spec fn buffer(&self) -> Block {
        self.buf
    }

    /// The bookkeeper is consistent, with all its memory below `top`.
    pub open spec fn inv(&self, top: int) -> bool {
        &&& pool_wf(self.entries())
        &&& self.entries().len() + EXTRA_ELEMENTS <= self.capacity()
        &&& pool_top(self.entries()) <= top
        &&& self.buffer().wf()
        &&& self.buffer().end_spec() <= top
        &&& self.capacity() * ENTRY_SIZE <= self.buffer().size
        &&& avoids(self.entries(), self.buffer())
    }

    /// The first index whose entry starts at or after `block`.
    ///
    /// As placeholders share the address of their right neighbour, no
    /// placeholder stands just before the index found.
    fn find(&self, block: &Block) -> (r: usize)
        requires
            pool_wf(self.pool@),
        ensures
            r <= self.pool@.len(),
            forall|k: int| 0 <= k < r ==> (#[trigger] self.pool@[k]).start < block.start,
            forall|k: int| r <= k < self.pool@.len() ==> (#[trigger] self.pool@[k]).start >= block.start,
            r > 0 ==> self.pool@[r - 1].size > 0,
    {
        let ghost p = self.pool@;
        let mut lo: usize = 0;
        let mut hi: usize = self.pool.len();
        while lo < hi
            invariant
                p == self.pool@,
                pool_wf(p),
                0 <= lo <= hi <= p.len(),
                forall|k: int| 0 <= k < lo ==> (#[trigger] p[k]).start < block.start,
                forall|k: int| hi <= k < p.len() ==> (#[trigger] p[k]).start >= block.start,
            decreases hi - lo,
        {
            let mid = lo + (hi - lo) / 2;
            if self.pool[mid].start < block.start {
                proof {
                    assert forall|k: int| 0 <= k < mid + 1 implies (#[trigger] p[k]).start < block.start by {
                        if k < mid {
                            lemma_ordered(p, k, mid as int);
                        }
                    }
                }
                lo = mid + 1;
            } else {
                proof {
                    assert forall|k: int| mid <= k < p.len() implies (#[trigger] p[k]).start >= block.start by {
                        if k > mid {
                            lemma_ordered(p, mid as int, k);
                        }
                    }
                }
                hi = mid;
            }
        }
        proof {
            if lo > 0 && p[lo - 1].size == 0 {
                let j = lemma_empty_chain(p, lo - 1);
            }
        }
        lo
    }

    /// The range of indices that a merge of `block` has to consider.
    ///
    /// All entries in the range are placeholders; the left neighbour of the
    /// range is the candidate for a merge on the left, the entry at its end
    /// the candidate on the right.
    fn find_bound(&self, block: &Block) -> (r: (usize, usize))
        requires
            pool_wf(self.pool@),
            block.wf(),
            block.size > 0,
            avoids(self.pool@, *block),
        ensures
            bound_of(self.pool@, *block, r.0 as int, r.1 as int),
    {
        let ghost p = self.pool@;
        let left = self.find(block);
        let mut right = self.find(&block.empty_right());
        proof {
            assert forall|k: int| 0 <= k < p.len() implies
                (#[trigger] p[k]).start < block.start || p[k].start >= block.end_spec() by {
                lemma_avoids_empty(p, *block, k);
            }
            if left < right {
                assert(p[left as int].start >= block.start);
            }
            if right < left {
                assert(p[right as int].start >= block.end_spec());
            }
        }
        assert(left == right);
        while right < self.pool.len() && self.pool[right].size == 0
            invariant
                p == self.pool@,
                pool_wf(p),
                left <= right <= p.len(),
                forall|k: int| left <= k < right ==> (#[trigger] p[k]).size == 0,
                left < right ==> right < p.len(),
                forall|k: int| left <= k < right ==> (#[trigger] p[k]).start == p[right as int].start,
                forall|k: int| right <= k < p.len() ==> (#[trigger] p[k]).start >= block.end_spec(),
            decreases p.len() - right,
        {
            proof {
                assert(linked(p[right as int], p[right + 1]));
            }
            right = right + 1;
        }
        proof {
            if left > 0 {
                lemma_avoids_empty(p, *block, left - 1);
            }
        }
        (left, right)
    }

    /// Append `block` at the end, merging it into the last entry when the two touch.
    ///
    /// Needs one free slot; `block` must lie past every entry.
    fn push(&mut self, block: Block)
        requires
            pool_wf(old(self).pool@),
            old(self).pool@.len() < old(self).cap,
            block.wf(),
            pool_top(old(self).pool@) <= block.start,
        ensures
            pool_wf(final(self).pool@),
            final(self).cap == old(self).cap,
            final(self).buf == old(self).buf,
            final(self).pool@.len() <= old(self).pool@.len() + 1,
            block.size == 0 ==> final(self).pool@ == old(self).pool@,
            block.size > 0 ==> pool_top(final(self).pool@) == block.end_spec(),
            keeps_out(old(self).pool@, final(self).pool@, block),
            forall|i: int| 0 <= i < old(self).pool@.len() - 1 ==> #[trigger] final(self).pool@[i] == old(self).pool@[i],
            block.size > 0 ==> tracks(final(self).pool@, block),
            retains(old(self).pool@, final(self).pool@),
            block.size > 0 && old(self).pool@.len() > 0 && old(self).pool@.last().left_to_spec(block)
                ==> final(self).pool@ == old(self).pool@.update(
                old(self).pool@.len() - 1,
                Block { start: old(self).pool@.last().start, size: (old(self).pool@.last().size + block.size) as usize },
            ),
            block.size > 0 && !(old(self).pool@.len() > 0 && old(self).pool@.last().left_to_spec(block))
                ==> final(self).pool@ == old(self).pool@.push(block),
    {
        let ghost p = self.pool@;
        if block.size == 0 {
            return;
        }
        let len = self.pool.len();
        if len > 0 {
            let mut last = self.pool[len - 1];
            let mut b = block;
            proof {
                assert(p[len - 1].wf());
            }
            if last.merge_right(&mut b).is_ok() {
                self.pool.set(len - 1, last);
                proof {
                    let q = self.pool@;
                    assert forall|i: int| 0 <= i < q.len() - 1 implies #[trigger] linked(q[i], q[i + 1]) by {
                        assert(linked(p[i], p[i + 1]));
                    }
                    assert forall|x: Block| x.size > 0 && avoids(p, x) && x.disjoint(block) implies #[trigger] avoids(q, x) by {
                        assert forall|i: int| 0 <= i < q.len() && (#[trigger] q[i]).size > 0 implies q[i].disjoint(x) by {
                            assert(p[i].size > 0);
                        }
                    }
                    assert(block.within(q[len - 1]));
                    assert forall|x: Block| x.size > 0 && tracks(p, x) implies #[trigger] tracks(q, x) by {
                        let i = choose|i: int| 0 <= i < p.len() && x.within(#[trigger] p[i]);
                        assert(x.within(q[i]));
                    }
                }
                return;
            }
        }
        self.pool.push(block);
        proof {
            let q = self.pool@;
            assert forall|i: int| 0 <= i < q.len() - 1 implies #[trigger] linked(q[i], q[i + 1]) by {
                if i < len - 1 {
                    assert(linked(p[i], p[i + 1]));
                }
            }
            assert forall|x: Block| x.size > 0 && avoids(p, x) && x.disjoint(block) implies #[trigger] avoids(q, x) by {
                assert forall|i: int| 0 <= i < q.len() && (#[trigger] q[i]).size > 0 implies q[i].disjoint(x) by {
                    if i < len {
                        assert(p[i].size > 0);
                    }
                }
            }
            lemma_tracks_inserted(q, block, len as int);
            assert forall|x: Block| x.size > 0 && tracks(p, x) implies #[trigger] tracks(q, x) by {
                let i = choose|i: int| 0 <= i < p.len() && x.within(#[trigger] p[i]);
                assert(x.within(q[i]));
            }
        }
    }

    /// Insert `block` at `ind`, shifting right only the entries up to the
    /// nearest placeholder at or after `ind`, which the shift overwrites.
    ///
    /// Needs one free slot; `block` must fit between its neighbours without
    /// touching them.
    fn insert(&mut self, ind: usize, block: Block)
        requires
            pool_wf(old(self).pool@),
            old(self).pool@.len() < old(self).cap,
            ind <= old(self).pool@.len(),
            block.wf(),
            block.size > 0,
            ind > 0 ==> old(self).pool@[ind - 1].size > 0 && old(self).pool@[ind - 1].end_spec() < block.start,
            ind < old(self).pool@.len() ==> block.end_spec() < old(self).pool@[ind as int].start,
        ensures
            pool_wf(final(self).pool@),
            final(self).cap == old(self).cap,
            final(self).buf == old(self).buf,
            final(self).pool@.len() <= old(self).pool@.len() + 1,
            pool_top(final(self).pool@) == if ind == old(self).pool@.len() {
                block.end_spec()
            } else {
                pool_top(old(self).pool@)
            },
            keeps_out(old(self).pool@, final(self).pool@, block),
            ind < final(self).pool@.len(),
            final(self).pool@[ind as int] == block,
            retains(old(self).pool@, final(self).pool@),
            shifted(old(self).pool@, final(self).pool@, ind as int, block),
    {
        let ghost p = self.pool@;
        let len = self.pool.len();
        let mut k = ind;
        while k < len && self.pool[k].size != 0
            invariant
                p == self.pool@,
                len == p.len(),
                ind <= k <= len,
                forall|j: int| ind <= j < k ==> (#[trigger] p[j]).size > 0,
            decreases len - k,
        {
            k = k + 1;
        }
        if k == len {
            self.pool.push(block);
        }
        let ghost total = self.pool@.len();
        let mut j = k;
        while j > ind
            invariant
                self.cap == old(self).cap,
                self.buf == old(self).buf,
                len == p.len(),
                ind <= j <= k <= len,
                total == if k < len { len as int } else { len + 1 },
                self.pool@.len() == total,
                forall|i: int| 0 <= i < j ==> #[trigger] self.pool@[i] == p[i],
                forall|i: int| j < i <= k && i < total ==> #[trigger] self.pool@[i] == p[i - 1],
                forall|i: int| k < i < total ==> #[trigger] self.pool@[i] == p[i],
            decreases j,
        {
            let v = self.pool[j - 1];
            self.pool.set(j, v);
            j = j - 1;
        }
        self.pool.set(ind, block);
        proof {
            let q = self.pool@;
            assert(q.len() == if k < len { len as int } else { len + 1 });
            assert forall|i: int| 0 <= i < q.len() implies #[trigger] q[i] == if i < ind {
                p[i]
            } else if i == ind {
                block
            } else if i <= k {
                p[i - 1]
            } else {
                p[i]
            } by {}
            if k < len {
                assert(k < len - 1);
            }
            assert(shifted_at(p, q, ind as int, block, k as int));
            assert forall|i: int| 0 <= i < q.len() implies (#[trigger] q[i]).wf() by {
                if i < ind { assert(p[i].wf()); }
                else if i > ind && i <= k { assert(p[i - 1].wf()); }
                else if i > k { assert(p[i].wf()); }
            }
            assert forall|i: int| 0 <= i < q.len() - 1 implies #[trigger] linked(q[i], q[i + 1]) by {
                if i < ind - 1 {
                    assert(linked(p[i], p[i + 1]));
                } else if i == ind - 1 {
                    assert(q[i + 1] == block);
                } else if i == ind {
                    if ind == k {
                        assert(linked(p[i], p[i + 1]));
                    }
                } else if i < k {
                    let i0 = i - 1;
                    assert(linked(p[i0], p[i0 + 1]));
                } else if i == k {
                    assert(p[k - 1].size > 0);
                    let k0 = k - 1;
                    assert(linked(p[k0], p[k0 + 1]));
                    assert(linked(p[k as int], p[k + 1]));
                } else {
                    assert(linked(p[i], p[i + 1]));
                }
            }
            assert forall|x: Block| x.size > 0 && avoids(p, x) && x.disjoint(block) implies #[trigger] avoids(q, x) by {
                assert forall|i: int| 0 <= i < q.len() && (#[trigger] q[i]).size > 0 implies q[i].disjoint(x) by {
                    if i < ind { assert(p[i].size > 0); }
                    else if i > ind && i <= k { assert(p[i - 1].size > 0); }
                    else if i > k { assert(p[i].size > 0); }
                }
            }
            assert forall|x: Block| x.size > 0 && tracks(p, x) implies #[trigger] tracks(q, x) by {
                let i = choose|i: int| 0 <= i < p.len() && x.within(#[trigger] p[i]);
                if i < ind {
                    assert(x.within(q[i]));
                } else if i < k {
                    assert(x.within(q[i + 1]));
                } else if i == k {
                    assert(false);
                } else {
                    assert(x.within(q[i]));
                }
            }
        }
    }

    /// Take entry `ind` out of the pool and return it.
    ///
    /// The last entry is truncated away together with the placeholders before
    /// it. Any other entry becomes a placeholder at the address of its right
    /// neighbour, and so do the placeholders just before it.
    fn remove_at(&mut self, ind: usize) -> (r: Block)
        requires
            pool_wf(old(self).pool@),
            ind < old(self).pool@.len(),
        ensures
            r == old(self).pool@[ind as int],
            pool_wf(final(self).pool@),
            final(self).cap == old(self).cap,
            final(self).buf == old(self).buf,
            removed(old(self).pool@, final(self).pool@, ind as int),
    {
        let ghost p = self.pool@;
        let len = self.pool.len();
        let res = self.pool[ind];
        if ind == len - 1 {
            self.pool.pop();
            assert(self.pool@ =~= p.subrange(0, self.pool@.len() as int));
            while self.pool.len() > 0 && self.pool[self.pool.len() - 1].size == 0
                invariant
                    self.cap == old(self).cap,
                    self.buf == old(self).buf,
                    len == p.len(),
                    ind == len - 1,
                    self.pool@.len() <= ind,
                    self.pool@ == p.subrange(0, self.pool@.len() as int),
                    forall|j: int| self.pool@.len() <= j < ind ==> (#[trigger] p[j]).size == 0,
                decreases self.pool@.len(),
            {
                self.pool.pop();
                assert(self.pool@ =~= p.subrange(0, self.pool@.len() as int));
            }
            proof {
                let q = self.pool@;
                assert forall|i: int| 0 <= i < q.len() implies (#[trigger] q[i]).wf() by {
                    assert(p[i].wf());
                }
                assert forall|i: int| 0 <= i < q.len() - 1 implies #[trigger] linked(q[i], q[i + 1]) by {
                    assert(linked(p[i], p[i + 1]));
                }
            }
        } else {
            let empty = self.pool[ind + 1].empty_left();
            self.pool.set(ind, empty);
            let mut j = ind;
            while j > 0 && self.pool[j - 1].size == 0
                invariant
                    self.cap == old(self).cap,
                    self.buf == old(self).buf,
                    0 <= j <= ind < len - 1,
                    len == p.len(),
                    self.pool@.len() == len,
                    forall|i: int| 0 <= i < j ==> #[trigger] self.pool@[i] == p[i],
                    forall|i: int| ind < i < len ==> #[trigger] self.pool@[i] == p[i],
                    forall|i: int| j <= i <= ind ==> #[trigger] self.pool@[i] == empty,
                    forall|i: int| j <= i < ind ==> (#[trigger] p[i]).size == 0,
                    forall|i: int| j <= i <= ind ==> (#[trigger] p[i]).start == p[ind as int].start,
                    pool_wf(p),
                    empty.start == p[ind + 1].start,
                    empty.size == 0,
                decreases j,
            {
                proof {
                    let j0 = j - 1;
                    assert(linked(p[j0], p[j0 + 1]));
                }
                self.pool.set(j - 1, empty);
                j = j - 1;
            }
            proof {
                let q = self.pool@;
                assert forall|i: int| 0 <= i < q.len() implies (#[trigger] q[i]).wf() by {
                    assert(p[i].wf());
                    assert(p[ind + 1].wf());
                }
                assert forall|i: int| 0 <= i < q.len() - 1 implies #[trigger] linked(q[i], q[i + 1]) by {
                    if i < j - 1 {
                        assert(linked(p[i], p[i + 1]));
                    } else if i == j - 1 {
                        assert(p[i].size > 0);
                        assert(linked(p[i], p[i + 1]));
                        lemma_ordered(p, i + 1, ind + 1);
                    } else if i > ind {
                        assert(linked(p[i], p[i + 1]));
                    }
                }
                assert(q.last() == p.last());
                assert forall|i: int| 0 <= i < ind && (#[trigger] p[i]).size == 0 && p[i].start == p[ind as int].start implies q[i] == q[ind as int] by {
                    if i < j {
                        let j0 = j - 1;
                        assert(p[j0].size > 0);
                        assert(linked(p[j0], p[j0 + 1]));
                        if i < j0 {
                            lemma_ordered(p, i, j0);
                        }
                    }
                }
            }
        }
        res
    }

    /// A bookkeeper with an empty pool, whose entries live in `buf`.
    pub fn new(buf: Block) -> (r: Bookkeeper)
        requires
            buf.wf(),
            buf.size >= EXTRA_ELEMENTS * ENTRY_SIZE,
        ensures
            r.entries() == Seq::<Block>::empty(),
            r.buffer() == buf,
            r.capacity() == buf.size / ENTRY_SIZE,
            r.inv(buf.end_spec()),
    {
        let r = Bookkeeper { pool: Vec::new(), cap: buf.size / ENTRY_SIZE, buf };
        proof {
            assert(r.pool@.len() == 0);
        }
        r
    }

    /// The number of entries in the pool.
    pub fn len(&self) -> (r: usize)
        ensures
            r == self.entries().len(),
    {
        self.pool.len()
    }

    /// Entry `i` of the pool.
    pub fn get(&self, i: usize) -> (r: Block)
        requires
            i < self.entries().len(),
        ensures
            r == self.entries()[i as int],
    {
        self.pool[i]
    }

    /// The number of entries that the pool's buffer holds.
    pub fn cap(&self) -> (r: usize)
        ensures
            r == self.capacity(),
    {
        self.cap
    }

    /// The span that backs the pool.
    pub fn buffer_block(&self) -> (r: Block)
        ensures
            r == self.buffer(),
    {
        self.buf
    }

    /// Check the shape of the pool: sorted, no overlapping or adjacent free
    /// spans, placeholders only before an entry at their address, and no
    /// trailing placeholder.
    pub fn check(&self) -> (r: bool)
        ensures
            r == pool_wf(self.entries()),
    {
        let len = self.pool.len();
        let mut i: usize = 0;
        while i < len
            invariant
                len == self.pool@.len(),
                i <= len,
                forall|j: int| 0 <= j < i ==> (#[trigger] self.pool@[j]).wf(),
                forall|j: int| 0 <= j < i && j < len - 1 ==> #[trigger] linked(self.pool@[j], self.pool@[j + 1]),
            decreases len - i,
        {
            let e = self.pool[i];
            if e.start > usize::MAX - e.size {
                proof {
                    assert(!self.pool@[i as int].wf());
                }
                return false;
            }
            if i + 1 < len {
                let n = self.pool[i + 1];
                let bad = if e.size == 0 { e.start != n.start } else { e.start + e.size >= n.start };
                if bad {
                    proof {
                        assert(!linked(self.pool@[i as int], self.pool@[i + 1]));
                    }
                    return false;
                }
            }
            i = i + 1;
        }
        len == 0 || self.pool[len - 1].size > 0
    }

    /// Allocate fresh space from the breaker.
    ///
    /// The request is canonicalized upwards and padded to the alignment; the
    /// padding in front and the surplus behind the result are pushed as free.
    /// Needs two free slots.
    fn alloc_fresh<B: Breaker>(&mut self, brk: &mut B, size: usize, align: usize) -> (r: Option<Block>)
        requires
            pool_wf(old(self).pool@),
            old(self).pool@.len() + 2 <= old(self).cap,
            pool_top(old(self).pool@) <= old(brk).end(),
            size > 0,
            align > 0,
        ensures
            final(self).cap == old(self).cap,
            final(self).buf == old(self).buf,
            r is None ==> *final(self) == *old(self) && final(brk).end() == old(brk).end(),
            r is Some ==> fresh_placed(
                old(self).pool@,
                final(self).pool@,
                r->0,
                old(brk).end() as int,
                final(brk).end() as int,
                size as int,
                align,
            ),
            r is Some ==> final(brk).end() == old(brk).end() + canonical_spec(size as int) + aligner_spec(
                old(brk).end() as usize,
                align,
            ),
            r is Some <==> fresh_granted(old(brk), size, align),
    {
        if size > usize::MAX - BRK_MIN_EXTRA {
            return None;
        }
        let can = canonicalize_brk(size);
        let seg_end = brk.segment_end();
        let pad = aligner(seg_end, align);
        if can > usize::MAX - pad {
            return None;
        }
        let ptr = match brk.extend_segment(can + pad) {
            Some(ptr) => ptr,
            None => {
                return None;
            },
        };
        let ghost p = self.pool@;
        let alignment_block = Block { start: ptr, size: pad };
        let res = Block { start: ptr + pad, size: size };
        let surplus = Block { start: ptr + pad + size, size: can - size };
        self.push(alignment_block);
        let ghost pa = self.pool@;
        self.push(surplus);
        proof {
            let q = self.pool@;
            assert(avoids(p, res)) by {
                assert forall|i: int| 0 <= i < p.len() && (#[trigger] p[i]).size > 0 implies p[i].disjoint(res) by {
                    lemma_below_top(p, i);
                }
            }
            assert(avoids(pa, res));
            assert(avoids(q, res));
            assert forall|x: Block| x.size > 0 && avoids(p, x) && x.end_spec() <= ptr implies #[trigger] avoids(q, x) by {
                assert(avoids(pa, x));
            }
            assert forall|x: Block| x.size > 0 && tracks(p, x) implies #[trigger] tracks(q, x) by {
                assert(tracks(pa, x));
            }
            assert(pool_top(q) <= ptr + pad + can) by {
                if surplus.size == 0 && alignment_block.size == 0 {
                    assert(pa == p);
                }
            }
            if pad > 0 {
                assert(tracks(pa, alignment_block));
                assert(tracks(q, alignment_block));
            }
        }
        Some(res)
    }

    /// Make room for `needed` entries in all, counting the headroom, growing
    /// the pool's buffer with fresh space when it is too small.
    ///
    /// The old buffer is then returned to the pool. Gives `false`, changing
    /// nothing, when the breaker has no space to give.
    pub fn reserve<B: Breaker>(&mut self, brk: &mut B, needed: usize) -> (r: bool)
        requires
            old(self).inv(old(brk).end() as int),
        ensures
            r ==> final(self).inv(final(brk).end() as int),
            r ==> final(self).capacity() >= needed,
            r && needed >= old(self).entries().len()
                ==> final(self).entries().len() + (needed - old(self).entries().len()) <= final(self).capacity(),
            r && old(self).capacity() < needed ==> final(self).capacity() == grown_capacity(needed as int)
                && final(self).buffer().size == grown_capacity(needed as int) * ENTRY_SIZE
                && tracks(final(self).entries(), old(self).buffer()),
            !r <==> old(self).capacity() < needed && (needed > MAX_RESERVE || !fresh_granted(
                old(brk),
                (grown_capacity(needed as int) * ENTRY_SIZE) as usize,
                ENTRY_ALIGN,
            )),
            r ==> final(self).entries().len() <= old(self).entries().len() + 3,
            !r ==> *final(self) == *old(self),
            final(brk).end() >= old(brk).end(),
            old(self).capacity() >= needed ==> r && *final(self) == *old(self) && *final(brk) == *old(brk),
            r ==> grown(old(self), final(self), old(brk).end() as int),
            r ==> retains(old(self).entries(), final(self).entries()),
    {
        if self.cap >= needed {
            return true;
        }
        if needed > MAX_RESERVE {
            return false;
        }
        let new_cap = (needed + EXTRA_ELEMENTS) * 2 + 16 + 1;
        let bytes = new_cap * ENTRY_SIZE;
        let ghost p = self.pool@;
        let ghost top0 = brk.end();
        let fresh = match self.alloc_fresh(brk, bytes, ENTRY_ALIGN) {
            Some(b) => b,
            None => {
                return false;
            },
        };
        let old_buf = self.buf;
        self.buf = fresh;
        self.cap = new_cap;
        let ghost pa = self.pool@;
        proof {
            assert(avoids(pa, old_buf));
        }
        let (l, r) = self.find_bound(&old_buf);
        self.free_bound(l, r, old_buf);
        proof {
            let q = self.pool@;
            assert(avoids(q, fresh)) by {
                assert(fresh.disjoint(old_buf));
            }
            assert forall|x: Block| x.size > 0 && avoids(p, x) && x.disjoint(old_buf) && x.end_spec() <= top0 implies #[trigger] avoids(q, x) && x.disjoint(fresh) by {
                assert(avoids(pa, x));
            }
            assert forall|x: Block| x.size > 0 && tracks(p, x) implies #[trigger] tracks(q, x) by {
                assert(tracks(pa, x));
            }
        }
        true
    }

    /// Allocate `size` bytes aligned to `align`.
    ///
    /// The lowest-addressed free entry that can hold the block after its
    /// alignment padding serves it; without one the space comes fresh from
    /// the breaker. Gives `None` when the breaker has no space to give.
    #[verifier::rlimit(60)]
    pub fn allocate<B: Breaker>(&mut self, brk: &mut B, size: usize, align: usize) -> (r: Option<Block>)
        requires
            old(self).inv(old(brk).end() as int),
            size > 0,
            align > 0,
        ensures
            final(self).inv(final(brk).end() as int),
            final(brk).end() >= old(brk).end(),
            r is Some ==> served(final(self), r->0, final(brk).end() as int, size as int, align),
            kept(old(self), final(self), old(brk).end() as int, r),
            r is Some ==> retains_apart(old(self).entries(), final(self).entries(), r->0),
            old(self).capacity() >= old(self).entries().len() + 3 && has_fit(old(self).entries(), size as int, align)
                ==> r is Some && final(brk).end() == old(brk).end()
                && r->0.start == fit_start(old(self).entries()[first_fit(old(self).entries(), size as int, align)], align),
            old(self).capacity() >= old(self).entries().len() + 4 && !has_fit(old(self).entries(), size as int, align)
                && r is Some ==> from_breaker(old(brk).end() as int, final(brk).end() as int, r->0, size as int, align),
            old(self).capacity() >= old(self).entries().len() + 4 ==> final(self).buffer() == old(self).buffer()
                && final(self).capacity() == old(self).capacity(),
            old(self).capacity() >= old(self).entries().len() + 3 && has_fit(old(self).entries(), size as int, align)
                ==> final(self).buffer() == old(self).buffer() && final(self).capacity() == old(self).capacity(),
            old(self).capacity() >= old(self).entries().len() + 4 && !has_fit(old(self).entries(), size as int, align)
                ==> (r is Some <==> fresh_granted(old(brk), size, align)),
            old(self).capacity() >= old(self).entries().len() + 4 && !has_fit(old(self).entries(), size as int, align)
                && r is Some ==> fresh_placed(
                old(self).entries(),
                final(self).entries(),
                r->0,
                old(brk).end() as int,
                final(brk).end() as int,
                size as int,
                align,
            ),
    {
        let len = self.pool.len();
        if len > usize::MAX - 4 {
            return None;
        }
        let ghost b0 = *self;
        let ghost end0 = brk.end();
        if !self.reserve(brk, len + 3) {
            return None;
        }
        let n = self.first_fit_index(size, align);
        if n == self.pool.len() {
            let len1 = self.pool.len();
            let ghost bm = *self;
            let ghost endm = brk.end();
            if len1 > usize::MAX - 4 || !self.reserve(brk, len1 + 4) {
                return None;
            }
            proof {
                assert forall|x: Block| x.size > 0 && avoids(b0.entries(), x) && x.disjoint(b0.buffer()) && x.end_spec() <= end0
                    implies #[trigger] avoids(self.entries(), x) && x.disjoint(self.buffer()) by {
                    assert(avoids(bm.entries(), x) && x.disjoint(bm.buffer()));
                    assert(x.end_spec() <= endm);
                }
                assert forall|x: Block| x.size > 0 && tracks(b0.entries(), x) implies #[trigger] tracks(self.entries(), x) by {
                    assert(tracks(bm.entries(), x));
                }
            }
        }
        let ghost b1 = *self;
        let ghost end1 = brk.end();
        let r = self.alloc_reserved(brk, size, align);
        proof {
            assert(self.buf.size > 0);
            assert(b1.buffer().size > 0);
            if r is Some {
                assert(avoids(self.pool@, b1.buffer()));
                assert(b1.buffer().disjoint(r->0));
            }
            assert forall|x: Block| x.size > 0 && avoids(b0.entries(), x) && x.disjoint(b0.buffer()) && x.end_spec() <= end0
                implies #[trigger] avoids(self.entries(), x) && x.disjoint(self.buffer()) && match r {
                    Some(b) => x.disjoint(b),
                    None => true,
                } by {
                assert(avoids(b1.entries(), x) && x.disjoint(b1.buffer()));
                assert(avoids(b1.pool@, x));
                assert(x.end_spec() <= end1);
                if r is Some {
                    assert(avoids(self.pool@, x));
                }
            }
        }
        r
    }

    /// Return `block` to the pool, merging it with the free spans it touches.
    ///
    /// Gives `false`, changing nothing, when the pool had to grow and the
    /// breaker had no space to give. Freeing an empty block does nothing.
    pub fn free<B: Breaker>(&mut self, brk: &mut B, block: Block) -> (r: bool)
        requires
            old(self).inv(old(brk).end() as int),
            block.size > 0 ==> block.wf() && block.end_spec() <= old(brk).end() && avoids(old(self).entries(), block)
                && block.disjoint(old(self).buffer()),
        ensures
            final(self).inv(final(brk).end() as int),
            final(brk).end() >= old(brk).end(),
            !r ==> *final(self) == *old(self),
            r && block.size > 0 ==> tracks(final(self).entries(), block),
            retains(old(self).entries(), final(self).entries()),
            block.size == 0 ==> r && *final(self) == *old(self) && final(brk).end() == old(brk).end(),
            kept_apart(*old(self), *final(self), old(brk).end() as int, block, None),
            old(self).capacity() >= old(self).entries().len() + 3 ==> r && final(brk).end() == old(brk).end()
                && final(self).buffer() == old(self).buffer() && final(self).capacity() == old(self).capacity(),
    {
        if block.size == 0 {
            return true;
        }
        let len = self.pool.len();
        if len > usize::MAX - 3 {
            return false;
        }
        if !self.reserve(brk, len + 3) {
            return false;
        }
        let ghost pa = self.pool@;
        let ghost buf1 = self.buf;
        proof {
            assert(avoids(pa, block));
        }
        let (l, r) = self.find_bound(&block);
        self.free_bound(l, r, block);
        proof {
            assert(buf1.size > 0);
            assert(avoids(self.pool@, buf1));
        }
        true
    }

    /// Resize `block` without moving it, given its merge range and room for
    /// one more entry.
    ///
    /// Shrinking frees the tail. Growing takes what it needs from the free
    /// span right after the block and leaves the rest of it free; without
    /// such a span, large enough, the block comes back untouched as `Err`.
    fn realloc_inplace_bound(&mut self, l: usize, r: usize, block: Block, new_size: usize) -> (res: Result<Block, Block>)
        requires
            pool_wf(old(self).pool@),
            old(self).pool@.len() < old(self).cap,
            block.wf(),
            block.size > 0,
            new_size > 0,
            bound_of(old(self).pool@, block, l as int, r as int),
        ensures
            pool_wf(final(self).pool@),
            final(self).cap == old(self).cap,
            final(self).buf == old(self).buf,
            final(self).pool@.len() <= old(self).pool@.len() + 1,
            res is Err ==> res->Err_0 == block && *final(self) == *old(self),
            res is Ok ==> res->Ok_0 == (Block { start: block.start, size: new_size }) && res->Ok_0.wf()
                && avoids(final(self).pool@, res->Ok_0),
            res is Ok <==> new_size <= block.size || grows_into(old(self).pool@, block, new_size as int),
            res is Ok ==> res->Ok_0.end_spec() <= block.end_spec() || res->Ok_0.end_spec() <= pool_top(old(self).pool@),
            new_size < block.size ==> tracks(final(self).pool@, Block { start: (block.start + new_size) as usize, size: (block.size - new_size) as usize }),
            pool_top(final(self).pool@) <= pool_top(old(self).pool@) || pool_top(final(self).pool@) <= block.end_spec(),
            forall|x: Block| x.size > 0 && avoids(old(self).pool@, x) && x.disjoint(block)
                ==> #[trigger] avoids(final(self).pool@, x) && (res is Ok ==> x.disjoint(res->Ok_0)),
            res is Ok ==> retains_apart(old(self).pool@, final(self).pool@, res->Ok_0),
    {
        let ghost p = self.pool@;
        proof {
            lemma_bound_avoids(p, block, l as int, r as int);
        }
        if new_size <= block.size {
            let (res, excessive) = block.split(new_size);
            if excessive.size > 0 {
                self.free_bound(l, r, excessive);
                proof {
                    let q = self.pool@;
                    assert(avoids(p, res));
                    assert(res.disjoint(excessive));
                    assert forall|x: Block| x.size > 0 && avoids(p, x) && x.disjoint(block) implies #[trigger] avoids(q, x) && x.disjoint(res) by {
                        assert(x.disjoint(excessive));
                    }
                }
            }
            return Ok(res);
        }
        proof {
            if grows_into(p, block, new_size as int) {
                let i = choose|i: int| 0 <= i < p.len() && (#[trigger] p[i]).size > 0 && block.left_to_spec(p[i]) && block.size + p[i].size >= new_size;
                if i > r {
                    lemma_ordered(p, r as int, i);
                }
                assert(i == r);
            }
        }
        if r < self.pool.len() && block.left_to(&self.pool[r]) && self.pool[r].size >= new_size - block.size {
            let right = self.remove_at(r);
            let ghost q = self.pool@;
            let mut b = block;
            let mut rr = right;
            proof {
                assert(p[r as int].wf());
                lemma_removed_avoids(p, q, r as int);
                assert forall|i: int| 0 <= i < p.len() && i != r && (#[trigger] p[i]).size > 0 implies p[i].disjoint(p[r as int]) by {
                    if i < r {
                        lemma_ordered(p, i, r as int);
                    } else {
                        lemma_ordered(p, r as int, i);
                    }
                }
                assert forall|i: int| 0 <= i < q.len() && (#[trigger] q[i]).size > 0 implies q[i] == p[i] && i != r by {
                    if r == p.len() - 1 {
                        assert(q[i] == p[i]);
                    } else if q[i] != p[i] {
                        if i < r {
                            assert(q[i] == q[r as int]);
                        }
                    }
                }
                if r == p.len() - 1 {
                    if q.len() > l {
                        assert(q[q.len() - 1] == p[q.len() - 1]);
                    }
                    assert(q.len() == l);
                } else {
                    if l > 0 {
                        assert(q[l - 1] == p[l - 1]);
                    }
                    if l < r {
                        assert(q[l as int] == q[r as int]);
                    }
                    assert(linked(p[r as int], p[r + 1]));
                }
            }
            let ok = b.merge_right(&mut rr);
            let (res, excessive) = b.split(new_size);
            proof {
                lemma_below_top(p, r as int);
            }
            proof {
                assert(avoids(q, res));
                assert forall|x: Block| x.size > 0 && avoids(p, x) && x.disjoint(block) implies #[trigger] avoids(q, x) && x.disjoint(res) && x.disjoint(excessive) by {
                    assert(p[r as int].disjoint(x));
                }
            }
            if excessive.size > 0 {
                self.insert(l, excessive);
                proof {
                    let q2 = self.pool@;
                    assert forall|x: Block| x.size > 0 && tracks(p, x) && x.disjoint(res) implies #[trigger] tracks(q2, x) by {
                        let i = choose|i: int| 0 <= i < p.len() && x.within(#[trigger] p[i]);
                        if i == r {
                            assert(x.within(q2[l as int]));
                        } else {
                            lemma_removed_keeps(p, q, r as int, i);
                            assert(x.within(q[i]));
                            assert(tracks(q, x));
                        }
                    }
                    assert(avoids(q2, res)) by {
                        assert(res.disjoint(excessive));
                    }
                    assert(pool_top(q) <= pool_top(p)) by {
                        if q.len() > 0 {
                            lemma_below_top(p, q.len() - 1);
                        }
                    }
                    assert(pool_top(q2) <= pool_top(p)) by {
                        if l == q.len() {
                            lemma_below_top(p, r as int);
                        }
                    }
                }
            } else {
                proof {
                    if q.len() > 0 {
                        lemma_below_top(p, q.len() - 1);
                    }
                    assert forall|x: Block| x.size > 0 && tracks(p, x) && x.disjoint(res) implies #[trigger] tracks(q, x) by {
                        let i = choose|i: int| 0 <= i < p.len() && x.within(#[trigger] p[i]);
                        lemma_removed_keeps(p, q, r as int, i);
                        assert(x.within(q[i]));
                    }
                }
            }
            return Ok(res);
        }
        Err(block)
    }

    /// Resize `block` without moving it.
    ///
    /// Shrinking succeeds, and growing succeeds when the free span right after
    /// the block is large enough, unless the pool had to grow first and the
    /// breaker had no space. Otherwise the block comes back untouched as
    /// `Err`; the pool is then as it was, but for a growth that succeeded
    /// before the resize failed.
    pub fn realloc_inplace<B: Breaker>(&mut self, brk: &mut B, block: Block, new_size: usize) -> (res: Result<Block, Block>)
        requires
            old(self).inv(old(brk).end() as int),
            block.wf(),
            block.size > 0,
            new_size > 0,
            block.end_spec() <= old(brk).end(),
            avoids(old(self).entries(), block),
            block.disjoint(old(self).buffer()),
        ensures
            final(self).inv(final(brk).end() as int),
            final(brk).end() >= old(brk).end(),
            res is Err ==> res->Err_0 == block,
            res is Ok ==> res->Ok_0 == (Block { start: block.start, size: new_size })
                && avoids(final(self).entries(), res->Ok_0) && res->Ok_0.disjoint(final(self).buffer()),
            old(self).capacity() >= old(self).entries().len() + 3 ==> final(brk).end() == old(brk).end()
                && (res is Ok <==> new_size <= block.size || grows_into(old(self).entries(), block, new_size as int)),
            kept_apart(*old(self), *final(self), old(brk).end() as int, block, ok_of(res)),
            res is Ok ==> retains_apart(old(self).entries(), final(self).entries(), res->Ok_0),
            old(self).capacity() >= old(self).entries().len() + 3 ==> final(self).buffer() == old(self).buffer()
                && final(self).capacity() == old(self).capacity() && (res is Err ==> *final(self) == *old(self)),
    {
        let len = self.pool.len();
        if len > usize::MAX - 3 {
            return Err(block);
        }
        let ghost p0 = self.pool@;
        let ghost b0 = *self;
        let ghost end0 = brk.end();
        if !self.reserve(brk, len + 3) {
            return Err(block);
        }
        let ghost pa = self.pool@;
        let ghost buf1 = self.buf;
        proof {
            assert(avoids(pa, block));
        }
        let (l, r) = self.find_bound(&block);
        let res = self.realloc_inplace_bound(l, r, block, new_size);
        proof {
            assert(buf1.size > 0);
            assert(avoids(self.pool@, buf1));
            if res is Ok {
                assert(buf1.disjoint(res->Ok_0));
            }
            assert forall|x: Block| x.size > 0 && avoids(old(self).entries(), x) && x.disjoint(old(self).buffer())
                && x.disjoint(block) && x.end_spec() <= old(brk).end()
                implies #[trigger] avoids(self.entries(), x) && x.disjoint(self.buffer()) && match ok_of(res) {
                    Some(b) => x.disjoint(b),
                    None => true,
                } by {
                assert(avoids(pa, x) && x.disjoint(buf1));
                assert(avoids(self.pool@, x));
            }
            assert(kept_apart(*old(self), *self, old(brk).end() as int, block, ok_of(res)));
        }
        res
    }

    /// Resize `block` to `new_size` bytes aligned to `align`.
    ///
    /// An aligned block is first resized in place. Otherwise a new block is
    /// allocated and the old one freed; the caller then moves the first
    /// `min(block.size, new_size)` bytes over before it allocates again.
    /// Gives `None`, with `block` still held by the caller, when the breaker
    /// has no space to give.
    pub fn realloc<B: Breaker>(&mut self, brk: &mut B, block: Block, new_size: usize, align: usize) -> (res: Option<Block>)
        requires
            old(self).inv(old(brk).end() as int),
            block.wf(),
            block.size > 0,
            new_size > 0,
            align > 0,
            block.end_spec() <= old(brk).end(),
            avoids(old(self).entries(), block),
            block.disjoint(old(self).buffer()),
        ensures
            final(self).inv(final(brk).end() as int),
            final(brk).end() >= old(brk).end(),
            res is Some ==> served(final(self), res->0, final(brk).end() as int, new_size as int, align),
            res is Some && res->0.start != block.start ==> tracks(final(self).entries(), block),
            res is None ==> avoids(final(self).entries(), block) && block.disjoint(final(self).buffer()),
            kept_apart(*old(self), *final(self), old(brk).end() as int, block, res),
            reshaped(*old(self), *final(self), block, new_size as int, align, res),
            res is Some ==> retains_apart(old(self).entries(), final(self).entries(), res->0),
            old(self).capacity() >= old(self).entries().len() + 5 && !(block.start % align == 0 && (new_size <= block.size
                || grows_into(old(self).entries(), block, new_size as int))) && has_fit(old(self).entries(), new_size as int, align)
                ==> res is Some && final(brk).end() == old(brk).end() && res->0.start == fit_start(
                old(self).entries()[first_fit(old(self).entries(), new_size as int, align)],
                align,
            ) && tracks(final(self).entries(), block),
            old(self).capacity() >= old(self).entries().len() + 3 && block.start % align == 0
                && (new_size <= block.size || grows_into(old(self).entries(), block, new_size as int))
                ==> res == Some(Block { start: block.start, size: new_size }) && final(brk).end() == old(brk).end(),
    {
        let len = self.pool.len();
        if len > usize::MAX - 3 {
            return None;
        }
        let ghost p0 = self.pool@;
        if !self.reserve(brk, len + 3) {
            return None;
        }
        let ghost pa = self.pool@;
        let ghost buf1 = self.buf;
        let ghost end1 = brk.end();
        proof {
            assert(avoids(pa, block));
            assert(buf1.size > 0);
            lemma_grows_into_kept(p0, pa, block, new_size as int);
        }
        let (l, r) = self.find_bound(&block);
        if block.aligned_to(align) {
            match self.realloc_inplace_bound(l, r, block, new_size) {
                Ok(res) => {
                    proof {
                        assert(avoids(self.pool@, buf1));
                        assert(buf1.disjoint(res));
                        let lo: int = old(brk).end() as int;
                        let a = *old(self);
                        let c = *self;
                        assert forall|x: Block| x.size > 0 && avoids(a.entries(), x) && x.disjoint(a.buffer())
                            && x.disjoint(block) && x.end_spec() <= lo
                            implies #[trigger] avoids(c.entries(), x) && x.disjoint(c.buffer()) && x.disjoint(res) by {
                            assert(avoids(pa, x) && x.disjoint(buf1));
                            assert(avoids(self.pool@, x));
                        }
                        assert(kept_apart(a, c, lo, block, Some(res)));
                    }
                    return Some(res);
                },
                Err(_) => {},
            }
        }
        let ghost s1 = *self;
        let ghost end1 = brk.end();
        let res = self.realloc_move(brk, block, new_size, align);
        proof {
            let lo: int = old(brk).end() as int;
            let a = *old(self);
            let c = *self;
            assert forall|x: Block| x.size > 0 && avoids(a.entries(), x) && x.disjoint(a.buffer())
                && x.disjoint(block) && x.end_spec() <= lo
                implies #[trigger] avoids(c.entries(), x) && x.disjoint(c.buffer()) && match res {
                    Some(b) => x.disjoint(b),
                    None => true,
                } by {
                assert(avoids(pa, x) && x.disjoint(buf1));
                assert(x.end_spec() <= end1);
                lemma_kept_apart_instance(s1, c, end1 as int, block, res, x);
            }
            assert(kept_apart(a, c, lo, block, res));
            if res is Some {
                assert forall|x: Block| x.size > 0 && tracks(p0, x) && x.disjoint(res->0) implies #[trigger] tracks(c.entries(), x) by {
                    assert(tracks(pa, x));
                }
            }
            if block.start % align == 0 && (new_size <= block.size || grows_into(p0, block, new_size as int)) {
                assert(res is None);
            }
        }
        res
    }

    /// Move `block` to a new block of `new_size` bytes aligned to `align`,
    /// then free the old one. Gives `None`, with `block` still held by the
    /// caller, when the breaker has no space to give.
    #[verifier::rlimit(60)]
    fn realloc_move<B: Breaker>(&mut self, brk: &mut B, block: Block, new_size: usize, align: usize) -> (res: Option<Block>)
        requires
            old(self).inv(old(brk).end() as int),
            block.wf(),
            block.size > 0,
            new_size > 0,
            align > 0,
            block.end_spec() <= old(brk).end(),
            avoids(old(self).entries(), block),
            block.disjoint(old(self).buffer()),
        ensures
            final(self).inv(final(brk).end() as int),
            final(brk).end() >= old(brk).end(),
            res is Some ==> served(final(self), res->0, final(brk).end() as int, new_size as int, align)
                && tracks(final(self).entries(), block) && block.disjoint(res->0),
            res is None ==> avoids(final(self).entries(), block) && block.disjoint(final(self).buffer()),
            kept_apart(*old(self), *final(self), old(brk).end() as int, block, res),
            res is Some ==> retains_apart(old(self).entries(), final(self).entries(), res->0),
            old(self).capacity() >= old(self).entries().len() + 5 && has_fit(old(self).entries(), new_size as int, align)
                ==> res is Some && final(brk).end() == old(brk).end() && res->0.start == fit_start(
                old(self).entries()[first_fit(old(self).entries(), new_size as int, align)],
                align,
            ),
    {
        let ghost p0 = self.pool@;
        let len1 = self.pool.len();
        let ghost bm = *old(self);
        let ghost endm = brk.end();
        if len1 > usize::MAX - 5 || !self.reserve(brk, len1 + 5) {
            return None;
        }
        let ghost pa = self.pool@;
        let ghost buf1 = self.buf;
        let ghost end1 = brk.end();
        proof {
            assert(buf1.size > 0);
            assert forall|x: Block| x.size > 0 && avoids(old(self).entries(), x) && x.disjoint(old(self).buffer())
                && x.end_spec() <= old(brk).end() implies #[trigger] avoids(pa, x) && x.disjoint(buf1) by {
                assert(avoids(bm.entries(), x) && x.disjoint(bm.buffer()));
                assert(x.end_spec() <= endm);
                assert(avoids(self.entries(), x));
            }
            assert(avoids(pa, block));
            assert forall|x: Block| x.size > 0 && tracks(p0, x) implies #[trigger] tracks(pa, x) by {
                assert(tracks(bm.entries(), x));
                assert(tracks(self.entries(), x));
            }
        }
        let res = match self.alloc_reserved(brk, new_size, align) {
            Some(res) => res,
            None => {
                return None;
            },
        };
        let ghost pb = self.pool@;
        proof {
            assert(avoids(pb, block));
            assert(avoids(pb, buf1));
        }
        let (l2, r2) = self.find_bound(&block);
        self.free_bound(l2, r2, block);
        proof {
            assert(avoids(self.pool@, buf1));
            assert(avoids(self.pool@, res)) by {
                assert(block.disjoint(res));
            }
            let lo: int = old(brk).end() as int;
            let a = *old(self);
            let c = *self;
            assert forall|x: Block| x.size > 0 && avoids(a.entries(), x) && x.disjoint(a.buffer())
                && x.disjoint(block) && x.end_spec() <= lo
                implies #[trigger] avoids(c.entries(), x) && x.disjoint(c.buffer()) && x.disjoint(res) by {
                assert(avoids(pa, x) && x.disjoint(buf1));
                assert(x.end_spec() <= end1);
                assert(avoids(pb, x));
                assert(avoids(self.pool@, x));
            }
            assert(kept_apart(a, c, lo, block, Some(res)));
            assert(block.disjoint(res));
            assert forall|x: Block| x.size > 0 && tracks(p0, x) && x.disjoint(res) implies #[trigger] tracks(self.pool@, x) by {
                assert(tracks(pa, x));
                assert(tracks(pb, x));
            }
        }
        Some(res)
    }

    /// Hand out every block the bookkeeper holds, consuming it: the pool's
    /// entries from the last to the first, then the span backing the pool.
    pub fn for_each(self) -> (r: Vec<Block>)
        ensures
            r@.len() == self.entries().len() + 1,
            forall|i: int| 0 <= i < self.entries().len() ==> #[trigger] r@[i] == self.entries()[self.entries().len() - 1 - i],
            r@.last() == self.buffer(),
    {
        let mut pool = self.pool;
        let ghost p = pool@;
        let mut out: Vec<Block> = Vec::new();
        while pool.len() > 0
            invariant
                pool@ == p.subrange(0, pool@.len() as int),
                out@.len() + pool@.len() == p.len(),
                forall|i: int| 0 <= i < out@.len() ==> #[trigger] out@[i] == p[p.len() - 1 - i],
            decreases pool@.len(),
        {
            let b = pool.pop().unwrap();
            out.push(b);
            assert(pool@ =~= p.subrange(0, pool@.len() as int));
        }
        out.push(self.buf);
        out
    }

    /// The index of the first entry, in address order, that can serve `size`
    /// bytes aligned to `align`, or the pool's length when none can.
    fn first_fit_index(&self, size: usize, align: usize) -> (n: usize)
        requires
            pool_wf(self.pool@),
            size > 0,
            align > 0,
        ensures
            n <= self.pool@.len(),
            n == self.pool@.len() <==> !has_fit(self.pool@, size as int, align),
            n < self.pool@.len() ==> fits(self.pool@[n as int], size as int, align)
                && n == first_fit(self.pool@, size as int, align),
            forall|j: int| 0 <= j < n ==> !fits(#[trigger] self.pool@[j], size as int, align),
    {
        let ghost p = self.pool@;
        let len = self.pool.len();
        let mut n: usize = len;
        let mut i: usize = 0;
        while i < len && n == len
            invariant
                p == self.pool@,
                len == p.len(),
                pool_wf(p),
                size > 0,
                align > 0,
                i <= len,
                n == len || (n < i && fits(p[n as int], size as int, align)),
                forall|j: int| 0 <= j < i && j != n ==> !fits(#[trigger] p[j], size as int, align),
                n < len ==> forall|j: int| 0 <= j < n ==> !fits(#[trigger] p[j], size as int, align),
            decreases len - i,
        {
            let e = self.pool[i];
            proof {
                assert(p[i as int].wf());
            }
            if e.size >= size {
                match e.align(align) {
                    Some((_, b)) => {
                        if b.size >= size {
                            n = i;
                        }
                    },
                    None => {},
                }
            }
            i = i + 1;
        }
        proof {
            if n == len {
                if has_fit(p, size as int, align) {
                    let j = choose|j: int| 0 <= j < p.len() && fits(#[trigger] p[j], size as int, align);
                    assert(!fits(p[j], size as int, align));
                }
            } else {
                lemma_first_fit(p, size as int, align, n as int);
            }
        }
        n
    }

    /// Allocate `size` bytes aligned to `align`, given room for three more
    /// entries, or four when no entry can serve the request.
    ///
    /// Entries are scanned in address order and the first that holds the
    /// block after its alignment padding serves it: the padding stays free in
    /// its place and the excess behind the block is freed. Without such an
    /// entry, the space is taken fresh from the breaker.
    fn alloc_reserved<B: Breaker>(&mut self, brk: &mut B, size: usize, align: usize) -> (r: Option<Block>)
        requires
            pool_wf(old(self).pool@),
            old(self).pool@.len() + 3 <= old(self).cap,
            has_fit(old(self).pool@, size as int, align) || old(self).pool@.len() + 4 <= old(self).cap,
            pool_top(old(self).pool@) <= old(brk).end(),
            size > 0,
            align > 0,
        ensures
            final(self).cap == old(self).cap,
            final(self).buf == old(self).buf,
            r is None ==> *final(self) == *old(self) && final(brk).end() == old(brk).end(),
            final(brk).end() >= old(brk).end(),
            r is Some ==> final(self).pool@.len() <= old(self).pool@.len() + 2,
            r is Some && has_fit(old(self).pool@, size as int, align) ==> final(self).pool@.len() <= old(self).pool@.len() + 1,
            r is Some ==> retains_apart(old(self).pool@, final(self).pool@, r->0),
            r is Some ==> allocated(
                old(self).pool@,
                final(self).pool@,
                r->0,
                old(brk).end() as int,
                final(brk).end() as int,
                size as int,
                align,
            ),
            has_fit(old(self).pool@, size as int, align) ==> r is Some && final(brk).end() == old(brk).end()
                && r->0.start == fit_start(old(self).pool@[first_fit(old(self).pool@, size as int, align)], align),
            !has_fit(old(self).pool@, size as int, align) ==> (r is Some <==> fresh_granted(old(brk), size, align)),
            !has_fit(old(self).pool@, size as int, align) && r is Some ==> fresh_placed(
                old(self).pool@,
                final(self).pool@,
                r->0,
                old(brk).end() as int,
                final(brk).end() as int,
                size as int,
                align,
            ),
            !has_fit(old(self).pool@, size as int, align) && r is Some ==> from_breaker(
                old(brk).end() as int,
                final(brk).end() as int,
                r->0,
                size as int,
                align,
            ),
    {
        let ghost p = self.pool@;
        let len = self.pool.len();
        let n = self.first_fit_index(size, align);
        if n == len {
            let res = self.alloc_fresh(brk, size, align);
            return res;
        }
        let e = self.pool[n];
        proof {
            assert(p[n as int].wf());
            if has_fit(p, size as int, align) {
                lemma_first_fit(p, size as int, align, n as int);
            }
        }
        let (a, b) = match e.align(align) {
            Some(ab) => ab,
            None => {
                return None;
            },
        };
        if a.size == 0 {
            self.remove_at(n);
        } else {
            self.pool.set(n, a);
        }
        let ghost pa = self.pool@;
        proof {
            // Every free span left is `a` or an entry other than `e`.
            assert forall|i: int| 0 <= i < pa.len() && (#[trigger] pa[i]).size > 0 implies
                (i != n && pa[i] == p[i]) || (i == n && pa[i] == a) by {
                if a.size == 0 {
                    if n == len - 1 {
                        assert(pa[i] == p[i]);
                    } else if pa[i] != p[i] {
                        if i < n {
                            assert(pa[i] == pa[n as int]);
                        }
                    }
                }
            }
            if a.size > 0 {
                assert forall|i: int| 0 <= i < pa.len() implies (#[trigger] pa[i]).wf() by {
                    assert(p[i].wf());
                }
                assert forall|i: int| 0 <= i < pa.len() - 1 implies #[trigger] linked(pa[i], pa[i + 1]) by {
                    assert(linked(p[i], p[i + 1]));
                }
                assert(pa.last().size > 0) by {
                    if n != len - 1 {
                        assert(pa.last() == p.last());
                    }
                }
            }
            assert forall|i: int| 0 <= i < p.len() && i != n && (#[trigger] p[i]).size > 0 implies p[i].disjoint(e) by {
                if i < n {
                    lemma_ordered(p, i, n as int);
                } else {
                    lemma_ordered(p, n as int, i);
                }
            }
            assert(pool_top(pa) <= pool_top(p)) by {
                if pa.len() > 0 {
                    if pa.len() - 1 == n {
                        lemma_below_top(p, n as int);
                    } else {
                        assert(pa.last() == p[pa.len() - 1]);
                        lemma_below_top(p, pa.len() - 1);
                    }
                }
            }
        }
        let (res, excessive) = b.split(size);
        proof {
            assert(avoids(pa, res));
            assert forall|x: Block| x.size > 0 && avoids(p, x) implies #[trigger] avoids(pa, x) && x.disjoint(res) by {
                assert(p[n as int].disjoint(x));
                assert forall|i: int| 0 <= i < pa.len() && (#[trigger] pa[i]).size > 0 implies pa[i].disjoint(x) by {
                    if i != n {
                        assert(p[i].size > 0);
                    }
                }
            }
            lemma_below_top(p, n as int);
        }
        if excessive.size > 0 {
            proof {
                assert(avoids(pa, excessive));
            }
            let (l, r) = self.find_bound(&excessive);
            self.free_bound(l, r, excessive);
            proof {
                let q = self.pool@;
                assert(avoids(q, res)) by {
                    assert(res.disjoint(excessive));
                }
                assert forall|x: Block| x.size > 0 && avoids(p, x) && x.end_spec() <= brk.end() implies #[trigger] avoids(q, x) && x.disjoint(res) by {
                    assert(avoids(pa, x));
                    assert(p[n as int].disjoint(x));
                }
            }
        }
        proof {
            let q = self.pool@;
            assert forall|x: Block| x.size > 0 && tracks(p, x) && x.disjoint(res) implies #[trigger] tracks(q, x) by {
                let i = choose|i: int| 0 <= i < p.len() && x.within(#[trigger] p[i]);
                if i != n {
                    if a.size == 0 {
                        lemma_removed_keeps(p, pa, n as int, i);
                    }
                    assert(x.within(pa[i]));
                    assert(tracks(pa, x));
                } else if x.end_spec() <= res.start {
                    assert(x.within(pa[n as int]));
                    assert(tracks(pa, x));
                } else {
                    assert(x.within(excessive));
                    let j = choose|j: int| 0 <= j < q.len() && excessive.within(#[trigger] q[j]);
                    assert(x.within(q[j]));
                }
            }
        }
        Some(res)
    }

    /// Return `block` to the pool, given its merge range `(l, r)`.
    ///
    /// It is merged into the free neighbour on its right, then into the one
    /// on its left, and inserted as an entry of its own where neither touches
    /// it. At most one entry is added; an empty block changes nothing.
    fn free_bound(&mut self, l: usize, r: usize, block: Block)
        requires
            pool_wf(old(self).pool@),
            old(self).pool@.len() < old(self).cap,
            block.size > 0 ==> block.wf() && bound_of(old(self).pool@, block, l as int, r as int),
        ensures
            pool_wf(final(self).pool@),
            final(self).cap == old(self).cap,
            final(self).buf == old(self).buf,
            final(self).pool@.len() <= old(self).pool@.len() + 1,
            block.size > 0 ==> pool_top(final(self).pool@) == if l == old(self).pool@.len() {
                block.end_spec()
            } else {
                pool_top(old(self).pool@)
            },
            keeps_out(old(self).pool@, final(self).pool@, block),
            block.size > 0 ==> tracks(final(self).pool@, block),
            block.size == 0 ==> *final(self) == *old(self),
            retains(old(self).pool@, final(self).pool@),
    {
        if block.size == 0 {
            return;
        }
        let ghost p = self.pool@;
        if l == self.pool.len() {
            proof {
                if l > 0 {
                    assert(p[l - 1].end_spec() <= block.start);
                }
            }
            self.push(block);
            return;
        }
        assert(p[r as int].wf());
        if r < self.pool.len() && block.left_to(&self.pool[r]) {
            let mut b = block;
            let mut right = self.remove_at(r);
            let ghost q = self.pool@;
            proof {
                lemma_removed_avoids(p, q, r as int);
                if r == p.len() - 1 {
                    if q.len() > l {
                        assert(q[q.len() - 1] == p[q.len() - 1]);
                    }
                    assert(q.len() == l);
                } else {
                    if l > 0 {
                        assert(q[l - 1] == p[l - 1]);
                    }
                }
            }
            let ok = b.merge_right(&mut right);
            assert(ok is Ok);
            if l != 0 {
                let mut left = self.pool[l - 1];
                let ghost b0 = b;
                if left.merge_right(&mut b).is_ok() {
                    self.pool.set(l - 1, left);
                    proof {
                        let q2 = self.pool@;
                        assert forall|i: int| 0 <= i < q2.len() implies (#[trigger] q2[i]).wf() by {
                            assert(q[i].wf());
                        }
                        assert forall|i: int| 0 <= i < q2.len() - 1 implies #[trigger] linked(q2[i], q2[i + 1]) by {
                            assert(linked(q[i], q[i + 1]));
                            if i == l - 1 {
                                if r != p.len() - 1 {
                                    assert(q[l as int].start == p[r + 1].start);
                                    assert(p[r as int].end_spec() < p[r + 1].start) by {
                                        assert(linked(p[r as int], p[r + 1]));
                                    }
                                }
                            }
                        }
                        assert(q2.len() > 0 ==> q2.last().size > 0) by {
                            if q2.len() - 1 != l - 1 {
                                assert(q2.last() == q.last());
                            }
                        }
                        assert forall|x: Block| x.size > 0 && avoids(p, x) && x.disjoint(block) implies #[trigger] avoids(q2, x) by {
                            assert(avoids(q, x));
                            assert(p[r as int].disjoint(x));
                            assert forall|i: int| 0 <= i < q2.len() && (#[trigger] q2[i]).size > 0 implies q2[i].disjoint(x) by {
                                if i == l - 1 {
                                    assert(q[i].disjoint(x));
                                } else {
                                    assert(q[i].size > 0);
                                }
                            }
                        }
                        if r == p.len() - 1 {
                            assert(pool_top(q2) == p[r as int].end_spec());
                        } else {
                            assert(q2.last() == p.last());
                        }
                        assert(block.within(q2[l - 1]));
                        assert forall|x: Block| x.size > 0 && tracks(p, x) implies #[trigger] tracks(q2, x) by {
                            let i = choose|i: int| 0 <= i < p.len() && x.within(#[trigger] p[i]);
                            if i == r {
                                assert(x.within(q2[l - 1]));
                            } else {
                                lemma_removed_keeps(p, q, r as int, i);
                                assert(x.within(q2[i]));
                            }
                        }
                    }
                    return;
                }
            }
            proof {
                if l > 0 {
                    assert(q[l - 1].end_spec() < b.start);
                }
                if l < q.len() {
                    assert(linked(p[r as int], p[r + 1]));
                }
            }
            self.insert(l, b);
            proof {
                let q2 = self.pool@;
                assert forall|x: Block| x.size > 0 && avoids(p, x) && x.disjoint(block) implies #[trigger] avoids(q2, x) by {
                    assert(avoids(q, x));
                    assert(p[r as int].disjoint(x));
                    assert(x.disjoint(b));
                    assert(avoids(q2, x));
                }
                if r == p.len() - 1 {
                    assert(pool_top(q2) == b.end_spec());
                }
                lemma_tracks_inserted(q2, b, l as int);
                assert forall|x: Block| x.size > 0 && tracks(p, x) implies #[trigger] tracks(q2, x) by {
                    let i = choose|i: int| 0 <= i < p.len() && x.within(#[trigger] p[i]);
                    if i == r {
                        assert(x.within(q2[l as int]));
                    } else {
                        lemma_removed_keeps(p, q, r as int, i);
                        assert(x.within(q[i]));
                        assert(tracks(q, x));
                    }
                }
            }
            return;
        }
        if l != 0 {
            let mut left = self.pool[l - 1];
            let mut b = block;
            proof {
                assert(p[l - 1].wf());
            }
            if left.merge_right(&mut b).is_ok() {
                self.pool.set(l - 1, left);
                proof {
                    let q2 = self.pool@;
                    assert forall|i: int| 0 <= i < q2.len() implies (#[trigger] q2[i]).wf() by {
                        assert(p[i].wf());
                    }
                    assert forall|i: int| 0 <= i < q2.len() - 1 implies #[trigger] linked(q2[i], q2[i + 1]) by {
                        assert(linked(p[i], p[i + 1]));
                        if i == l - 1 {
                            assert(p[l as int].start == p[r as int].start);
                        }
                    }
                    assert(q2.last() == p.last());
                    assert forall|x: Block| x.size > 0 && avoids(p, x) && x.disjoint(block) implies #[trigger] avoids(q2, x) by {
                        assert forall|i: int| 0 <= i < q2.len() && (#[trigger] q2[i]).size > 0 implies q2[i].disjoint(x) by {
                            if i == l - 1 {
                                assert(p[i].disjoint(x));
                            } else {
                                assert(p[i].size > 0);
                            }
                        }
                    }
                    assert(block.within(q2[l - 1]));
                    assert forall|x: Block| x.size > 0 && tracks(p, x) implies #[trigger] tracks(q2, x) by {
                        let i = choose|i: int| 0 <= i < p.len() && x.within(#[trigger] p[i]);
                        assert(x.within(q2[i]));
                    }
                }
                return;
            }
        }
        proof {
            if l > 0 {
                assert(p[l - 1].end_spec() < block.start);
            }
            assert(p[l as int].start == p[r as int].start);
        }
        self.insert(l, block);
        proof {
            lemma_tracks_inserted(self.pool@, block, l as int);
        }
    }
}

/// `c` is the pool `a` after fresh space from `lo` to `hi` was placed in it:
/// `res` has `size` bytes and is aligned, starts after the padding that the
/// alignment needs, and is not free; the padding and the surplus are free;
/// every span below `lo` that `a` did not track, `c` does not track either.
pub open spec fn fresh_placed(a: Seq<Block>, c: Seq<Block>, res: Block, lo: int, hi: int, size: int, align: usize) -> bool {
    &&& pool_wf(c)
    &&& c.len() <= a.len() + 2
    &&& res.size == size
    &&& res.start == lo + aligner_spec(lo as usize, align)
    &&& res.start % align == 0
    &&& res.wf()
    &&& res.end_spec() <= hi
    &&& pool_top(c) <= hi
    &&& avoids(c, res)
    &&& forall|x: Block| x.size > 0 && avoids(a, x) && x.end_spec() <= lo ==> #[trigger] avoids(c, x)
    &&& retains(a, c)
    &&& res.start > lo ==> tracks(c, Block { start: lo as usize, size: (res.start - lo) as usize })
    &&& hi > res.end_spec() ==> tracks(c, Block { start: res.end_spec() as usize, size: (hi - res.end_spec()) as usize })
}

/// The breaker can serve a fresh request for `size` bytes aligned to
/// `align`: the canonical size plus the padding that aligns the segment's
/// end fits in the address space, and the breaker grants that much.
pub open spec fn fresh_granted<B: Breaker>(brk: &B, size: usize, align: usize) -> bool {
    &&& size <= usize::MAX - BRK_MIN_EXTRA
    &&& canonical_spec(size as int) + aligner_spec(brk.end() as usize, align) <= usize::MAX
    &&& brk.grants((canonical_spec(size as int) + aligner_spec(brk.end() as usize, align)) as usize)
}

/// After a growth from `a` to `c`, with the segment's end at `top` before:
/// every span below `top` outside `a`'s pool and buffer is outside `c`'s pool
/// and buffer, and a buffer that changed lies at or above `top`.
pub open spec fn grown(a: &Bookkeeper, c: &Bookkeeper, top: int) -> bool {
    &&& forall|x: Block| x.size > 0 && avoids(a.entries(), x) && x.disjoint(a.buffer()) && x.end_spec() <= top
        ==> #[trigger] avoids(c.entries(), x) && x.disjoint(c.buffer())
    &&& c.buffer() == a.buffer() || c.buffer().start >= top
}

/// `c` is the pool `a` after `res` was allocated, with the segment's end at
/// `lo` before and at `hi` after: `res` has `size` bytes, is aligned, lies
/// below `hi`, and is not free; every span below `lo` that `a` did not track
/// stays untracked and shares no address with `res`.
pub open spec fn allocated(a: Seq<Block>, c: Seq<Block>, res: Block, lo: int, hi: int, size: int, align: usize) -> bool {
    &&& pool_wf(c)
    &&& res.size == size
    &&& res.start % align == 0
    &&& res.wf()
    &&& res.end_spec() <= hi
    &&& pool_top(c) <= hi
    &&& avoids(c, res)
    &&& forall|x: Block| x.size > 0 && avoids(a, x) && x.end_spec() <= lo ==> #[trigger] avoids(c, x) && x.disjoint(res)
}

/// `res` came from the breaker, whose segment ended at `lo` and now ends at
/// `hi`: the request was the canonical size plus the padding that aligns the
/// old end, and `res` starts right after that padding.
pub open spec fn from_breaker(lo: int, hi: int, res: Block, size: int, align: usize) -> bool {
    &&& hi == lo + canonical_spec(size) + aligner_spec(lo as usize, align)
    &&& res.start == lo + aligner_spec(lo as usize, align)
}

/// `res` is a block of `size` bytes, aligned to `align`, below `hi`, and
/// neither free in `bk` nor part of its buffer.
pub open spec fn served(bk: &Bookkeeper, res: Block, hi: int, size: int, align: usize) -> bool {
    &&& res.size == size
    &&& res.start % align == 0
    &&& res.wf()
    &&& res.end_spec() <= hi
    &&& avoids(bk.entries(), res)
    &&& res.disjoint(bk.buffer())
}

/// Every span below `lo` that `a` neither tracked nor used as its buffer,
/// `c` does not track or use either, and it shares no address with the
/// block handed out, if any.
pub open spec fn kept(a: &Bookkeeper, c: &Bookkeeper, lo: int, r: Option<Block>) -> bool {
    forall|x: Block| x.size > 0 && avoids(a.entries(), x) && x.disjoint(a.buffer()) && x.end_spec() <= lo
        ==> #[trigger] avoids(c.entries(), x) && x.disjoint(c.buffer()) && match r {
            Some(b) => x.disjoint(b),
            None => true,
        }
}

/// Like `kept`, for the spans that also share no address with `block`.
pub open spec fn kept_apart(a: Bookkeeper, c: Bookkeeper, lo: int, block: Block, r: Option<Block>) -> bool {
    forall|x: Block| x.size > 0 && avoids(a.entries(), x) && x.disjoint(a.buffer()) && x.disjoint(block)
        && x.end_spec() <= lo
        ==> #[trigger] avoids(c.entries(), x) && x.disjoint(c.buffer()) && match r {
            Some(b) => x.disjoint(b),
            None => true,
        }
}

/// The block of a successful result.
pub open spec fn ok_of(r: Result<Block, Block>) -> Option<Block> {
    match r {
        Ok(b) => Some(b),
        Err(_) => None,
    }
}

/// What a reallocation of `block` to `new_size` bytes promises about its
/// result `res`, taking the bookkeeper from `a` to `c`: the result is not
/// free; an aligned block that shrinks, or that the free span after it can
/// grow, stays where it is; a block that shrank in place left its tail free.
pub open spec fn reshaped(a: Bookkeeper, c: Bookkeeper, block: Block, new_size: int, align: usize, res: Option<Block>) -> bool {
    &&& res is Some ==> avoids(c.entries(), res->0) && res->0.size == new_size && res->0.wf()
    &&& res is Some && block.start % align == 0 && (new_size <= block.size || grows_into(a.entries(), block, new_size))
        ==> res->0.start == block.start
    &&& res is Some && res->0.start == block.start && new_size < block.size
        ==> tracks(c.entries(), Block { start: (block.start + new_size) as usize, size: (block.size - new_size) as usize })
}

/// Freeing two adjacent blocks, in either order, leaves them in one entry.
///
/// `mid` is the pool after the first block was freed, `after` the pool after
/// the second: what `free` promises (each freed block is held by an entry,
/// earlier free spans stay free, the pool keeps its shape) makes one entry
/// hold both, never two entries side by side.
pub proof fn lemma_free_adjacent_coalesces(mid: Seq<Block>, after: Seq<Block>, first: Block, second: Block)
    requires
        pool_wf(after),
        retains(mid, after),
        tracks(mid, first),
        tracks(after, second),
        first.size > 0,
        second.size > 0,
        first.left_to_spec(second) || second.left_to_spec(first),
    ensures
        exists|i: int| 0 <= i < after.len() && #[trigger] first.within(after[i]) && second.within(after[i]),
{
    assert(tracks(after, first));
    let i = choose|i: int| 0 <= i < after.len() && first.within(#[trigger] after[i]);
    let j = choose|j: int| 0 <= j < after.len() && second.within(#[trigger] after[j]);
    if i < j {
        lemma_ordered(after, i, j);
    } else if j < i {
        lemma_ordered(after, j, i);
    }
    assert(first.within(after[i]) && second.within(after[i]));
}

/// Freeing two adjacent blocks, in either order, leaves exactly their union
/// as one free entry, when the bytes just outside the union were neither
/// free nor the pool's buffer beforehand and lie below the segment's end.
///
/// `a`, `b` and `c` are the bookkeeper before the first free, between the
/// two, and after the second; `lo_a` and `lo_b` are the segment's end before
/// each free. The requirements on them are what `free` promises.
pub proof fn lemma_free_adjacent_exact(
    a: Bookkeeper,
    b: Bookkeeper,
    c: Bookkeeper,
    lo_a: int,
    lo_b: int,
    first: Block,
    second: Block,
)
    requires
        pool_wf(c.entries()),
        retains(b.entries(), c.entries()),
        tracks(b.entries(), first),
        tracks(c.entries(), second),
        kept_apart(a, b, lo_a, first, None),
        kept_apart(b, c, lo_b, second, None),
        lo_a <= lo_b,
        first.size > 0,
        second.size > 0,
        first.left_to_spec(second) || second.left_to_spec(first),
        union_of(first, second).end_spec() < lo_a,
        union_of(first, second).start > 0 ==> avoids(a.entries(), byte_before(union_of(first, second)))
            && byte_before(union_of(first, second)).disjoint(a.buffer()),
        avoids(a.entries(), byte_after(union_of(first, second))),
        byte_after(union_of(first, second)).disjoint(a.buffer()),
    ensures
        exists|i: int| 0 <= i < c.entries().len() && #[trigger] c.entries()[i] == union_of(first, second),
{
    let u = union_of(first, second);
    lemma_free_adjacent_coalesces(b.entries(), c.entries(), first, second);
    let i = choose|i: int| 0 <= i < c.entries().len() && #[trigger] first.within(c.entries()[i]) && second.within(c.entries()[i]);
    let e = c.entries()[i];
    let r = byte_after(u);
    assert(r.disjoint(first) && r.disjoint(second) && r.size > 0 && r.end_spec() <= lo_a);
    lemma_kept_apart_instance(a, b, lo_a, first, None, r);
    assert(avoids(c.entries(), r));
    assert(e.disjoint(r));
    if u.start > 0 {
        let l = byte_before(u);
        assert(l.disjoint(first) && l.disjoint(second) && l.size > 0 && l.end_spec() <= lo_a);
        lemma_kept_apart_instance(a, b, lo_a, first, None, l);
        assert(avoids(c.entries(), l));
        assert(e.disjoint(l));
    }
    assert(e == u);
}

/// One instance of `kept_apart`.
proof fn lemma_kept_apart_instance(a: Bookkeeper, c: Bookkeeper, lo: int, block: Block, r: Option<Block>, x: Block)
    requires
        kept_apart(a, c, lo, block, r),
        x.size > 0,
        avoids(a.entries(), x),
        x.disjoint(a.buffer()),
        x.disjoint(block),
        x.end_spec() <= lo,
    ensures
        avoids(c.entries(), x),
        x.disjoint(c.buffer()),
        match r {
            Some(b) => x.disjoint(b),
            None => true,
        },
{
    assert(avoids(c.entries(), x));
}

/// The span that two adjacent blocks cover together.
pub open spec fn union_of(x: Block, y: Block) -> Block {
    if x.start <= y.start {
        Block { start: x.start, size: (x.size + y.size) as usize }
    } else {
        Block { start: y.start, size: (x.size + y.size) as usize }
    }
}

/// The one byte just before `b`.
pub open spec fn byte_before(b: Block) -> Block {
    Block { start: (b.start - 1) as usize, size: 1 }
}

/// The one byte just after `b`.
pub open spec fn byte_after(b: Block) -> Block {
    Block { start: b.end_spec() as usize, size: 1 }
}

/// Shrinking a block and growing it back to its old size leaves it in place.
///
/// Two reallocations in a row, with nothing in between, the first to a size
/// no larger than the block's and the second back to the block's size, both
/// at the block's own alignment, give blocks that start where it did.
pub proof fn lemma_shrink_grow_in_place(
    a: Bookkeeper,
    b: Bookkeeper,
    c: Bookkeeper,
    block: Block,
    small: int,
    align: usize,
    r1: Block,
    r2: Block,
)
    requires
        block.wf(),
        0 < small <= block.size,
        align > 0,
        block.start % align == 0,
        reshaped(a, b, block, small, align, Some(r1)),
        reshaped(b, c, r1, block.size as int, align, Some(r2)),
    ensures
        r1.start == block.start,
        r2.start == block.start,
{
    assert(r1.start % align == 0);
    if small < block.size {
        let tail = Block { start: (block.start + small) as usize, size: (block.size - small) as usize };
        let j = choose|j: int| 0 <= j < b.entries().len() && tail.within(#[trigger] b.entries()[j]);
        assert(b.entries()[j].size > 0);
        assert(b.entries()[j].disjoint(r1));
        assert(grows_into(b.entries(), r1, block.size as int));
    }
}

} // verus!
