//! Spans of address space.
use vstd::prelude::*;

verus! {

/// The padding to add to `ptr` so that it becomes a multiple of `align`.
///
/// An address that is already aligned needs no padding.
pub fn aligner(ptr: usize, align: usize) -> (r: usize)
    requires
        align > 0,
    ensures
        r == aligner_spec(ptr, align),
        r < align,
        (ptr + r) % (align as int) == 0,
{
    let rem = ptr % align;
    let r = if rem == 0 { 0 } else { align - rem };
    proof {
        lemma_pad_aligns(ptr as int, align as int);
    }
    r
}

/// Rounding an address up by its padding gives a multiple of the alignment.
proof fn lemma_pad_aligns(p: int, a: int)
    requires
        p >= 0,
        a > 0,
    ensures
        (p + (a - p % a) % a) % a == 0,
        (a - p % a) % a == if p % a == 0 { 0 } else { a - p % a },
{
    vstd::arithmetic::div_mod::lemma_fundamental_div_mod(p, a);
    let q = p / a;
    let r = p % a;
    if r == 0 {
        vstd::arithmetic::div_mod::lemma_mod_self_0(a);
        assert((a - r) % a == 0);
    } else {
        vstd::arithmetic::div_mod::lemma_small_mod((a - r) as nat, a as nat);
        assert(p + (a - r) == (q + 1) * a) by (nonlinear_arith)
            requires
                p == a * q + r,
        ;
        vstd::arithmetic::div_mod::lemma_mod_multiples_basic(q + 1, a);
    }
}

/// A contiguous span of address space: `size` bytes from `start`.
///
/// A block of size zero is empty: a placeholder, never an allocation.
#[derive(Clone, Copy, Debug, PartialEq, Eq, Structural)]
pub struct Block {
    /// The first address of the span.
    pub start: usize,
    /// The length of the span in bytes.
    pub size: usize,
}

impl Block {
    /// The address just past the span.
    pub open spec fn end_spec(self) -> int {
        self.start + self.size
    }

    /// The span fits in the address space.
    pub open spec fn wf(self) -> bool {
        self.start + self.size <= usize::MAX
    }

    /// `self` ends exactly where `other` starts.
    pub open spec fn left_to_spec(self, other: Block) -> bool {
        self.start + self.size == other.start
    }

    /// The two spans share no address.
    pub open spec fn disjoint(self, other: Block) -> bool {
        self.end_spec() <= other.start || other.end_spec() <= self.start
    }

    /// `self` lies within `other`.
    pub open spec fn within(self, other: Block) -> bool {
        other.start <= self.start && self.end_spec() <= other.end_spec()
    }

    /// The address just past the span.
    pub fn end(&self) -> (r: usize)
        requires
            self.wf(),
        ensures
            r == self.end_spec(),
    {
        self.start + self.size
    }

    /// Whether the block is empty.
    pub fn is_empty(&self) -> (r: bool)
        ensures
            r == (self.size == 0),
    {
        self.size == 0
    }

    /// The empty block at the start of this one.
    pub fn empty_left(&self) -> (r: Block)
        ensures
            r.start == self.start,
            r.size == 0,
    {
        Block { start: self.start, size: 0 }
    }

    /// The empty block at the end of this one.
    pub fn empty_right(&self) -> (r: Block)
        requires
            self.wf(),
        ensures
            r.start == self.end_spec(),
            r.size == 0,
    {
        Block { start: self.start + self.size, size: 0 }
    }

    /// Whether `self` ends exactly where `other` starts.
    pub fn left_to(&self, other: &Block) -> (r: bool)
        requires
            self.wf(),
        ensures
            r == self.left_to_spec(*other),
    {
        self.start + self.size == other.start
    }

    /// Whether the start address is a multiple of `align`.
    pub fn aligned_to(&self, align: usize) -> (r: bool)
        requires
            align > 0,
        ensures
            r == (self.start % align == 0),
    {
        self.start % align == 0
    }

    /// Split into the first `at` bytes and the rest.
    pub fn split(self, at: usize) -> (r: (Block, Block))
        requires
            self.wf(),
            at <= self.size,
        ensures
            r.0 == (Block { start: self.start, size: at }),
            r.1 == (Block { start: (self.start + at) as usize, size: (self.size - at) as usize }),
            r.0.wf(),
            r.1.wf(),
    {
        (Block { start: self.start, size: at }, Block { start: self.start + at, size: self.size - at })
    }

    /// Split so that the second part starts at the next multiple of `align`.
    ///
    /// Gives `None` when the padding is longer than the block.
    pub fn align(self, align: usize) -> (r: Option<(Block, Block)>)
        requires
            self.wf(),
            align > 0,
        ensures
            match r {
                Some((a, b)) => {
                    &&& a == (Block { start: self.start, size: aligner_spec(self.start, align) as usize })
                    &&& b.start == self.start + aligner_spec(self.start, align)
                    &&& b.size == self.size - aligner_spec(self.start, align)
                    &&& b.start % align == 0
                    &&& a.wf() && b.wf()
                },
                None => aligner_spec(self.start, align) > self.size,
            },
    {
        let pad = aligner(self.start, align);
        if pad <= self.size {
            Some(self.split(pad))
        } else {
            None
        }
    }

    /// Append `other` to `self` when `self` ends where `other` starts.
    ///
    /// On success `other` is left empty at the end of the merged span; on
    /// failure neither block changes.
    pub fn merge_right(&mut self, other: &mut Block) -> (r: Result<(), ()>)
        requires
            old(self).wf(),
            old(other).wf(),
        ensures
            r is Ok <==> old(self).left_to_spec(*old(other)),
            r is Ok ==> *final(self) == (Block {
                start: old(self).start,
                size: (old(self).size + old(other).size) as usize,
            }) && *final(other) == (Block { start: old(other).end_spec() as usize, size: 0 }),
            r is Err ==> *final(self) == *old(self) && *final(other) == *old(other),
            final(self).wf(),
            final(other).wf(),
    {
        if self.left_to(other) {
            self.size = self.size + other.size;
            *other = Block { start: self.start + self.size, size: 0 };
            Ok(())
        } else {
            Err(())
        }
    }
}

/// The padding that `aligner` computes.
pub open spec fn aligner_spec(ptr: usize, align: usize) -> int {
    (align - ptr % align) % (align as int)
}

} // verus!
