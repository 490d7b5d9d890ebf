//! The supplier of fresh address space.
use vstd::prelude::*;

verus! {

/// Supplies brand-new address space by extending a segment upwards.
///
/// All memory the bookkeeper handles lies below the segment's end, so each
/// extension yields a span above everything it tracks.
pub trait Breaker {
    /// The current end of the managed segment.
    spec fn end(&self) -> nat;

    /// Whether the segment can grow by `additional` bytes now.
    spec fn grants(&self, additional: usize) -> bool;

    /// The current end of the segment.
    fn segment_end(&self) -> (r: usize)
        ensures
            r == self.end(),
    ;

    /// Grow the segment by `additional` bytes, giving the previous end.
    ///
    /// `None` means that the space is exhausted; the segment then stays as it was.
    fn extend_segment(&mut self, additional: usize) -> (r: Option<usize>)
        ensures
            r is Some <==> old(self).grants(additional),
            match r {
                Some(p) => {
                    &&& p == old(self).end()
                    &&& final(self).end() == old(self).end() + additional
                    &&& final(self).end() <= usize::MAX
                },
                None => final(self).end() == old(self).end(),
            },
    ;
}

/// A segment of address space that grows up to a fixed limit.
#[derive(Clone, Copy, Debug, PartialEq, Eq, Structural)]
pub struct Segment {
    /// The current end.
    pub end: usize,
    /// The end may not pass this address.
    pub limit: usize,
}

impl Segment {
    /// An empty segment at `start` that may grow up to `limit`.
    pub fn new(start: usize, limit: usize) -> (r: Segment)
        ensures
            r.end == start,
            r.limit == limit,
    {
        Segment { end: start, limit }
    }
}

impl Breaker for Segment {
    open spec fn end(&self) -> nat {
        self.end as nat
    }

    open spec fn grants(&self, additional: usize) -> bool {
        self.end + additional <= self.limit
    }

    fn segment_end(&self) -> (r: usize) {
        self.end
    }

    fn extend_segment(&mut self, additional: usize) -> (r: Option<usize>)
        ensures
            final(self).limit == old(self).limit,
    {
        if self.end <= self.limit && additional <= self.limit - self.end {
            let p = self.end;
            self.end = self.end + additional;
            Some(p)
        } else {
            None
        }
    }
}

} // verus!
