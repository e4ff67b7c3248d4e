//! Byte ranges in the global position space of a source map.
use vstd::prelude::*;

verus! {

/// A half-open byte range `start..end` in a source map's global position
/// space. `start <= end` always holds; an empty span marks a zero-width point.
#[derive(Clone, Copy, Debug, PartialEq, Eq, Structural, Hash)]
pub struct Span {
    start: u32,
    end: u32,
}

impl Span {
    /// The first byte of the span.
    pub closed spec fn lo(self) -> u32 {
        self.start
    }

    /// The byte just past the span.
    pub closed spec fn hi(self) -> u32 {
        self.end
    }

    #[verifier::type_invariant]
    spec fn ordered(self) -> bool {
        self.start <= self.end
    }

    /// The span covering `start..end`; the two are swapped if `start > end`,
    /// so construction never fails.
    pub fn new(start: u32, end: u32) -> (span: Span)
        ensures
            span.lo() == if start <= end {
                start
            } else {
                end
            },
            span.hi() == if start <= end {
                end
            } else {
                start
            },
    {
        if start <= end {
            Span { start, end }
        } else {
            Span { start: end, end: start }
        }
    }

    /// The zero-width span at `at`.
    pub fn empty(at: u32) -> (span: Span)
        ensures
            span.lo() == at,
            span.hi() == at,
    {
        Span { start: at, end: at }
    }

    /// The first byte of the span.
    pub fn start(self) -> (pos: u32)
        ensures
            pos == self.lo(),
            self.lo() <= self.hi(),
    {
        proof {
            use_type_invariant(&self);
        }
        self.start
    }

    /// The byte just past the span.
    pub fn end(self) -> (pos: u32)
        ensures
            pos == self.hi(),
            self.lo() <= self.hi(),
    {
        proof {
            use_type_invariant(&self);
        }
        self.end
    }
}

} // verus!
