//! Byte ranges over the input buffer.

use vstd::prelude::*;

verus! {

/// A half-open range of byte offsets into the input buffer.
#[derive(Clone, Copy, Debug, PartialEq, Eq, Structural)]
pub struct Span {
    pub start: usize,
    pub end: usize,
}

impl Span {
    /// The range lies inside a buffer of `len` bytes.
    pub open spec fn within(self, len: int) -> bool {
        self.start <= self.end <= len
    }

    /// The range from `start` up to, not including, `end`.
    pub fn new(start: usize, end: usize) -> (span: Span)
        ensures
            span == (Span { start, end }),
    {
        Span { start, end }
    }

    /// The empty range at `location`.
    pub fn point(location: usize) -> (span: Span)
        ensures
            span == (Span { start: location, end: location }),
    {
        Span { start: location, end: location }
    }
}

} // verus!
