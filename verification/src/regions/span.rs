use vstd::prelude::*;

verus! {

/// Identifies a contiguous region of a document by half-open byte offsets.
#[derive(Copy, Clone, Debug, PartialEq, Eq, Structural)]
pub struct Span {
    /// The offset of the first byte being described
    pub start: usize,
    /// The offset just past the last byte being described
    pub end: usize,
}

impl Span {
    /// A span never ends before it starts.
    pub open spec fn wf(self) -> bool {
        self.start <= self.end
    }

    /// A well-formed span that lies inside a buffer of `len` bytes.
    pub open spec fn within(self, len: int) -> bool {
        self.start <= self.end && self.end <= len
    }

    pub fn new(start: usize, end: usize) -> (span: Self)
        requires
            start <= end,
        ensures
            span.start == start,
            span.end == end,
            span.wf(),
    {
        Self { start, end }
    }

    /// Borrows the bytes that the span covers.
    pub fn slice<'a>(&self, input: &'a [u8]) -> (bytes: &'a [u8])
        requires
            self.within(input@.len() as int),
        ensures
            bytes@ == input@.subrange(self.start as int, self.end as int),
    {
        vstd::slice::slice_subrange(input, self.start, self.end)
    }
}

} // verus!
