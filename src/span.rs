use crate::position::Position;
use vstd::prelude::*;

verus! {

/// A half-open range `[start, end)` of source positions.
#[derive(Clone, Copy, PartialEq, Eq, Structural, Hash, Default, Debug)]
pub struct Span {
    /// First position of the range.
    pub start: Position,
    /// Position just after the range.
    pub end: Position,
}

impl Span {
    /// Create the span `[start, end)`.
    pub fn new(start: Position, end: Position) -> (r: Span)
        ensures
            r.start == start,
            r.end == end,
    {
        Span { start, end }
    }

    /// The empty span that starts and ends at `pos`.
    pub fn at(pos: Position) -> (r: Span)
        ensures
            r.start == pos,
            r.end == pos,
    {
        Span { start: pos, end: pos }
    }

    /// First position of the span.
    pub fn start(&self) -> (r: Position)
        ensures
            r == self.start,
    {
        self.start
    }

    /// Position just after the span.
    pub fn end(&self) -> (r: Position)
        ensures
            r == self.end,
    {
        self.end
    }

    /// Extend the span over the character `c`: the end moves past `c`, the
    /// start stays.
    pub fn push(&mut self, c: char)
        ensures
            final(self).start == old(self).start,
            final(self).end == old(self).end.next_spec(c),
    {
        self.end = self.end.next(c);
    }
}

} // verus!
