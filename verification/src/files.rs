use vstd::prelude::*;

verus! {

/// Identifies a loaded source file.
#[derive(Clone, Copy, Debug, PartialEq, Eq, Hash, Structural)]
pub struct FileId(pub u32);

/// A half-open range `start..end` of byte offsets into a source file.
#[derive(Clone, Copy, Debug, PartialEq, Eq, Structural)]
pub struct ByteRange {
    pub start: usize,
    pub end: usize,
}

/// A byte range in a given file.
#[derive(Clone, Copy, Debug, PartialEq, Eq, Structural)]
pub struct Span {
    pub range: ByteRange,
    pub fid: FileId,
}

pub open spec fn min_usize(a: usize, b: usize) -> usize {
    if a <= b { a } else { b }
}

pub open spec fn max_usize(a: usize, b: usize) -> usize {
    if a >= b { a } else { b }
}

/// The empty span at the start of `s`.
pub open spec fn span_before(s: Span) -> Span {
    Span { range: ByteRange { start: s.range.start, end: s.range.start }, fid: s.fid }
}

/// The empty span at the end of `s`.
pub open spec fn span_after(s: Span) -> Span {
    Span { range: ByteRange { start: s.range.end, end: s.range.end }, fid: s.fid }
}

/// The smallest span covering both spans.
pub open spec fn span_merge(a: Span, b: Span) -> Span {
    Span { range: ByteRange { start: min_usize(a.range.start, b.range.start), end: max_usize(a.range.end, b.range.end) }, fid: b.fid }
}

impl Span {
    pub fn new(range: ByteRange, fid: FileId) -> (s: Self)
        ensures
            s.range == range,
            s.fid == fid,
    {
        Span { range, fid }
    }

    /// The smallest span covering both spans; both must lie in the same file.
    pub fn merge(self, other: Span) -> (s: Self)
        requires
            self.fid == other.fid,
        ensures
            s == span_merge(self, other),
    {
        let start = if self.range.start <= other.range.start { self.range.start } else { other.range.start };
        let end = if self.range.end >= other.range.end { self.range.end } else { other.range.end };
        Span { range: ByteRange { start, end }, fid: other.fid }
    }

    /// The empty span at the start of this span.
    pub fn before(self) -> (s: Self)
        ensures
            s == span_before(self),
    {
        Span { range: ByteRange { start: self.range.start, end: self.range.start }, fid: self.fid }
    }

    /// The empty span at the end of this span.
    pub fn after(self) -> (s: Self)
        ensures
            s == span_after(self),
    {
        Span { range: ByteRange { start: self.range.end, end: self.range.end }, fid: self.fid }
    }
}

/// Merging gives a span that covers both spans.
pub proof fn law_merge_covers(a: Span, b: Span)
    requires
        a.fid == b.fid,
    ensures
        span_merge(a, b).fid == a.fid,
        span_merge(a, b).range.start <= a.range.start,
        span_merge(a, b).range.start <= b.range.start,
        span_merge(a, b).range.end >= a.range.end,
        span_merge(a, b).range.end >= b.range.end,
{
}

/// Merging spans of one file does not depend on their order.
pub proof fn law_merge_commutes(a: Span, b: Span)
    requires
        a.fid == b.fid,
    ensures
        span_merge(a, b) == span_merge(b, a),
{
}

/// A value together with the span it was read from.
#[derive(Clone, Copy, Debug)]
pub struct Node<T>(pub T, pub Span);

impl<T> Node<T> {
    pub fn map<R, F: FnOnce(T) -> R>(self, map: F) -> (r: Node<R>)
        requires
            map.requires((self.0,)),
        ensures
            map.ensures((self.0,), r.0),
            r.1 == self.1,
    {
        Node(map(self.0), self.1)
    }
}

} // verus!
