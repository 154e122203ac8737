//! Source spans: byte ranges into a `.cru` file, carried on tokens and AST
//! nodes so diagnostics can point at the offending text.

use vstd::prelude::*;

use core::ops::Range;

verus! {

/// A byte range `start..end` in the source (end-exclusive).
#[derive(Clone, Copy, Debug, PartialEq, Eq, Structural)]
pub struct Span {
    pub start: usize,
    pub end: usize,
}

impl DeepView for Span {
    type V = Span;

    open spec fn deep_view(&self) -> Span {
        *self
    }
}

impl Span {
    /// The bytes from `start` up to `end`.
    pub fn new(start: usize, end: usize) -> (r: Span)
        ensures
            r == (Span { start, end }),
    {
        Span { start, end }
    }

    /// The span as a `start..end` byte range.
    pub fn range(self) -> (r: Range<usize>)
        ensures
            r.start == self.start,
            r.end == self.end,
    {
        self.start..self.end
    }
}

/// A value paired with its source span.
#[derive(Debug, PartialEq, Eq)]
pub struct Spanned<T> {
    pub node: T,
    pub span: Span,
}

/// What a [`Spanned`] holds.
#[verifier::ext_equal]
pub struct At<V> {
    pub node: V,
    pub span: Span,
}

impl<T: DeepView> DeepView for Spanned<T> {
    type V = At<T::V>;

    open spec fn deep_view(&self) -> At<T::V> {
        At { node: self.node.deep_view(), span: self.span }
    }
}

impl<T> Spanned<T> {
    /// `node`, as it stands at `span`.
    pub fn new(node: T, span: Span) -> (r: Spanned<T>)
        ensures
            r == (Spanned { node, span }),
    {
        Spanned { node, span }
    }
}

} // verus!
