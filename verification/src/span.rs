//! Places in the source text.
use vstd::prelude::*;

verus! {

/// A stretch of the source text, from the offset `start` up to `end`.
#[derive(Debug, Clone, Copy, PartialEq, Eq, Structural)]
pub struct Span {
    start: usize,
    end: usize,
}

impl View for Span {
    type V = (nat, nat);

    closed spec fn view(&self) -> (nat, nat) {
        (self.start as nat, self.end as nat)
    }
}

impl Span {
    pub fn new(start: usize, end: usize) -> (span: Span)
        ensures
            span@ == (start as nat, end as nat),
    {
        Span { start, end }
    }

    pub fn start(&self) -> (r: usize)
        ensures
            r == self@.0,
    {
        self.start
    }

    pub fn end(&self) -> (r: usize)
        ensures
            r == self@.1,
    {
        self.end
    }
}

/// A piece of the syntax together with the place it came from.
#[derive(Debug)]
pub struct Sp<T> {
    data: T,
    span: Span,
}

impl<T> Sp<T> {
    pub closed spec fn data_of(self) -> T {
        self.data
    }

    pub closed spec fn span_of(self) -> Span {
        self.span
    }

    pub fn new(data: T, span: Span) -> (r: Sp<T>)
        ensures
            r.data_of() == data,
            r.span_of() == span,
    {
        Sp { data, span }
    }

    pub fn data(&self) -> (r: &T)
        ensures
            *r == self.data_of(),
    {
        &self.data
    }

    pub fn span(&self) -> (r: Span)
        ensures
            r == self.span_of(),
    {
        self.span
    }
}

} // verus!
