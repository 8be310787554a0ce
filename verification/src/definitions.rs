//! Source positions and names.
use vstd::prelude::*;

verus! {

/// A half-open range of byte offsets into the source text.
#[derive(Debug, Clone, Copy, PartialEq, Eq, Structural)]
pub struct Span {
    pub start: usize,
    pub end: usize,
}

impl Span {
    pub fn new(start: usize, end: usize) -> (s: Self)
        ensures
            s.start == start,
            s.end == end,
    {
        Span { start, end }
    }

    /// The span that begins where `self` begins and ends where `latter` ends.
    pub fn merge(&self, latter: Self) -> (s: Self)
        ensures
            s.start == self.start,
            s.end == latter.end,
    {
        Span { start: self.start, end: latter.end }
    }
}

/// An identifier together with the place where it was written, if any.
#[derive(Debug, PartialEq, Eq)]
pub struct Name {
    pub text: String,
    pub span: Option<Span>,
}

impl Clone for Name {
    fn clone(&self) -> (r: Self)
        ensures
            r == *self,
    {
        Name { text: self.text.clone(), span: self.span }
    }
}

impl Name {
    /// A name that was not written anywhere in the source.
    pub fn raw(text: String) -> (n: Self)
        ensures
            n.text == text,
            n.span == None::<Span>,
    {
        Name { text, span: None }
    }

    /// A name written at `span`.
    pub fn with_span(text: String, span: Span) -> (n: Self)
        ensures
            n.text == text,
            n.span == Some(span),
    {
        Name { text, span: Some(span) }
    }
}

} // verus!
