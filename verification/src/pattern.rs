//! Patterns as trees, and their mathematical shape.

use vstd::prelude::*;

verus! {

/// An inclusive range of characters.
#[derive(Debug, Clone, Copy)]
pub struct CharRange {
    pub start: char,
    pub end: char,
}

/// The shape of a pattern: what a pattern denotes in contracts.
pub ghost enum Shape {
    /// Matches only the empty word.
    Empty,
    /// A zero-width assertion such as the end-of-input anchor.
    Look,
    /// The bytes of a literal.
    Literal(Seq<u8>),
    /// Inclusive ranges of characters.
    Class(Seq<CharRange>),
    /// A class over raw bytes.
    ByteClass,
    /// A bounded or unbounded repetition of a sub-pattern.
    Repetition(u32, Option<u32>, Box<Shape>),
    /// A group around a sub-pattern.
    Capture(Box<Shape>),
    /// One sub-pattern after the other.
    Concat(Seq<Shape>),
    /// Any one of the sub-patterns.
    Alternation(Seq<Shape>),
}

/// A pattern tree.
#[derive(Debug)]
pub enum Pattern {
    Empty,
    Look,
    Literal(Vec<u8>),
    Class(Vec<CharRange>),
    ByteClass,
    Repetition { min: u32, max: Option<u32>, sub: Box<Pattern> },
    Capture(Box<Pattern>),
    Concat(Vec<Pattern>),
    Alternation(Vec<Pattern>),
}

impl Pattern {
    /// The shapes of a list of patterns, one by one.
    pub open spec fn shapes(v: Seq<Pattern>) -> Seq<Shape>
        decreases v, 0int
    {
        Seq::new(v.len(), |i: int| if 0 <= i < v.len() { v[i].shape() } else { Shape::Empty })
    }

    /// The shape of this pattern.
    pub open spec fn shape(self) -> Shape
        decreases self, 1int
    {
        match self {
            Pattern::Empty => Shape::Empty,
            Pattern::Look => Shape::Look,
            Pattern::Literal(b) => Shape::Literal(b@),
            Pattern::Class(r) => Shape::Class(r@),
            Pattern::ByteClass => Shape::ByteClass,
            Pattern::Repetition { min, max, sub } => Shape::Repetition(min, max, Box::new(sub.shape())),
            Pattern::Capture(sub) => Shape::Capture(Box::new(sub.shape())),
            Pattern::Concat(v) => Shape::Concat(Self::shapes(v@)),
            Pattern::Alternation(v) => Shape::Alternation(Self::shapes(v@)),
        }
    }
}

impl View for Pattern {
    type V = Shape;

    open spec fn view(&self) -> Shape {
        self.shape()
    }
}

} // verus!
