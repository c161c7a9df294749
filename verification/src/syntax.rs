//! Pattern texts: parsing them and reading the parsed tree.

use crate::pattern::{CharRange, Pattern, Shape};
use regex_syntax::hir::{Class, Hir, HirKind};
use vstd::prelude::*;

verus! {

/// A parsed tree of regex-syntax, as an opaque value.
#[verifier::external_type_specification]
#[verifier::external_body]
pub struct ExHir(Hir);

/// The parser's error, as an opaque value.
#[verifier::external_type_specification]
#[verifier::external_body]
pub struct ExSyntaxError(regex_syntax::Error);

/// The shape of the tree that the parser builds for a pattern text; `None`
/// for a text that it rejects. The grammar itself is the parser's: nothing
/// here says which shape a given text has.
pub uninterp spec fn parsed_shape(input: Seq<char>) -> Option<Shape>;

/// The shape of a parsed tree. What is known of it is what `node_head`
/// and `node_subs` state.
pub uninterp spec fn hir_shape(hir: Hir) -> Shape;

/// What a node of a parsed tree holds besides its sub-trees.
pub enum Head {
    Empty,
    Look,
    Literal(Vec<u8>),
    Class(Vec<CharRange>),
    ByteClass,
    Repetition(u32, Option<u32>),
    Capture,
    Concat,
    Alternation,
}

impl Head {
    /// Whether this is the head of the root of `shape`.
    pub open spec fn heads(self, shape: Shape) -> bool {
        match (self, shape) {
            (Head::Empty, Shape::Empty) => true,
            (Head::Look, Shape::Look) => true,
            (Head::Literal(bytes), Shape::Literal(b)) => bytes@ == b,
            (Head::Class(ranges), Shape::Class(r)) => ranges@ == r,
            (Head::ByteClass, Shape::ByteClass) => true,
            (Head::Repetition(min, max), Shape::Repetition(a, b, _)) => min == a && max == b,
            (Head::Capture, Shape::Capture(_)) => true,
            (Head::Concat, Shape::Concat(_)) => true,
            (Head::Alternation, Shape::Alternation(_)) => true,
            _ => false,
        }
    }
}

/// The sub-patterns directly under the root of a shape, in order.
pub open spec fn subs_of(shape: Shape) -> Seq<Shape> {
    match shape {
        Shape::Repetition(_, _, sub) => seq![*sub],
        Shape::Capture(sub) => seq![*sub],
        Shape::Concat(subs) => subs,
        Shape::Alternation(subs) => subs,
        _ => Seq::empty(),
    }
}

/// Calls `regex_syntax::parse`. Believed of it, not proved: whether it
/// accepts a text, and the shape of the tree it then builds, depend on the
/// text alone.
#[verifier::external_body]
pub(crate) fn parse_hir(input: &str) -> (r: Result<Hir, regex_syntax::Error>)
    ensures
        r is Ok <==> parsed_shape(input@) is Some,
        r is Ok ==> parsed_shape(input@) == Some(hir_shape(r.unwrap())),
{
    regex_syntax::parse(input)
}

/// Calls `Hir::kind` and tells its variants apart. Believed of it, not
/// proved: the result names the kind of the root node and holds its
/// literal bytes, the ranges of its class or its repetition bounds.
#[verifier::external_body]
pub(crate) fn node_head(hir: &Hir) -> (head: Head)
    ensures
        head.heads(hir_shape(*hir)),
{
    match hir.kind() {
        HirKind::Empty => Head::Empty,
        HirKind::Look(_) => Head::Look,
        HirKind::Literal(lit) => Head::Literal(lit.0.to_vec()),
        HirKind::Class(Class::Unicode(c)) => Head::Class(
            c.iter().map(|r| CharRange { start: r.start(), end: r.end() }).collect(),
        ),
        HirKind::Class(Class::Bytes(_)) => Head::ByteClass,
        HirKind::Repetition(rep) => Head::Repetition(rep.min, rep.max),
        HirKind::Capture(_) => Head::Capture,
        HirKind::Concat(_) => Head::Concat,
        HirKind::Alternation(_) => Head::Alternation,
    }
}

/// Calls `HirKind::subs`. Believed of it, not proved: the result holds the
/// sub-trees directly under the root node, in order: the one of a
/// repetition or a group, all those of a concatenation or an alternation,
/// none of any other node.
#[verifier::external_body]
pub(crate) fn node_subs(hir: &Hir) -> (subs: &[Hir])
    ensures
        subs@.len() == subs_of(hir_shape(*hir)).len(),
        forall|i: int| 0 <= i < subs@.len() ==> hir_shape(#[trigger] subs@[i]) == subs_of(hir_shape(*hir))[i],
{
    hir.kind().subs()
}

/// The patterns of a list of parsed trees, one by one.
fn lower_each(subs: &[Hir], Ghost(parent): Ghost<Shape>) -> (out: Vec<Pattern>)
    requires
        forall|i: int| 0 <= i < subs@.len() ==> decreases_to!(parent => hir_shape(#[trigger] subs@[i])),
    ensures
        out@.len() == subs@.len(),
        forall|i: int| 0 <= i < out@.len() ==> (#[trigger] out@[i])@ == hir_shape(subs@[i]),
    decreases parent, 0int,
{
    let mut out: Vec<Pattern> = Vec::new();
    let mut i: usize = 0;
    while i < subs.len()
        invariant
            i <= subs.len(),
            out@.len() == i,
            forall|j: int| 0 <= j < subs@.len() ==> decreases_to!(parent => hir_shape(#[trigger] subs@[j])),
            forall|j: int| 0 <= j < i ==> (#[trigger] out@[j])@ == hir_shape(subs@[j]),
        decreases subs.len() - i,
    {
        out.push(lower(&subs[i]));
        i = i + 1;
    }
    out
}

/// The pattern that a parsed tree stands for.
pub(crate) fn lower(hir: &Hir) -> (p: Pattern)
    ensures
        p@ == hir_shape(*hir),
    decreases hir_shape(*hir), 1int,
{
    let ghost shape = hir_shape(*hir);
    let subs = node_subs(hir);
    match node_head(hir) {
        Head::Empty => Pattern::Empty,
        Head::Look => Pattern::Look,
        Head::Literal(bytes) => Pattern::Literal(bytes),
        Head::Class(ranges) => Pattern::Class(ranges),
        Head::ByteClass => Pattern::ByteClass,
        Head::Repetition(min, max) => {
            assert(subs@.len() == 1);
            Pattern::Repetition { min, max, sub: Box::new(lower(&subs[0])) }
        },
        Head::Capture => {
            assert(subs@.len() == 1);
            Pattern::Capture(Box::new(lower(&subs[0])))
        },
        Head::Concat => {
            let parts = lower_each(subs, Ghost(shape));
            proof {
                assert(Pattern::shapes(parts@) =~= subs_of(shape));
            }
            Pattern::Concat(parts)
        },
        Head::Alternation => {
            let parts = lower_each(subs, Ghost(shape));
            proof {
                assert(Pattern::shapes(parts@) =~= subs_of(shape));
            }
            Pattern::Alternation(parts)
        },
    }
}

/// Parses a pattern text into its pattern tree; `None` exactly for a text
/// that the parser rejects.
pub fn parse_pattern(input: &str) -> (r: Option<Pattern>)
    ensures
        r is Some <==> parsed_shape(input@) is Some,
        r is Some ==> parsed_shape(input@) == Some(r.unwrap()@),
{
    match parse_hir(input) {
        Ok(hir) => Some(lower(&hir)),
        Err(_) => None,
    }
}

} // verus!
