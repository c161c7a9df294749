//! Cartesian products of word lists, enumerated lazily.

use crate::words::{group_texts, product, texts, Word};
use itertools::structs::MultiProduct;
use itertools::Itertools;
use vstd::prelude::*;

verus! {

/// The product iterator of itertools, as an opaque value.
#[verifier::external_type_specification]
#[verifier::external_body]
#[verifier::reject_recursive_types(I)]
pub struct ExMultiProduct<I>(MultiProduct<I>) where I: Iterator + Clone, I::Item: Clone;

/// The tuples that a product iterator has still to hand out, in order.
/// What is known of it is what `tuples_of` and `next_tuple` state.
pub uninterp spec fn pending(it: MultiProduct<std::slice::Iter<'_, String>>) -> Seq<Seq<Word>>;

/// Calls `Itertools::multi_cartesian_product` on the given lists. Believed
/// of it, not proved: the iterator will hand out the whole cartesian
/// product, the last list varying fastest, and for no lists at all the one
/// empty tuple.
#[verifier::external_body]
pub(crate) fn tuples_of<'a>(groups: &Vec<&'a Vec<String>>) -> (it: MultiProduct<std::slice::Iter<'a, String>>)
    ensures
        pending(it) == product(group_texts(groups@)),
{
    groups.iter().copied().multi_cartesian_product()
}

/// Calls `Iterator::next` of `MultiProduct`. Believed of it, not proved: it
/// hands out the first pending tuple and leaves the others pending, or
/// gives `None` once nothing is pending, and goes on giving `None`.
#[verifier::external_body]
pub(crate) fn next_tuple<'a>(it: &mut MultiProduct<std::slice::Iter<'a, String>>) -> (r: Option<Vec<&'a String>>)
    ensures
        pending(*old(it)).len() == 0 ==> r is None && pending(*final(it)) == pending(*old(it)),
        pending(*old(it)).len() > 0 ==> r is Some && texts(r.unwrap()@) == pending(*old(it))[0]
            && pending(*final(it)) == pending(*old(it)).skip(1),
{
    it.next()
}

/// Calls `Itertools::join` with an empty separator. Believed of it, not
/// proved: the result is the words of the tuple one after the other.
#[verifier::external_body]
pub(crate) fn join_tuple(tuple: &Vec<&String>) -> (s: String)
    ensures
        s@ == texts(tuple@).flatten(),
{
    tuple.iter().join("")
}

} // verus!
