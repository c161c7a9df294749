//! Lists of words as mathematical sequences: joining, length windows and
//! cartesian products.

use vstd::prelude::*;

verus! {

/// A word is a sequence of characters; its length is the number of them.
pub type Word = Seq<char>;

/// The words that a list of strings holds, in order.
pub open spec fn texts<T: View<V = Seq<char>>>(v: Seq<T>) -> Seq<Word> {
    Seq::new(v.len(), |i: int| v[i]@)
}

/// The word lists that a list of string lists holds, in order.
pub open spec fn group_texts(groups: Seq<&Vec<String>>) -> Seq<Seq<Word>> {
    Seq::new(groups.len(), |i: int| texts(groups[i]@))
}

/// The words of `words` whose length lies in `lo..=hi`, in order.
pub open spec fn within(words: Seq<Word>, lo: nat, hi: nat) -> Seq<Word> {
    words.filter(|w: Word| lo <= w.len() <= hi)
}

/// The number of tuples in the cartesian product of `groups`.
pub open spec fn product_len(groups: Seq<Seq<Word>>) -> nat
    decreases groups.len(),
{
    if groups.len() == 0 {
        1
    } else {
        product_len(groups.drop_last()) * groups.last().len()
    }
}

/// Tuple number `i` of the cartesian product of `groups`: the last group
/// varies fastest.
pub open spec fn product_at(groups: Seq<Seq<Word>>, i: int) -> Seq<Word>
    decreases groups.len(),
{
    if groups.len() == 0 {
        Seq::empty()
    } else {
        let n = groups.last().len() as int;
        product_at(groups.drop_last(), i / n).push(groups.last()[i % n])
    }
}

/// The cartesian product of `groups`: every way to pick one word from each
/// group, as tuples in lexicographic order of the picks. The product of no
/// groups is the one empty tuple.
pub open spec fn product(groups: Seq<Seq<Word>>) -> Seq<Seq<Word>> {
    Seq::new(product_len(groups), |i: int| product_at(groups, i))
}

/// Each tuple joined into one word.
pub open spec fn joins(tuples: Seq<Seq<Word>>) -> Seq<Word> {
    Seq::new(tuples.len(), |i: int| tuples[i].flatten())
}

/// The sum of the lengths of the words of a tuple.
pub open spec fn total_len(tuple: Seq<Word>) -> nat
    decreases tuple.len(),
{
    if tuple.len() == 0 {
        0
    } else {
        total_len(tuple.drop_last()) + tuple.last().len()
    }
}

/// What a concatenation of `groups` yields under the bound `max`: every
/// tuple of the product joined, those longer than `max` left out.
pub open spec fn concat_words(groups: Seq<Seq<Word>>, max: nat) -> Seq<Word> {
    within(joins(product(groups)), 0, max)
}

/// `k` copies of one pool, as the groups of a product.
pub open spec fn copies(pool: Seq<Word>, k: nat) -> Seq<Seq<Word>> {
    Seq::new(k, |i: int| pool)
}

/// What `k` repetitions of a pool yield under the bound `max`.
pub open spec fn level_words(pool: Seq<Word>, k: nat, max: nat) -> Seq<Word> {
    concat_words(copies(pool, k), max)
}

/// The yields of the repetition counts `lo..=hi`, one count after the other.
pub open spec fn levels(pool: Seq<Word>, lo: nat, hi: int, max: nat) -> Seq<Word>
    decreases hi - lo + 1,
{
    if hi < lo {
        Seq::empty()
    } else {
        levels(pool, lo, hi - 1, max) + level_words(pool, hi as nat, max)
    }
}

/// The length of the shortest word of a pool; 0 for an empty pool.
pub open spec fn shortest(pool: Seq<Word>) -> nat
    decreases pool.len(),
{
    if pool.len() == 0 {
        0
    } else if pool.len() == 1 {
        pool[0].len()
    } else {
        let rest = shortest(pool.drop_last());
        if pool.last().len() < rest {
            pool.last().len()
        } else {
            rest
        }
    }
}

/// The highest repetition count that is tried: the explicit one, or else
/// `max` divided by the shortest word's length, rounded up. A shortest
/// length of 0 divides as 1.
pub open spec fn last_count(pool: Seq<Word>, explicit: Option<u32>, max: nat) -> nat {
    match explicit {
        Some(m) => m as nat,
        None => {
            let s = if shortest(pool) == 0 { 1 } else { shortest(pool) };
            if max % s == 0 { max / s } else { max / s + 1 }
        },
    }
}

/// What a repetition of a pool yields: the empty word if no repetition is
/// allowed, then the yields of every count from `min` to the last one.
pub open spec fn repeat_words(pool: Seq<Word>, min: nat, explicit: Option<u32>, max: nat) -> Seq<Word> {
    let zero = if min == 0 { seq![Seq::<char>::empty()] } else { Seq::<Word>::empty() };
    zero + levels(pool, min, last_count(pool, explicit, max) as int, max)
}

/// Every word that passes a length window has a length inside it.
pub proof fn within_bounds(words: Seq<Word>, lo: nat, hi: nat)
    ensures
        forall|i: int| 0 <= i < within(words, lo, hi).len() ==> lo <= (#[trigger] within(words, lo, hi)[i]).len() <= hi,
{
    let pred = |w: Word| lo <= w.len() <= hi;
    assert forall|i: int| 0 <= i < within(words, lo, hi).len() implies lo <= (#[trigger] within(
        words,
        lo,
        hi,
    )[i]).len() <= hi by {
        words.lemma_filter_pred(pred, i);
    }
}

/// One more word of a list passes through the length window or not.
pub proof fn lemma_within_step(words: Seq<Word>, i: int, lo: nat, hi: nat)
    requires
        0 <= i < words.len(),
    ensures
        within(words.take(i + 1), lo, hi) == if lo <= words[i].len() <= hi {
            within(words.take(i), lo, hi).push(words[i])
        } else {
            within(words.take(i), lo, hi)
        },
{
    reveal(Seq::filter);
    assert(words.take(i + 1).drop_last() =~= words.take(i));
}

/// A joined tuple is as long as its words together.
pub proof fn lemma_flatten_len(tuple: Seq<Word>)
    ensures
        tuple.flatten().len() == total_len(tuple),
    decreases tuple.len(),
{
    if tuple.len() > 0 {
        lemma_flatten_len(tuple.drop_last());
        tuple.drop_last().lemma_flatten_push(tuple.last());
        assert(tuple.drop_last().push(tuple.last()) =~= tuple);
    }
}

/// The first words of a tuple are together no longer than all of it.
pub proof fn lemma_total_len_take(tuple: Seq<Word>, i: int)
    requires
        0 <= i <= tuple.len(),
    ensures
        total_len(tuple.take(i)) <= total_len(tuple),
    decreases tuple.len() - i,
{
    if i < tuple.len() {
        lemma_total_len_take(tuple, i + 1);
        assert(tuple.take(i + 1).drop_last() =~= tuple.take(i));
    } else {
        assert(tuple.take(i) =~= tuple);
    }
}

} // verus!
