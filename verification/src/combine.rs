//! Joining the tuples of a cartesian product under a length bound.

use crate::product::{join_tuple, next_tuple, pending, tuples_of};
use crate::words::{
    concat_words, copies, group_texts, joins, last_count, lemma_flatten_len, lemma_total_len_take,
    lemma_within_step, level_words, levels, product, repeat_words, shortest, texts, total_len,
    within, within_bounds, Word,
};
use rayon::iter::{IntoParallelIterator, ParallelIterator};
use vstd::prelude::*;

verus! {

/// Whether the words of `tuple` are together at most `max_length` long.
pub fn fits(tuple: &Vec<&String>, max_length: usize) -> (b: bool)
    ensures
        b == (total_len(texts(tuple@)) <= max_length),
{
    let ghost all = texts(tuple@);
    let mut sum: usize = 0;
    let mut i: usize = 0;
    while i < tuple.len()
        invariant
            i <= tuple.len(),
            all == texts(tuple@),
            sum == total_len(all.take(i as int)),
            sum <= max_length,
        decreases tuple.len() - i,
    {
        let n: usize = tuple[i].as_str().unicode_len();
        proof {
            assert(all.take(i + 1).drop_last() =~= all.take(i as int));
            lemma_total_len_take(all, i + 1);
        }
        if n > max_length - sum {
            return false;
        }
        sum = sum + n;
        i = i + 1;
    }
    proof {
        assert(all.take(i as int) =~= all);
    }
    true
}

/// Joins every tuple of the cartesian product of `groups` and keeps the
/// results of at most `max_length` characters, in the order of the product.
pub fn cartesian_concat(groups: &Vec<&Vec<String>>, max_length: usize) -> (out: Vec<String>)
    ensures
        texts(out@) == concat_words(group_texts(groups@), max_length as nat),
        forall|i: int| 0 <= i < out.len() ==> (#[trigger] out[i])@.len() <= max_length,
{
    let ghost all = product(group_texts(groups@));
    let ghost mut done: int = 0;
    let mut it = tuples_of(groups);
    let mut out: Vec<String> = Vec::new();
    proof {
        reveal(Seq::filter);
        assert(joins(all).take(0) =~= Seq::<Seq<char>>::empty());
        assert(texts(out@) =~= within(joins(all).take(0), 0, max_length as nat));
    }
    loop
        invariant
            0 <= done <= all.len(),
            pending(it) == all.skip(done),
            texts(out@) == within(joins(all).take(done), 0, max_length as nat),
            forall|i: int| 0 <= i < out.len() ==> (#[trigger] out[i])@.len() <= max_length,
        ensures
            done == all.len(),
        decreases all.len() - done,
    {
        match next_tuple(&mut it) {
            None => {
                break ;
            },
            Some(tuple) => {
                proof {
                    assert(all.skip(done)[0] == all[done]);
                    assert(all.skip(done).skip(1) =~= all.skip(done + 1));
                    lemma_flatten_len(all[done]);
                    lemma_within_step(joins(all), done, 0, max_length as nat);
                }
                if fits(&tuple, max_length) {
                    let word = join_tuple(&tuple);
                    let ghost before = texts(out@);
                    out.push(word);
                    proof {
                        assert(texts(out@) =~= before.push(word@));
                    }
                }
                proof {
                    done = done + 1;
                }
            },
        }
    }
    proof {
        assert(joins(all).take(done) =~= joins(all));
    }
    out
}

/// What `k` repetitions of `pool` yield: every way to put `k` of its words
/// one after the other, at most `max_length` characters long.
pub fn repeat_level(pool: &Vec<String>, k: usize, max_length: usize) -> (out: Vec<String>)
    ensures
        texts(out@) == level_words(texts(pool@), k as nat, max_length as nat),
        forall|i: int| 0 <= i < out.len() ==> (#[trigger] out[i])@.len() <= max_length,
{
    let mut groups: Vec<&Vec<String>> = Vec::new();
    let mut i: usize = 0;
    while i < k
        invariant
            i <= k,
            groups@.len() == i,
            forall|j: int| 0 <= j < i ==> groups@[j] == pool,
        decreases k - i,
    {
        groups.push(pool);
        i = i + 1;
    }
    proof {
        assert(group_texts(groups@) =~= copies(texts(pool@), k as nat));
    }
    cartesian_concat(&groups, max_length)
}

/// Calls rayon's parallel `map` over the inclusive range `lo..=hi` and
/// collects into a `Vec`. Believed of it, not proved: the results stand in
/// the order of the range, entry `i` being what `repeat_level` yields for
/// the count `lo + i`.
#[verifier::external_body]
pub(crate) fn levels_in_parallel(pool: &Vec<String>, lo: usize, hi: usize, max_length: usize) -> (r: Vec<Vec<String>>)
    ensures
        r@.len() == (if lo <= hi { hi - lo + 1 } else { 0 }),
        forall|i: int| 0 <= i < r@.len() ==> texts((#[trigger] r@[i])@) == level_words(texts(pool@), (lo + i) as nat, max_length as nat),
{
    (lo..=hi).into_par_iter().map(|k| repeat_level(pool, k, max_length)).collect()
}

/// The length of the shortest word of `pool`; 0 for an empty pool.
pub fn shortest_len(pool: &Vec<String>) -> (n: usize)
    ensures
        n == shortest(texts(pool@)),
{
    if pool.len() == 0 {
        return 0;
    }
    let ghost all = texts(pool@);
    let mut best: usize = pool[0].as_str().unicode_len();
    let mut i: usize = 1;
    proof {
        assert(all.take(1).len() == 1);
    }
    while i < pool.len()
        invariant
            1 <= i <= pool.len(),
            all == texts(pool@),
            best == shortest(all.take(i as int)),
        decreases pool.len() - i,
    {
        let n: usize = pool[i].as_str().unicode_len();
        proof {
            assert(all.take(i + 1).drop_last() =~= all.take(i as int));
        }
        if n < best {
            best = n;
        }
        i = i + 1;
    }
    proof {
        assert(all.take(i as int) =~= all);
    }
    best
}

/// The highest repetition count to try for `pool`.
pub fn last_repeat(pool: &Vec<String>, explicit: Option<u32>, max_length: usize) -> (n: usize)
    ensures
        n == last_count(texts(pool@), explicit, max_length as nat),
{
    match explicit {
        Some(m) => m as usize,
        None => {
            let found = shortest_len(pool);
            let s: usize = if found == 0 { 1 } else { found };
            if max_length % s == 0 {
                max_length / s
            } else {
                proof {
                    vstd::arithmetic::div_mod::lemma_div_is_ordered_by_denominator(
                        max_length as int,
                        2,
                        s as int,
                    );
                }
                max_length / s + 1
            }
        },
    }
}

/// The words that a repetition of `pool` yields: the empty word first if
/// `min` is 0, then for each count from `min` to the last one, in order,
/// every joined tuple of that many words of `pool` that is at most
/// `max_length` characters long.
pub fn repeat_pool(pool: &Vec<String>, min: u32, explicit: Option<u32>, max_length: usize) -> (out: Vec<String>)
    ensures
        texts(out@) == repeat_words(texts(pool@), min as nat, explicit, max_length as nat),
        forall|i: int| 0 <= i < out.len() ==> (#[trigger] out[i])@.len() <= max_length,
        min == 0 ==> out.len() > 0 && out[0]@ == Seq::<char>::empty(),
{
    let ghost words = texts(pool@);
    let ghost max = max_length as nat;
    let lo: usize = min as usize;
    let hi: usize = last_repeat(pool, explicit, max_length);
    let mut out: Vec<String> = Vec::new();
    if min == 0 {
        out.push(String::new());
    }
    let ghost zero = texts(out@);
    proof {
        assert(zero =~= if min == 0 { seq![Seq::<char>::empty()] } else { Seq::<Word>::empty() });
    }
    let mut found = levels_in_parallel(pool, lo, hi, max_length);
    let mut i: usize = 0;
    proof {
        assert(texts(out@) =~= zero + levels(words, lo as nat, lo + i - 1, max));
    }
    while i < found.len()
        invariant
            i <= found.len(),
            found@.len() == (if lo <= hi { hi - lo + 1 } else { 0 }),
            words == texts(pool@),
            max == max_length,
            forall|j: int| i <= j < found@.len() ==> texts((#[trigger] found@[j])@) == level_words(words, (lo + j) as nat, max),
            texts(out@) == zero + levels(words, lo as nat, lo + i - 1, max),
            forall|j: int| 0 <= j < out.len() ==> (#[trigger] out[j])@.len() <= max_length,
            min == 0 ==> out.len() > 0 && out[0]@ == Seq::<char>::empty(),
        decreases found.len() - i,
    {
        let mut level: Vec<String> = Vec::new();
        let ghost before = found@;
        let ghost had = out@;
        std::mem::swap(&mut found[i], &mut level);
        out.append(&mut level);
        proof {
            within_bounds(
                joins(product(copies(words, (lo + i) as nat))),
                0,
                max,
            );
            assert(texts(out@) =~= texts(had) + texts(before[i as int]@));
            assert forall|j: int| 0 <= j < out.len() implies (#[trigger] out[j])@.len() <= max_length by {
                if j >= had.len() {
                    assert(out[j]@ == texts(before[i as int]@)[j - had.len()]);
                }
            }
            assert(zero + levels(words, lo as nat, lo + i - 1, max) + level_words(words, (lo + i) as nat, max)
                =~= zero + levels(words, lo as nat, lo + i, max));
        }
        i = i + 1;
    }
    out
}

} // verus!
