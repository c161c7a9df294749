//! What holds of every expansion and of every list of variants.

use crate::expand::{candidates, words_of, words_of_each, Generator};
use crate::generate::{
    ascii_upper, bit, branch, cap_variant, choices, extend, permutations, replacements_for,
    substitutions, ReplacePair,
};
use crate::pattern::Shape;
use crate::words::{
    concat_words, copies, joins, last_count, lemma_flatten_len, level_words, product, product_at,
    product_len, repeat_words, shortest, texts, total_len, within, within_bounds, Word,
};
use vstd::arithmetic::div_mod::{
    lemma_div_denominator, lemma_fundamental_div_mod, lemma_multiply_divide_lt,
};
use vstd::arithmetic::power2::{lemma2_to64, lemma_pow2_pos, lemma_pow2_unfold, pow2};
use vstd::prelude::*;

verus! {

/// Every candidate of a pattern is at least `min_length` and at most
/// `max_length` characters long.
pub proof fn candidates_in_window(shape: Shape, gen: Generator)
    ensures
        forall|i: int| 0 <= i < candidates(shape, gen).len() ==> gen.min_length <= (#[trigger] candidates(shape, gen)[i]).len() <= gen.max_length,
{
    within_bounds(
        words_of(shape, texts(gen.dictionary@), texts(gen.terms@), gen.max_length as nat),
        gen.min_length as nat,
        gen.max_length as nat,
    );
}

/// A concatenation never yields a word of more than `max` characters,
/// whatever the lengths of the words of its groups.
pub proof fn concat_never_exceeds(groups: Seq<Seq<Word>>, max: nat)
    ensures
        forall|i: int| 0 <= i < concat_words(groups, max).len() ==> (#[trigger] concat_words(groups, max)[i]).len() <= max,
{
    within_bounds(joins(product(groups)), 0, max);
}

/// A concatenation pattern never yields a word of more than `max`
/// characters, whatever its sub-patterns yield.
pub proof fn concat_pattern_never_exceeds(subs: Seq<Shape>, dictionary: Seq<Word>, terms: Seq<Word>, max: nat)
    ensures
        forall|i: int| 0 <= i < words_of(Shape::Concat(subs), dictionary, terms, max).len() ==> (#[trigger] words_of(
            Shape::Concat(subs),
            dictionary,
            terms,
            max,
        )[i]).len() <= max,
{
    concat_never_exceeds(words_of_each(subs, dictionary, terms, max), max);
}

/// A repetition pattern whose least count is 0 yields the empty word,
/// whatever its sub-pattern yields.
pub proof fn repetition_from_zero_has_empty(
    explicit: Option<u32>,
    sub: Shape,
    dictionary: Seq<Word>,
    terms: Seq<Word>,
    max: nat,
)
    ensures
        words_of(Shape::Repetition(0, explicit, Box::new(sub)), dictionary, terms, max).contains(
            Seq::<char>::empty(),
        ),
{
    repeat_from_zero_has_empty(words_of(sub, dictionary, terms, max), explicit, max);
}

/// A repetition that allows no repetition at all yields the empty word, as
/// its first word.
pub proof fn repeat_from_zero_has_empty(pool: Seq<Word>, explicit: Option<u32>, max: nat)
    ensures
        repeat_words(pool, 0, explicit, max).len() > 0,
        repeat_words(pool, 0, explicit, max)[0] == Seq::<char>::empty(),
        repeat_words(pool, 0, explicit, max).contains(Seq::<char>::empty()),
{
    assert(repeat_words(pool, 0, explicit, max)[0] == Seq::<char>::empty());
}

/// The number of words in all of the lists together.
pub open spec fn count_all(lists: Seq<Seq<Word>>) -> nat
    decreases lists.len(),
{
    if lists.len() == 0 {
        0
    } else {
        count_all(lists.drop_last()) + lists.last().len()
    }
}

/// Lists put one after the other hold every word of every list and no
/// other word, and as many words as the lists hold together.
pub proof fn flatten_is_union(lists: Seq<Seq<Word>>)
    ensures
        lists.flatten().len() == count_all(lists),
        forall|i: int, j: int| 0 <= i < lists.len() && 0 <= j < lists[i].len() ==> lists.flatten().contains(#[trigger] lists[i][j]),
        forall|w: Word| #[trigger] lists.flatten().contains(w) ==> exists|i: int| 0 <= i < lists.len() && (#[trigger] lists[i]).contains(w),
    decreases lists.len(),
{
    if lists.len() > 0 {
        let front = lists.drop_last();
        let back = lists.last();
        flatten_is_union(front);
        front.lemma_flatten_push(back);
        assert(front.push(back) =~= lists);
        let all = lists.flatten();
        assert(all == front.flatten() + back);
        assert forall|i: int, j: int| 0 <= i < lists.len() && 0 <= j < lists[i].len() implies all.contains(
            #[trigger] lists[i][j],
        ) by {
            if i < lists.len() - 1 {
                assert(front[i][j] == lists[i][j]);
                assert(front.flatten().contains(front[i][j]));
                let k = choose|k: int| 0 <= k < front.flatten().len() && front.flatten()[k] == lists[i][j];
                assert(all[k] == lists[i][j]);
            } else {
                assert(all[front.flatten().len() + j] == lists[i][j]);
            }
        }
        assert forall|w: Word| #[trigger] all.contains(w) implies exists|i: int|
            0 <= i < lists.len() && (#[trigger] lists[i]).contains(w) by {
            let k = choose|k: int| 0 <= k < all.len() && all[k] == w;
            if k < front.flatten().len() {
                assert(front.flatten()[k] == w);
                assert(front.flatten().contains(w));
                let i = choose|i: int| 0 <= i < front.len() && (#[trigger] front[i]).contains(w);
                assert(lists[i] == front[i]);
            } else {
                assert(back[k - front.flatten().len()] == w);
                assert(lists[lists.len() - 1].contains(w));
            }
        }
    }
}

/// An alternation yields exactly the words of its branches, one branch
/// after the other: every word of every branch, as often as the branches
/// hold it, and no other word.
pub proof fn alternation_is_union(subs: Seq<Shape>, dictionary: Seq<Word>, terms: Seq<Word>, max: nat)
    ensures
        ({
            let all = words_of(Shape::Alternation(subs), dictionary, terms, max);
            let each = words_of_each(subs, dictionary, terms, max);
            &&& all == each.flatten()
            &&& all.len() == count_all(each)
            &&& forall|i: int, j: int|
                0 <= i < subs.len() && 0 <= j < words_of(subs[i], dictionary, terms, max).len()
                    ==> all.contains(#[trigger] words_of(subs[i], dictionary, terms, max)[j])
            &&& forall|w: Word| #[trigger]
                all.contains(w) ==> exists|i: int|
                    0 <= i < subs.len() && (#[trigger] words_of(subs[i], dictionary, terms, max)).contains(w)
        }),
{
    let all = words_of(Shape::Alternation(subs), dictionary, terms, max);
    let each = words_of_each(subs, dictionary, terms, max);
    flatten_is_union(each);
    assert forall|i: int, j: int|
        0 <= i < subs.len() && 0 <= j < words_of(subs[i], dictionary, terms, max).len() implies all.contains(
        #[trigger] words_of(subs[i], dictionary, terms, max)[j],
    ) by {
        assert(each[i][j] == words_of(subs[i], dictionary, terms, max)[j]);
    }
    assert forall|w: Word| #[trigger] all.contains(w) implies exists|i: int|
        0 <= i < subs.len() && (#[trigger] words_of(subs[i], dictionary, terms, max)).contains(w) by {
        let i = choose|i: int| 0 <= i < each.len() && (#[trigger] each[i]).contains(w);
        assert(each[i] == words_of(subs[i], dictionary, terms, max));
    }
}

/// Every word that grows out of partial words of one length is one
/// character longer.
pub proof fn extend_adds_one(partials: Seq<Word>, cs: Seq<char>, n: nat)
    requires
        forall|i: int| 0 <= i < partials.len() ==> (#[trigger] partials[i]).len() == n,
    ensures
        forall|i: int| 0 <= i < extend(partials, cs).len() ==> (#[trigger] extend(partials, cs)[i]).len() == n + 1,
    decreases partials.len(),
{
    if partials.len() > 0 {
        extend_adds_one(partials.drop_last(), cs, n);
        let front = extend(partials.drop_last(), cs);
        let back = branch(partials.last(), cs);
        assert forall|i: int| 0 <= i < extend(partials, cs).len() implies (#[trigger] extend(
            partials,
            cs,
        )[i]).len() == n + 1 by {
            if i < front.len() {
                assert(extend(partials, cs)[i] == front[i]);
            } else {
                assert(extend(partials, cs)[i] == back[i - front.len()]);
            }
        }
    }
}

/// Substitution keeps the length: every substitution variant of a word is
/// as long as the word.
pub proof fn substitutions_keep_length(word: Word, rules: Seq<ReplacePair>)
    ensures
        forall|i: int| 0 <= i < substitutions(word, rules).len() ==> (#[trigger] substitutions(word, rules)[i]).len() == word.len(),
    decreases word.len(),
{
    if word.len() > 0 {
        substitutions_keep_length(word.drop_last(), rules);
        extend_adds_one(
            substitutions(word.drop_last(), rules),
            choices(word.last(), rules),
            (word.len() - 1) as nat,
        );
    }
}

/// Two different masks below `2^n` differ in one of their first `n` bits.
pub proof fn masks_differ_in_a_bit(a: nat, b: nat, n: nat) -> (j: nat)
    requires
        a < pow2(n),
        b < pow2(n),
        a != b,
    ensures
        j < n,
        bit(a, j) != bit(b, j),
    decreases n,
{
    lemma2_to64();
    if n == 0 {
        0
    } else if a % 2 != b % 2 {
        0
    } else {
        lemma_pow2_unfold(n);
        let j = masks_differ_in_a_bit(a / 2, b / 2, (n - 1) as nat);
        lemma_pow2_pos(j);
        lemma_pow2_unfold(j + 1);
        lemma_div_denominator(a as int, 2, pow2(j) as int);
        lemma_div_denominator(b as int, 2, pow2(j) as int);
        j + 1
    }
}

/// Whether every character of a word is an ASCII lower-case letter.
pub open spec fn all_lower(word: Word) -> bool {
    forall|j: int| 0 <= j < word.len() ==> 0x61 <= (#[trigger] word[j]) as int <= 0x7a
}

/// The capitalization variants of a word of `n` lower-case letters are
/// pairwise different: each of the `2^n` masks gives a variant of its own.
pub proof fn masks_give_distinct_variants(word: Word, a: nat, b: nat)
    requires
        all_lower(word),
        a < pow2(word.len()),
        b < pow2(word.len()),
        a != b,
    ensures
        cap_variant(word, a) != cap_variant(word, b),
{
    let j = masks_differ_in_a_bit(a, b, word.len());
    let c = word[j as int];
    assert(ascii_upper(c) != c);
    assert(cap_variant(word, a)[j as int] != cap_variant(word, b)[j as int]);
}

/// Capitalization and substitution together keep the length: every
/// permutation of a word is as long as the word.
pub proof fn permutations_keep_length(word: Word, rules: Seq<ReplacePair>)
    ensures
        forall|i: int| 0 <= i < permutations(word, rules).len() ==> (#[trigger] permutations(word, rules)[i]).len() == word.len(),
{
    let each = Seq::new(
        pow2(word.len()),
        |m: int| substitutions(cap_variant(word, m as nat), rules),
    );
    flatten_is_union(each);
    assert forall|i: int| 0 <= i < permutations(word, rules).len() implies (#[trigger] permutations(
        word,
        rules,
    )[i]).len() == word.len() by {
        let w = permutations(word, rules)[i];
        assert(each.flatten().contains(w));
        let m = choose|m: int| 0 <= m < each.len() && (#[trigger] each[m]).contains(w);
        substitutions_keep_length(cap_variant(word, m as nat), rules);
    }
}

/// The number of substitution variants of a word: each character counts
/// once for itself and once for each rule that applies to it, and the
/// counts of the characters multiply.
pub open spec fn variant_count(word: Word, rules: Seq<ReplacePair>) -> nat
    decreases word.len(),
{
    if word.len() == 0 {
        1
    } else {
        variant_count(word.drop_last(), rules) * (1 + replacements_for(word.last(), rules).len()) as nat
    }
}

/// Going on with `k` characters makes `k` words out of each partial word.
pub proof fn extend_multiplies(partials: Seq<Word>, cs: Seq<char>)
    ensures
        extend(partials, cs).len() == partials.len() * cs.len(),
    decreases partials.len(),
{
    if partials.len() > 0 {
        extend_multiplies(partials.drop_last(), cs);
        assert((partials.len() - 1) * cs.len() + cs.len() == partials.len() * cs.len())
            by (nonlinear_arith);
    }
}

/// A character to which `m` rules apply multiplies the number of
/// substitution variants by `1 + m`.
pub proof fn substitutions_count(word: Word, rules: Seq<ReplacePair>)
    ensures
        substitutions(word, rules).len() == variant_count(word, rules),
    decreases word.len(),
{
    if word.len() > 0 {
        substitutions_count(word.drop_last(), rules);
        extend_multiplies(substitutions(word.drop_last(), rules), choices(word.last(), rules));
    }
}

/// No word of a pool is shorter than its shortest.
pub proof fn shortest_is_least(pool: Seq<Word>, i: int)
    requires
        0 <= i < pool.len(),
    ensures
        shortest(pool) <= pool[i].len(),
    decreases pool.len(),
{
    if pool.len() > 1 && i < pool.len() - 1 {
        shortest_is_least(pool.drop_last(), i);
    }
}

/// A tuple of `k` words of a pool is at least `k` times as long as the
/// shortest word of the pool.
pub proof fn tuple_of_copies_is_long(pool: Seq<Word>, k: nat, i: int)
    requires
        0 <= i < product_len(copies(pool, k)),
    ensures
        total_len(product_at(copies(pool, k), i)) >= k * shortest(pool),
    decreases k,
{
    if k > 0 {
        let groups = copies(pool, k);
        let fewer = copies(pool, (k - 1) as nat);
        let n = pool.len() as int;
        let s = shortest(pool) as int;
        assert(groups.drop_last() =~= fewer);
        assert(groups.last() == pool);
        assert(product_len(groups) == product_len(fewer) * pool.len());
        assert(n > 0) by {
            if n == 0 {
                assert(product_len(fewer) * 0 == 0) by (nonlinear_arith);
            }
        }
        assert(i < n * product_len(fewer)) by (nonlinear_arith)
            requires
                i < product_len(fewer) * n,
        ;
        lemma_multiply_divide_lt(i, n, product_len(fewer) as int);
        lemma_fundamental_div_mod(i, n);
        assert(0 <= i / n) by (nonlinear_arith)
            requires
                0 <= i,
                0 < n,
        ;
        assert(0 <= i % n < n);
        tuple_of_copies_is_long(pool, (k - 1) as nat, i / n);
        shortest_is_least(pool, i % n);
        let shorter = product_at(fewer, i / n);
        let whole = product_at(groups, i);
        assert(whole == shorter.push(pool[i % n]));
        assert(whole.drop_last() =~= shorter);
        assert(total_len(whole) == total_len(shorter) + pool[i % n].len());
        assert(total_len(shorter) >= (k - 1) * s);
        assert((k - 1) * s + s == k * s) by (nonlinear_arith);
    } else {
        assert(k * shortest(pool) == 0) by (nonlinear_arith)
            requires
                k == 0,
        ;
    }
}

/// Nothing passes a length window that holds no length of the words.
pub proof fn none_within(words: Seq<Word>, lo: nat, hi: nat)
    requires
        forall|i: int| 0 <= i < words.len() ==> !(lo <= (#[trigger] words[i]).len() <= hi),
    ensures
        within(words, lo, hi) == Seq::<Word>::empty(),
    decreases words.len(),
{
    reveal(Seq::filter);
    if words.len() > 0 {
        none_within(words.drop_last(), lo, hi);
    }
}

/// The last count of an unbounded repetition loses nothing: with a pool
/// without the empty word, no higher count yields a word of at most `max`
/// characters.
pub proof fn counts_beyond_last_yield_nothing(pool: Seq<Word>, k: nat, max: nat)
    requires
        shortest(pool) > 0,
        k > last_count(pool, None, max),
    ensures
        level_words(pool, k, max) == Seq::<Word>::empty(),
{
    let s = shortest(pool) as int;
    let all = joins(product(copies(pool, k)));
    lemma_fundamental_div_mod(max as int, s);
    assert(k * s > max) by (nonlinear_arith)
        requires
            s > 0,
            max == s * (max as int / s) + (max as int % s),
            0 <= max as int % s < s,
            k > (if max as int % s == 0 { max as int / s } else { max as int / s + 1 }),
    ;
    assert forall|i: int| 0 <= i < all.len() implies !(0 <= (#[trigger] all[i]).len() <= max) by {
        tuple_of_copies_is_long(pool, k, i);
        lemma_flatten_len(product_at(copies(pool, k), i));
    }
    none_within(all, 0, max);
}

} // verus!
