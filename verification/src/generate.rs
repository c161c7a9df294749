//! Capitalization and substitution variants of a word.

use crate::words::{texts, Word};
use vstd::arithmetic::div_mod::{
    lemma_basic_div, lemma_div_multiples_vanish_fancy, lemma_hoist_over_denominator,
    lemma_mod_multiples_vanish,
};
use vstd::arithmetic::power2::{lemma_pow2_adds, lemma_pow2_pos, lemma_pow2_unfold, pow2};
use vstd::prelude::*;

verus! {

/// A substitution rule: the first character may be replaced by the second.
#[derive(Debug, Clone, Copy)]
pub struct ReplacePair(pub char, pub char);

impl ReplacePair {
    /// The character that the rule applies to.
    pub fn from(&self) -> (c: char)
        ensures
            c == self.0,
    {
        self.0
    }

    /// The character that the rule puts in its place.
    pub fn to(&self) -> (c: char)
        ensures
            c == self.1,
    {
        self.1
    }
}

/// The upper-case form of an ASCII lower-case letter; any other character
/// unchanged.
pub open spec fn ascii_upper(c: char) -> char {
    if 0x61 <= c as int <= 0x7a {
        ((c as int - 0x20) as u8) as char
    } else {
        c
    }
}

/// The lower-case form of a text, as the standard library maps it. Nothing
/// here says what it is for a given text.
pub uninterp spec fn lowercase_of(s: Seq<char>) -> Seq<char>;

/// Believed of `char::to_ascii_uppercase`, not proved: it maps `a` to `z`
/// onto `A` to `Z` and leaves every other character as it is.
pub assume_specification[ char::to_ascii_uppercase ](c: &char) -> (r: char)
    ensures
        r == ascii_upper(*c),
;

/// Believed of `str::to_lowercase`, not proved: the lower-case form that
/// it gives depends on the text alone.
pub assume_specification[ str::to_lowercase ](s: &str) -> (r: String)
    ensures
        r@ == lowercase_of(s@),
;

/// Whether bit `j` of `mask` is set.
pub open spec fn bit(mask: nat, j: nat) -> bool {
    (mask / pow2(j)) % 2 == 1
}

/// The capitalization variant of `word` for `mask`: character `j` is
/// upper-cased exactly if bit `j` of the mask is set.
pub open spec fn cap_variant(word: Word, mask: nat) -> Word {
    Seq::new(
        word.len(),
        |j: int|
            if bit(mask, j as nat) {
                ascii_upper(word[j])
            } else {
                word[j]
            },
    )
}

/// The characters that the rules put in the place of `c`, in the order of
/// the rules.
pub open spec fn replacements_for(c: char, rules: Seq<ReplacePair>) -> Seq<char>
    decreases rules.len(),
{
    if rules.len() == 0 {
        Seq::empty()
    } else {
        let rest = replacements_for(c, rules.drop_last());
        if rules.last().0 == c {
            rest.push(rules.last().1)
        } else {
            rest
        }
    }
}

/// The characters that may stand at the place of `c`: `c` itself, then its
/// replacements.
pub open spec fn choices(c: char, rules: Seq<ReplacePair>) -> Seq<char> {
    seq![c] + replacements_for(c, rules)
}

/// `partial` followed by each of `cs` in turn.
pub open spec fn branch(partial: Word, cs: Seq<char>) -> Seq<Word> {
    Seq::new(cs.len(), |k: int| partial.push(cs[k]))
}

/// Every word of `partials` followed by each of `cs`: the branches of the
/// first word, then those of the second, and so on.
pub open spec fn extend(partials: Seq<Word>, cs: Seq<char>) -> Seq<Word>
    decreases partials.len(),
{
    if partials.len() == 0 {
        Seq::empty()
    } else {
        extend(partials.drop_last(), cs) + branch(partials.last(), cs)
    }
}

/// Every substitution variant of `word`: at each place the character
/// itself or one of its replacements, the places chosen independently.
pub open spec fn substitutions(word: Word, rules: Seq<ReplacePair>) -> Seq<Word>
    decreases word.len(),
{
    if word.len() == 0 {
        seq![Seq::<char>::empty()]
    } else {
        extend(substitutions(word.drop_last(), rules), choices(word.last(), rules))
    }
}

/// Every capitalization variant of `word` in the order of the masks, each
/// followed through all its substitution variants.
pub open spec fn permutations(word: Word, rules: Seq<ReplacePair>) -> Seq<Word> {
    Seq::new(pow2(word.len()), |m: int| substitutions(cap_variant(word, m as nat), rules)).flatten()
}

/// A mask below `2^j` has bit `j` clear.
pub proof fn lemma_bit_low(mask: nat, j: nat)
    requires
        mask < pow2(j),
    ensures
        !bit(mask, j),
{
    lemma_basic_div(mask as int, pow2(j) as int);
}

/// A mask from `2^j` up to `2^(j+1)` has bit `j` set, and below bit `j` the
/// bits of the mask less `2^j`.
pub proof fn lemma_bit_high(mask: nat, j: nat)
    requires
        pow2(j) <= mask < 2 * pow2(j),
    ensures
        bit(mask, j),
        forall|i: nat| i < j ==> bit(mask, i) == #[trigger] bit((mask - pow2(j)) as nat, i),
{
    let rest = mask - pow2(j);
    lemma_pow2_pos(j);
    lemma_div_multiples_vanish_fancy(1, rest, pow2(j) as int);
    assert(pow2(j) * 1 + rest == mask);
    assert forall|i: nat| i < j implies bit(mask, i) == #[trigger] bit(rest as nat, i) by {
        let d = pow2(i);
        let k = pow2((j - i) as nat);
        let t = pow2((j - i - 1) as nat);
        lemma_pow2_pos(i);
        lemma_pow2_adds(i, (j - i) as nat);
        lemma_pow2_unfold((j - i) as nat);
        assert(pow2(j) == d * k);
        assert(k == 2 * t);
        lemma_hoist_over_denominator(rest, k as int, d);
        assert(k * d == d * k) by (nonlinear_arith);
        assert(mask as int / d as int == rest / d as int + k);
        lemma_mod_multiples_vanish(t as int, rest / d as int, 2);
    }
}

/// `word` with `c` at its end.
pub fn with_char(word: &String, c: char) -> (out: String)
    ensures
        out@ == word@.push(c),
{
    let mut out = word.clone();
    out.push(c);
    out
}

/// Every capitalization variant of `word`, one for each mask from 0 up to
/// `2^n` for a word of `n` characters: entry `m` upper-cases the characters
/// whose bit is set in `m`.
pub fn capitalizations(word: &str) -> (out: Vec<String>)
    ensures
        out@.len() == pow2(word@.len()),
        forall|m: int| 0 <= m < out@.len() ==> (#[trigger] out@[m])@ == cap_variant(word@, m as nat),
{
    let n: usize = word.unicode_len();
    let mut cur: Vec<String> = Vec::new();
    cur.push(String::new());
    let mut j: usize = 0;
    proof {
        vstd::arithmetic::power2::lemma2_to64();
        assert(cur@[0]@ =~= cap_variant(word@.take(0), 0));
    }
    while j < n
        invariant
            j <= n,
            n == word@.len(),
            cur@.len() == pow2(j as nat),
            forall|m: int| 0 <= m < cur@.len() ==> (#[trigger] cur@[m])@ == cap_variant(word@.take(j as int), m as nat),
        decreases n - j,
    {
        let c: char = word.get_char(j);
        let up: char = c.to_ascii_uppercase();
        let mut next: Vec<String> = Vec::new();
        let mut a: usize = 0;
        while a < cur.len()
            invariant
                a <= cur.len(),
                next@.len() == a,
                forall|m: int| 0 <= m < a ==> (#[trigger] next@[m])@ == cur@[m]@.push(c),
            decreases cur.len() - a,
        {
            next.push(with_char(&cur[a], c));
            a = a + 1;
        }
        let mut b: usize = 0;
        while b < cur.len()
            invariant
                b <= cur.len(),
                next@.len() == cur.len() + b,
                forall|m: int| 0 <= m < cur.len() ==> (#[trigger] next@[m])@ == cur@[m]@.push(c),
                forall|m: int| 0 <= m < b ==> (#[trigger] next@[cur.len() + m])@ == cur@[m]@.push(up),
            decreases cur.len() - b,
        {
            next.push(with_char(&cur[b], up));
            b = b + 1;
        }
        proof {
            let half = pow2(j as nat);
            let shorter = word@.take(j as int);
            let longer = word@.take(j + 1);
            lemma_pow2_unfold((j + 1) as nat);
            assert forall|m: int| 0 <= m < next@.len() implies (#[trigger] next@[m])@ == cap_variant(
                longer,
                m as nat,
            ) by {
                if m < half {
                    lemma_bit_low(m as nat, j as nat);
                    assert(next@[m]@ == cur@[m]@.push(c));
                    assert(cap_variant(shorter, m as nat).push(c) =~= cap_variant(longer, m as nat));
                } else {
                    let low = m - half;
                    lemma_bit_high(m as nat, j as nat);
                    assert(next@[cur.len() + low]@ == cur@[low]@.push(up));
                    assert forall|i: int| 0 <= i < j implies bit(m as nat, i as nat) == #[trigger] bit(
                        low as nat,
                        i as nat,
                    ) by {
                        assert(bit(m as nat, i as nat) == bit((m as nat - pow2(j as nat)) as nat, i as nat));
                    }
                    assert(cap_variant(shorter, low as nat).push(up) =~= cap_variant(longer, m as nat));
                }
            }
        }
        cur = next;
        j = j + 1;
    }
    proof {
        assert(word@.take(j as int) =~= word@);
    }
    cur
}

/// Every substitution variant of `word` under `replacements`: the word is
/// read left to right, and at each character every partial result goes on
/// with the character itself and with each of its replacements. Every
/// result is as long as `word`.
pub fn add_transformations(word: &str, replacements: &Vec<ReplacePair>) -> (out: Vec<String>)
    ensures
        texts(out@) == substitutions(word@, replacements@),
        forall|i: int| 0 <= i < out@.len() ==> (#[trigger] out@[i])@.len() == word@.len(),
{
    let ghost rules = replacements@;
    let n: usize = word.unicode_len();
    let mut current: Vec<String> = Vec::new();
    current.push(String::new());
    let mut i: usize = 0;
    proof {
        assert(texts(current@) =~= substitutions(word@.take(0), rules));
    }
    while i < n
        invariant
            i <= n,
            n == word@.len(),
            rules == replacements@,
            texts(current@) == substitutions(word@.take(i as int), rules),
            forall|k: int| 0 <= k < current@.len() ==> (#[trigger] current@[k])@.len() == i,
        decreases n - i,
    {
        let c: char = word.get_char(i);
        let ghost prev = texts(current@);
        let mut grown: Vec<String> = Vec::new();
        let mut a: usize = 0;
        proof {
            assert(texts(grown@) =~= extend(prev.take(0), choices(c, rules)));
        }
        while a < current.len()
            invariant
                a <= current.len(),
                rules == replacements@,
                prev == texts(current@),
                texts(grown@) == extend(prev.take(a as int), choices(c, rules)),
                forall|k: int| 0 <= k < current@.len() ==> (#[trigger] current@[k])@.len() == i,
                forall|k: int| 0 <= k < grown@.len() ==> (#[trigger] grown@[k])@.len() == i + 1,
            decreases current.len() - a,
        {
            let ghost base = texts(grown@);
            let ghost partial = prev[a as int];
            grown.push(with_char(&current[a], c));
            let mut b: usize = 0;
            proof {
                assert(rules.take(0) =~= Seq::<ReplacePair>::empty());
                assert(texts(grown@) =~= base + branch(partial, choices(c, rules.take(0))));
            }
            while b < replacements.len()
                invariant
                    b <= replacements.len(),
                    a < current.len(),
                    rules == replacements@,
                    partial == current@[a as int]@,
                    partial.len() == i,
                    texts(grown@) == base + branch(partial, choices(c, rules.take(b as int))),
                    forall|k: int| 0 <= k < grown@.len() ==> (#[trigger] grown@[k])@.len() == i + 1,
                decreases replacements.len() - b,
            {
                let ghost before = texts(grown@);
                proof {
                    assert(rules.take(b + 1).drop_last() =~= rules.take(b as int));
                }
                if c == replacements[b].from() {
                    grown.push(with_char(&current[a], replacements[b].to()));
                    proof {
                        assert(texts(grown@) =~= before.push(partial.push(rules[b as int].1)));
                        assert(branch(partial, choices(c, rules.take(b + 1))) =~= branch(
                            partial,
                            choices(c, rules.take(b as int)),
                        ).push(partial.push(rules[b as int].1)));
                        assert(texts(grown@) =~= base + branch(partial, choices(c, rules.take(b + 1))));
                    }
                }
                b = b + 1;
            }
            proof {
                assert(rules.take(b as int) =~= rules);
                assert(prev.take(a + 1).drop_last() =~= prev.take(a as int));
            }
            a = a + 1;
        }
        proof {
            assert(prev.take(a as int) =~= prev);
            assert(word@.take(i + 1).drop_last() =~= word@.take(i as int));
        }
        current = grown;
        i = i + 1;
    }
    proof {
        assert(word@.take(i as int) =~= word@);
    }
    current
}

/// Every capitalization variant of the lower-cased `w`, in the order of
/// the masks, each with all its substitution variants.
pub fn generate_permutations(w: &str, replacements: &Vec<ReplacePair>) -> (out: Vec<String>)
    ensures
        texts(out@) == permutations(lowercase_of(w@), replacements@),
        forall|i: int| 0 <= i < out@.len() ==> (#[trigger] out@[i])@.len() == lowercase_of(w@).len(),
{
    let word = w.to_lowercase();
    let variants = capitalizations(word.as_str());
    let ghost each = Seq::new(
        pow2(word@.len()),
        |m: int| substitutions(cap_variant(word@, m as nat), replacements@),
    );
    let mut out: Vec<String> = Vec::new();
    let mut i: usize = 0;
    proof {
        assert(each.take(0) =~= Seq::<Seq<Word>>::empty());
        assert(texts(out@) =~= each.take(0).flatten());
    }
    while i < variants.len()
        invariant
            i <= variants.len(),
            variants@.len() == pow2(word@.len()),
            forall|m: int| 0 <= m < variants@.len() ==> (#[trigger] variants@[m])@ == cap_variant(word@, m as nat),
            each == Seq::new(
                pow2(word@.len()),
                |m: int| substitutions(cap_variant(word@, m as nat), replacements@),
            ),
            texts(out@) == each.take(i as int).flatten(),
            forall|k: int| 0 <= k < out@.len() ==> (#[trigger] out@[k])@.len() == word@.len(),
        decreases variants.len() - i,
    {
        let mut found = add_transformations(variants[i].as_str(), replacements);
        let ghost before = texts(out@);
        let ghost added = texts(found@);
        let ghost had = out@;
        let ghost new = found@;
        out.append(&mut found);
        proof {
            assert(texts(out@) =~= before + added);
            assert forall|k: int| 0 <= k < out@.len() implies (#[trigger] out@[k])@.len() == word@.len() by {
                if k >= had.len() {
                    assert(out@[k] == new[k - had.len()]);
                }
            }
            assert(each.take(i + 1) =~= each.take(i as int).push(each[i as int]));
            each.take(i as int).lemma_flatten_push(each[i as int]);
        }
        i = i + 1;
    }
    proof {
        assert(each.take(i as int) =~= each);
    }
    out
}

/// The lines of one base word: all its permutations, if it is at least
/// `min` characters long.
pub open spec fn own_lines(word: Word, rules: Seq<ReplacePair>, min: nat) -> Seq<Word> {
    if word.len() >= min {
        permutations(lowercase_of(word), rules)
    } else {
        Seq::empty()
    }
}

/// The lines of the chains that start with `term` and go on with one of
/// the first `k` entries of `terms`: for each such entry that is not empty
/// and keeps the chain within `max` characters, the lines of the longer
/// chain itself, then those of all chains that go on from it.
pub open spec fn chain_lines(
    term: Word,
    terms: Seq<Word>,
    k: nat,
    rules: Seq<ReplacePair>,
    min: nat,
    max: nat,
) -> Seq<Word>
    decreases max - term.len(), k,
{
    if k == 0 || k > terms.len() {
        Seq::empty()
    } else {
        let rest = chain_lines(term, terms, (k - 1) as nat, rules, min, max);
        let longer = term + terms[k - 1];
        if terms[k - 1].len() == 0 || longer.len() > max {
            rest
        } else {
            rest + own_lines(longer, rules, min) + chain_lines(
                longer,
                terms,
                terms.len(),
                rules,
                min,
                max,
            )
        }
    }
}

/// The lines of one entry of a list: its own, then its chains through
/// `first`, then its chains through `second`.
pub open spec fn entry_lines(
    word: Word,
    first: Seq<Word>,
    second: Seq<Word>,
    rules: Seq<ReplacePair>,
    min: nat,
    max: nat,
) -> Seq<Word> {
    own_lines(word, rules, min) + chain_lines(word, first, first.len(), rules, min, max)
        + chain_lines(word, second, second.len(), rules, min, max)
}

/// The lines of every entry of `list`, entry by entry.
pub open spec fn list_lines(
    list: Seq<Word>,
    first: Seq<Word>,
    second: Seq<Word>,
    rules: Seq<ReplacePair>,
    min: nat,
    max: nat,
) -> Seq<Word> {
    Seq::new(list.len(), |i: int| entry_lines(list[i], first, second, rules, min, max)).flatten()
}

/// The whole word list: the lines of the dictionary words, chained through
/// the dictionary and then the terms, followed by the lines of the terms,
/// chained through the terms and then the dictionary.
pub open spec fn wordlist_lines(
    dictionary: Seq<Word>,
    terms: Seq<Word>,
    rules: Seq<ReplacePair>,
    min: nat,
    max: nat,
) -> Seq<Word> {
    list_lines(dictionary, dictionary, terms, rules, min, max) + list_lines(
        terms,
        terms,
        dictionary,
        rules,
        min,
        max,
    )
}

/// The permutations of every chain that starts with `term` and goes on
/// with entries of `terms`, as long as the chain stays within `max_length`
/// characters; a chain is permuted if it has at least `min_length`. Empty
/// entries are passed over.
pub fn generate_concats(
    term: &String,
    terms: &Vec<String>,
    transforms: &Vec<ReplacePair>,
    min_length: usize,
    max_length: usize,
) -> (out: Vec<String>)
    ensures
        texts(out@) == chain_lines(
            term@,
            texts(terms@),
            terms@.len(),
            transforms@,
            min_length as nat,
            max_length as nat,
        ),
    decreases max_length - term@.len(),
{
    let ghost list = texts(terms@);
    let ghost rules = transforms@;
    let ghost min = min_length as nat;
    let ghost max = max_length as nat;
    let mut out: Vec<String> = Vec::new();
    let held: usize = term.as_str().unicode_len();
    let mut k: usize = 0;
    proof {
        assert(texts(out@) =~= chain_lines(term@, list, 0, rules, min, max));
    }
    while k < terms.len()
        invariant
            k <= terms.len(),
            held == term@.len(),
            list == texts(terms@),
            rules == transforms@,
            min == min_length,
            max == max_length,
            texts(out@) == chain_lines(term@, list, k as nat, rules, min, max),
        decreases terms.len() - k,
    {
        let more: usize = terms[k].as_str().unicode_len();
        if more != 0 && held <= max_length && more <= max_length - held {
            let longer = term.clone().concat(terms[k].as_str());
            let ghost before = texts(out@);
            let ghost own = own_lines(longer@, rules, min);
            if held + more >= min_length {
                let mut found = generate_permutations(longer.as_str(), transforms);
                let ghost added = texts(found@);
                out.append(&mut found);
                proof {
                    assert(texts(out@) =~= before + added);
                }
            }
            proof {
                assert(texts(out@) =~= before + own);
            }
            let mut chained = generate_concats(&longer, terms, transforms, min_length, max_length);
            let ghost tail = texts(chained@);
            out.append(&mut chained);
            proof {
                assert(texts(out@) =~= before + own + tail);
            }
        }
        k = k + 1;
    }
    out
}

/// The lines of every entry of `list`: its permutations if it has at least
/// `min_length` characters, then its chains through `first`, then those
/// through `second`.
pub fn generate_entries(
    list: &Vec<String>,
    first: &Vec<String>,
    second: &Vec<String>,
    transforms: &Vec<ReplacePair>,
    min_length: usize,
    max_length: usize,
) -> (out: Vec<String>)
    ensures
        texts(out@) == list_lines(
            texts(list@),
            texts(first@),
            texts(second@),
            transforms@,
            min_length as nat,
            max_length as nat,
        ),
{
    let ghost rules = transforms@;
    let ghost min = min_length as nat;
    let ghost max = max_length as nat;
    let ghost each = Seq::new(
        list@.len(),
        |i: int| entry_lines(texts(list@)[i], texts(first@), texts(second@), rules, min, max),
    );
    let mut out: Vec<String> = Vec::new();
    let mut i: usize = 0;
    proof {
        assert(each.take(0) =~= Seq::<Seq<Word>>::empty());
        assert(texts(out@) =~= each.take(0).flatten());
    }
    while i < list.len()
        invariant
            i <= list.len(),
            rules == transforms@,
            min == min_length,
            max == max_length,
            each == Seq::new(
                list@.len(),
                |i: int| entry_lines(texts(list@)[i], texts(first@), texts(second@), rules, min, max),
            ),
            texts(out@) == each.take(i as int).flatten(),
        decreases list.len() - i,
    {
        let ghost before = texts(out@);
        let ghost own = own_lines(list@[i as int]@, rules, min);
        if list[i].as_str().unicode_len() >= min_length {
            let mut found = generate_permutations(list[i].as_str(), transforms);
            let ghost added = texts(found@);
            out.append(&mut found);
            proof {
                assert(texts(out@) =~= before + added);
            }
        }
        proof {
            assert(texts(out@) =~= before + own);
        }
        let mut one = generate_concats(&list[i], first, transforms, min_length, max_length);
        let ghost through_first = texts(one@);
        out.append(&mut one);
        let mut other = generate_concats(&list[i], second, transforms, min_length, max_length);
        let ghost through_second = texts(other@);
        out.append(&mut other);
        proof {
            assert(texts(out@) =~= before + (own + through_first + through_second));
            assert(each.take(i + 1) =~= each.take(i as int).push(each[i as int]));
            each.take(i as int).lemma_flatten_push(each[i as int]);
        }
        i = i + 1;
    }
    proof {
        assert(each.take(i as int) =~= each);
    }
    out
}

/// The lines of the plain word list, in the order in which they are
/// written: for each dictionary word its permutations and its chains
/// through the dictionary and through the terms, then the same for each
/// term, through the terms and through the dictionary.
pub fn generate_wordlist(
    dictionary: Vec<String>,
    terms: Vec<String>,
    transforms: &Vec<ReplacePair>,
    min_length: usize,
    max_length: usize,
) -> (out: Vec<String>)
    ensures
        texts(out@) == wordlist_lines(
            texts(dictionary@),
            texts(terms@),
            transforms@,
            min_length as nat,
            max_length as nat,
        ),
{
    let mut out = generate_entries(&dictionary, &dictionary, &terms, transforms, min_length, max_length);
    let ghost before = texts(out@);
    let mut rest = generate_entries(&terms, &terms, &dictionary, transforms, min_length, max_length);
    let ghost added = texts(rest@);
    out.append(&mut rest);
    proof {
        assert(texts(out@) =~= before + added);
    }
    out
}

} // verus!
