//! Expansion of a pattern into its candidate words.

use crate::combine::{cartesian_concat, repeat_pool};
use crate::generate::ReplacePair;
use crate::pattern::{CharRange, Pattern, Shape};
use crate::syntax::{parse_pattern, parsed_shape};
use crate::text::single;
use crate::words::{concat_words, group_texts, lemma_within_step, repeat_words, texts, within, Word};
use vstd::prelude::*;
use vstd::utf8::{decode_utf8, valid_utf8};

verus! {

/// The settings of one run: the length window, the substitution rules, and
/// the word lists that the placeholders stand for.
pub struct Generator {
    pub min_length: usize,
    pub max_length: usize,
    pub transforms: Vec<ReplacePair>,
    pub dictionary: Vec<String>,
    pub terms: Vec<String>,
}

/// Why an expansion failed.
#[derive(Debug, Clone, Copy, PartialEq, Eq, Structural)]
pub enum ExpandError {
    /// The pattern is not in the grammar.
    InvalidPattern,
    /// A literal of the pattern is not text.
    InvalidText,
}

/// The literal `%t`, which stands for every term.
pub open spec fn terms_token() -> Seq<u8> {
    seq![0x25u8, 0x74u8]
}

/// The literal `%w`, which stands for every dictionary word.
pub open spec fn dictionary_token() -> Seq<u8> {
    seq![0x25u8, 0x77u8]
}

/// One single-character word for each character from `lo` to `hi`, in the
/// order of their codes.
pub open spec fn range_words(lo: char, hi: char) -> Seq<Word> {
    Seq::new(
        if lo as int <= hi as int { (hi as int - lo as int + 1) as nat } else { 0 },
        |i: int| seq![(lo as int + i) as char],
    )
}

/// The single-character words of a class, range by range.
pub open spec fn class_words(ranges: Seq<CharRange>) -> Seq<Word>
    decreases ranges.len(),
{
    if ranges.len() == 0 {
        Seq::empty()
    } else {
        class_words(ranges.drop_last()) + range_words(ranges.last().start, ranges.last().end)
    }
}

/// Whether no range of a class reaches beyond ASCII.
pub open spec fn ascii_only(ranges: Seq<CharRange>) -> bool {
    forall|i: int| 0 <= i < ranges.len() ==> (#[trigger] ranges[i]).end as int <= 0x7f
}

/// Whether every literal of a pattern is a placeholder or well-formed text.
pub open spec fn decodable(shape: Shape) -> bool
    decreases shape,
{
    match shape {
        Shape::Literal(bytes) => bytes == terms_token() || bytes == dictionary_token()
            || valid_utf8(bytes),
        Shape::Repetition(_, _, sub) => decodable(*sub),
        Shape::Capture(sub) => decodable(*sub),
        Shape::Concat(subs) => forall|i: int| 0 <= i < subs.len() ==> decodable(#[trigger] subs[i]),
        Shape::Alternation(subs) => forall|i: int|
            0 <= i < subs.len() ==> decodable(#[trigger] subs[i]),
        _ => true,
    }
}

/// The candidate words of each of `subs`, one list per sub-pattern.
pub open spec fn words_of_each(subs: Seq<Shape>, dictionary: Seq<Word>, terms: Seq<Word>, max: nat) -> Seq<Seq<Word>>
    decreases subs, 0int,
{
    Seq::new(
        subs.len(),
        |i: int|
            if 0 <= i < subs.len() {
                words_of(subs[i], dictionary, terms, max)
            } else {
                Seq::empty()
            },
    )
}

/// The candidate words that a pattern denotes, before the final length
/// window: placeholders stand for their lists, a class for its characters,
/// a concatenation and a repetition for the joined tuples of at most `max`
/// characters, an alternation for its branches' words one list after the
/// other.
pub open spec fn words_of(shape: Shape, dictionary: Seq<Word>, terms: Seq<Word>, max: nat) -> Seq<Word>
    decreases shape, 1int,
{
    match shape {
        Shape::Empty => seq![Seq::<char>::empty()],
        Shape::Look => seq![Seq::<char>::empty()],
        Shape::Literal(bytes) => if bytes == terms_token() {
            terms
        } else if bytes == dictionary_token() {
            dictionary
        } else {
            seq![decode_utf8(bytes)]
        },
        Shape::Class(ranges) => if ascii_only(ranges) {
            class_words(ranges)
        } else {
            Seq::empty()
        },
        Shape::ByteClass => Seq::empty(),
        Shape::Repetition(min, explicit, sub) => repeat_words(
            words_of(*sub, dictionary, terms, max),
            min as nat,
            explicit,
            max,
        ),
        Shape::Capture(sub) => words_of(*sub, dictionary, terms, max),
        Shape::Concat(subs) => concat_words(words_of_each(subs, dictionary, terms, max), max),
        Shape::Alternation(subs) => words_of_each(subs, dictionary, terms, max).flatten(),
    }
}

/// A copy of a list of words.
pub fn clone_words(list: &Vec<String>) -> (out: Vec<String>)
    ensures
        texts(out@) == texts(list@),
{
    let mut out: Vec<String> = Vec::new();
    let mut i: usize = 0;
    while i < list.len()
        invariant
            i <= list.len(),
            texts(out@) == texts(list@).take(i as int),
        decreases list.len() - i,
    {
        let ghost before = texts(out@);
        out.push(list[i].clone());
        proof {
            assert(texts(out@) =~= before.push(list[i as int]@));
            assert(texts(list@).take(i + 1) =~= before.push(list[i as int]@));
        }
        i = i + 1;
    }
    proof {
        assert(texts(list@).take(i as int) =~= texts(list@));
    }
    out
}

/// Whether `bytes` is the two-byte token that starts with `%` and ends
/// with `tail`.
pub fn is_token(bytes: &Vec<u8>, tail: u8) -> (b: bool)
    ensures
        b == (bytes@ == seq![0x25u8, tail]),
{
    let b = bytes.len() == 2 && bytes[0] == 0x25 && bytes[1] == tail;
    proof {
        if b {
            assert(bytes@ =~= seq![0x25u8, tail]);
        }
    }
    b
}

/// The single-character words of a class of ranges; none if a range
/// reaches beyond ASCII.
pub fn class_strings(ranges: &Vec<CharRange>) -> (out: Vec<String>)
    ensures
        texts(out@) == (if ascii_only(ranges@) {
            class_words(ranges@)
        } else {
            Seq::empty()
        }),
{
    let mut out: Vec<String> = Vec::new();
    let mut k: usize = 0;
    while k < ranges.len()
        invariant
            k <= ranges.len(),
            out@.len() == 0,
            forall|i: int| 0 <= i < k ==> (#[trigger] ranges@[i]).end as int <= 0x7f,
        decreases ranges.len() - k,
    {
        if ranges[k].end as u32 > 0x7f {
            proof {
                assert(ranges@[k as int].end as int > 0x7f);
                assert(texts(out@) =~= Seq::<Word>::empty());
            }
            return out;
        }
        k = k + 1;
    }
    let mut i: usize = 0;
    proof {
        assert(ranges@.take(0) =~= Seq::<CharRange>::empty());
    }
    while i < ranges.len()
        invariant
            i <= ranges.len(),
            ascii_only(ranges@),
            texts(out@) == class_words(ranges@.take(i as int)),
        decreases ranges.len() - i,
    {
        let lo: u32 = ranges[i].start as u32;
        let hi: u32 = ranges[i].end as u32;
        let ghost base = texts(out@);
        let ghost range = range_words(ranges@[i as int].start, ranges@[i as int].end);
        let mut code: u32 = lo;
        proof {
            assert(ranges@.take(i + 1).drop_last() =~= ranges@.take(i as int));
            assert(texts(out@) =~= base + range.take(0));
        }
        while code <= hi
            invariant
                i < ranges.len(),
                lo <= code,
                lo <= hi ==> code <= hi + 1,
                lo > hi ==> code == lo,
                hi <= 0x7f,
                lo == ranges@[i as int].start as u32,
                hi == ranges@[i as int].end as u32,
                range == range_words(ranges@[i as int].start, ranges@[i as int].end),
                texts(out@) == base + range.take(code - lo),
            decreases hi + 1 - code,
        {
            let ghost before = texts(out@);
            out.push(single((code as u8) as char));
            proof {
                assert(texts(out@) =~= before.push(seq![(code as u8) as char]));
                assert(range.take(code - lo + 1) =~= range.take(code - lo).push(range[code - lo]));
                assert(texts(out@) =~= base + range.take(code + 1 - lo));
            }
            code = code + 1;
        }
        proof {
            assert(range.take(code - lo) =~= range);
        }
        i = i + 1;
    }
    proof {
        assert(ranges@.take(i as int) =~= ranges@);
    }
    out
}

/// Expands a pattern into its candidate words, sub-pattern by sub-pattern.
/// Fails if a literal of the pattern is neither a placeholder nor text.
pub fn walk_regex(ast: &Pattern, gen: &Generator) -> (r: Result<Vec<String>, ExpandError>)
    ensures
        r is Ok <==> decodable(ast@),
        r is Ok ==> texts(r.unwrap()@) == words_of(
            ast@,
            texts(gen.dictionary@),
            texts(gen.terms@),
            gen.max_length as nat,
        ),
        r is Err ==> r == Err::<Vec<String>, ExpandError>(ExpandError::InvalidText),
    decreases ast,
{
    match ast {
        Pattern::Empty | Pattern::Look => {
            let mut out: Vec<String> = Vec::new();
            out.push(String::new());
            proof {
                assert(texts(out@) =~= seq![Seq::<char>::empty()]);
            }
            Ok(out)
        },
        Pattern::Literal(bytes) => {
            if is_token(bytes, 0x74) {
                Ok(clone_words(&gen.terms))
            } else if is_token(bytes, 0x77) {
                Ok(clone_words(&gen.dictionary))
            } else {
                match core::str::from_utf8(bytes.as_slice()) {
                    Ok(s) => {
                        let mut out: Vec<String> = Vec::new();
                        out.push(s.to_owned());
                        proof {
                            assert(texts(out@) =~= seq![decode_utf8(bytes@)]);
                        }
                        Ok(out)
                    },
                    Err(_) => Err(ExpandError::InvalidText),
                }
            }
        },
        Pattern::Class(ranges) => Ok(class_strings(ranges)),
        Pattern::ByteClass => Ok(Vec::new()),
        Pattern::Repetition { min, max, sub } => {
            match walk_regex(sub, gen) {
                Ok(pool) => Ok(repeat_pool(&pool, *min, *max, gen.max_length)),
                Err(e) => Err(e),
            }
        },
        Pattern::Capture(sub) => walk_regex(sub, gen),
        Pattern::Concat(subs) => {
            let ghost d = texts(gen.dictionary@);
            let ghost t = texts(gen.terms@);
            let ghost max = gen.max_length as nat;
            let mut groups: Vec<Vec<String>> = Vec::new();
            let mut i: usize = 0;
            while i < subs.len()
                invariant
                    i <= subs.len(),
                    *ast == Pattern::Concat(*subs),
                    groups@.len() == i,
                    d == texts(gen.dictionary@),
                    t == texts(gen.terms@),
                    max == gen.max_length,
                    forall|j: int| 0 <= j < i ==> decodable(#[trigger] subs@[j]@),
                    forall|j: int| 0 <= j < i ==> texts((#[trigger] groups@[j])@) == words_of(subs@[j]@, d, t, max),
                decreases subs.len() - i,
            {
                match walk_regex(&subs[i], gen) {
                    Ok(group) => {
                        groups.push(group);
                    },
                    Err(e) => {
                        proof {
                            assert(ast@ == Shape::Concat(Pattern::shapes(subs@)));
                            assert(Pattern::shapes(subs@)[i as int] == subs@[i as int]@);
                            let shapes = Pattern::shapes(subs@);
                            assert(shapes.len() == subs@.len());
                            assert(!decodable(shapes[i as int]));
                            if decodable(ast@) {
                                assert(ast@ matches Shape::Concat(s) && s == shapes);
                                assert(decodable(shapes[i as int]));
                            }
                        }
                        return Err(e);
                    },
                }
                i = i + 1;
            }
            let mut refs: Vec<&Vec<String>> = Vec::new();
            let mut j: usize = 0;
            while j < groups.len()
                invariant
                    j <= groups.len(),
                    refs@.len() == j,
                    forall|l: int| 0 <= l < j ==> (#[trigger] refs@[l])@ == groups@[l]@,
                decreases groups.len() - j,
            {
                refs.push(&groups[j]);
                j = j + 1;
            }
            proof {
                assert(ast@ == Shape::Concat(Pattern::shapes(subs@)));
                assert forall|l: int| 0 <= l < subs@.len() implies decodable(
                    #[trigger] Pattern::shapes(subs@)[l],
                ) by {
                    assert(decodable(subs@[l]@));
                }
                assert(group_texts(refs@) =~= words_of_each(Pattern::shapes(subs@), d, t, max));
            }
            Ok(cartesian_concat(&refs, gen.max_length))
        },
        Pattern::Alternation(subs) => {
            let ghost d = texts(gen.dictionary@);
            let ghost t = texts(gen.terms@);
            let ghost max = gen.max_length as nat;
            let ghost each = words_of_each(Pattern::shapes(subs@), d, t, max);
            let mut out: Vec<String> = Vec::new();
            let mut i: usize = 0;
            proof {
                assert(each.take(0) =~= Seq::<Seq<Word>>::empty());
                assert(texts(out@) =~= each.take(0).flatten());
            }
            while i < subs.len()
                invariant
                    i <= subs.len(),
                    *ast == Pattern::Alternation(*subs),
                    d == texts(gen.dictionary@),
                    t == texts(gen.terms@),
                    max == gen.max_length,
                    each == words_of_each(Pattern::shapes(subs@), d, t, max),
                    forall|j: int| 0 <= j < i ==> decodable(#[trigger] subs@[j]@),
                    texts(out@) == each.take(i as int).flatten(),
                decreases subs.len() - i,
            {
                match walk_regex(&subs[i], gen) {
                    Ok(mut branch) => {
                        let ghost before = texts(out@);
                        let ghost added = texts(branch@);
                        out.append(&mut branch);
                        proof {
                            assert(texts(out@) =~= before + added);
                            assert(each.take(i + 1) =~= each.take(i as int).push(each[i as int]));
                            each.take(i as int).lemma_flatten_push(each[i as int]);
                        }
                    },
                    Err(e) => {
                        proof {
                            assert(ast@ == Shape::Alternation(Pattern::shapes(subs@)));
                            assert(Pattern::shapes(subs@)[i as int] == subs@[i as int]@);
                            let shapes = Pattern::shapes(subs@);
                            assert(shapes.len() == subs@.len());
                            assert(!decodable(shapes[i as int]));
                            if decodable(ast@) {
                                assert(ast@ matches Shape::Alternation(s) && s == shapes);
                                assert(decodable(shapes[i as int]));
                            }
                        }
                        return Err(e);
                    },
                }
                i = i + 1;
            }
            proof {
                assert(ast@ == Shape::Alternation(Pattern::shapes(subs@)));
                assert forall|l: int| 0 <= l < subs@.len() implies decodable(
                    #[trigger] Pattern::shapes(subs@)[l],
                ) by {
                    assert(decodable(subs@[l]@));
                }
                assert(each.take(i as int) =~= each);
            }
            Ok(out)
        },
    }
}

/// The words of `words` that are `min_length` to `max_length` characters
/// long, in order.
pub fn keep_within(words: Vec<String>, min_length: usize, max_length: usize) -> (out: Vec<String>)
    ensures
        texts(out@) == within(texts(words@), min_length as nat, max_length as nat),
        forall|i: int| 0 <= i < out.len() ==> min_length <= (#[trigger] out[i])@.len() <= max_length,
{
    let ghost all = texts(words@);
    let mut out: Vec<String> = Vec::new();
    let mut i: usize = 0;
    proof {
        reveal(Seq::filter);
        assert(all.take(0) =~= Seq::<Word>::empty());
        assert(texts(out@) =~= within(all.take(0), min_length as nat, max_length as nat));
    }
    while i < words.len()
        invariant
            i <= words.len(),
            all == texts(words@),
            texts(out@) == within(all.take(i as int), min_length as nat, max_length as nat),
            forall|j: int| 0 <= j < out.len() ==> min_length <= (#[trigger] out[j])@.len() <= max_length,
        decreases words.len() - i,
    {
        let n: usize = words[i].as_str().unicode_len();
        proof {
            lemma_within_step(all, i as int, min_length as nat, max_length as nat);
        }
        if min_length <= n && n <= max_length {
            let ghost before = texts(out@);
            out.push(words[i].clone());
            proof {
                assert(texts(out@) =~= before.push(all[i as int]));
            }
        }
        i = i + 1;
    }
    proof {
        assert(all.take(i as int) =~= all);
    }
    out
}

/// The candidate words of a pattern inside the length window of `gen`.
pub open spec fn candidates(shape: Shape, gen: Generator) -> Seq<Word> {
    within(
        words_of(shape, texts(gen.dictionary@), texts(gen.terms@), gen.max_length as nat),
        gen.min_length as nat,
        gen.max_length as nat,
    )
}

/// Expands a pattern and keeps the words inside the length window of
/// `gen`. Fails with `InvalidText` exactly if a literal of the pattern is
/// neither a placeholder nor text.
pub fn expand(ast: &Pattern, gen: &Generator) -> (r: Result<Vec<String>, ExpandError>)
    ensures
        r is Ok <==> decodable(ast@),
        r is Ok ==> texts(r.unwrap()@) == candidates(ast@, *gen),
        r is Ok ==> forall|i: int| 0 <= i < r.unwrap().len() ==> gen.min_length <= (#[trigger] r.unwrap()[i])@.len() <= gen.max_length,
        r is Err ==> r == Err::<Vec<String>, ExpandError>(ExpandError::InvalidText),
{
    match walk_regex(ast, gen) {
        Ok(possible) => Ok(keep_within(possible, gen.min_length, gen.max_length)),
        Err(e) => Err(e),
    }
}

/// Parses a pattern text and expands it inside the length window of `gen`.
/// Fails with `InvalidPattern` exactly if the parser rejects the text, and
/// with `InvalidText` exactly if it accepts the text and a literal of the
/// pattern is neither a placeholder nor text.
pub fn regex_words(input: &str, gen: &Generator) -> (r: Result<Vec<String>, ExpandError>)
    ensures
        match parsed_shape(input@) {
            None => r == Err::<Vec<String>, ExpandError>(ExpandError::InvalidPattern),
            Some(shape) => if decodable(shape) {
                r is Ok && texts(r.unwrap()@) == candidates(shape, *gen)
            } else {
                r == Err::<Vec<String>, ExpandError>(ExpandError::InvalidText)
            },
        },
        r is Ok ==> forall|i: int| 0 <= i < r.unwrap().len() ==> gen.min_length <= (#[trigger] r.unwrap()[i])@.len() <= gen.max_length,
{
    match parse_pattern(input) {
        Some(ast) => expand(&ast, gen),
        None => Err(ExpandError::InvalidPattern),
    }
}

} // verus!
