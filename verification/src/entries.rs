//! What comes in from outside: substitution rules as text, and the lines of
//! a dictionary.

use crate::generate::ReplacePair;
use crate::words::{texts, Word};
use vstd::prelude::*;

verus! {

/// Why a text is no substitution rule.
#[derive(Debug, Clone, Copy, PartialEq, Eq, Structural)]
pub enum PairError {
    /// The text holds no `=`.
    NoEquals,
    /// What stands before the first `=` is not exactly one character.
    BadKey,
    /// What stands after the first `=` is not exactly one character.
    BadValue,
}

/// What `parse_key_val` makes of a text: the rule `k=v` for a text of the
/// three characters `k`, `=` and `v`, where `k` is no `=`; else the first
/// thing that is wrong with it.
pub open spec fn key_val(s: Seq<char>) -> Result<ReplacePair, PairError> {
    if !s.contains('=') {
        Err(PairError::NoEquals)
    } else if !(s.len() >= 2 && s[0] != '=' && s[1] == '=') {
        Err(PairError::BadKey)
    } else if s.len() != 3 {
        Err(PairError::BadValue)
    } else {
        Ok(ReplacePair(s[0], s[2]))
    }
}

/// Reads a substitution rule written as `k=v`: one character, `=`, one
/// character. The text is split at its first `=`.
pub fn parse_key_val(s: &str) -> (r: Result<ReplacePair, PairError>)
    ensures
        r == key_val(s@),
{
    let n: usize = s.unicode_len();
    let mut pos: usize = 0;
    while pos < n && s.get_char(pos) != '='
        invariant
            pos <= n,
            n == s@.len(),
            forall|j: int| 0 <= j < pos ==> s@[j] != '=',
        decreases n - pos,
    {
        pos = pos + 1;
    }
    if pos == n {
        return Err(PairError::NoEquals);
    }
    assert(s@[pos as int] == '=');
    if pos != 1 {
        return Err(PairError::BadKey);
    }
    if n != 3 {
        return Err(PairError::BadValue);
    }
    Ok(ReplacePair(s.get_char(0), s.get_char(2)))
}

/// A text without the white space at its two ends, as the standard library
/// trims it. Nothing here says what it is for a given text.
pub uninterp spec fn trimmed(s: Seq<char>) -> Seq<char>;

/// Believed of `str::trim`, not proved: the trimmed text that it gives
/// depends on the text alone.
pub assume_specification[ str::trim ](s: &str) -> (r: &str)
    ensures
        r@ == trimmed(s@),
;

/// Whether a trimmed line is kept as an entry: it is not empty and at most
/// `max` characters long.
pub open spec fn is_entry(w: Word, max: nat) -> bool {
    0 < w.len() <= max
}

/// The entries among `lines`: each line trimmed, the empty ones and those
/// of more than `max` characters left out.
pub open spec fn entries_of(lines: Seq<Word>, max: nat) -> Seq<Word> {
    lines.map_values(|l: Word| trimmed(l)).filter(|w: Word| is_entry(w, max))
}

/// The dictionary entries that the lines of a file give: every line
/// trimmed, without the empty ones and those longer than `max_length`.
pub fn dictionary_entries(lines: &Vec<String>, max_length: usize) -> (out: Vec<String>)
    ensures
        texts(out@) == entries_of(texts(lines@), max_length as nat),
        forall|i: int| 0 <= i < out@.len() ==> 0 < (#[trigger] out@[i])@.len() <= max_length,
{
    let ghost all = texts(lines@).map_values(|l: Word| trimmed(l));
    let ghost pred = |w: Word| is_entry(w, max_length as nat);
    let mut out: Vec<String> = Vec::new();
    let mut i: usize = 0;
    proof {
        reveal(Seq::filter);
        assert(all.take(0) =~= Seq::<Word>::empty());
        assert(texts(out@) =~= all.take(0).filter(pred));
    }
    while i < lines.len()
        invariant
            i <= lines.len(),
            all == texts(lines@).map_values(|l: Word| trimmed(l)),
            pred == (|w: Word| is_entry(w, max_length as nat)),
            texts(out@) == all.take(i as int).filter(pred),
            forall|j: int| 0 <= j < out@.len() ==> 0 < (#[trigger] out@[j])@.len() <= max_length,
        decreases lines.len() - i,
    {
        let word = lines[i].as_str().trim();
        let n: usize = word.unicode_len();
        proof {
            reveal(Seq::filter);
            assert(all.take(i + 1).drop_last() =~= all.take(i as int));
            assert(all[i as int] == word@);
        }
        if 0 < n && n <= max_length {
            let ghost before = texts(out@);
            out.push(word.to_owned());
            proof {
                assert(texts(out@) =~= before.push(word@));
            }
        }
        i = i + 1;
    }
    proof {
        assert(all.take(i as int) =~= all);
    }
    out
}

} // verus!
