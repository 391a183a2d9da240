//! Capitalising the first letter of each word of a text.

use vstd::prelude::*;
use crate::chars::{ascii_upper, is_ascii_letter};

verus! {

/// The character at position `i` of the capitalised form of `s`: an ASCII
/// letter at the start of the text or right after a space becomes upper
/// case, every other character stays.
pub open spec fn capitalized_at(s: Seq<char>, i: int) -> char {
    if is_ascii_letter(s[i]) && (i == 0 || s[i - 1] == ' ') {
        ascii_upper(s[i])
    } else {
        s[i]
    }
}

/// The capitalised form of `s`.
pub open spec fn capitalized(s: Seq<char>) -> Seq<char> {
    Seq::new(s.len(), |i: int| capitalized_at(s, i))
}

/// Returns `s` with the first letter of each word in upper case. A word
/// starts at the beginning of the text and after each space; only ASCII
/// letters change.
pub fn capitalize(s: &str) -> (r: String)
    ensures
        r@ == capitalized(s@),
{
    let mut out = String::new();
    let mut after_space = true;
    for c in it: s.chars()
        invariant
            it.seq() == s@,
            out@ == capitalized(s@).take(it.index() as int),
            after_space == (it.index() == 0 || s@[it.index() - 1] == ' '),
    {
        let d = if c.is_ascii_alphabetic() && after_space {
            c.to_ascii_uppercase()
        } else {
            c
        };
        out.push(d);
        after_space = c == ' ';
        assert(capitalized(s@).take(it.index() + 1) =~= capitalized(s@).take(it.index() as int).push(d));
    }
    assert(capitalized(s@).take(s@.len() as int) =~= capitalized(s@));
    out
}

} // verus!
