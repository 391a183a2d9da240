//! Texts as sequences of characters: splitting and rebuilding them, and the
//! contracts of the character and string functions that the other modules
//! call in the standard library and in `itertools`.

use vstd::prelude::*;

verus! {

/// `c` is one of the ASCII letters.
pub open spec fn is_ascii_letter(c: char) -> bool {
    ('a' <= c && c <= 'z') || ('A' <= c && c <= 'Z')
}

/// `c` is one of the ASCII digits.
pub open spec fn is_ascii_digit(c: char) -> bool {
    '0' <= c && c <= '9'
}

/// `c` with an ASCII lower-case letter replaced by its upper-case form.
pub open spec fn ascii_upper(c: char) -> char {
    if 'a' <= c && c <= 'z' {
        ((c as u32) - 32) as char
    } else {
        c
    }
}

/// `char::is_ascii_alphabetic` holds exactly of the letters `A` to `Z` and
/// `a` to `z`.
pub assume_specification[ char::is_ascii_alphabetic ](c: &char) -> (r: bool)
    ensures
        r == is_ascii_letter(*c),
;

/// `char::to_ascii_uppercase` maps `a` to `z` to `A` to `Z` and leaves every
/// other character as it is.
pub assume_specification[ char::to_ascii_uppercase ](c: &char) -> (r: char)
    ensures
        r == ascii_upper(*c),
;

/// Whether `char::is_numeric` holds of a character: whether Unicode puts it
/// in one of its numeric categories.
pub uninterp spec fn char_is_numeric(c: char) -> bool;

/// `char::is_numeric` depends on the character alone; of the ASCII
/// characters it holds exactly of the digits `0` to `9`.
pub assume_specification[ char::is_numeric ](c: char) -> (r: bool)
    ensures
        r == char_is_numeric(c),
        c <= '\x7f' ==> r == is_ascii_digit(c),
;

/// The value of `c` as a digit: `0` to `9` for the ASCII digits, `10` to
/// `35` for the ASCII letters of either case, and `36` for every other character.
pub open spec fn digit_value(c: char) -> int {
    if '0' <= c && c <= '9' {
        c as int - '0' as int
    } else if 'a' <= c && c <= 'z' {
        c as int - 'a' as int + 10
    } else if 'A' <= c && c <= 'Z' {
        c as int - 'A' as int + 10
    } else {
        36
    }
}

/// `char::to_digit` gives the value of a character that is a digit in the
/// radix, and `None` for any other character. It panics on a radix outside 2 to 36.
pub assume_specification[ char::to_digit ](c: char, radix: u32) -> (r: Option<u32>)
    requires
        2 <= radix <= 36,
    ensures
        r == if digit_value(c) < radix {
            Some(digit_value(c) as u32)
        } else {
            None
        },
;

/// The character that stands for the digit `num`: `0` to `9`, then `a` to `z`.
pub open spec fn digit_char(num: int) -> char {
    if num < 10 {
        ('0' as int + num) as char
    } else {
        ('a' as int + num - 10) as char
    }
}

/// `char::from_digit` gives the character of a number below the radix, and
/// `None` for any other number. It panics on a radix above 36.
pub assume_specification[ char::from_digit ](num: u32, radix: u32) -> (r: Option<char>)
    requires
        radix <= 36,
    ensures
        r == if num < radix {
            Some(digit_char(num as int))
        } else {
            None
        },
;

/// `String::push` appends one character.
pub assume_specification[ String::push ](s: &mut String, c: char)
    ensures
        final(s)@ == old(s)@.push(c),
;

/// `c` with an ASCII upper-case letter replaced by its lower-case form.
pub open spec fn ascii_lower(c: char) -> char {
    if 'A' <= c && c <= 'Z' {
        ((c as u32) + 32) as char
    } else {
        c
    }
}

/// `str::to_ascii_lowercase` copies the text with `A` to `Z` mapped to `a`
/// to `z` and every other character as it is.
pub assume_specification[ str::to_ascii_lowercase ](s: &str) -> (r: String)
    ensures
        r@ == s@.map_values(|c: char| ascii_lower(c)),
;

/// `needle` occurs in `hay` as a run of consecutive characters.
pub open spec fn has_substring(hay: Seq<char>, needle: Seq<char>) -> bool {
    exists|i: int|
        0 <= i <= hay.len() - needle.len() && #[trigger] hay.subrange(i, i + needle.len())
            == needle
}

/// `str::contains` with a text as its pattern: whether the pattern occurs
/// in the text.
#[verifier::external_body]
pub(crate) fn str_contains(hay: &str, needle: &str) -> (r: bool)
    ensures
        r == has_substring(hay@, needle@),
{
    hay.contains(needle)
}

/// Equality of two texts (`==` on `str`): they hold the same characters.
#[verifier::external_body]
pub(crate) fn str_eq(a: &str, b: &str) -> (r: bool)
    ensures
        r == (a@ == b@),
{
    a == b
}

/// `core::str::from_utf8`: the text that the bytes encode, or `None` where
/// they are no valid UTF-8.
#[verifier::external_body]
pub(crate) fn utf8_text(bytes: &[u8]) -> (r: Option<&str>)
    ensures
        match r {
            Some(text) => vstd::utf8::valid_utf8(bytes@) && text@ == vstd::utf8::decode_utf8(
                bytes@,
            ),
            None => !vstd::utf8::valid_utf8(bytes@),
        },
{
    match core::str::from_utf8(bytes) {
        Ok(text) => Some(text),
        Err(_) => None,
    }
}

/// The number that the decimal digits `digits` write.
pub open spec fn digits_value(digits: Seq<char>) -> nat
    decreases digits.len(),
{
    if digits.len() == 0 {
        0
    } else {
        digits_value(digits.drop_last()) * 10 + (digits.last() as int - '0' as int) as nat
    }
}

/// The number that `s` writes in decimal: an optional `+`, then at least
/// one ASCII digit and nothing else.
pub open spec fn decimal(s: Seq<char>) -> Option<nat> {
    let digits = if s.len() > 0 && s[0] == '+' {
        s.subrange(1, s.len() as int)
    } else {
        s
    };
    if digits.len() > 0 && (forall|i: int| 0 <= i < digits.len() ==> is_ascii_digit(digits[i])) {
        Some(digits_value(digits))
    } else {
        None
    }
}

/// `s` writes a decimal number that is at most `max`.
pub open spec fn writes_upto(s: Seq<char>, max: int) -> bool {
    match decimal(s) {
        Some(v) => v <= max,
        None => false,
    }
}

/// `usize::from_str_radix` with radix 10: the number that the text writes,
/// or `None` where it writes none or one that does not fit.
#[verifier::external_body]
pub(crate) fn parse_usize(s: &str) -> (r: Option<usize>)
    ensures
        r == match decimal(s@) {
            Some(v) => if v <= usize::MAX {
                Some(v as usize)
            } else {
                None
            },
            None => None,
        },
{
    match usize::from_str_radix(s, 10) {
        Ok(v) => Some(v),
        Err(_) => None,
    }
}

/// `u64::from_str_radix` with radix 10: the number that the text writes,
/// or `None` where it writes none or one that does not fit.
#[verifier::external_body]
pub(crate) fn parse_u64(s: &str) -> (r: Option<u64>)
    ensures
        r == match decimal(s@) {
            Some(v) => if v <= u64::MAX {
                Some(v as u64)
            } else {
                None
            },
            None => None,
        },
{
    match u64::from_str_radix(s, 10) {
        Ok(v) => Some(v),
        Err(_) => None,
    }
}

/// The number of times that `c` occurs in `s`.
pub open spec fn count_char(s: Seq<char>, c: char) -> nat
    decreases s.len(),
{
    if s.len() == 0 {
        0
    } else {
        count_char(s.drop_last(), c) + if s.last() == c {
            1nat
        } else {
            0nat
        }
    }
}

/// The position of the first `c` in `s`, or the length of `s` if there is none.
pub open spec fn first_char(s: Seq<char>, c: char) -> int
    decreases s.len(),
{
    if s.len() == 0 {
        0
    } else if s[0] == c {
        0
    } else {
        1 + first_char(s.drop_first(), c)
    }
}

/// `str::split` on `sep` collected by `itertools::Itertools::collect_tuple`
/// into a pair: the text before and the text after the separator of a text
/// that holds it exactly once, `None` for any other text.
#[verifier::external_body]
pub(crate) fn split_pair(s: &str, sep: char) -> (r: Option<(&str, &str)>)
    ensures
        match r {
            Some((key, value)) => {
                &&& count_char(s@, sep) == 1
                &&& key@ == s@.take(first_char(s@, sep))
                &&& value@ == s@.skip(first_char(s@, sep) + 1)
            },
            None => count_char(s@, sep) != 1,
        },
{
    itertools::Itertools::collect_tuple(s.split(sep))
}

/// The characters of each text.
pub open spec fn texts_of(lines: Seq<String>) -> Seq<Seq<char>> {
    Seq::new(lines.len(), |i: int| lines[i]@)
}

/// The characters of each text.
pub open spec fn strs_of(lines: Seq<&str>) -> Seq<Seq<char>> {
    Seq::new(lines.len(), |i: int| lines[i]@)
}

/// Appending a text appends its characters.
pub proof fn lemma_texts_push(lines: Seq<String>, line: String)
    ensures
        texts_of(lines.push(line)) == texts_of(lines).push(line@),
{
    assert(texts_of(lines.push(line)) =~= texts_of(lines).push(line@));
}

/// The parts of `s` between the occurrences of `sep`: one part more than
/// there are occurrences.
pub open spec fn split(s: Seq<char>, sep: char) -> Seq<Seq<char>>
    decreases s.len(),
{
    if s.len() == 0 {
        seq![Seq::empty()]
    } else {
        let parts = split(s.drop_last(), sep);
        if s.last() == sep {
            parts.push(Seq::empty())
        } else {
            parts.drop_last().push(parts.last().push(s.last()))
        }
    }
}

/// A text splits into at least one part.
pub proof fn lemma_split_len(s: Seq<char>, sep: char)
    ensures
        split(s, sep).len() >= 1,
    decreases s.len(),
{
    if s.len() > 0 {
        lemma_split_len(s.drop_last(), sep);
    }
}

/// Splits `s` at every occurrence of `sep`.
pub fn split_on(s: &str, sep: char) -> (parts: Vec<String>)
    ensures
        texts_of(parts@) == split(s@, sep),
{
    let mut parts: Vec<String> = Vec::new();
    let mut current = String::new();
    for c in it: s.chars()
        invariant
            it.seq() == s@,
            texts_of(parts@).push(current@) == split(s@.take(it.index() as int), sep),
    {
        proof {
            assert(s@.take(it.index() + 1).drop_last() =~= s@.take(it.index() as int));
            assert(s@.take(it.index() + 1).last() == c);
            lemma_split_len(s@.take(it.index() as int), sep);
        }
        let ghost before = texts_of(parts@).push(current@);
        if c == sep {
            proof {
                lemma_texts_push(parts@, current);
            }
            parts.push(current);
            current = String::new();
        } else {
            current.push(c);
            assert(texts_of(parts@).push(current@) =~= before.drop_last().push(
                before.last().push(c),
            ));
        }
    }
    proof {
        assert(s@.take(s@.len() as int) =~= s@);
        lemma_texts_push(parts@, current);
    }
    parts.push(current);
    parts
}

/// The characters of `s`, in order.
pub fn chars_of(s: &str) -> (v: Vec<char>)
    ensures
        v@ == s@,
{
    let mut v: Vec<char> = Vec::new();
    for c in it: s.chars()
        invariant
            it.seq() == s@,
            v@ == s@.take(it.index() as int),
    {
        v.push(c);
        assert(s@.take(it.index() + 1) =~= s@.take(it.index() as int).push(c));
    }
    assert(s@.take(s@.len() as int) =~= s@);
    v
}

/// The text made of the characters of `v`, in order.
pub fn string_of(v: &Vec<char>) -> (s: String)
    ensures
        s@ == v@,
{
    let mut s = String::new();
    let mut i: usize = 0;
    while i < v.len()
        invariant
            i <= v.len(),
            s@ == v@.take(i as int),
        decreases v.len() - i,
    {
        s.push(v[i]);
        assert(v@.take(i as int + 1) =~= v@.take(i as int).push(v@[i as int]));
        i += 1;
    }
    assert(v@.take(v@.len() as int) =~= v@);
    s
}

} // verus!
