//! The Luhn checksum of a code written in decimal digits.

use vstd::prelude::*;
use crate::chars::{char_is_numeric, digit_value, is_ascii_digit};

verus! {

/// `s` without its spaces.
pub open spec fn without_spaces(s: Seq<char>) -> Seq<char> {
    s.filter(|c: char| c != ' ')
}

/// Every character of `s` is numeric.
pub open spec fn all_numeric(s: Seq<char>) -> bool {
    forall|i: int| 0 <= i < s.len() ==> char_is_numeric(#[trigger] s[i])
}

/// Every character of `s` is an ASCII digit.
pub open spec fn all_ascii_digits(s: Seq<char>) -> bool {
    forall|i: int| 0 <= i < s.len() ==> is_ascii_digit(#[trigger] s[i])
}

/// Twice the digit `d`, less nine when that has two digits.
pub open spec fn doubled(d: int) -> int {
    if 2 * d > 9 {
        2 * d - 9
    } else {
        2 * d
    }
}

/// The sum over the first `pairs` pairs of `digits`, counted from the right:
/// the first digit of a pair counts as it is, the second doubled.
pub open spec fn pair_sum(digits: Seq<char>, pairs: nat) -> int
    decreases pairs,
{
    if pairs == 0 {
        0
    } else {
        let i = digits.len() - 2 * pairs;
        pair_sum(digits, (pairs - 1) as nat) + digit_value(digits[i + 1]) + doubled(
            digit_value(digits[i]),
        )
    }
}

/// The code `s` passes the check: without its spaces it has at least two
/// characters, all of them numeric, and the sum over its pairs of digits is
/// a multiple of ten.
pub open spec fn luhn_valid(s: Seq<char>) -> bool {
    let digits = without_spaces(s);
    &&& digits.len() > 1
    &&& all_numeric(digits)
    &&& pair_sum(digits, digits.len() / 2) % 10 == 0
}

/// The code can be checked: if all its characters but the spaces are
/// numeric, they are decimal digits.
pub open spec fn checkable(s: Seq<char>) -> bool {
    all_numeric(without_spaces(s)) ==> all_ascii_digits(without_spaces(s))
}

/// Checks a Luhn checksum where the code can be checked, and returns `None`
/// where it cannot: where it holds a numeric character that is no decimal
/// digit, and no character that is neither numeric nor a space.
pub fn checked(code: &str) -> (r: Option<bool>)
    ensures
        match r {
            Some(valid) => checkable(code@) && valid == luhn_valid(code@),
            None => !checkable(code@),
        },
{
    let mut numeric = true;
    let mut digits = true;
    let ghost mut kept: Seq<char> = Seq::empty();
    for c in it: code.chars()
        invariant
            it.seq() == code@,
            kept == without_spaces(code@.take(it.index() as int)),
            numeric == all_numeric(kept),
            digits == all_ascii_digits(kept),
    {
        proof {
            reveal(Seq::filter);
            assert(code@.take(it.index() + 1).drop_last() =~= code@.take(it.index() as int));
        }
        if c != ' ' {
            let ghost before = kept;
            proof {
                kept = kept.push(c);
            }
            if !c.is_numeric() {
                numeric = false;
            }
            if !('0' <= c && c <= '9') {
                digits = false;
            }
            proof {
                if all_numeric(kept) {
                    assert forall|i: int| 0 <= i < before.len() implies char_is_numeric(
                        #[trigger] before[i],
                    ) by {
                        assert(kept[i] == before[i]);
                    }
                    assert(char_is_numeric(kept[before.len() as int]));
                }
                if all_ascii_digits(kept) {
                    assert forall|i: int| 0 <= i < before.len() implies is_ascii_digit(
                        #[trigger] before[i],
                    ) by {
                        assert(kept[i] == before[i]);
                    }
                    assert(is_ascii_digit(kept[before.len() as int]));
                }
            }
        }
    }
    proof {
        assert(code@.take(code@.len() as int) =~= code@);
    }
    if numeric && !digits {
        None
    } else {
        Some(is_valid(code))
    }
}

/// Checks a Luhn checksum. Spaces are skipped; a code with fewer than two
/// other characters, or with one that is not numeric, is not valid.
pub fn is_valid(code: &str) -> (valid: bool)
    requires
        checkable(code@),
    ensures
        valid == luhn_valid(code@),
{
    let mut code_ch: Vec<char> = Vec::new();
    let mut numeric = true;
    for c in it: code.chars()
        invariant
            it.seq() == code@,
            code_ch@ == without_spaces(code@.take(it.index() as int)),
            numeric == all_numeric(code_ch@),
    {
        proof {
            reveal(Seq::filter);
            assert(code@.take(it.index() + 1).drop_last() =~= code@.take(it.index() as int));
        }
        if c != ' ' {
            let ghost before = code_ch@;
            code_ch.push(c);
            if !c.is_numeric() {
                numeric = false;
            }
            proof {
                if all_numeric(code_ch@) {
                    assert forall|i: int| 0 <= i < before.len() implies char_is_numeric(
                        #[trigger] before[i],
                    ) by {
                        assert(code_ch@[i] == before[i]);
                    }
                    assert(char_is_numeric(code_ch@[before.len() as int]));
                }
            }
        }
    }
    proof {
        assert(code@.take(code@.len() as int) =~= code@);
    }
    let n = code_ch.len();
    if n <= 1 || !numeric {
        return false;
    }
    let mut sum: u128 = 0;
    let mut pairs: usize = 0;
    while pairs < n / 2
        invariant
            pairs <= n / 2,
            n == code_ch@.len(),
            all_ascii_digits(code_ch@),
            sum == pair_sum(code_ch@, pairs as nat),
            sum <= 18 * pairs,
        decreases n / 2 - pairs,
    {
        let i = n - 2 * (pairs + 1);
        assert(is_ascii_digit(code_ch@[i as int]) && is_ascii_digit(code_ch@[i + 1]));
        let first = code_ch[i + 1].to_digit(10).unwrap();
        let second = code_ch[i].to_digit(10).unwrap();
        let mut rep: u32 = 2 * second;
        if rep > 9 {
            rep -= 9;
        }
        sum = sum + (first + rep) as u128;
        pairs += 1;
    }
    sum % 10 == 0
}

} // verus!
