use react::capitalize::capitalize;
use react::chars::{chars_of, split_on, string_of};
use react::luhn::is_valid;

#[test]
fn capitalize_only_touches_ascii_letters_after_spaces() {
    assert_eq!(capitalize("hello  wOrld 1a"), "Hello  WOrld 1a");
    assert_eq!(capitalize(" x"), " X");
    assert_eq!(capitalize("a\tb"), "A\tb");
    assert_eq!(capitalize("è una stringa con è"), "è Una Stringa Con è");
}

#[test]
fn split_keeps_empty_parts() {
    assert_eq!(split_on("a/b//c", '/'), vec!["a", "b", "", "c"]);
    assert_eq!(split_on("", '/'), vec![""]);
    assert_eq!(split_on("/", '/'), vec!["", ""]);
    assert_eq!(split_on("no separator", '/'), vec!["no separator"]);
}

#[test]
fn chars_and_back() {
    assert_eq!(chars_of("aé*"), vec!['a', 'é', '*']);
    assert_eq!(string_of(&vec!['1', ' ', 'z']), "1 z");
    assert_eq!(string_of(&chars_of("")), "");
}

#[test]
fn luhn_valid_codes() {
    assert!(is_valid("4539 3195 0343 6467"));
    assert!(is_valid("91"));
    assert!(is_valid("0000 0"));
    assert!(is_valid(" 0 0 "));
}

#[test]
fn luhn_invalid_codes() {
    assert!(!is_valid("8273 1232 7352 0569"));
    assert!(!is_valid("92"));
    assert!(!is_valid("1"));
    assert!(!is_valid(" 0"));
    assert!(!is_valid(""));
    assert!(!is_valid("12a4"));
    assert!(!is_valid("05-9"));
}

#[test]
fn luhn_counts_pairs_from_the_right() {
    // one pair: 1 + (2 * 9 - 9) = 10; the leading digit is in no pair
    assert!(is_valid("591"));
    // two pairs: 3 + 2 * 1 + 1 + 2 * 2 = 10
    assert!(is_valid("2113"));
    // 6 + (2 * 7 - 9) = 11
    assert!(!is_valid("76"));
}

#[test]
fn luhn_checked_agrees_with_the_check() {
    assert_eq!(react::luhn::checked("4539 3195 0343 6467"), Some(true));
    assert_eq!(react::luhn::checked("8273 1232 7352 0569"), Some(false));
    assert_eq!(react::luhn::checked(""), Some(false));
    assert_eq!(react::luhn::checked("12a4"), Some(false));
}

#[test]
fn luhn_checked_refuses_numeric_characters_that_are_no_decimal_digits() {
    // Arabic-Indic digits and a superscript two are numeric, and no decimal digits
    assert_eq!(react::luhn::checked("٣٤"), None);
    assert_eq!(react::luhn::checked("1 ² 3"), None);
    // with a character that is not numeric the digits are never read
    assert_eq!(react::luhn::checked("٣a"), Some(false));
}
