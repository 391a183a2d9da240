use react::minesweeper::{
    annotate, checked_above_bottom, checked_annotate, checked_same_line, fits_across, fits_field,
    fits_same_line, has_empty_row, lookup_above_bottom, lookup_same_line, match_all_characters,
};

#[test]
fn mine_in_the_middle() {
    assert_eq!(annotate(&["   ", " * ", "   "]), vec!["111", "1*1", "111"]);
}

#[test]
fn mines_in_a_cross() {
    assert_eq!(
        annotate(&["  *  ", "  *  ", "*****", "  *  ", "  *  "]),
        vec!["02*20", "25*52", "*****", "25*52", "02*20"]
    );
}

#[test]
fn no_rows() {
    assert_eq!(annotate(&[]), Vec::<String>::new());
}

#[test]
fn plain_fields_come_first_as_they_are() {
    assert_eq!(annotate(&["  "]), vec!["  ", "00"]);
    assert_eq!(annotate(&["***", "***"]), vec!["***", "***", "***", "***"]);
    assert_eq!(annotate(&[""]), vec!["", ""]);
}

#[test]
fn other_characters_are_left_out() {
    assert_eq!(annotate(&["a*"]), vec!["*"]);
    assert_eq!(annotate(&["* 3"]), vec!["*13"]);
}

#[test]
fn same_line_counts_both_sides() {
    assert_eq!(lookup_same_line(&vec!['*', ' ', '*']), vec!['*', '2', '*']);
    assert_eq!(lookup_same_line(&vec![' ', '*', '7']), vec!['1', '*', '8']);
    assert_eq!(lookup_same_line(&vec![]), Vec::<char>::new());
}

#[test]
fn neighbour_line_counts_three_cells() {
    assert_eq!(lookup_above_bottom(&vec!['1', ' '], &vec!['*', '*']), vec!['3', '2']);
    assert_eq!(lookup_above_bottom(&vec!['*', '0', '0'], &vec![' ', ' ', '*']), vec!['*', '1', '1']);
}

#[test]
fn all_characters() {
    assert!(match_all_characters(&["**", "*"], '*'));
    assert!(!match_all_characters(&["**", "* "], '*'));
    assert!(match_all_characters(&[], 'x'));
    assert!(match_all_characters(&["", ""], 'x'));
}

#[test]
fn empty_rows() {
    assert!(has_empty_row(&["ab", ""]));
    assert!(!has_empty_row(&["ab", " "]));
    assert!(!has_empty_row(&[]));
}

#[test]
fn checked_annotate_agrees_with_annotate() {
    assert_eq!(checked_annotate(&["   ", " * ", "   "]), Some(vec!["111".to_string(), "1*1".to_string(), "111".to_string()]));
    assert_eq!(checked_annotate(&[]), Some(Vec::new()));
    assert_eq!(checked_annotate(&["a*"]), Some(vec!["*".to_string()]));
}

#[test]
fn checked_annotate_refuses_counts_that_do_not_stay_a_digit() {
    // nine and a mine beside it
    assert_eq!(checked_annotate(&["9*"]), None);
    // eight, a mine beside it and one below
    assert_eq!(checked_annotate(&["8*", "* "]), None);
    assert_eq!(checked_annotate(&["7*", "* "]), Some(vec!["9*".to_string(), "*2".to_string()]));
    // a superscript two is numeric, and no decimal digit
    assert_eq!(checked_annotate(&["²"]), None);
    // the row below is too short for a count of this row
    assert_eq!(checked_annotate(&["  ", " "]), None);
    assert_eq!(checked_annotate(&[" *", " "]), Some(vec!["1*".to_string(), "1".to_string()]));
}

#[test]
fn checked_lines() {
    assert_eq!(checked_same_line(&vec!['*', ' ', '*']), Some(vec!['*', '2', '*']));
    assert_eq!(checked_same_line(&vec!['*', '8', '*']), None);
    assert_eq!(checked_same_line(&vec!['*', '7', '*']), Some(vec!['*', '9', '*']));
    assert_eq!(checked_above_bottom(&vec!['1', ' '], &vec!['*', '*']), Some(vec!['3', '2']));
    assert_eq!(checked_above_bottom(&vec!['8', ' '], &vec!['*', '*']), None);
    assert_eq!(checked_above_bottom(&vec!['*', ' '], &vec!['*']), None);
    assert_eq!(checked_above_bottom(&vec!['*', 'x'], &vec![]), Some(vec!['*']));
    assert!(fits_same_line(&vec!['9', ' ', 'x']));
    assert!(!fits_same_line(&vec!['9', '*']));
    assert!(fits_across(&vec!['6'], &vec!['*', '*', '*']));
    assert!(!fits_across(&vec!['*', '7'], &vec!['*', '*', '*']));
    assert!(fits_field(&["***", "*1*", "** "]));
    assert!(!fits_field(&["***", "*5*", "***"]));
}
