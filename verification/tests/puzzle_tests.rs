use react::puzzle::{can_compute, can_solve, compute, op_to_string, solve};

#[test]
fn compute_goes_from_left_to_right() {
    assert_eq!(compute(&vec![&'+', &'*'], &vec![&1, &2, &3]), Some(9));
    assert_eq!(compute(&vec![&'*', &'+'], &vec![&1, &2, &3]), Some(5));
    assert_eq!(compute(&vec![], &vec![&7]), Some(7));
}

#[test]
fn compute_division_rounds_towards_zero() {
    assert_eq!(compute(&vec![&'-', &'/'], &vec![&1, &8, &2]), Some(-3));
    assert_eq!(compute(&vec![&'/'], &vec![&7, &2]), Some(3));
}

#[test]
fn compute_fails_on_division_by_zero_and_on_other_characters() {
    assert_eq!(compute(&vec![&'/', &'+'], &vec![&7, &0, &1]), None);
    assert_eq!(compute(&vec![&'%', &'+'], &vec![&7, &2, &1]), None);
}

#[test]
fn expression_text() {
    assert_eq!(op_to_string(&vec![&'+', &'-'], &vec![&1, &2, &3]), "1+2-3");
    assert_eq!(op_to_string(&vec![&'+', &'-', &'*'], &vec![&1, &2]), "1+2-");
    assert_eq!(op_to_string(&vec![], &vec![]), "");
}

#[test]
fn solve_lists_the_expressions_that_reach_the_target() {
    let (one, two, three, four) = (1u8, 2u8, 3u8, 4u8);
    let (plus, times) = ('+', '*');
    let perms = vec![vec![&one, &two, &three, &four], vec![&four, &three, &two, &one], vec![&two, &one, &four, &three]];
    let ops = vec![vec![&plus, &plus, &plus], vec![&times, &times, &times], vec![&times, &plus, &plus]];
    assert_eq!(solve(&perms, &ops, 10), vec!["1+2+3+4", "4+3+2+1", "2+1+4+3"]);
    assert_eq!(solve(&perms, &ops, 24), vec!["1*2*3*4", "4*3*2*1", "2*1*4*3"]);
    assert_eq!(solve(&perms, &ops, 9), vec!["1*2+3+4", "2*1+4+3"]);
    assert_eq!(solve(&perms, &ops, 1000), Vec::<String>::new());
}

#[test]
fn can_compute_tells_what_compute_takes() {
    assert!(can_compute(&vec![&'+', &'*'], &vec![&1, &2, &3]));
    assert!(can_compute(&vec![], &vec![&7]));
    // no number to start from
    assert!(!can_compute(&vec![&'+'], &vec![]));
    // an operator is missing
    assert!(!can_compute(&vec![&'+'], &vec![&1, &2, &3]));
    // nothing is read after a division by zero or a character that is no operator
    assert!(can_compute(&vec![&'/'], &vec![&1, &0, &3]));
    assert!(can_compute(&vec![&'?'], &vec![&1, &2, &3, &4]));
    // 255 * 255 * 255 * 255 does not fit
    assert!(can_compute(&vec![&'*', &'*'], &vec![&255, &255, &255]));
    assert!(!can_compute(&vec![&'*', &'*', &'*'], &vec![&255, &255, &255, &255]));
}

#[test]
fn can_solve_tells_what_solve_takes() {
    let (one, two, ten) = (1u8, 2u8, 10u8);
    let (plus, times) = ('+', '*');
    assert!(can_solve(&vec![vec![&one, &two], vec![&two, &one]], &vec![vec![&plus], vec![&times]]));
    assert!(can_solve(&vec![], &vec![vec![&plus]]));
    assert!(!can_solve(&vec![vec![&one, &ten]], &vec![vec![&plus]]));
    assert!(!can_solve(&vec![vec![&one, &two]], &vec![vec![&plus], vec![]]));
}
