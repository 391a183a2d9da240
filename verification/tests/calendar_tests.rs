use react::calendar::{Calendar, Span, Time};

fn at(hours: u32, minutes: u32) -> Time {
    Time { secs: hours * 3600 + minutes * 60, frac: 0 }
}

fn minutes(n: i64) -> Span {
    Span { secs: n * 60, nanos: 0 }
}

fn day() -> Calendar {
    Calendar::new("09:00:00\n18:00:00\n10:00:00\n11:00:00\n14:00:00\n15:30:00").unwrap()
}

#[test]
fn calendar_is_read_line_by_line() {
    let calendar = day();
    assert_eq!(calendar.bounds, (at(9, 0), at(18, 0)));
    assert_eq!(calendar.schedule, vec![(at(10, 0), at(11, 0)), (at(14, 0), at(15, 30))]);
}

#[test]
fn calendar_reads_fractions_of_a_second() {
    let calendar = Calendar::new("00:00:01.5\n23:59:59").unwrap();
    assert_eq!(calendar.bounds.0, Time { secs: 1, frac: 500_000_000 });
    assert_eq!(calendar.bounds.1, Time { secs: 86_399, frac: 0 });
    assert!(calendar.schedule.is_empty());
}

#[test]
fn calendar_that_cannot_be_read() {
    assert!(Calendar::new("").is_none());
    assert!(Calendar::new("09:00:00").is_none());
    assert!(Calendar::new("09:00:00\n18:00:00\n").is_none());
    assert!(Calendar::new("09:00:00\n18:00:00\n10:00:00").is_none());
    assert!(Calendar::new("09:00:00\nnoon").is_none());
    assert!(Calendar::new("25:00:00\n18:00:00").is_none());
}

#[test]
fn holes_that_fit() {
    let calendar = day();
    assert_eq!(
        calendar.find_holes(minutes(60)),
        Some(vec![(at(9, 0), at(10, 0)), (at(11, 0), at(14, 0)), (at(15, 30), at(18, 0))])
    );
    assert_eq!(
        calendar.find_holes(minutes(61)),
        Some(vec![(at(11, 0), at(14, 0)), (at(15, 30), at(18, 0))])
    );
    assert_eq!(calendar.find_holes(minutes(180)), Some(vec![(at(11, 0), at(14, 0))]));
    assert_eq!(calendar.find_holes(minutes(181)), None);
}

#[test]
fn holes_of_no_length_fit_a_meeting_of_no_length() {
    let calendar = Calendar::new("09:00:00\n10:00:00\n09:00:00\n10:00:00").unwrap();
    assert_eq!(
        calendar.find_holes(minutes(0)),
        Some(vec![(at(9, 0), at(9, 0)), (at(10, 0), at(10, 0))])
    );
    assert_eq!(calendar.find_holes(Span { secs: 0, nanos: 1 }), None);
    // every hole is longer than a negative time, also one that ends before it starts
    let overbooked = Calendar::new("09:00:00\n10:00:00\n08:00:00\n11:00:00").unwrap();
    assert_eq!(overbooked.find_holes(minutes(0)), None);
    assert_eq!(
        overbooked.find_holes(minutes(-60)),
        Some(vec![(at(9, 0), at(8, 0)), (at(11, 0), at(10, 0))])
    );
}

#[test]
fn meeting_fits_to_the_nanosecond() {
    let start = Time { secs: 10, frac: 999_999_999 };
    let end = Time { secs: 12, frac: 1 };
    assert!(Calendar::fits_meeting(start, end, Span { secs: 1, nanos: 2 }));
    assert!(!Calendar::fits_meeting(start, end, Span { secs: 1, nanos: 3 }));
    assert!(Calendar::fits_meeting(end, start, Span { secs: -1, nanos: -2 }));
    assert!(!Calendar::fits_meeting(end, start, Span { secs: -1, nanos: -1 }));
}

#[test]
fn leap_second_counts_in_full() {
    let in_leap = Time { secs: 59, frac: 1_500_000_000 };
    let after = Time { secs: 60, frac: 0 };
    assert!(Calendar::fits_meeting(in_leap, after, Span { secs: 0, nanos: 500_000_000 }));
    assert!(!Calendar::fits_meeting(in_leap, after, Span { secs: 0, nanos: 500_000_001 }));
    assert!(Calendar::fits_meeting(after, in_leap, Span { secs: 0, nanos: -500_000_000 }));
    assert!(!Calendar::fits_meeting(after, in_leap, Span { secs: 0, nanos: -499_999_999 }));
}

#[test]
fn times_are_ordered_by_seconds_then_nanoseconds() {
    let early = Time { secs: 5, frac: 900 };
    let late = Time { secs: 6, frac: 100 };
    assert!(late.ge(&early));
    assert!(!early.ge(&late));
    assert!(early.le(&late));
    assert!(early.ge(&early) && early.le(&early));
    assert!(Time { secs: 5, frac: 901 }.ge(&early));
    assert!(Span { secs: 1, nanos: 0 }.ge(&Span { secs: 0, nanos: 999_999_999 }));
    assert!(!Span { secs: -1, nanos: 0 }.ge(&Span { secs: 0, nanos: -999_999_999 }));
}

#[test]
fn common_holes_keeps_the_inner_hole() {
    let mine = vec![(at(9, 0), at(10, 0)), (at(11, 0), at(14, 0))];
    let yours = vec![(at(9, 30), at(9, 45)), (at(10, 0), at(15, 0)), (at(16, 0), at(17, 0))];
    assert_eq!(
        Calendar::common_holes(&mine, &yours),
        Some(vec![(at(9, 30), at(9, 45)), (at(11, 0), at(14, 0))])
    );
}

#[test]
fn common_holes_leaves_equal_and_overlapping_holes_out() {
    let mine = vec![(at(9, 0), at(10, 0)), (at(11, 0), at(13, 0))];
    let yours = vec![(at(9, 0), at(10, 0)), (at(12, 0), at(14, 0))];
    assert_eq!(Calendar::common_holes(&mine, &yours), None);
}

#[test]
fn common_holes_with_an_empty_list() {
    let some = vec![(at(9, 0), at(10, 0))];
    assert_eq!(Calendar::common_holes(&Vec::new(), &some), Some(some.clone()));
    assert_eq!(Calendar::common_holes(&some, &Vec::new()), Some(some.clone()));
    assert_eq!(Calendar::common_holes(&Vec::new(), &Vec::new()), Some(Vec::new()));
}
