//! Free time between the meetings of a day.

use vstd::prelude::*;
use crate::chars::{split, split_on, texts_of};

verus! {

/// A time of day: whole seconds since midnight and nanoseconds on top. The
/// nanoseconds reach a second or more only within a leap second.
#[derive(Clone, Copy, Debug, PartialEq, Eq, Structural)]
pub struct Time {
    pub secs: u32,
    pub frac: u32,
}

/// A signed length of time: whole seconds and nanoseconds of the same sign.
#[derive(Clone, Copy, Debug, PartialEq, Eq, Structural)]
pub struct Span {
    pub secs: i64,
    pub nanos: i32,
}

impl Time {
    /// The time is one that a day has.
    pub open spec fn valid(self) -> bool {
        &&& self.secs < 86_400
        &&& self.frac < 2_000_000_000
        &&& self.frac >= 1_000_000_000 ==> self.secs % 60 == 59
    }

    /// `self` is not before `other`.
    pub open spec fn not_before(self, other: Time) -> bool {
        self.secs > other.secs || (self.secs == other.secs && self.frac >= other.frac)
    }

    /// Whether `self` is not before `other`.
    pub fn ge(&self, other: &Time) -> (r: bool)
        ensures
            r == self.not_before(*other),
    {
        self.secs > other.secs || (self.secs == other.secs && self.frac >= other.frac)
    }

    /// Whether `self` is not after `other`.
    pub fn le(&self, other: &Time) -> (r: bool)
        ensures
            r == other.not_before(*self),
    {
        other.ge(self)
    }
}

impl Span {
    /// The length in nanoseconds.
    pub open spec fn total(self) -> int {
        self.secs * 1_000_000_000 + self.nanos
    }

    /// `self` is at least as long as `other`.
    pub fn ge(&self, other: &Span) -> (r: bool)
        ensures
            r == (self.total() >= other.total()),
    {
        let a: i128 = (self.secs as i128) * 1_000_000_000 + (self.nanos as i128);
        let b: i128 = (other.secs as i128) * 1_000_000_000 + (other.nanos as i128);
        a >= b
    }
}

/// The time from `start` to `end` in nanoseconds, negative if `end` is the
/// earlier one. A leap second that the earlier time lies in counts in full.
pub open spec fn gap(start: Time, end: Time) -> int {
    let leap: int = if end.secs > start.secs && start.frac >= 1_000_000_000 {
        1
    } else if end.secs < start.secs && end.frac >= 1_000_000_000 {
        -1
    } else {
        0
    };
    (end.secs - start.secs + leap) * 1_000_000_000 + (end.frac - start.frac)
}

/// The difference of two `chrono::NaiveTime` values (their `Sub`), each
/// made from seconds and nanoseconds and the result taken apart into
/// seconds and nanoseconds: the time from `start` to `end`.
#[verifier::external_body]
pub(crate) fn elapsed(start: Time, end: Time) -> (r: Span)
    requires
        start.valid(),
        end.valid(),
    ensures
        r.total() == gap(start, end),
{
    let s = chrono::NaiveTime::from_num_seconds_from_midnight_opt(start.secs, start.frac).unwrap();
    let e = chrono::NaiveTime::from_num_seconds_from_midnight_opt(end.secs, end.frac).unwrap();
    let d = e - s;
    Span { secs: d.num_seconds(), nanos: d.subsec_nanos() }
}

/// What `chrono::NaiveTime::from_str` makes of a text: the time that it
/// writes, or `None` where it writes none.
pub uninterp spec fn parsed_time(s: Seq<char>) -> Option<Time>;

/// `chrono::NaiveTime::from_str`, the result taken apart into seconds and
/// nanoseconds. The time depends on the text alone and is one that a day has.
#[verifier::external_body]
pub(crate) fn parse_time(s: &str) -> (r: Option<Time>)
    ensures
        r == parsed_time(s@),
        r matches Some(t) ==> t.valid(),
{
    match <chrono::NaiveTime as core::str::FromStr>::from_str(s) {
        Ok(t) => Some(
            Time {
                secs: chrono::Timelike::num_seconds_from_midnight(&t),
                frac: chrono::Timelike::nanosecond(&t),
            },
        ),
        Err(_) => None,
    }
}

/// The meetings of a day, in order, and the bounds of the day.
pub struct Calendar {
    pub schedule: Vec<(Time, Time)>,
    pub bounds: (Time, Time),
}

/// The free time before meeting `i` of the schedule: from the start of the
/// day or the end of the meeting before, to the start of meeting `i` or,
/// after the last meeting, the end of the day.
pub open spec fn slot(schedule: Seq<(Time, Time)>, bounds: (Time, Time), i: int) -> (Time, Time) {
    (
        if i == 0 {
            bounds.0
        } else {
            schedule[i - 1].1
        },
        if i == schedule.len() {
            bounds.1
        } else {
            schedule[i].0
        },
    )
}

/// Those of the first `n` slots that are at least `duration` long, in order.
pub open spec fn holes_upto(
    schedule: Seq<(Time, Time)>,
    bounds: (Time, Time),
    duration: Span,
    n: int,
) -> Seq<(Time, Time)>
    decreases n,
{
    if n <= 0 {
        Seq::empty()
    } else {
        let rest = holes_upto(schedule, bounds, duration, n - 1);
        let s = slot(schedule, bounds, n - 1);
        if gap(s.0, s.1) >= duration.total() {
            rest.push(s)
        } else {
            rest
        }
    }
}

/// The slot `inner` lies within the slot `outer`.
pub open spec fn within(inner: (Time, Time), outer: (Time, Time)) -> bool {
    inner.0.not_before(outer.0) && outer.1.not_before(inner.1)
}

/// What the pair of slots adds to the common holes: the one that lies
/// within the other, unless each lies within the other.
pub open spec fn common_of(a: (Time, Time), b: (Time, Time)) -> Seq<(Time, Time)> {
    if within(a, b) && !within(b, a) {
        seq![a]
    } else if !within(a, b) && within(b, a) {
        seq![b]
    } else {
        Seq::empty()
    }
}

/// The common holes of the first `i` slots of `holes1`, and of slot `i`
/// with the first `j` slots of `holes2`.
pub open spec fn common_upto(
    holes1: Seq<(Time, Time)>,
    holes2: Seq<(Time, Time)>,
    i: int,
    j: int,
) -> Seq<(Time, Time)>
    decreases i, j,
{
    if j > 0 {
        common_upto(holes1, holes2, i, j - 1) + common_of(holes1[i], holes2[j - 1])
    } else if i > 0 {
        common_upto(holes1, holes2, i - 1, holes2.len() as int)
    } else {
        Seq::empty()
    }
}

/// The times that the texts write, two by two: first the bounds of the
/// day, then the meetings.
pub open spec fn times_upto(lines: Seq<Seq<char>>, n: int) -> Seq<(Time, Time)>
    decreases n,
{
    if n <= 0 {
        Seq::empty()
    } else {
        times_upto(lines, n - 1).push(
            (parsed_time(lines[2 * n - 2]).unwrap(), parsed_time(lines[2 * n - 1]).unwrap()),
        )
    }
}

/// The text can be read as a calendar: it has an even number of lines, at
/// least two, and every line writes a time.
pub open spec fn readable(lines: Seq<Seq<char>>) -> bool {
    &&& lines.len() >= 2
    &&& lines.len() % 2 == 0
    &&& forall|i: int| 0 <= i < lines.len() ==> parsed_time(#[trigger] lines[i]) is Some
}

impl Calendar {
    /// Reads a calendar from `text`, the content of a calendar file, with one
    /// time on each line: the start and the end of the day, then the start
    /// and the end of each meeting. Returns `None` for a text that cannot be
    /// read so.
    pub fn new(text: &str) -> (r: Option<Calendar>)
        ensures
            match r {
                Some(calendar) => {
                    let lines = split(text@, '\n');
                    &&& readable(lines)
                    &&& calendar.bounds == times_upto(lines, 1)[0]
                    &&& seq![calendar.bounds] + calendar.schedule@ == times_upto(
                        lines,
                        lines.len() as int / 2,
                    )
                    &&& calendar.wf()
                },
                None => !readable(split(text@, '\n')),
            },
    {
        let lines = split_on(text, '\n');
        let ghost texts = texts_of(lines@);
        if lines.len() < 2 || lines.len() % 2 != 0 {
            return None;
        }
        let mut times: Vec<(Time, Time)> = Vec::new();
        let mut i: usize = 0;
        while i < lines.len() / 2
            invariant
                i <= lines.len() / 2,
                texts == texts_of(lines@),
                texts == split(text@, '\n'),
                lines@.len() % 2 == 0,
                lines@.len() >= 2,
                times@.len() == i,
                times@ == times_upto(texts, i as int),
                forall|k: int| 0 <= k < 2 * i ==> parsed_time(#[trigger] texts[k]) is Some,
                forall|k: int| 0 <= k < i ==> (#[trigger] times@[k]).0.valid() && times@[k].1.valid(),
            decreases lines.len() / 2 - i,
        {
            let start = match parse_time(lines[2 * i].as_str()) {
                Some(t) => t,
                None => {
                    assert(parsed_time(texts[2 * i as int]) is None);
                    return None;
                },
            };
            let end = match parse_time(lines[2 * i + 1].as_str()) {
                Some(t) => t,
                None => {
                    assert(parsed_time(texts[2 * i as int + 1]) is None);
                    return None;
                },
            };
            times.push((start, end));
            i += 1;
        }
        let bounds = times[0];
        let mut schedule: Vec<(Time, Time)> = Vec::new();
        assert(forall|k: int| 0 <= k < texts.len() ==> parsed_time(#[trigger] texts[k]) is Some);
        let mut k: usize = 1;
        while k < times.len()
            invariant
                1 <= k <= times.len(),
                schedule@ == times@.subrange(1, k as int),
            decreases times.len() - k,
        {
            schedule.push(times[k]);
            assert(times@.subrange(1, k as int + 1) =~= times@.subrange(1, k as int).push(
                times@[k as int],
            ));
            k += 1;
        }
        proof {
            assert(times@.subrange(1, times@.len() as int).len() == times@.len() - 1);
            assert(seq![bounds] + schedule@ =~= times@);
            assert(times_upto(texts, 1) =~= seq![times@[0]]) by {
                reveal_with_fuel(times_upto, 2);
                assert(times@[0] == times_upto(texts, lines@.len() as int / 2)[0]);
                lemma_times_prefix(texts, 1, lines@.len() as int / 2);
            }
        }
        Some(Calendar { schedule, bounds })
    }

    /// Every time of the calendar is one that a day has.
    pub open spec fn wf(&self) -> bool {
        &&& self.bounds.0.valid()
        &&& self.bounds.1.valid()
        &&& forall|i: int|
            0 <= i < self.schedule@.len() ==> (#[trigger] self.schedule@[i]).0.valid()
                && self.schedule@[i].1.valid()
    }

    /// The free slots of the day that are at least `duration` long, in
    /// order, or `None` if there is none. The calendar holds a meeting.
    pub fn find_holes(&self, duration: Span) -> (r: Option<Vec<(Time, Time)>>)
        requires
            self.wf(),
            self.schedule@.len() > 0,
        ensures
            match r {
                Some(holes) => holes@.len() > 0 && holes@ == holes_upto(
                    self.schedule@,
                    self.bounds,
                    duration,
                    self.schedule@.len() as int + 1,
                ),
                None => holes_upto(
                    self.schedule@,
                    self.bounds,
                    duration,
                    self.schedule@.len() as int + 1,
                ).len() == 0,
            },
    {
        let mut holes: Vec<(Time, Time)> = Vec::new();
        let mut start_time: Time = self.bounds.0;
        let mut end_time: Time = self.schedule[0].0;
        if Calendar::fits_meeting(start_time, end_time, duration) {
            holes.push((start_time, end_time));
        }
        assert(holes@ =~= holes_upto(self.schedule@, self.bounds, duration, 1)) by {
            reveal_with_fuel(holes_upto, 2);
        }
        let mut i: usize = 0;
        while i < self.schedule.len() - 1
            invariant
                i <= self.schedule.len() - 1,
                self.wf(),
                self.schedule@.len() > 0,
                holes@ == holes_upto(self.schedule@, self.bounds, duration, i + 1),
            decreases self.schedule.len() - 1 - i,
        {
            start_time = self.schedule[i].1;
            end_time = self.schedule[i + 1].0;
            if Calendar::fits_meeting(start_time, end_time, duration) {
                holes.push((start_time, end_time));
            }
            i += 1;
        }
        start_time = self.schedule[self.schedule.len() - 1].1;
        end_time = self.bounds.1;
        if Calendar::fits_meeting(start_time, end_time, duration) {
            holes.push((start_time, end_time));
        }
        if holes.is_empty() {
            None
        } else {
            Some(holes)
        }
    }

    /// Whether the time from `start_time` to `end_time` is at least `duration`.
    pub fn fits_meeting(start_time: Time, end_time: Time, duration: Span) -> (r: bool)
        requires
            start_time.valid(),
            end_time.valid(),
        ensures
            r == (gap(start_time, end_time) >= duration.total()),
    {
        let dif = elapsed(start_time, end_time);
        dif.ge(&duration)
    }

    /// The holes that two lists have in common: of each pair of holes, one
    /// from each list, the one that lies within the other. A list without
    /// holes leaves the other as it is. Returns `None` if nothing is common.
    pub fn common_holes(holes1: &Vec<(Time, Time)>, holes2: &Vec<(Time, Time)>) -> (r: Option<
        Vec<(Time, Time)>,
    >)
        ensures
            holes1@.len() == 0 ==> (r matches Some(holes) && holes@ == holes2@),
            holes1@.len() > 0 && holes2@.len() == 0 ==> (r matches Some(holes) && holes@
                == holes1@),
            holes1@.len() > 0 && holes2@.len() > 0 ==> match r {
                Some(holes) => holes@.len() > 0 && holes@ == common_upto(
                    holes1@,
                    holes2@,
                    holes1@.len() as int,
                    0,
                ),
                None => common_upto(holes1@, holes2@, holes1@.len() as int, 0).len() == 0,
            },
    {
        if holes1.is_empty() {
            return Some(copy_of(holes2));
        } else if holes2.is_empty() {
            return Some(copy_of(holes1));
        }
        let mut ch: Vec<(Time, Time)> = Vec::new();
        let mut i: usize = 0;
        while i < holes1.len()
            invariant
                i <= holes1.len(),
                ch@ == common_upto(holes1@, holes2@, i as int, 0),
            decreases holes1.len() - i,
        {
            let h1 = holes1[i];
            let mut j: usize = 0;
            while j < holes2.len()
                invariant
                    j <= holes2.len(),
                    i < holes1.len(),
                    h1 == holes1@[i as int],
                    ch@ == common_upto(holes1@, holes2@, i as int, j as int),
                decreases holes2.len() - j,
            {
                let h2 = holes2[j];
                let int1 = h1.0.ge(&h2.0) && h1.1.le(&h2.1);
                let int2 = h2.0.ge(&h1.0) && h2.1.le(&h1.1);
                let ghost before = ch@;
                if int1 && !int2 {
                    ch.push(h1);
                    assert(ch@ =~= before + seq![h1]);
                } else if !int1 && int2 {
                    ch.push(h2);
                    assert(ch@ =~= before + seq![h2]);
                } else {
                    assert(ch@ =~= before + Seq::empty());
                }
                j += 1;
            }
            i += 1;
        }
        if ch.is_empty() {
            None
        } else {
            Some(ch)
        }
    }
}

/// A copy of the list.
fn copy_of(holes: &Vec<(Time, Time)>) -> (r: Vec<(Time, Time)>)
    ensures
        r@ == holes@,
{
    let mut r: Vec<(Time, Time)> = Vec::new();
    let mut i: usize = 0;
    while i < holes.len()
        invariant
            i <= holes.len(),
            r@ == holes@.take(i as int),
        decreases holes.len() - i,
    {
        r.push(holes[i]);
        assert(holes@.take(i as int + 1) =~= holes@.take(i as int).push(holes@[i as int]));
        i += 1;
    }
    assert(holes@.take(holes@.len() as int) =~= holes@);
    r
}

/// The first pairs of times stay as more lines are read.
proof fn lemma_times_prefix(lines: Seq<Seq<char>>, n: int, m: int)
    requires
        0 <= n <= m,
    ensures
        times_upto(lines, m).len() == m,
        times_upto(lines, n) =~= times_upto(lines, m).take(n),
    decreases m,
{
    if m > 0 {
        if n < m {
            lemma_times_prefix(lines, n, m - 1);
        } else {
            lemma_times_prefix(lines, m - 1, m - 1);
        }
    }
}

} // verus!
