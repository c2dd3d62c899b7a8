//! Days, seconds-since-midnight times, and weekly timestamps, with the
//! cyclic "compare relative to a reference departure" ordering that the
//! route search is built on.

use vstd::prelude::*;
use vstd::string::StringExecFns;
use core::cmp::Ordering;

verus! {

/// A day of the week.
#[derive(Debug, Copy, Clone, PartialEq, Eq, Structural)]
pub enum Day {
    Monday,
    Tuesday,
    Wednesday,
    Thursday,
    Friday,
    Saturday,
    Sunday,
}

/// Calendar position of a day, Monday first. This is the order in which
/// timestamps compare lexicographically.
pub open spec fn day_ord(d: Day) -> int {
    match d {
        Day::Monday => 0,
        Day::Tuesday => 1,
        Day::Wednesday => 2,
        Day::Thursday => 3,
        Day::Friday => 4,
        Day::Saturday => 5,
        Day::Sunday => 6,
    }
}

/// Bitmask position of a day, Sunday first: bit `1 << day.index()` of a
/// timetable's day mask says whether the timetable applies on that day.
pub open spec fn spec_day_index(d: Day) -> u8 {
    match d {
        Day::Sunday => 0,
        Day::Monday => 1,
        Day::Tuesday => 2,
        Day::Wednesday => 3,
        Day::Thursday => 4,
        Day::Friday => 5,
        Day::Saturday => 6,
    }
}

impl Day {
    /// 0-based bitmask index (Sunday = 0, Monday = 1, ... Saturday = 6).
    pub fn index(&self) -> (r: u8)
        ensures
            r == spec_day_index(*self),
            r <= 6,
    {
        match *self {
            Day::Sunday => 0,
            Day::Monday => 1,
            Day::Tuesday => 2,
            Day::Wednesday => 3,
            Day::Thursday => 4,
            Day::Friday => 5,
            Day::Saturday => 6,
        }
    }

    /// Calendar position (Monday = 0, ... Sunday = 6), the order timestamps
    /// sort by.
    pub fn calendar_ord(&self) -> (r: u8)
        ensures
            r as int == day_ord(*self),
            r <= 6,
    {
        match *self {
            Day::Monday => 0,
            Day::Tuesday => 1,
            Day::Wednesday => 2,
            Day::Thursday => 3,
            Day::Friday => 4,
            Day::Saturday => 5,
            Day::Sunday => 6,
        }
    }
}

/// Two distinct days have distinct calendar positions.
pub proof fn lemma_day_ord_injective(a: Day, b: Day)
    ensures
        day_ord(a) == day_ord(b) ==> a == b,
{
}

/// Time within a day as raw seconds from 00:00. The raw count is allowed to
/// exceed one day: offsets carry past midnight without wrapping, and only
/// the display form collapses the value back into a day.
#[derive(Debug, Copy, Clone, PartialEq, Eq, Structural)]
pub struct DayTime {
    pub raw: u64,
}

/// Minutes shown for a raw second count.
pub open spec fn display_minutes(raw: u64) -> int {
    (raw as int / 60) % 60
}

/// Hours shown for a raw second count: a value equivalent to 00:00 is shown
/// as hour 24.
pub open spec fn display_hours(raw: u64) -> int {
    if (raw as int / 3600) % 24 == 0 && display_minutes(raw) == 0 {
        24
    } else {
        (raw as int / 3600) % 24
    }
}

/// The decimal digit character for `d`.
pub open spec fn digit_char(d: int) -> char {
    if d == 0 {
        '0'
    } else if d == 1 {
        '1'
    } else if d == 2 {
        '2'
    } else if d == 3 {
        '3'
    } else if d == 4 {
        '4'
    } else if d == 5 {
        '5'
    } else if d == 6 {
        '6'
    } else if d == 7 {
        '7'
    } else if d == 8 {
        '8'
    } else {
        '9'
    }
}

/// The five characters `HH:MM` that a raw second count displays as.
pub open spec fn spec_hhmm(raw: u64) -> Seq<char> {
    seq![
        digit_char(display_hours(raw) / 10),
        digit_char(display_hours(raw) % 10),
        ':',
        digit_char(display_minutes(raw) / 10),
        digit_char(display_minutes(raw) % 10),
    ]
}

/// The one-character string for a decimal digit.
fn digit_str(d: u64) -> (r: &'static str)
    requires
        d < 10,
    ensures
        r@.len() == 1,
        r@[0] == digit_char(d as int),
{
    if d == 0 {
        proof { reveal_strlit("0"); }
        "0"
    } else if d == 1 {
        proof { reveal_strlit("1"); }
        "1"
    } else if d == 2 {
        proof { reveal_strlit("2"); }
        "2"
    } else if d == 3 {
        proof { reveal_strlit("3"); }
        "3"
    } else if d == 4 {
        proof { reveal_strlit("4"); }
        "4"
    } else if d == 5 {
        proof { reveal_strlit("5"); }
        "5"
    } else if d == 6 {
        proof { reveal_strlit("6"); }
        "6"
    } else if d == 7 {
        proof { reveal_strlit("7"); }
        "7"
    } else if d == 8 {
        proof { reveal_strlit("8"); }
        "8"
    } else {
        proof { reveal_strlit("9"); }
        "9"
    }
}

impl DayTime {
    /// A time of day from whole hours and minutes.
    pub fn new(hours: u64, minutes: u64) -> (r: DayTime)
        requires
            hours < 24,
            minutes < 60,
        ensures
            r.raw == hours * 3600 + minutes * 60,
    {
        DayTime { raw: hours * 3600 + minutes * 60 }
    }

    /// Advance by `offset` seconds; the raw count may carry past 24 h.
    pub fn offset(&self, offset: u64) -> (r: DayTime)
        requires
            self.raw + offset <= u64::MAX,
        ensures
            r.raw == self.raw + offset,
    {
        DayTime { raw: self.raw + offset }
    }

    /// Move back by `offset` seconds.
    pub fn neg_offset(&self, offset: u64) -> (r: DayTime)
        requires
            offset <= self.raw,
        ensures
            r.raw == self.raw - offset,
    {
        DayTime { raw: self.raw - offset }
    }

    /// The display form `HH:MM`; a value equivalent to 00:00 (for instance
    /// one reached by carrying past midnight) is shown as `24:00`.
    pub fn to_hhmm(&self) -> (r: String)
        ensures
            r@ == spec_hhmm(self.raw),
    {
        let minutes: u64 = self.raw / 60 % 60;
        let mut hours: u64 = self.raw / 3600 % 24;
        if hours == 0 && minutes == 0 {
            hours = 24;
        }
        let mut s = String::new();
        s.append(digit_str(hours / 10));
        s.append(digit_str(hours % 10));
        proof { reveal_strlit(":"); }
        s.append(":");
        s.append(digit_str(minutes / 10));
        s.append(digit_str(minutes % 10));
        proof {
            assert(s@ =~= spec_hhmm(self.raw));
        }
        s
    }
}

/// A weekly timestamp: a day together with a time within that day.
#[derive(Debug, Copy, Clone, PartialEq, Eq, Structural)]
pub struct Timestamp {
    pub day: Day,
    pub time: DayTime,
}

/// Plain lexicographic order on timestamps: by calendar day, then by the raw
/// second count.
pub open spec fn ts_lt(a: Timestamp, b: Timestamp) -> bool {
    day_ord(a.day) < day_ord(b.day) || (day_ord(a.day) == day_ord(b.day) && a.time.raw
        < b.time.raw)
}

/// `a` strictly precedes `b` on a linear time axis that starts at the
/// reference `dep` and runs forward one week: values at or after `dep` come
/// before values that wrapped around.
pub open spec fn cyclic_before(a: Timestamp, b: Timestamp, dep: Timestamp) -> bool {
    a != b && if ts_lt(a, dep) == ts_lt(b, dep) {
        ts_lt(a, b)
    } else {
        ts_lt(b, dep)
    }
}

/// The three-way form of `cyclic_before`.
pub open spec fn cyclic_cmp(a: Timestamp, b: Timestamp, dep: Timestamp) -> Ordering {
    if a == b {
        Ordering::Equal
    } else if cyclic_before(a, b, dep) {
        Ordering::Less
    } else {
        Ordering::Greater
    }
}

/// `a + k` seconds, same day.
pub open spec fn ts_offset(a: Timestamp, k: u64) -> Timestamp
    recommends
        a.time.raw + k <= u64::MAX,
{
    Timestamp { day: a.day, time: DayTime { raw: (a.time.raw + k) as u64 } }
}

/// The reference point roughly two days after `a`: midnight at the start of
/// the day after next.
pub open spec fn follow_reference(a: Timestamp) -> Timestamp {
    Timestamp {
        day: match a.day {
            Day::Monday => Day::Wednesday,
            Day::Tuesday => Day::Thursday,
            Day::Wednesday => Day::Friday,
            Day::Thursday => Day::Saturday,
            Day::Friday => Day::Sunday,
            Day::Saturday => Day::Monday,
            Day::Sunday => Day::Tuesday,
        },
        time: DayTime { raw: 0 },
    }
}

/// `b` lies at or after `a` on the weekly cycle, and at most roughly two
/// days after it.
pub open spec fn spec_followed_by(a: Timestamp, b: Timestamp) -> bool {
    cyclic_cmp(a, b, follow_reference(a)) != Ordering::Greater
}

/// Exact lexicographic comparison of two timestamps.
pub fn ts_before(a: Timestamp, b: Timestamp) -> (r: bool)
    ensures
        r == ts_lt(a, b),
{
    let ao = a.day.calendar_ord();
    let bo = b.day.calendar_ord();
    ao < bo || (ao == bo && a.time.raw < b.time.raw)
}

impl Timestamp {
    /// A timestamp from its parts.
    pub fn new(day: Day, time: DayTime) -> (r: Timestamp)
        ensures
            r == (Timestamp { day, time }),
    {
        Timestamp { day, time }
    }

    /// Advance the time-of-day component by `offset` seconds; the day does
    /// not change, the raw count may carry past 24 h.
    pub fn offset(&self, offset: u64) -> (r: Timestamp)
        requires
            self.time.raw + offset <= u64::MAX,
        ensures
            r == ts_offset(*self, offset),
    {
        Timestamp { day: self.day, time: self.time.offset(offset) }
    }

    /// Move the time-of-day component back by `offset` seconds.
    pub fn neg_offset(&self, offset: u64) -> (r: Timestamp)
        requires
            offset <= self.time.raw,
        ensures
            r.day == self.day,
            r.time.raw == self.time.raw - offset,
    {
        Timestamp { day: self.day, time: self.time.neg_offset(offset) }
    }

    /// Which of `self` and `other` is sooner when the week is unrolled into
    /// a linear axis starting at the reference `departure`.
    pub fn compare_using_departure(&self, other: Timestamp, departure: Timestamp) -> (r:
        Ordering)
        ensures
            r == cyclic_cmp(*self, other, departure),
    {
        proof {
            lemma_day_ord_injective(self.day, other.day);
            lemma_day_ord_injective(self.day, departure.day);
            lemma_day_ord_injective(other.day, departure.day);
        }
        if *self == other {
            Ordering::Equal
        } else if *self == departure {
            Ordering::Less
        } else if other == departure {
            Ordering::Greater
        } else if ts_before(*self, other) && ts_before(other, departure) {
            Ordering::Less
        } else if ts_before(other, departure) && ts_before(departure, *self) {
            Ordering::Less
        } else if ts_before(departure, *self) && ts_before(*self, other) {
            Ordering::Less
        } else {
            Ordering::Greater
        }
    }

    /// Is `other` at or after `self` on the weekly cycle, within roughly two
    /// calendar days? The search uses this to keep a branch from wrapping
    /// all the way around the week.
    pub fn is_followed_by(&self, other: Timestamp) -> (r: bool)
        ensures
            r == spec_followed_by(*self, other),
    {
        let reference_day = match self.day {
            Day::Monday => Day::Wednesday,
            Day::Tuesday => Day::Thursday,
            Day::Wednesday => Day::Friday,
            Day::Thursday => Day::Saturday,
            Day::Friday => Day::Sunday,
            Day::Saturday => Day::Monday,
            Day::Sunday => Day::Tuesday,
        };
        let reference = Timestamp::new(reference_day, DayTime::new(0, 0));
        match self.compare_using_departure(other, reference) {
            Ordering::Greater => false,
            _ => true,
        }
    }
}

/// A timestamp is never sooner than itself: the cyclic comparison is
/// reflexive, whatever the reference.
pub proof fn lemma_cyclic_reflexive(x: Timestamp, dep: Timestamp)
    ensures
        cyclic_cmp(x, x, dep) == Ordering::Equal,
{
}

/// For a fixed reference, `cyclic_before` is a strict total order: distinct
/// timestamps compare one way or the other, never both.
pub proof fn lemma_cyclic_total(a: Timestamp, b: Timestamp, dep: Timestamp)
    ensures
        !(cyclic_before(a, b, dep) && cyclic_before(b, a, dep)),
        a != b ==> cyclic_before(a, b, dep) || cyclic_before(b, a, dep),
{
    lemma_day_ord_injective(a.day, b.day);
    lemma_day_ord_injective(a.day, dep.day);
    lemma_day_ord_injective(b.day, dep.day);
}

/// For a fixed reference, `cyclic_before` is transitive.
pub proof fn lemma_cyclic_transitive(a: Timestamp, b: Timestamp, c: Timestamp, dep: Timestamp)
    requires
        cyclic_before(a, b, dep),
        cyclic_before(b, c, dep),
    ensures
        cyclic_before(a, c, dep),
{
    lemma_day_ord_injective(a.day, b.day);
    lemma_day_ord_injective(a.day, c.day);
    lemma_day_ord_injective(a.day, dep.day);
    lemma_day_ord_injective(b.day, c.day);
    lemma_day_ord_injective(b.day, dep.day);
    lemma_day_ord_injective(c.day, dep.day);
}

} // verus!
