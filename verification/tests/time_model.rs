use std::cmp::Ordering;
use transit_router::time::{Day, DayTime, Timestamp};

fn ts(day: Day, h: u64, m: u64) -> Timestamp {
    Timestamp::new(day, DayTime::new(h, m))
}

#[test]
fn daytime_new_computes_raw_seconds() {
    assert_eq!(DayTime::new(16, 30).raw, 16 * 3600 + 30 * 60);
    assert_eq!(DayTime::new(0, 0).raw, 0);
    assert_eq!(DayTime::new(23, 59).raw, 86340);
}

#[test]
fn daytime_offset_and_neg_offset() {
    let t = DayTime::new(16, 30);
    assert_eq!(t.offset(900).raw, t.raw + 900);
    assert_eq!(t.offset(900).neg_offset(900).raw, t.raw);
    // offsets may carry past 24 h without wrapping the raw count
    let late = DayTime::new(23, 50).offset(1200);
    assert_eq!(late.raw, 87000);
}

#[test]
fn daytime_formats_hh_mm() {
    assert_eq!(DayTime::new(16, 30).to_hhmm(), "16:30");
    assert_eq!(DayTime::new(16, 30).offset(900).to_hhmm(), "16:45");
    assert_eq!(DayTime::new(9, 5).to_hhmm(), "09:05");
    // past-midnight carries collapse in display only
    assert_eq!(DayTime::new(23, 50).offset(1200).to_hhmm(), "00:10");
}

#[test]
fn daytime_midnight_formats_as_24() {
    // a raw value equivalent to 00:00 (reached by overflow from a same-day
    // advance, or given directly) is shown as 24:00
    assert_eq!(DayTime::new(0, 0).to_hhmm(), "24:00");
    assert_eq!(DayTime::new(23, 0).offset(3600).to_hhmm(), "24:00");
}

#[test]
fn day_index_is_sunday_based() {
    assert_eq!(Day::Sunday.index(), 0);
    assert_eq!(Day::Monday.index(), 1);
    assert_eq!(Day::Wednesday.index(), 3);
    assert_eq!(Day::Saturday.index(), 6);
}

#[test]
fn cyclic_compare_relative_to_departure() {
    let dep = ts(Day::Monday, 10, 0);
    let a = ts(Day::Monday, 12, 0);
    let b = ts(Day::Sunday, 9, 0);
    assert_eq!(a.compare_using_departure(b, dep), Ordering::Less);

    let c = ts(Day::Tuesday, 9, 0);
    let d = ts(Day::Monday, 11, 0);
    assert_eq!(c.compare_using_departure(d, dep), Ordering::Greater);
}

#[test]
fn cyclic_compare_is_reflexive() {
    let dep = ts(Day::Monday, 10, 0);
    let x = ts(Day::Friday, 3, 15);
    assert_eq!(x.compare_using_departure(x, dep), Ordering::Equal);
    assert_eq!(dep.compare_using_departure(dep, dep), Ordering::Equal);
}

#[test]
fn cyclic_compare_wraps_around_the_week() {
    // relative to a Saturday departure, Monday comes after Sunday but
    // before Friday of the "previous" week
    let dep = ts(Day::Saturday, 12, 0);
    let sun = ts(Day::Sunday, 8, 0);
    let mon = ts(Day::Monday, 8, 0);
    let fri = ts(Day::Friday, 8, 0);
    assert_eq!(sun.compare_using_departure(mon, dep), Ordering::Less);
    assert_eq!(mon.compare_using_departure(fri, dep), Ordering::Less);
    assert_eq!(fri.compare_using_departure(sun, dep), Ordering::Greater);
}

#[test]
fn followed_by_within_two_days() {
    assert!(ts(Day::Monday, 10, 0).is_followed_by(ts(Day::Tuesday, 10, 0)));
    assert!(!ts(Day::Monday, 10, 0).is_followed_by(ts(Day::Thursday, 10, 0)));
}

#[test]
fn followed_by_edges() {
    // the same instant follows itself
    let x = ts(Day::Monday, 10, 0);
    assert!(x.is_followed_by(x));
    // a moment earlier the same day is a week away on the cycle
    assert!(!ts(Day::Monday, 10, 0).is_followed_by(ts(Day::Monday, 9, 59)));
    // the weekend wrap works: Sunday evening is followed by Monday morning
    assert!(ts(Day::Sunday, 22, 0).is_followed_by(ts(Day::Monday, 7, 0)));
}

#[test]
fn timestamp_offset_keeps_day() {
    let t = ts(Day::Wednesday, 10, 0);
    let moved = t.offset(600);
    assert_eq!(moved.day, Day::Wednesday);
    assert_eq!(moved.time.raw, 36600);
    assert_eq!(moved.neg_offset(600), t);
}
