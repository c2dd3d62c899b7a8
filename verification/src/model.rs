//! The input shapes the graph builder consumes: stop records and schedule
//! records with tracks, timetables, departures and per-stop duration tables.

use vstd::prelude::*;
use crate::time::{Day, DayTime, spec_day_index};
use crate::RAW_LIMIT;

verus! {

/// A stop record: a boarding point with an identifier and a human name.
/// Its geographic location is not part of the verified model; callers keep
/// coordinates beside the record and hand the search precomputed walking
/// links instead.
pub struct Stop {
    pub id: String,
    pub name: String,
}

/// The user-visible kind of a vehicle.
#[derive(Debug, Copy, Clone, PartialEq, Eq, Structural)]
pub enum TransportType {
    Trolley,
    Bus,
    Express,
    NightBus,
}

/// One line's schedule: its tracks, each an ordered run of stops.
pub struct Schedule {
    pub id: String,
    pub name: String,
    pub long_name: String,
    pub tracks: Vec<Track>,
    pub transport_type: TransportType,
}

/// A named ordered sequence of stop identifiers served in one direction,
/// with the timetables that apply to it.
pub struct Track {
    pub name: String,
    pub stops: Vec<String>,
    pub timetables: Vec<Timetable>,
}

/// The departures of a track on a set of days (a 7-bit mask, bit
/// `1 << day.index()`), with cumulative travel times to each stop.
pub struct Timetable {
    pub days: u8,
    pub departures: Vec<Departure>,
    pub durations: Vec<Durations>,
}

/// A scheduled departure from the track's first stop: either an exact time,
/// or a periodic window. Periodic departures are ignored by design; routes
/// served only by periodic timetables are invisible to the search.
#[derive(Debug, Copy, Clone)]
pub enum Departure {
    Exact(DayTime),
    Periodic(Periodic),
}

/// A frequency-based departure window (ignored by the graph builder).
#[derive(Debug, Copy, Clone)]
pub struct Periodic {
    pub from: DayTime,
    pub to: DayTime,
}

/// The cumulative travel times from the track's departure to one stop,
/// segmented by time-of-day window.
pub struct Durations {
    pub entries: Vec<Entry>,
}

/// One duration-table row: departures with `from <= t < to` take `time`
/// seconds to reach the owning stop.
#[derive(Debug, Copy, Clone)]
pub struct Entry {
    pub from: DayTime,
    pub to: DayTime,
    pub time: u64,
}

/// Does this duration-table row apply to a departure at `dep`?
pub open spec fn entry_matches(e: Entry, dep: DayTime) -> bool {
    e.from.raw <= dep.raw && dep.raw < e.to.raw
}

/// The travel time of the first duration-table row from position `i` on
/// that applies to a departure at `dep`, if any row does.
pub open spec fn match_from(entries: Seq<Entry>, dep: DayTime, i: int) -> Option<u64>
    decreases entries.len() - i,
{
    if i < 0 || i >= entries.len() {
        None
    } else if entry_matches(entries[i], dep) {
        Some(entries[i].time)
    } else {
        match_from(entries, dep, i + 1)
    }
}

/// The travel time the duration table gives for a departure at `dep`: the
/// first applicable row's, if any.
pub open spec fn spec_stop_time(entries: Seq<Entry>, dep: DayTime) -> Option<u64> {
    match_from(entries, dep, 0)
}

/// An entry's travel time is bounded, so that time arithmetic stays in
/// `u64`.
pub open spec fn wf_entry(e: Entry) -> bool {
    e.time <= RAW_LIMIT
}

/// Every row of a duration table is bounded.
pub open spec fn wf_durations(d: Durations) -> bool {
    forall|i: int| 0 <= i < d.entries.len() ==> wf_entry(#[trigger] d.entries[i])
}

/// Every duration table and every exact departure of the timetable is
/// bounded.
pub open spec fn wf_timetable(t: Timetable) -> bool {
    &&& forall|i: int| 0 <= i < t.durations.len() ==> wf_durations(#[trigger] t.durations@[i])
    &&& forall|i: int|
        0 <= i < t.departures.len() ==> match #[trigger] t.departures@[i] {
            Departure::Exact(d) => d.raw <= RAW_LIMIT,
            Departure::Periodic(_) => true,
        }
}

/// Does the timetable apply on `day`? Bit `1 << day.index()` of the mask,
/// Sunday = bit 0.
pub open spec fn spec_works_on_day(days: u8, day: Day) -> bool {
    days & (1u8 << spec_day_index(day)) != 0
}

impl Timetable {
    /// The time a vehicle that departs the track's first stop at `dep`
    /// reaches the stop at `index`: `dep` advanced by the travel time of
    /// the first duration-table row whose window holds `dep`. `None` when
    /// no row applies, which the graph builder treats as corrupt data.
    #[verifier::loop_isolation(false)]
    pub fn find_stop_time(&self, index: usize, dep: DayTime) -> (r: Option<DayTime>)
        requires
            index < self.durations.len(),
            dep.raw <= RAW_LIMIT,
            wf_durations(self.durations@[index as int]),
        ensures
            match spec_stop_time(self.durations@[index as int].entries@, dep) {
                Some(t) => t <= RAW_LIMIT && r == Some((DayTime { raw: (dep.raw + t) as u64 })),
                None => r is None,
            },
    {
        let entries = &self.durations[index].entries;
        let ghost entries_seq = entries@;
        let mut i: usize = 0;
        while i < entries.len()
            invariant
                0 <= i <= entries_seq.len(),
                entries_seq == entries@,
                match_from(entries_seq, dep, 0) == match_from(entries_seq, dep, i as int),
                dep.raw <= RAW_LIMIT,
                wf_durations(self.durations@[index as int]),
                entries_seq == self.durations@[index as int].entries@,
            decreases entries_seq.len() - i,
        {
            let entry = &entries[i];
            if entry.from.raw <= dep.raw && dep.raw < entry.to.raw {
                assert(wf_entry(entries_seq[i as int]));
                return Some(DayTime { raw: dep.raw + entry.time });
            }
            assert(match_from(entries_seq, dep, i as int) == match_from(
                entries_seq,
                dep,
                i as int + 1,
            ));
            i = i + 1;
        }
        None
    }

    /// Does this timetable apply on `day`?
    pub fn works_on_day(&self, day: Day) -> (r: bool)
        ensures
            r == spec_works_on_day(self.days, day),
    {
        let flag: u8 = 1u8 << day.index();
        (self.days & flag) != 0
    }
}

} // verus!
