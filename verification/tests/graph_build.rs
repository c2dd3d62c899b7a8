use transit_router::graph::{BuildError, Searcher};
use transit_router::model::{
    Departure, Durations, Entry, Periodic, Schedule, Stop, Timetable, Track, TransportType,
};
use transit_router::time::{Day, DayTime};

const ALL_DAYS: u8 = 0x7f;

fn stop(id: &str, name: &str) -> Stop {
    Stop { id: id.to_string(), name: name.to_string() }
}

fn entry(from: u64, to: u64, time: u64) -> Entry {
    Entry { from: DayTime { raw: from }, to: DayTime { raw: to }, time }
}

fn whole_day(time: u64) -> Durations {
    Durations { entries: vec![entry(0, 86400, time)] }
}

fn schedule(name: &str, tracks: Vec<Track>) -> Schedule {
    Schedule {
        id: format!("sched-{}", name),
        name: name.to_string(),
        long_name: format!("Line {}", name),
        tracks,
        transport_type: TransportType::Bus,
    }
}

fn track(stops: &[&str], days: u8, departures: Vec<u64>, cumulative: Vec<u64>) -> Track {
    Track {
        name: "outbound".to_string(),
        stops: stops.iter().map(|s| s.to_string()).collect(),
        timetables: vec![Timetable {
            days,
            departures: departures
                .into_iter()
                .map(|t| Departure::Exact(DayTime { raw: t }))
                .collect(),
            durations: cumulative.into_iter().map(whole_day).collect(),
        }],
    }
}

#[test]
fn build_produces_sorted_wellformed_graph() {
    let stops = vec![stop("a", "Alpha"), stop("b", "Beta"), stop("c", "Gamma")];
    // two departures given out of order; every day of the week applies
    let schedules = vec![schedule(
        "7",
        vec![track(&["a", "b", "c"], ALL_DAYS, vec![36000, 28800], vec![0, 300, 600])],
    )];
    let searcher = Searcher::new(stops, schedules).expect("build should succeed");

    assert_eq!(searcher.stops.len(), 3);
    assert_eq!(searcher.stops[0].name, "Alpha");
    assert_eq!(searcher.stops[0].id, "a");

    // stop a: 2 departures x 7 days; stop b the same; stop c is last, no hops
    assert_eq!(searcher.stops[0].routes.len(), 14);
    assert_eq!(searcher.stops[1].routes.len(), 14);
    assert_eq!(searcher.stops[2].routes.len(), 0);

    for gs in &searcher.stops {
        for w in gs.routes.windows(2) {
            let (x, y) = (&w[0], &w[1]);
            // sorted by departure: (day, time) non-decreasing
            let before = (x.departure.day.calendar_ord(), x.departure.time.raw);
            let after = (y.departure.day.calendar_ord(), y.departure.time.raw);
            assert!(before <= after, "routes must be sorted by departure");
        }
        for r in &gs.routes {
            assert_eq!(r.departure.day, r.arrival.day);
            assert!(r.arrival.time.raw >= r.departure.time.raw);
            assert_eq!(r.duration, r.arrival.time.raw - r.departure.time.raw);
            assert!(r.next_stop < searcher.stops.len());
        }
    }

    // the concrete hop data: departure at the cumulative offset, 300 s long
    let first = &searcher.stops[0].routes[0];
    assert_eq!(first.bus, "7");
    assert_eq!(first.departure.time.raw, 28800);
    assert_eq!(first.arrival.time.raw, 29100);
    assert_eq!(first.duration, 300);
    assert_eq!(searcher.stops[first.next_stop].id, "b");
}

#[test]
fn build_rejects_unknown_stop() {
    let stops = vec![stop("a", "Alpha")];
    let schedules = vec![schedule(
        "7",
        vec![track(&["a", "ghost"], ALL_DAYS, vec![36000], vec![0, 300])],
    )];
    assert_eq!(Searcher::new(stops, schedules).err(), Some(BuildError::UnknownStop));
}

#[test]
fn build_rejects_duration_table_gap() {
    let stops = vec![stop("a", "Alpha"), stop("b", "Beta")];
    // the departure at 36000 falls outside the only duration window
    let mut t = track(&["a", "b"], ALL_DAYS, vec![36000], vec![0, 300]);
    t.timetables[0].durations[1] = Durations { entries: vec![entry(0, 30000, 300)] };
    let schedules = vec![schedule("7", vec![t])];
    assert_eq!(Searcher::new(stops, schedules).err(), Some(BuildError::MissingStopTime));
}

#[test]
fn build_rejects_missing_stop_position() {
    let stops = vec![stop("a", "Alpha"), stop("b", "Beta")];
    // only one duration table for a two-stop track
    let t = track(&["a", "b"], ALL_DAYS, vec![36000], vec![0]);
    let schedules = vec![schedule("7", vec![t])];
    assert_eq!(Searcher::new(stops, schedules).err(), Some(BuildError::MissingStopTime));
}

#[test]
fn build_rejects_negative_hop_time() {
    let stops = vec![stop("a", "Alpha"), stop("b", "Beta")];
    // cumulative time decreases along the track
    let t = track(&["a", "b"], ALL_DAYS, vec![36000], vec![600, 300]);
    let schedules = vec![schedule("7", vec![t])];
    assert_eq!(Searcher::new(stops, schedules).err(), Some(BuildError::TimeUnderflow));
}

#[test]
fn build_ignores_periodic_departures() {
    let stops = vec![stop("a", "Alpha"), stop("b", "Beta")];
    let mut t = track(&["a", "b"], ALL_DAYS, vec![36000], vec![0, 300]);
    t.timetables[0].departures.push(Departure::Periodic(Periodic {
        from: DayTime { raw: 21600 },
        to: DayTime { raw: 28800 },
    }));
    let schedules = vec![schedule("7", vec![t])];
    let searcher = Searcher::new(stops, schedules).unwrap();
    // only the exact departure contributes hops: one per day
    assert_eq!(searcher.stops[0].routes.len(), 7);
}

#[test]
fn timetable_day_mask_lookup() {
    let tt = Timetable {
        days: 1u8 << Day::Monday.index(),
        departures: vec![],
        durations: vec![],
    };
    assert!(tt.works_on_day(Day::Monday));
    assert!(!tt.works_on_day(Day::Tuesday));
    assert!(!tt.works_on_day(Day::Sunday));

    let weekend = Timetable {
        days: (1u8 << Day::Saturday.index()) | (1u8 << Day::Sunday.index()),
        departures: vec![],
        durations: vec![],
    };
    assert!(weekend.works_on_day(Day::Saturday));
    assert!(weekend.works_on_day(Day::Sunday));
    assert!(!weekend.works_on_day(Day::Friday));
}

#[test]
fn find_stop_time_picks_first_matching_window() {
    let tt = Timetable {
        days: ALL_DAYS,
        departures: vec![],
        durations: vec![Durations {
            entries: vec![entry(0, 30000, 100), entry(30000, 86400, 200), entry(0, 86400, 999)],
        }],
    };
    assert_eq!(tt.find_stop_time(0, DayTime { raw: 10000 }), Some(DayTime { raw: 10100 }));
    assert_eq!(tt.find_stop_time(0, DayTime { raw: 40000 }), Some(DayTime { raw: 40200 }));
    // window bounds: from is inclusive, to is exclusive
    assert_eq!(tt.find_stop_time(0, DayTime { raw: 30000 }), Some(DayTime { raw: 30200 }));
}

#[test]
fn find_stop_time_misses_outside_all_windows() {
    let tt = Timetable {
        days: ALL_DAYS,
        departures: vec![],
        durations: vec![Durations { entries: vec![entry(0, 30000, 100)] }],
    };
    assert_eq!(tt.find_stop_time(0, DayTime { raw: 30000 }), None);
}
