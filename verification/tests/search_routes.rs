use transit_router::graph::Searcher;
use transit_router::model::{
    Departure, Durations, Entry, Schedule, Stop, Timetable, Track, TransportType,
};
use transit_router::route::Segment;
use transit_router::search::{
    cost_before, link_secs, select_final, settle_item, HeapItem, ProtoSegment, StopInfo, WalkLink,
};
use transit_router::time::{Day, DayTime, Timestamp};

fn ts(day: Day, h: u64, m: u64) -> Timestamp {
    Timestamp::new(day, DayTime::new(h, m))
}

fn stop(id: &str, name: &str) -> Stop {
    Stop { id: id.to_string(), name: name.to_string() }
}

fn whole_day(time: u64) -> Durations {
    Durations {
        entries: vec![Entry { from: DayTime { raw: 0 }, to: DayTime { raw: 86400 }, time }],
    }
}

fn line(
    name: &str,
    stops: &[&str],
    days: u8,
    departures: Vec<u64>,
    cumulative: Vec<u64>,
) -> Schedule {
    Schedule {
        id: format!("sched-{}", name),
        name: name.to_string(),
        long_name: format!("Line {}", name),
        tracks: vec![Track {
            name: "outbound".to_string(),
            stops: stops.iter().map(|s| s.to_string()).collect(),
            timetables: vec![Timetable {
                days,
                departures: departures
                    .into_iter()
                    .map(|t| Departure::Exact(DayTime { raw: t }))
                    .collect(),
                durations: cumulative.into_iter().map(whole_day).collect(),
            }],
        }],
        transport_type: TransportType::Bus,
    }
}

fn origin_walk(stop: usize, start: Timestamp, secs: u64) -> HeapItem {
    HeapItem {
        arrival: start.offset(secs),
        transfers: 0,
        stop,
        parent: None,
        segment: ProtoSegment::Walk { from: None, to: Some(stop), start: start.time, duration: secs },
    }
}

// --- geometry helpers standing in for the caller: great-circle distance and
// --- a 4 km/h walking speed, links cut off at 500 m
const MAX_WALK_DISTANCE: f64 = 500.0;

fn distance_m(a: (f64, f64), b: (f64, f64)) -> f64 {
    let radians = |deg: f64| deg / 180.0 * std::f64::consts::PI;
    let r = 6371e3;
    let phi1 = radians(a.0);
    let phi2 = radians(b.0);
    let dphi = radians(b.0 - a.0);
    let dlambda = radians(b.1 - a.1);
    let h = (dphi / 2.0).sin().powi(2) + phi1.cos() * phi2.cos() * (dlambda / 2.0).sin().powi(2);
    2.0 * h.sqrt().atan2((1.0 - h).sqrt()) * r
}

fn walk_secs(d: f64) -> u64 {
    let speed = 4.0 * 1000.0 / 3600.0;
    (d / speed).ceil() as u64
}

fn point_links(stops: &[(f64, f64)], p: (f64, f64)) -> Vec<WalkLink> {
    let mut links = Vec::new();
    for (i, loc) in stops.iter().enumerate() {
        let d = distance_m(*loc, p);
        if d <= MAX_WALK_DISTANCE {
            links.push(WalkLink { stop: i, secs: walk_secs(d) });
        }
    }
    links
}

fn transfer_links(stops: &[(f64, f64)]) -> Vec<Vec<WalkLink>> {
    stops.iter().map(|loc| point_links(stops, *loc)).collect()
}

#[test]
fn link_secs_finds_first_match() {
    let links = vec![
        WalkLink { stop: 3, secs: 100 },
        WalkLink { stop: 5, secs: 200 },
        WalkLink { stop: 3, secs: 999 },
    ];
    assert_eq!(link_secs(&links, 3), Some(100));
    assert_eq!(link_secs(&links, 5), Some(200));
    assert_eq!(link_secs(&links, 4), None);
}

#[test]
fn first_settle_wins() {
    let mut settled: Vec<Option<StopInfo>> = vec![None, None];
    let dep = ts(Day::Monday, 10, 0);
    let dest_links = vec![WalkLink { stop: 0, secs: 60 }];

    let first = origin_walk(0, dep, 120);
    assert!(settle_item(&mut settled, 0, first, &dest_links));
    let recorded = settled[0].as_ref().expect("stop must be settled");
    assert_eq!(recorded.arrival.time.raw, 36120);
    assert_eq!(recorded.transfers, 0);
    assert_eq!(recorded.order, 0);
    assert_eq!(recorded.walk_finish.map(|w| w.time.raw), Some(36180));

    // a second delivery for the same stop is discarded, whatever it carries
    let second = origin_walk(0, dep, 30);
    assert!(!settle_item(&mut settled, 1, second, &dest_links));
    let kept = settled[0].as_ref().unwrap();
    assert_eq!(kept.arrival.time.raw, 36120);
    assert_eq!(kept.order, 0);
}

#[test]
fn transfer_penalty_breaks_ties() {
    // two candidate final itineraries arriving at the same walk-finish time,
    // transfer counts 0 and 1: the 0-transfer one wins
    let dep = ts(Day::Monday, 10, 0);
    let finish = ts(Day::Monday, 11, 0);
    assert!(cost_before(finish, 0, finish, 1, dep));
    assert!(!cost_before(finish, 1, finish, 0, dep));

    let info = |transfers: u64, order: usize| StopInfo {
        arrival: finish,
        transfers,
        segment: ProtoSegment::Walk {
            from: None,
            to: Some(order),
            start: dep.time,
            duration: 60,
        },
        parent: None,
        walk_finish: Some(finish),
        order,
    };
    let settled = vec![Some(info(1, 0)), Some(info(0, 1))];
    let (chosen, w, t) = select_final(&settled, dep).expect("a candidate exists");
    assert_eq!(chosen, 1);
    assert_eq!(t, 0);
    assert_eq!(w, finish);

    let settled_rev = vec![Some(info(0, 0)), Some(info(1, 1))];
    let (chosen_rev, _, t_rev) = select_final(&settled_rev, dep).expect("a candidate exists");
    assert_eq!(chosen_rev, 0);
    assert_eq!(t_rev, 0);
}

#[test]
fn walk_only_route() {
    // origin and destination within reach of one stop and no schedules at
    // all: a single coalesced walk leaving exactly at the query departure
    let searcher = Searcher::new(vec![stop("s", "Solo")], vec![]).unwrap();
    let dep = ts(Day::Monday, 10, 0);
    let route = searcher
        .find_route(
            &vec![WalkLink { stop: 0, secs: 120 }],
            &vec![WalkLink { stop: 0, secs: 180 }],
            &vec![vec![]],
            dep,
        )
        .expect("a walk-only route exists");

    assert_eq!(route.segments.len(), 1);
    match &route.segments[0] {
        Segment::Walk(w) => {
            assert_eq!(w.from, None);
            assert_eq!(w.to, None);
            assert_eq!(w.start.raw, 36000);
            assert_eq!(w.duration, 300);
        },
        Segment::Bus(_) => panic!("expected a walk"),
    }
    assert_eq!(route.departure_time.raw, dep.time.raw);
    assert_eq!(route.arrival_time.raw, 36300);
}

#[test]
fn same_bus_rides_coalesce() {
    // stops a -> b -> c all served back-to-back by bus "7": exactly one ride
    // from Alpha to Gamma remains after post-processing
    let stops = vec![stop("a", "Alpha"), stop("b", "Beta"), stop("c", "Gamma")];
    let monday = 1u8 << Day::Monday.index();
    let schedules = vec![line("7", &["a", "b", "c"], monday, vec![36000], vec![0, 300, 600])];
    let searcher = Searcher::new(stops, schedules).unwrap();

    let dep = ts(Day::Monday, 9, 30);
    let route = searcher
        .find_route(
            &vec![WalkLink { stop: 0, secs: 60 }],
            &vec![WalkLink { stop: 2, secs: 60 }],
            &vec![vec![], vec![], vec![]],
            dep,
        )
        .expect("a route exists");

    assert_eq!(route.segments.len(), 3);
    match &route.segments[0] {
        Segment::Walk(w) => {
            assert_eq!(w.from, None);
            assert_eq!(w.to.as_deref(), Some("Alpha"));
            assert_eq!(w.start.raw, 34200);
            assert_eq!(w.duration, 60);
        },
        _ => panic!("expected the origin walk"),
    }
    match &route.segments[1] {
        Segment::Bus(b) => {
            assert_eq!(b.bus, "7");
            assert_eq!(b.from_stop, "Alpha");
            assert_eq!(b.to_stop, "Gamma");
            assert_eq!(b.start.raw, 36000);
            assert_eq!(b.duration, 600);
        },
        _ => panic!("expected the coalesced ride"),
    }
    match &route.segments[2] {
        Segment::Walk(w) => {
            assert_eq!(w.from.as_deref(), Some("Gamma"));
            assert_eq!(w.to, None);
            assert_eq!(w.start.raw, 36600);
            assert_eq!(w.duration, 60);
        },
        _ => panic!("expected the final walk"),
    }
    assert_eq!(route.departure_time.raw, 34200);
    assert_eq!(route.arrival_time.raw, 36660);
}

#[test]
fn layover_rides_stay_separate() {
    // same bus but a layover at the middle stop: the rides do not merge and
    // the wait counts as a transfer
    let stops = vec![stop("a", "Alpha"), stop("b", "Beta"), stop("c", "Gamma")];
    let monday = 1u8 << Day::Monday.index();
    let schedules = vec![
        line("7", &["a", "b"], monday, vec![36000], vec![0, 300]),
        line("7", &["b", "c"], monday, vec![37200], vec![0, 300]),
    ];
    let searcher = Searcher::new(stops, schedules).unwrap();
    let dep = ts(Day::Monday, 9, 30);
    let route = searcher
        .find_route(
            &vec![WalkLink { stop: 0, secs: 60 }],
            &vec![WalkLink { stop: 2, secs: 60 }],
            &vec![vec![], vec![], vec![]],
            dep,
        )
        .expect("a route exists");
    // origin walk, ride a->b, ride b->c (not merged), final walk
    assert_eq!(route.segments.len(), 4);
    match (&route.segments[1], &route.segments[2]) {
        (Segment::Bus(x), Segment::Bus(y)) => {
            assert_eq!(x.to_stop, "Beta");
            assert_eq!(y.from_stop, "Beta");
            assert_eq!(x.start.raw, 36000);
            assert_eq!(y.start.raw, 37200);
        },
        _ => panic!("expected two separate rides"),
    }
}

#[test]
fn end_to_end_scenario() {
    let origin = (54.684885, 25.281161);
    let destination = (54.670592, 25.282193);
    // one stop beside each point; the line runs Tuesday afternoons
    let locs = [(54.684000, 25.281000), (54.671000, 25.282000)];
    assert!(distance_m(locs[0], origin) <= MAX_WALK_DISTANCE);
    assert!(distance_m(locs[1], destination) <= MAX_WALK_DISTANCE);
    assert!(distance_m(origin, destination) > MAX_WALK_DISTANCE);

    let tuesday = 1u8 << Day::Tuesday.index();
    let searcher = Searcher::new(
        vec![stop("o", "Office"), stop("st", "Station")],
        vec![line("3G", &["o", "st"], tuesday, vec![60000, 64800], vec![0, 540])],
    )
    .unwrap();

    let dep = ts(Day::Tuesday, 16, 30);
    let route = searcher
        .find_route(
            &point_links(&locs, origin),
            &point_links(&locs, destination),
            &transfer_links(&locs),
            dep,
        )
        .expect("a route exists");

    assert!(route.segments.len() >= 2);
    match route.segments.first().unwrap() {
        Segment::Walk(w) => {
            assert_eq!(w.from, None, "the route starts at the raw origin point");
            assert_eq!(w.start.raw, dep.time.raw);
        },
        _ => panic!("the first segment must be a walk from the origin"),
    }
    match route.segments.last().unwrap() {
        Segment::Walk(w) => {
            assert_eq!(w.to, None, "the route ends at the raw destination point");
        },
        _ => panic!("the last segment must be a walk to the destination"),
    }
    // segment start times never decrease
    let starts: Vec<u64> = route
        .segments
        .iter()
        .map(|s| match s {
            Segment::Walk(w) => w.start.raw,
            Segment::Bus(b) => b.start.raw,
        })
        .collect();
    for w in starts.windows(2) {
        assert!(w[0] <= w[1], "segment starts must not decrease");
    }
    assert_eq!(route.departure_time.raw, dep.time.raw);
}

#[test]
fn no_route_when_nothing_is_within_reach() {
    let monday = 1u8 << Day::Monday.index();
    let searcher = Searcher::new(
        vec![stop("a", "Alpha"), stop("b", "Beta")],
        vec![line("7", &["a", "b"], monday, vec![36000], vec![0, 300])],
    )
    .unwrap();
    let dep = ts(Day::Monday, 9, 0);
    let locs = [(54.684000, 25.281000), (54.671000, 25.282000)];
    // both points farther than the walking cutoff from every stop
    let faraway_origin = (54.9, 25.9);
    let faraway_dest = (54.1, 25.1);
    assert!(point_links(&locs, faraway_origin).is_empty());
    assert!(point_links(&locs, faraway_dest).is_empty());

    let r = searcher.find_route(
        &point_links(&locs, faraway_origin),
        &point_links(&locs, faraway_dest),
        &transfer_links(&locs),
        dep,
    );
    assert!(r.is_none());
}

#[test]
fn no_route_when_destination_stop_is_unreachable() {
    // the destination's only nearby stop is served by no line and is too far
    // to walk to from anywhere the search reaches
    let monday = 1u8 << Day::Monday.index();
    let searcher = Searcher::new(
        vec![stop("a", "Alpha"), stop("b", "Beta"), stop("x", "Isolated")],
        vec![line("7", &["a", "b"], monday, vec![36000], vec![0, 300])],
    )
    .unwrap();
    let dep = ts(Day::Monday, 9, 0);
    let r = searcher.find_route(
        &vec![WalkLink { stop: 0, secs: 60 }],
        &vec![WalkLink { stop: 2, secs: 60 }],
        &vec![vec![], vec![], vec![]],
        dep,
    );
    assert!(r.is_none());
}

#[test]
fn walking_transfer_between_lines() {
    // two lines that do not share a stop, joined by a short walk between
    // stops b and c; walking is only expanded after a ride
    let monday = 1u8 << Day::Monday.index();
    let searcher = Searcher::new(
        vec![stop("a", "Alpha"), stop("b", "Beta"), stop("c", "Gamma"), stop("d", "Delta")],
        vec![
            line("1", &["a", "b"], monday, vec![36000], vec![0, 300]),
            line("2", &["c", "d"], monday, vec![38000], vec![0, 300]),
        ],
    )
    .unwrap();
    let dep = ts(Day::Monday, 9, 0);
    let mut transfers = vec![vec![], vec![], vec![], vec![]];
    transfers[1] = vec![WalkLink { stop: 2, secs: 200 }];
    transfers[2] = vec![WalkLink { stop: 1, secs: 200 }];
    let route = searcher
        .find_route(
            &vec![WalkLink { stop: 0, secs: 60 }],
            &vec![WalkLink { stop: 3, secs: 60 }],
            &transfers,
            dep,
        )
        .expect("a route via the walking transfer exists");
    // origin walk, ride 1, walk b->c, ride 2, final walk
    assert_eq!(route.segments.len(), 5);
    match (&route.segments[1], &route.segments[2], &route.segments[3]) {
        (Segment::Bus(x), Segment::Walk(w), Segment::Bus(y)) => {
            assert_eq!(x.bus, "1");
            assert_eq!(w.from.as_deref(), Some("Beta"));
            assert_eq!(w.to.as_deref(), Some("Gamma"));
            assert_eq!(y.bus, "2");
        },
        _ => panic!("expected ride / walk / ride in the middle"),
    }
    assert_eq!(route.arrival_time.raw, 38360);
}
