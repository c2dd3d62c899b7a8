//! The transit graph: a dense arena of stops, each carrying the concrete
//! scheduled hops (one per departure and applicable day) that leave it,
//! sorted by departure. Built once from stop and schedule records; read-only
//! afterwards.

use vstd::prelude::*;
use vstd::seq_lib::group_to_multiset_ensures;
use crate::time::{Day, Timestamp, day_ord, ts_lt};
use crate::model::{Departure, Schedule, Stop, Timetable, Track, TransportType};
use crate::model::{spec_stop_time, spec_works_on_day, wf_timetable};
use crate::RAW_LIMIT;

verus! {

/// One concrete scheduled hop from the owning stop: at `departure`, bus
/// `bus` leaves for the stop at index `next_stop`, arriving at `arrival`.
pub struct StopRoute {
    pub bus: String,
    pub typ: TransportType,
    pub next_stop: usize,
    pub departure: Timestamp,
    pub arrival: Timestamp,
    pub duration: u64,
}

/// A graph node: a stop with its outgoing scheduled hops.
pub struct GraphStop {
    pub id: String,
    pub name: String,
    pub routes: Vec<StopRoute>,
}

/// A data-integrity failure during the graph build. All of these indicate
/// corrupt input and halt construction.
#[derive(Debug, Copy, Clone, PartialEq, Eq, Structural)]
pub enum BuildError {
    /// A track refers to a stop identifier that is not in the stop set.
    UnknownStop,
    /// A duration table has no row for some departure, or no table exists
    /// for a stop position on the track.
    MissingStopTime,
    /// A hop would take negative time.
    TimeUnderflow,
    /// A raw time value or the stop count exceeds the bound the arithmetic
    /// of the search needs.
    OutOfRange,
}

/// A hop is internally consistent and points into the arena of `n` stops.
pub open spec fn wf_route(r: StopRoute, n: int) -> bool {
    &&& (r.next_stop as int) < n
    &&& r.arrival.day == r.departure.day
    &&& r.departure.time.raw <= r.arrival.time.raw
    &&& r.duration == r.arrival.time.raw - r.departure.time.raw
    &&& r.arrival.time.raw <= 2 * RAW_LIMIT
}

/// Hops in non-decreasing order of departure timestamp.
pub open spec fn sorted_by_departure(rs: Seq<StopRoute>) -> bool {
    forall|a: int, b: int|
        0 <= a < b < rs.len() ==> !ts_lt(#[trigger] rs[b].departure, #[trigger] rs[a].departure)
}

/// Every hop of every stop is well-formed for an arena of `n` stops.
pub open spec fn routes_wf(gs: Seq<GraphStop>, n: int) -> bool {
    forall|i: int, j: int|
        0 <= i < gs.len() && 0 <= j < gs[i].routes.len() ==> wf_route(
            #[trigger] gs[i].routes@[j],
            n,
        )
}

/// Stop identities (count, ids, names) of `a` match those of `b`.
pub open spec fn stops_compatible(a: Seq<GraphStop>, b: Seq<GraphStop>) -> bool {
    &&& a.len() == b.len()
    &&& forall|i: int| 0 <= i < a.len() ==> #[trigger] a[i].id == b[i].id && a[i].name == b[i].name
}

/// The hop `r` is one that `track` (run by `bus` of kind `typ`) generates:
/// for some adjacent stop pair of the track whose identifiers are
/// `owner_id` and `next_id`, some timetable applicable on the hop's day,
/// and some exact departure, the duration-table lookups give exactly the
/// hop's departure and arrival times.
pub open spec fn route_from_track(
    r: StopRoute,
    owner_id: Seq<char>,
    next_id: Seq<char>,
    bus: String,
    typ: TransportType,
    track: Track,
) -> bool {
    &&& r.bus == bus
    &&& r.typ == typ
    &&& exists|ai: int, ti: int, pi: int|
        #![trigger track.stops@[ai], track.timetables@[ti].departures@[pi]]
        {
            &&& 0 <= ai
            &&& ai + 1 < track.stops@.len()
            &&& owner_id == track.stops@[ai]@
            &&& next_id == track.stops@[ai + 1]@
            &&& 0 <= ti < track.timetables@.len()
            &&& crate::model::spec_works_on_day(track.timetables@[ti].days, r.departure.day)
            &&& 0 <= pi < track.timetables@[ti].departures@.len()
            &&& track.timetables@[ti].departures@[pi] is Exact
            &&& ai + 1 < track.timetables@[ti].durations@.len()
            &&& crate::model::spec_stop_time(
                track.timetables@[ti].durations@[ai].entries@,
                track.timetables@[ti].departures@[pi]->Exact_0,
            ) is Some
            &&& r.departure.time.raw == track.timetables@[ti].departures@[pi]->Exact_0.raw
                + crate::model::spec_stop_time(
                track.timetables@[ti].durations@[ai].entries@,
                track.timetables@[ti].departures@[pi]->Exact_0,
            )->0
            &&& crate::model::spec_stop_time(
                track.timetables@[ti].durations@[ai + 1].entries@,
                track.timetables@[ti].departures@[pi]->Exact_0,
            ) is Some
            &&& r.arrival.time.raw == track.timetables@[ti].departures@[pi]->Exact_0.raw
                + crate::model::spec_stop_time(
                track.timetables@[ti].durations@[ai + 1].entries@,
                track.timetables@[ti].departures@[pi]->Exact_0,
            )->0
        }
}

/// `cur` extends `orig` by appending hops only, every appended hop one that
/// `track` generates.
pub open spec fn routes_extended(
    cur: Seq<GraphStop>,
    orig: Seq<GraphStop>,
    bus: String,
    typ: TransportType,
    track: Track,
) -> bool {
    &&& cur.len() == orig.len()
    &&& forall|i: int|
        0 <= i < cur.len() ==> orig[i].routes@.len() <= (#[trigger] cur[i]).routes@.len()
    &&& forall|i: int, j: int|
        0 <= i < cur.len() && 0 <= j < orig[i].routes@.len() ==> #[trigger] cur[i].routes@[j]
            == orig[i].routes@[j]
    &&& forall|i: int, j: int|
        0 <= i < cur.len() && orig[i].routes@.len() <= j < cur[i].routes@.len()
            ==> route_from_track(
            #[trigger] cur[i].routes@[j],
            cur[i].id@,
            cur[cur[i].routes@[j].next_stop as int].id@,
            bus,
            typ,
            track,
        )
}

/// The hop `r`, hanging on the stop at `owner`, is one that some track of
/// some schedule generates.
pub open spec fn route_sourced(
    r: StopRoute,
    gs: Seq<GraphStop>,
    schedules: Seq<Schedule>,
    owner: int,
) -> bool {
    exists|si: int, tj: int|
        #![trigger schedules[si].tracks@[tj]]
        {
            &&& 0 <= si < schedules.len()
            &&& 0 <= tj < schedules[si].tracks@.len()
            &&& route_from_track(
                r,
                gs[owner].id@,
                gs[r.next_stop as int].id@,
                schedules[si].name,
                schedules[si].transport_type,
                schedules[si].tracks@[tj],
            )
        }
}

/// Every hop of every stop is one that some schedule generates.
pub open spec fn all_routes_sourced(gs: Seq<GraphStop>, schedules: Seq<Schedule>) -> bool {
    forall|i: int, j: int|
        0 <= i < gs.len() && 0 <= j < gs[i].routes@.len() ==> route_sourced(
            #[trigger] gs[i].routes@[j],
            gs,
            schedules,
            i,
        )
}

/// The immutable transit graph the search runs on.
pub struct Searcher {
    pub stops: Vec<GraphStop>,
}

impl Searcher {
    /// The graph invariant: a bounded arena in which every stop's hops are
    /// well-formed and sorted by departure.
    pub open spec fn wf(self) -> bool {
        &&& self.stops.len() <= RAW_LIMIT
        &&& routes_wf(self.stops@, self.stops.len() as int)
        &&& forall|i: int|
            0 <= i < self.stops.len() ==> sorted_by_departure(#[trigger] self.stops@[i].routes@)
    }
}

/// The arena index of the stop with identifier `id`, by linear scan.
#[verifier::loop_isolation(false)]
pub fn find_stop_index(gstops: &Vec<GraphStop>, id: &String) -> (r: Option<usize>)
    ensures
        match r {
            Some(k) => k < gstops.len() && gstops@[k as int].id@ == id@,
            None => forall|k: int| 0 <= k < gstops.len() ==> (#[trigger] gstops@[k].id@) != id@,
        },
{
    let mut k: usize = 0;
    while k < gstops.len()
        invariant
            k <= gstops.len(),
            forall|t: int| 0 <= t < k ==> (#[trigger] gstops@[t].id@) != id@,
        decreases gstops.len() - k,
    {
        if gstops[k].id == *id {
            return Some(k);
        }
        k = k + 1;
    }
    None
}

/// The day in calendar position `d` (Monday = 0).
fn day_of_calendar(d: u8) -> (r: Day)
    requires
        d < 7,
    ensures
        day_ord(r) == d as int,
{
    if d == 0 {
        Day::Monday
    } else if d == 1 {
        Day::Tuesday
    } else if d == 2 {
        Day::Wednesday
    } else if d == 3 {
        Day::Thursday
    } else if d == 4 {
        Day::Friday
    } else if d == 5 {
        Day::Saturday
    } else {
        Day::Sunday
    }
}

/// Runtime check of the bound `wf_timetable` states.
#[verifier::loop_isolation(false)]
fn timetable_bounded(t: &Timetable) -> (r: bool)
    ensures
        r == wf_timetable(*t),
{
    let mut di: usize = 0;
    while di < t.durations.len()
        invariant
            di <= t.durations.len(),
            forall|i: int| 0 <= i < di ==> crate::model::wf_durations(#[trigger] t.durations@[i]),
        decreases t.durations.len() - di,
    {
        let entries = &t.durations[di].entries;
        let mut ei: usize = 0;
        while ei < entries.len()
            invariant
                ei <= entries.len(),
                entries@ == t.durations@[di as int].entries@,
                di < t.durations.len(),
                forall|i: int| 0 <= i < di ==> crate::model::wf_durations(
                    #[trigger] t.durations@[i],
                ),
                forall|j: int| 0 <= j < ei ==> crate::model::wf_entry(#[trigger] entries@[j]),
            decreases entries.len() - ei,
        {
            if entries[ei].time > RAW_LIMIT {
                return false;
            }
            ei = ei + 1;
        }
        di = di + 1;
    }
    let mut pi: usize = 0;
    while pi < t.departures.len()
        invariant
            pi <= t.departures.len(),
            forall|i: int| 0 <= i < t.durations.len() ==> crate::model::wf_durations(
                #[trigger] t.durations@[i],
            ),
            forall|i: int|
                0 <= i < pi ==> match #[trigger] t.departures@[i] {
                    Departure::Exact(d) => d.raw <= RAW_LIMIT,
                    Departure::Periodic(_) => true,
                },
        decreases t.departures.len() - pi,
    {
        match &t.departures[pi] {
            Departure::Exact(d) => {
                if d.raw > RAW_LIMIT {
                    return false;
                }
            },
            Departure::Periodic(_) => {},
        }
        pi = pi + 1;
    }
    true
}

/// Sort a stop's hops by departure timestamp (insertion sort), keeping the
/// multiset of hops.
#[verifier::loop_isolation(false)]
fn sort_routes(v: &mut Vec<StopRoute>)
    ensures
        sorted_by_departure(final(v)@),
        final(v)@.to_multiset() == old(v)@.to_multiset(),
        final(v)@.len() == old(v)@.len(),
        forall|i: int| 0 <= i < final(v)@.len() ==> old(v)@.contains(#[trigger] final(v)@[i]),
{
    let ghost orig = v@;
    let mut i: usize = 1;
    while i < v.len()
        invariant
            i >= 1,
            v@.len() == orig.len(),
            v@.to_multiset() == orig.to_multiset(),
            forall|a: int, b: int|
                0 <= a < b < i && b < v@.len() ==> !ts_lt(
                    #[trigger] v@[b].departure,
                    #[trigger] v@[a].departure,
                ),
        decreases v.len() - i,
    {
        let di = v[i].departure;
        let mut j: usize = 0;
        while j < i && !crate::time::ts_before(di, v[j].departure)
            invariant
                j <= i,
                i < v@.len(),
                di == v@[i as int].departure,
                forall|k: int| 0 <= k < j ==> !ts_lt(di, (#[trigger] v@[k]).departure),
            decreases i - j,
        {
            j = j + 1;
        }
        if j < i {
            let ghost pre = v@;
            let x = v.remove(i);
            v.insert(j, x);
            proof {
                broadcast use group_to_multiset_ensures;
                broadcast use vstd::seq_lib::to_multiset_insert;

                assert(pre.remove(i as int).insert(j as int, x).to_multiset() =~= pre.to_multiset());
                assert(v@.to_multiset() == orig.to_multiset());
                assert forall|a: int, b: int|
                    0 <= a < b < i + 1 && b < v@.len() implies !ts_lt(
                    v@[b].departure,
                    v@[a].departure,
                ) by {
                    assert(forall|k: int|
                        0 <= k < v@.len() ==> v@[k] == (if k < j {
                            pre[k]
                        } else if k == j {
                            x
                        } else if k <= i {
                            pre[k - 1]
                        } else {
                            pre[k]
                        }));
                }
            }
        }
        i = i + 1;
    }
    proof {
        broadcast use group_to_multiset_ensures;

        assert forall|i: int| 0 <= i < v@.len() implies orig.contains(v@[i]) by {
            assert(v@.contains(v@[i]));
            assert(v@.to_multiset().count(v@[i]) > 0);
            assert(orig.to_multiset().count(v@[i]) > 0);
        }
    }
}

/// Some stop of the arena carries this identifier.
pub open spec fn resolves_in(gs: Seq<GraphStop>, id: Seq<char>) -> bool {
    exists|k: int| 0 <= k < gs.len() && (#[trigger] gs[k]).id@ == id
}

/// Some stop record carries this identifier.
pub open spec fn resolves_in_stops(stops: Seq<Stop>, id: Seq<char>) -> bool {
    exists|k: int| 0 <= k < stops.len() && (#[trigger] stops[k]).id@ == id
}

/// The timetable applies on at least one day of the week.
pub open spec fn timetable_applies(t: Timetable) -> bool {
    exists|day: Day| #[trigger] crate::model::spec_works_on_day(t.days, day)
}

/// Every raw time of every timetable of the track is bounded.
pub open spec fn track_bounded(track: Track) -> bool {
    forall|ti: int|
        0 <= ti < track.timetables@.len() ==> wf_timetable(#[trigger] track.timetables@[ti])
}

/// Some stop identifier of an adjacent pair of the track is missing from
/// the arena.
pub open spec fn track_has_unknown_stop(gs: Seq<GraphStop>, track: Track) -> bool {
    exists|ai: int|
        0 <= ai && ai + 1 < track.stops@.len() && (!resolves_in(
            gs,
            (#[trigger] track.stops@[ai])@,
        ) || !resolves_in(gs, track.stops@[ai + 1]@))
}

/// Some stop identifier of an adjacent pair of the track is missing from
/// the stop records.
pub open spec fn track_has_unknown_stop_s(stops: Seq<Stop>, track: Track) -> bool {
    exists|ai: int|
        0 <= ai && ai + 1 < track.stops@.len() && (!resolves_in_stops(
            stops,
            (#[trigger] track.stops@[ai])@,
        ) || !resolves_in_stops(stops, track.stops@[ai + 1]@))
}

/// The timetable's duration tables cover stop positions `ai` and `ai + 1`
/// for every exact departure.
pub open spec fn pair_tt_complete(tt: Timetable, ai: int) -> bool {
    &&& ai + 1 < tt.durations@.len()
    &&& forall|pi: int|
        0 <= pi < tt.departures@.len() && (#[trigger] tt.departures@[pi]) is Exact
            ==> spec_stop_time(
            tt.durations@[ai].entries@,
            tt.departures@[pi]->Exact_0,
        ) is Some && spec_stop_time(
            tt.durations@[ai + 1].entries@,
            tt.departures@[pi]->Exact_0,
        ) is Some
}

/// Cumulative travel times never decrease from stop position `ai` to
/// `ai + 1` on any exact departure of the timetable.
pub open spec fn pair_tt_monotone(tt: Timetable, ai: int) -> bool {
    forall|pi: int|
        0 <= pi < tt.departures@.len() && (#[trigger] tt.departures@[pi]) is Exact
            && spec_stop_time(tt.durations@[ai].entries@, tt.departures@[pi]->Exact_0) is Some
            && spec_stop_time(tt.durations@[ai + 1].entries@, tt.departures@[pi]->Exact_0) is Some
            ==> spec_stop_time(tt.durations@[ai].entries@, tt.departures@[pi]->Exact_0)->0
            <= spec_stop_time(tt.durations@[ai + 1].entries@, tt.departures@[pi]->Exact_0)->0
}

/// Some adjacent pair of the track, under some timetable that applies on at
/// least one day, lacks a duration-table row for some exact departure.
pub open spec fn track_has_gap(track: Track) -> bool {
    exists|ai: int, ti: int|
        #![trigger track.stops@[ai], track.timetables@[ti]]
        {
            &&& 0 <= ai
            &&& ai + 1 < track.stops@.len()
            &&& 0 <= ti < track.timetables@.len()
            &&& timetable_applies(track.timetables@[ti])
            &&& !pair_tt_complete(track.timetables@[ti], ai)
        }
}

/// Some adjacent pair of the track, under some applicable timetable, has a
/// hop of negative length.
pub open spec fn track_has_underflow(track: Track) -> bool {
    exists|ai: int, ti: int|
        #![trigger track.stops@[ai], track.timetables@[ti]]
        {
            &&& 0 <= ai
            &&& ai + 1 < track.stops@.len()
            &&& 0 <= ti < track.timetables@.len()
            &&& timetable_applies(track.timetables@[ti])
            &&& !pair_tt_monotone(track.timetables@[ti], ai)
        }
}

/// The track is ingestible against the arena: bounded times, every pair
/// stop resolving, duration tables complete and monotone.
pub open spec fn track_ok(gs: Seq<GraphStop>, track: Track) -> bool {
    &&& track_bounded(track)
    &&& !track_has_unknown_stop(gs, track)
    &&& !track_has_gap(track)
    &&& !track_has_underflow(track)
}

/// The whole input is ingestible: a bounded stop count and every track of
/// every schedule ingestible against the stop records.
pub open spec fn wf_input(stops: Seq<Stop>, schedules: Seq<Schedule>) -> bool {
    &&& stops.len() <= RAW_LIMIT
    &&& forall|si: int, tj: int|
        0 <= si < schedules.len() && 0 <= tj < schedules[si].tracks@.len() ==> track_bounded(
            #[trigger] schedules[si].tracks@[tj],
        ) && !track_has_unknown_stop_s(stops, schedules[si].tracks@[tj]) && !track_has_gap(
            schedules[si].tracks@[tj],
        ) && !track_has_underflow(schedules[si].tracks@[tj])
}

/// An unresolved identifier is unresolved against the stop records exactly
/// when it is unresolved against an arena with the same identifiers.
proof fn lemma_unknown_bridge(gs: Seq<GraphStop>, stops: Seq<Stop>, track: Track)
    requires
        gs.len() == stops.len(),
        forall|k: int| 0 <= k < gs.len() ==> (#[trigger] gs[k]).id == stops[k].id,
    ensures
        track_has_unknown_stop(gs, track) <==> track_has_unknown_stop_s(stops, track),
{
    assert forall|id: Seq<char>| true implies #[trigger] resolves_in(gs, id) == resolves_in_stops(
        stops,
        id,
    ) by {
        if resolves_in(gs, id) {
            let k = choose|k: int| 0 <= k < gs.len() && (#[trigger] gs[k]).id@ == id;
            assert(stops[k].id@ == id);
        }
        if resolves_in_stops(stops, id) {
            let k = choose|k: int| 0 <= k < stops.len() && (#[trigger] stops[k]).id@ == id;
            assert(gs[k].id@ == id);
        }
    }
    if track_has_unknown_stop(gs, track) {
        let ai = choose|ai: int|
            0 <= ai && ai + 1 < track.stops@.len() && (!resolves_in(
                gs,
                (#[trigger] track.stops@[ai])@,
            ) || !resolves_in(gs, track.stops@[ai + 1]@));
        assert(!resolves_in_stops(stops, track.stops@[ai]@) || !resolves_in_stops(
            stops,
            track.stops@[ai + 1]@,
        ));
    }
    if track_has_unknown_stop_s(stops, track) {
        let ai = choose|ai: int|
            0 <= ai && ai + 1 < track.stops@.len() && (!resolves_in_stops(
                stops,
                (#[trigger] track.stops@[ai])@,
            ) || !resolves_in_stops(stops, track.stops@[ai + 1]@));
        assert(!resolves_in(gs, track.stops@[ai]@) || !resolves_in(gs, track.stops@[ai + 1]@));
    }
}

/// Append to `gstops` the hops that one track contributes: for each adjacent
/// stop pair, each applicable day, and each exact departure, one `StopRoute`
/// on the earlier stop of the pair.
#[verifier::loop_isolation(false)]
fn add_track(gstops: &mut Vec<GraphStop>, bus: &String, typ: TransportType, track: &Track) -> (r:
    Result<(), BuildError>)
    requires
        gstops.len() <= RAW_LIMIT,
        routes_wf(gstops@, gstops.len() as int),
    ensures
        stops_compatible(final(gstops)@, old(gstops)@),
        routes_wf(final(gstops)@, final(gstops).len() as int),
        routes_extended(final(gstops)@, old(gstops)@, *bus, typ, *track),
        track_ok(old(gstops)@, *track) ==> r is Ok,
        r == Err::<(), BuildError>(BuildError::OutOfRange) ==> !track_bounded(*track),
        r == Err::<(), BuildError>(BuildError::UnknownStop) ==> track_has_unknown_stop(
            old(gstops)@,
            *track,
        ),
        r == Err::<(), BuildError>(BuildError::MissingStopTime) ==> track_has_gap(*track),
        r == Err::<(), BuildError>(BuildError::TimeUnderflow) ==> track_has_underflow(*track),
{
    let ghost orig = gstops@;
    let n = gstops.len();

    // Bound checks once per track, so that every later lookup is safe.
    let mut vi: usize = 0;
    while vi < track.timetables.len()
        invariant
            vi <= track.timetables.len(),
            forall|i: int| 0 <= i < vi ==> wf_timetable(#[trigger] track.timetables@[i]),
            gstops@ == orig,
        decreases track.timetables.len() - vi,
    {
        if !timetable_bounded(&track.timetables[vi]) {
            proof {
                assert(!wf_timetable(track.timetables@[vi as int]));
            }
            return Err(BuildError::OutOfRange);
        }
        vi = vi + 1;
    }

    if track.stops.len() == 0 {
        return Ok(());
    }
    let mut ai: usize = 0;
    while ai < track.stops.len() - 1
        invariant
            track.stops.len() >= 1,
            n == gstops.len() == orig.len(),
            n <= RAW_LIMIT,
            stops_compatible(gstops@, orig),
            routes_wf(gstops@, n as int),
            routes_extended(gstops@, orig, *bus, typ, *track),
            forall|i: int| 0 <= i < track.timetables.len() ==> wf_timetable(
                #[trigger] track.timetables@[i],
            ),
        decreases track.stops.len() - ai,
    {
        let a_idx = match find_stop_index(gstops, &track.stops[ai]) {
            Some(k) => k,
            None => {
                proof {
                    assert(!resolves_in(orig, track.stops@[ai as int]@)) by {
                        if resolves_in(orig, track.stops@[ai as int]@) {
                            let k = choose|k: int|
                                0 <= k < orig.len() && (#[trigger] orig[k]).id@ == track.stops@[ai as int]@;
                            assert(gstops@[k].id@ == track.stops@[ai as int]@);
                        }
                    }
                }
                return Err(BuildError::UnknownStop);
            },
        };
        let b_idx = match find_stop_index(gstops, &track.stops[ai + 1]) {
            Some(k) => k,
            None => {
                proof {
                    assert(!resolves_in(orig, track.stops@[ai as int + 1]@)) by {
                        if resolves_in(orig, track.stops@[ai as int + 1]@) {
                            let k = choose|k: int|
                                0 <= k < orig.len() && (#[trigger] orig[k]).id@ == track.stops@[ai as int + 1]@;
                            assert(gstops@[k].id@ == track.stops@[ai as int + 1]@);
                        }
                    }
                }
                return Err(BuildError::UnknownStop);
            },
        };

        let mut d: u8 = 0;
        while d < 7
            invariant
                n == gstops.len() == orig.len(),
                n <= RAW_LIMIT,
                a_idx < n,
                b_idx < n,
                ai + 1 < track.stops.len(),
                gstops@[a_idx as int].id@ == track.stops@[ai as int]@,
                gstops@[b_idx as int].id@ == track.stops@[ai as int + 1]@,
                stops_compatible(gstops@, orig),
                routes_wf(gstops@, n as int),
                routes_extended(gstops@, orig, *bus, typ, *track),
                forall|i: int| 0 <= i < track.timetables.len() ==> wf_timetable(
                    #[trigger] track.timetables@[i],
                ),
            decreases 7 - d,
        {
            let day = day_of_calendar(d);
            let mut ti: usize = 0;
            while ti < track.timetables.len()
                invariant
                    n == gstops.len() == orig.len(),
                    n <= RAW_LIMIT,
                    a_idx < n,
                    b_idx < n,
                    ai + 1 < track.stops.len(),
                    gstops@[a_idx as int].id@ == track.stops@[ai as int]@,
                    gstops@[b_idx as int].id@ == track.stops@[ai as int + 1]@,
                    stops_compatible(gstops@, orig),
                    routes_wf(gstops@, n as int),
                    routes_extended(gstops@, orig, *bus, typ, *track),
                    forall|i: int| 0 <= i < track.timetables.len() ==> wf_timetable(
                        #[trigger] track.timetables@[i],
                    ),
                decreases track.timetables.len() - ti,
            {
                let tt = &track.timetables[ti];
                if tt.works_on_day(day) {
                    if ai + 1 >= tt.durations.len() {
                        proof {
                            assert(timetable_applies(*tt)) by {
                                assert(spec_works_on_day(tt.days, day));
                            }
                            assert(!pair_tt_complete(*tt, ai as int));
                        }
                        return Err(BuildError::MissingStopTime);
                    }
                    let mut pi: usize = 0;
                    while pi < tt.departures.len()
                        invariant
                            n == gstops.len() == orig.len(),
                            n <= RAW_LIMIT,
                            a_idx < n,
                            b_idx < n,
                            ai + 1 < track.stops.len(),
                            ai + 1 < tt.durations.len(),
                            tt == track.timetables@[ti as int],
                            ti < track.timetables.len(),
                            wf_timetable(*tt),
                            spec_works_on_day(tt.days, day),
                            gstops@[a_idx as int].id@ == track.stops@[ai as int]@,
                            gstops@[b_idx as int].id@ == track.stops@[ai as int + 1]@,
                            stops_compatible(gstops@, orig),
                            routes_wf(gstops@, n as int),
                            routes_extended(gstops@, orig, *bus, typ, *track),
                            forall|i: int| 0 <= i < track.timetables.len() ==> wf_timetable(
                                #[trigger] track.timetables@[i],
                            ),
                        decreases tt.departures.len() - pi,
                    {
                        match &tt.departures[pi] {
                            Departure::Exact(time) => {
                                let time = *time;
                                proof {
                                    assert(timetable_applies(*tt)) by {
                                        assert(spec_works_on_day(tt.days, day));
                                    }
                                    assert(tt.departures@[pi as int] == Departure::Exact(time));
                                }
                                let stop_time = match tt.find_stop_time(ai, time) {
                                    Some(t) => t,
                                    None => {
                                        proof {
                                            assert(!pair_tt_complete(*tt, ai as int));
                                        }
                                        return Err(BuildError::MissingStopTime);
                                    },
                                };
                                let next_stop_time = match tt.find_stop_time(ai + 1, time) {
                                    Some(t) => t,
                                    None => {
                                        proof {
                                            assert(!pair_tt_complete(*tt, ai as int));
                                        }
                                        return Err(BuildError::MissingStopTime);
                                    },
                                };
                                if next_stop_time.raw < stop_time.raw {
                                    proof {
                                        assert(!pair_tt_monotone(*tt, ai as int));
                                    }
                                    return Err(BuildError::TimeUnderflow);
                                }
                                let ride_time = next_stop_time.raw - stop_time.raw;
                                let route = StopRoute {
                                    bus: bus.clone(),
                                    typ,
                                    next_stop: b_idx,
                                    departure: Timestamp { day, time: stop_time },
                                    arrival: Timestamp { day, time: next_stop_time },
                                    duration: ride_time,
                                };
                                let ghost pre = gstops@;
                                let ghost new_route = route;
                                assert(wf_route(route, n as int));
                                gstops[a_idx].routes.push(route);
                                proof {
                                    assert(gstops@[a_idx as int].routes@ == pre[a_idx as int].routes@.push(new_route));
                                    assert(forall|k: int|
                                        0 <= k < n && k != a_idx ==> gstops@[k] == pre[k]);
                                    assert(route_from_track(
                                        new_route,
                                        gstops@[a_idx as int].id@,
                                        gstops@[b_idx as int].id@,
                                        *bus,
                                        typ,
                                        *track,
                                    )) by {
                                        assert(track.timetables@[ti as int].departures@[pi as int]
                                            == Departure::Exact(time));
                                        assert(track.stops@[ai as int]@ == gstops@[a_idx as int].id@);
                                        assert(track.timetables@[ti as int].durations@[ai as int]
                                            == tt.durations@[ai as int]);
                                    }
                                    assert forall|i: int, j: int|
                                        0 <= i < gstops@.len() && orig[i].routes@.len() <= j
                                            < gstops@[i].routes@.len() implies route_from_track(
                                        #[trigger] gstops@[i].routes@[j],
                                        gstops@[i].id@,
                                        gstops@[gstops@[i].routes@[j].next_stop as int].id@,
                                        *bus,
                                        typ,
                                        *track,
                                    ) by {
                                        if i == a_idx && j == pre[i].routes@.len() {
                                        } else {
                                            assert(gstops@[i].routes@[j] == pre[i].routes@[j]);
                                            assert(route_from_track(
                                                pre[i].routes@[j],
                                                pre[i].id@,
                                                pre[pre[i].routes@[j].next_stop as int].id@,
                                                *bus,
                                                typ,
                                                *track,
                                            ));
                                            assert(gstops@[i].id@ == pre[i].id@);
                                            assert(gstops@[gstops@[i].routes@[j].next_stop as int].id@
                                                == pre[pre[i].routes@[j].next_stop as int].id@);
                                        }
                                    }
                                }
                            },
                            Departure::Periodic(_) => {
                                // Frequency-based departures are ignored by
                                // design; only exact departures make hops.
                            },
                        }
                        pi = pi + 1;
                    }
                }
                ti = ti + 1;
            }
            d = d + 1;
        }
        ai = ai + 1;
    }
    Ok(())
}

impl Searcher {
    /// Build the transit graph from stop records and schedules. On success
    /// the graph satisfies `wf`: every stop's hop list is sorted by
    /// departure, and every hop has `arrival >= departure` on the same day
    /// with `duration == arrival - departure`. Stop identities are kept: the
    /// stop at arena index `i` is `stops[i]`.
    ///
    /// Data-integrity failures (unknown stop reference, duration-table gap,
    /// negative hop time, out-of-range raw values) abort the build.
    #[verifier::loop_isolation(false)]
    pub fn new(stops: Vec<Stop>, schedules: Vec<Schedule>) -> (r: Result<Searcher, BuildError>)
        ensures
            match r {
                Ok(s) => {
                    &&& s.wf()
                    &&& s.stops.len() == stops.len()
                    &&& forall|i: int|
                        0 <= i < stops.len() ==> (#[trigger] s.stops@[i]).id == stops@[i].id
                            && s.stops@[i].name == stops@[i].name
                    &&& all_routes_sourced(s.stops@, schedules@)
                },
                Err(_) => true,
            },
            stops@.len() > RAW_LIMIT ==> r == Err::<Searcher, BuildError>(BuildError::OutOfRange),
            wf_input(stops@, schedules@) ==> r is Ok,
            r == Err::<Searcher, BuildError>(BuildError::OutOfRange) ==> stops@.len() > RAW_LIMIT
                || exists|si: int, tj: int|
                0 <= si < schedules@.len() && 0 <= tj < schedules@[si].tracks@.len()
                    && !track_bounded(#[trigger] schedules@[si].tracks@[tj]),
            r == Err::<Searcher, BuildError>(BuildError::UnknownStop) ==> exists|si: int, tj: int|
                0 <= si < schedules@.len() && 0 <= tj < schedules@[si].tracks@.len()
                    && track_has_unknown_stop_s(stops@, #[trigger] schedules@[si].tracks@[tj]),
            r == Err::<Searcher, BuildError>(BuildError::MissingStopTime) ==> exists|si: int, tj: int|
                0 <= si < schedules@.len() && 0 <= tj < schedules@[si].tracks@.len()
                    && track_has_gap(#[trigger] schedules@[si].tracks@[tj]),
            r == Err::<Searcher, BuildError>(BuildError::TimeUnderflow) ==> exists|si: int, tj: int|
                0 <= si < schedules@.len() && 0 <= tj < schedules@[si].tracks@.len()
                    && track_has_underflow(#[trigger] schedules@[si].tracks@[tj]),
    {
        if stops.len() > RAW_LIMIT as usize {
            return Err(BuildError::OutOfRange);
        }
        let mut gstops: Vec<GraphStop> = Vec::new();
        let mut i: usize = 0;
        while i < stops.len()
            invariant
                i <= stops.len(),
                gstops@.len() == i,
                stops.len() <= RAW_LIMIT,
                forall|k: int|
                    0 <= k < i ==> (#[trigger] gstops@[k]).id == stops@[k].id && gstops@[k].name
                        == stops@[k].name && gstops@[k].routes@.len() == 0,
            decreases stops.len() - i,
        {
            gstops.push(GraphStop { id: stops[i].id.clone(), name: stops[i].name.clone(), routes: Vec::new() });
            i = i + 1;
        }

        let ghost base = gstops@;
        let mut si: usize = 0;
        while si < schedules.len()
            invariant
                stops_compatible(gstops@, base),
                routes_wf(gstops@, gstops.len() as int),
                all_routes_sourced(gstops@, schedules@),
                gstops.len() <= RAW_LIMIT,
                base.len() == stops.len(),
                forall|k: int|
                    0 <= k < stops.len() ==> (#[trigger] base[k]).id == stops@[k].id && base[k].name
                        == stops@[k].name,
            decreases schedules.len() - si,
        {
            let schedule = &schedules[si];
            let mut tj: usize = 0;
            while tj < schedule.tracks.len()
                invariant
                    stops_compatible(gstops@, base),
                    routes_wf(gstops@, gstops.len() as int),
                    all_routes_sourced(gstops@, schedules@),
                    gstops.len() <= RAW_LIMIT,
                    si < schedules.len(),
                    schedule == schedules@[si as int],
                decreases schedule.tracks.len() - tj,
            {
                let ghost before_track = gstops@;
                let track_result = add_track(
                    &mut gstops,
                    &schedule.name,
                    schedule.transport_type,
                    &schedule.tracks[tj],
                );
                proof {
                    lemma_unknown_bridge(before_track, stops@, schedule.tracks@[tj as int]);
                }
                match track_result {
                    Ok(()) => {},
                    Err(e) => {
                        proof {
                            if wf_input(stops@, schedules@) {
                                assert(track_bounded(schedules@[si as int].tracks@[tj as int]));
                                assert(!track_has_unknown_stop_s(
                                    stops@,
                                    schedules@[si as int].tracks@[tj as int],
                                ));
                                assert(!track_has_gap(schedules@[si as int].tracks@[tj as int]));
                                assert(!track_has_underflow(
                                    schedules@[si as int].tracks@[tj as int],
                                ));
                                assert(track_ok(before_track, schedule.tracks@[tj as int]));
                                assert(false);
                            }
                        }
                        return Err(e);
                    },
                }
                proof {
                    assert forall|i: int, j: int|
                        0 <= i < gstops@.len() && 0 <= j < gstops@[i].routes@.len()
                            implies route_sourced(
                        #[trigger] gstops@[i].routes@[j],
                        gstops@,
                        schedules@,
                        i,
                    ) by {
                        let r = gstops@[i].routes@[j];
                        assert(gstops@[i].id@ == before_track[i].id@);
                        if j < before_track[i].routes@.len() {
                            assert(r == before_track[i].routes@[j]);
                            assert(route_sourced(r, before_track, schedules@, i));
                            let (si0, tj0) = choose|si0: int, tj0: int|
                                {
                                    &&& 0 <= si0 < schedules@.len()
                                    &&& 0 <= tj0 < schedules@[si0].tracks@.len()
                                    &&& route_from_track(
                                        r,
                                        before_track[i].id@,
                                        before_track[r.next_stop as int].id@,
                                        schedules@[si0].name,
                                        schedules@[si0].transport_type,
                                        #[trigger] schedules@[si0].tracks@[tj0],
                                    )
                                };
                            assert(gstops@[r.next_stop as int].id@ == before_track[r.next_stop as int].id@);
                            assert(route_from_track(
                                r,
                                gstops@[i].id@,
                                gstops@[r.next_stop as int].id@,
                                schedules@[si0].name,
                                schedules@[si0].transport_type,
                                schedules@[si0].tracks@[tj0],
                            ));
                        } else {
                            assert(route_from_track(
                                r,
                                gstops@[i].id@,
                                gstops@[gstops@[i].routes@[j].next_stop as int].id@,
                                schedule.name,
                                schedule.transport_type,
                                schedules@[si as int].tracks@[tj as int],
                            ));
                        }
                    }
                }
                tj = tj + 1;
            }
            si = si + 1;
        }

        let mut k: usize = 0;
        while k < gstops.len()
            invariant
                stops_compatible(gstops@, base),
                routes_wf(gstops@, gstops.len() as int),
                all_routes_sourced(gstops@, schedules@),
                gstops.len() <= RAW_LIMIT,
                base.len() == stops.len(),
                forall|t: int|
                    0 <= t < stops.len() ==> (#[trigger] base[t]).id == stops@[t].id && base[t].name
                        == stops@[t].name,
                forall|t: int| 0 <= t < k ==> sorted_by_departure(
                    (#[trigger] gstops@[t]).routes@,
                ),
            decreases gstops.len() - k,
        {
            let ghost pre = gstops@;
            sort_routes(&mut gstops[k].routes);
            proof {
                assert(forall|t: int| 0 <= t < pre.len() && t != k ==> gstops@[t] == pre[t]);
                assert(gstops@[k as int].id == pre[k as int].id);
                assert forall|i: int, j: int|
                    0 <= i < gstops@.len() && 0 <= j < gstops@[i].routes.len() implies wf_route(
                    gstops@[i].routes@[j],
                    gstops@.len() as int,
                ) && route_sourced(gstops@[i].routes@[j], gstops@, schedules@, i) by {
                    let r = gstops@[i].routes@[j];
                    let jj: int = if i == k {
                        assert(pre[k as int].routes@.contains(r));
                        choose|jj: int|
                            0 <= jj < pre[k as int].routes@.len() && pre[k as int].routes@[jj] == r
                    } else {
                        j
                    };
                    assert(r == pre[i].routes@[jj]);
                    assert(wf_route(pre[i].routes@[jj], pre.len() as int));
                    assert(route_sourced(r, pre, schedules@, i));
                    let (si0, tj0) = choose|si0: int, tj0: int|
                        {
                            &&& 0 <= si0 < schedules@.len()
                            &&& 0 <= tj0 < schedules@[si0].tracks@.len()
                            &&& route_from_track(
                                r,
                                pre[i].id@,
                                pre[r.next_stop as int].id@,
                                schedules@[si0].name,
                                schedules@[si0].transport_type,
                                #[trigger] schedules@[si0].tracks@[tj0],
                            )
                        };
                    assert(gstops@[i].id@ == pre[i].id@);
                    assert(gstops@[r.next_stop as int].id@ == pre[r.next_stop as int].id@);
                    assert(route_from_track(
                        r,
                        gstops@[i].id@,
                        gstops@[r.next_stop as int].id@,
                        schedules@[si0].name,
                        schedules@[si0].transport_type,
                        schedules@[si0].tracks@[tj0],
                    ));
                }
            }
            k = k + 1;
        }

        Ok(Searcher { stops: gstops })
    }
}

} // verus!
