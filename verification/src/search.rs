//! The time-aware best-first route search: from precomputed walking links
//! and the transit graph, find the itinerary that minimizes arrival time
//! plus a transfer penalty, then reconstruct and coalesce it into walk and
//! ride segments.

use vstd::prelude::*;
use crate::time::{DayTime, Timestamp, cyclic_before, ts_offset};
use crate::graph::{Searcher, StopRoute, wf_route};
use crate::model::TransportType;
use crate::route::{BusSegment, Route, Segment, WalkSegment};
use crate::RAW_LIMIT;

verus! {

/// Boarding buffer imposed before catching a departure when changing
/// vehicle (or boarding after a walk), in seconds.
pub const TRANSFER_DELAY: u64 = 180;

/// Cost equivalent of one transfer, in seconds of arrival time.
pub const TRANSFER_PENALTY: u64 = 120;

/// A walking link: a stop index reachable on foot, with the walking time in
/// seconds. Callers derive these from geographic distance; the search takes
/// them as given.
#[derive(Debug, Copy, Clone, PartialEq, Eq, Structural)]
pub struct WalkLink {
    pub stop: usize,
    pub secs: u64,
}

/// An itinerary step while the search still speaks of arena indices rather
/// than stop names. A walk endpoint of `None` is the query's raw origin or
/// destination point.
pub enum ProtoSegment {
    Walk { from: Option<usize>, to: Option<usize>, start: DayTime, duration: u64 },
    Ride {
        bus: String,
        typ: TransportType,
        from_stop: usize,
        to_stop: usize,
        start: DayTime,
        duration: u64,
    },
}

/// The best known way to reach a settled stop: arrival, transfers so far,
/// the segment that arrived, the predecessor stop, the time the destination
/// could be reached on foot from here (if within reach), and the position
/// in settle order.
pub struct StopInfo {
    pub arrival: Timestamp,
    pub transfers: u64,
    pub segment: ProtoSegment,
    pub parent: Option<usize>,
    pub walk_finish: Option<Timestamp>,
    pub order: usize,
}

/// A frontier entry: a candidate way to reach `stop`.
pub struct HeapItem {
    pub arrival: Timestamp,
    pub transfers: u64,
    pub stop: usize,
    pub parent: Option<usize>,
    pub segment: ProtoSegment,
}

/// The cost key of a candidate: its arrival advanced by the transfer
/// penalty for each transfer taken. Keys compare under the cyclic order
/// anchored at the query departure.
pub open spec fn cost_key(arrival: Timestamp, transfers: u64) -> Timestamp {
    Timestamp {
        day: arrival.day,
        time: DayTime { raw: (arrival.time.raw + TRANSFER_PENALTY * transfers) as u64 },
    }
}

/// The walking time of the first link for `stop`, if `stop` is linked, from
/// position `i` on.
pub open spec fn link_from(links: Seq<WalkLink>, stop: int, i: int) -> Option<u64>
    decreases links.len() - i,
{
    if i < 0 || i >= links.len() {
        None
    } else if links[i].stop == stop {
        Some(links[i].secs)
    } else {
        link_from(links, stop, i + 1)
    }
}

/// The walking time the link list gives for `stop`: the first matching
/// link's, if any.
pub open spec fn spec_link_secs(links: Seq<WalkLink>, stop: int) -> Option<u64> {
    link_from(links, stop, 0)
}

/// Every link points into an arena of `n` stops and walks for a bounded
/// number of seconds.
pub open spec fn links_wf(links: Seq<WalkLink>, n: int) -> bool {
    forall|i: int|
        0 <= i < links.len() ==> (#[trigger] links[i]).stop < n && links[i].secs <= RAW_LIMIT
}

/// Linear scan for the walking time of `stop` in a link list.
#[verifier::loop_isolation(false)]
pub fn link_secs(links: &Vec<WalkLink>, stop: usize) -> (r: Option<u64>)
    ensures
        r == spec_link_secs(links@, stop as int),
{
    let mut i: usize = 0;
    while i < links.len()
        invariant
            i <= links.len(),
            spec_link_secs(links@, stop as int) == link_from(links@, stop as int, i as int),
        decreases links.len() - i,
    {
        if links[i].stop == stop {
            return Some(links[i].secs);
        }
        i = i + 1;
    }
    None
}

/// A link list that mentions `stop` yields a walking time for it.
pub proof fn lemma_linked_stop_has_secs(links: Seq<WalkLink>, stop: int, j: int)
    requires
        0 <= j < links.len(),
        links[j].stop == stop,
    ensures
        spec_link_secs(links, stop) is Some,
    decreases j,
{
    lemma_link_from_some(links, stop, 0, j);
}

proof fn lemma_link_from_some(links: Seq<WalkLink>, stop: int, i: int, j: int)
    requires
        0 <= i <= j < links.len(),
        links[j].stop == stop,
    ensures
        link_from(links, stop, i) is Some,
    decreases j - i,
{
    if links[i].stop != stop {
        lemma_link_from_some(links, stop, i + 1, j);
    }
}

/// A walking time delivered by a well-formed link list is bounded.
pub proof fn lemma_link_secs_bounded(links: Seq<WalkLink>, stop: int, n: int)
    requires
        links_wf(links, n),
    ensures
        spec_link_secs(links, stop) matches Some(s) ==> s <= RAW_LIMIT,
{
    lemma_link_from_bounded(links, stop, 0, n);
}

proof fn lemma_link_from_bounded(links: Seq<WalkLink>, stop: int, i: int, n: int)
    requires
        links_wf(links, n),
    ensures
        link_from(links, stop, i) matches Some(s) ==> s <= RAW_LIMIT,
    decreases links.len() - i,
{
    if 0 <= i < links.len() && links[i].stop != stop {
        lemma_link_from_bounded(links, stop, i + 1, n);
    }
}

/// Is the candidate `(a_arrival, a_transfers)` strictly cheaper than
/// `(b_arrival, b_transfers)` under the cyclic order anchored at
/// `departure`?
pub fn cost_before(
    a_arrival: Timestamp,
    a_transfers: u64,
    b_arrival: Timestamp,
    b_transfers: u64,
    departure: Timestamp,
) -> (r: bool)
    requires
        a_arrival.time.raw <= 4 * RAW_LIMIT,
        a_transfers <= RAW_LIMIT,
        b_arrival.time.raw <= 4 * RAW_LIMIT,
        b_transfers <= RAW_LIMIT,
    ensures
        r == cyclic_before(
            cost_key(a_arrival, a_transfers),
            cost_key(b_arrival, b_transfers),
            departure,
        ),
{
    let ka = a_arrival.offset(TRANSFER_PENALTY * a_transfers);
    let kb = b_arrival.offset(TRANSFER_PENALTY * b_transfers);
    match ka.compare_using_departure(kb, departure) {
        core::cmp::Ordering::Less => true,
        _ => false,
    }
}

/// A frontier entry is consistent with an arena of `n` stops and with the
/// settle progress so far: indices in range, bounded arithmetic, and a
/// seeded (parentless) entry is exactly an origin walk that leaves at the
/// query departure.
pub open spec fn item_wf(it: HeapItem, n: int, count: int, departure: Timestamp) -> bool {
    &&& (it.stop as int) < n
    &&& it.transfers <= count
    &&& it.arrival.time.raw <= 3 * RAW_LIMIT
    &&& proto_wf(it.segment, n)
    &&& (it.segment is Ride ==> it.arrival.time.raw <= 2 * RAW_LIMIT)
    &&& match it.parent {
        None => {
            &&& it.segment matches ProtoSegment::Walk { from: None, to, start, duration }
            &&& it.segment->Walk_start == departure.time
            &&& it.arrival == ts_offset(departure, it.segment->Walk_duration)
            &&& it.segment->Walk_duration <= RAW_LIMIT
            &&& departure.time.raw <= RAW_LIMIT
        },
        Some(p) => (p as int) < n,
    }
}

/// A proto segment's stop indices point into the arena and its times are
/// bounded.
pub open spec fn proto_wf(seg: ProtoSegment, n: int) -> bool {
    match seg {
        ProtoSegment::Walk { from, to, start, duration } => {
            &&& (from is Some ==> (from->0 as int) < n)
            &&& (to is Some ==> (to->0 as int) < n)
            &&& start.raw <= 4 * RAW_LIMIT
            &&& duration <= 2 * RAW_LIMIT
        },
        ProtoSegment::Ride { bus, typ, from_stop, to_stop, start, duration } => {
            &&& (from_stop as int) < n
            &&& (to_stop as int) < n
            &&& start.raw <= 4 * RAW_LIMIT
            &&& duration <= 2 * RAW_LIMIT
        },
    }
}

/// Pop a cheapest frontier entry (ties broken arbitrarily). What comes back
/// was in the queue and no entry, popped or kept, was strictly cheaper;
/// every stop the old queue could reach is the popped stop or still
/// reachable through the kept entries.
#[verifier::loop_isolation(false)]
pub fn pop_min(queue: &mut Vec<HeapItem>, departure: Timestamp) -> (r: Option<HeapItem>)
    requires
        forall|i: int|
            0 <= i < queue.len() ==> (#[trigger] queue@[i]).arrival.time.raw <= 4 * RAW_LIMIT
                && queue@[i].transfers <= RAW_LIMIT,
    ensures
        match r {
            None => old(queue)@.len() == 0 && final(queue)@ == old(queue)@,
            Some(it) => {
                &&& old(queue)@.contains(it)
                &&& final(queue)@.len() == old(queue)@.len() - 1
                &&& forall|j: int|
                    0 <= j < final(queue)@.len() ==> old(queue)@.contains(#[trigger] final(queue)@[j])
                &&& forall|j: int|
                    0 <= j < old(queue)@.len() ==> !cyclic_before(
                        cost_key((#[trigger] old(queue)@[j]).arrival, old(queue)@[j].transfers),
                        cost_key(it.arrival, it.transfers),
                        departure,
                    )
                &&& forall|j: int|
                    0 <= j < old(queue)@.len() ==> it.stop == (#[trigger] old(queue)@[j]).stop
                        || exists|k: int|
                        0 <= k < final(queue)@.len() && (#[trigger] final(queue)@[k]).stop
                            == old(queue)@[j].stop
            },
        },
{
    if queue.len() == 0 {
        return None;
    }
    let mut m: usize = 0;
    let mut i: usize = 1;
    while i < queue.len()
        invariant
            m < i <= queue.len(),
            forall|j: int|
                0 <= j < i ==> !cyclic_before(
                    cost_key((#[trigger] queue@[j]).arrival, queue@[j].transfers),
                    cost_key(queue@[m as int].arrival, queue@[m as int].transfers),
                    departure,
                ),
        decreases queue.len() - i,
    {
        let better = cost_before(
            queue[i].arrival,
            queue[i].transfers,
            queue[m].arrival,
            queue[m].transfers,
            departure,
        );
        if better {
            proof {
                crate::time::lemma_cyclic_total(
                    cost_key(queue@[m as int].arrival, queue@[m as int].transfers),
                    cost_key(queue@[i as int].arrival, queue@[i as int].transfers),
                    departure,
                );
                assert forall|j: int|
                    0 <= j < i + 1 implies !cyclic_before(
                    cost_key(queue@[j].arrival, queue@[j].transfers),
                    cost_key(queue@[i as int].arrival, queue@[i as int].transfers),
                    departure,
                ) by {
                    if j < i {
                        if cyclic_before(
                            cost_key(queue@[j].arrival, queue@[j].transfers),
                            cost_key(queue@[i as int].arrival, queue@[i as int].transfers),
                            departure,
                        ) {
                            crate::time::lemma_cyclic_transitive(
                                cost_key(queue@[j].arrival, queue@[j].transfers),
                                cost_key(queue@[i as int].arrival, queue@[i as int].transfers),
                                cost_key(queue@[m as int].arrival, queue@[m as int].transfers),
                                departure,
                            );
                        }
                    }
                }
            }
            m = i;
        }
        i = i + 1;
    }
    let ghost pre = queue@;
    let it = queue.swap_remove(m);
    proof {
        assert(pre.contains(it)) by {
            assert(pre[m as int] == it);
        }
        assert forall|j: int| 0 <= j < pre.len() implies it.stop == (#[trigger] pre[j]).stop
            || exists|k: int|
            0 <= k < queue@.len() && (#[trigger] queue@[k]).stop == pre[j].stop by {
            if j != m {
                if j < queue@.len() {
                    assert(queue@[j].stop == pre[j].stop);
                } else {
                    assert(j == pre.len() - 1);
                    assert(queue@[m as int] == pre[j]);
                }
            }
        }
        assert forall|j: int| 0 <= j < queue@.len() implies pre.contains(#[trigger] queue@[j]) by {
            if j == m {
                assert(queue@[j] == pre[pre.len() - 1]);
            } else {
                assert(queue@[j] == pre[j]);
            }
        }
    }
    Some(it)
}

/// Settle a popped frontier entry under the first-settle-wins discipline:
/// if its stop is already settled the map is left exactly as it was and the
/// entry is discarded; otherwise the stop is recorded with the entry's
/// data, settle order `count`, and a walk-finish time exactly when the
/// destination links reach this stop.
pub fn settle_item(
    settled: &mut Vec<Option<StopInfo>>,
    count: usize,
    item: HeapItem,
    dest_links: &Vec<WalkLink>,
) -> (r: bool)
    requires
        (item.stop as int) < settled.len(),
        item.arrival.time.raw <= 3 * RAW_LIMIT,
        links_wf(dest_links@, settled.len() as int),
    ensures
        old(settled)@[item.stop as int] is Some ==> final(settled)@ == old(settled)@ && r == false,
        old(settled)@[item.stop as int] is None ==> r == true && final(settled)@ == old(settled)@
            .update(
            item.stop as int,
            Some(
                (StopInfo {
                    arrival: item.arrival,
                    transfers: item.transfers,
                    segment: item.segment,
                    parent: item.parent,
                    walk_finish: match spec_link_secs(dest_links@, item.stop as int) {
                        Some(s) => Some(ts_offset(item.arrival, s)),
                        None => None,
                    },
                    order: count,
                }),
            ),
        ),
{
    if settled[item.stop].is_some() {
        return false;
    }
    proof {
        lemma_link_secs_bounded(dest_links@, item.stop as int, settled.len() as int);
    }
    let walk_finish = match link_secs(dest_links, item.stop) {
        Some(s) => Some(item.arrival.offset(s)),
        None => None,
    };
    let stop = item.stop;
    settled[stop] = Some(
        StopInfo {
            arrival: item.arrival,
            transfers: item.transfers,
            segment: item.segment,
            parent: item.parent,
            walk_finish,
            order: count,
        },
    );
    true
}


/// A settled stop's record is internally consistent for an arena of `n`
/// stops after `count` settles.
pub open spec fn info_wf(info: StopInfo, n: int, count: int, departure: Timestamp) -> bool {
    &&& info.transfers <= count
    &&& info.arrival.time.raw <= 3 * RAW_LIMIT
    &&& proto_wf(info.segment, n)
    &&& (info.segment is Ride ==> info.arrival.time.raw <= 2 * RAW_LIMIT)
    &&& (info.order as int) < count
    &&& match info.parent {
        None => {
            &&& info.segment matches ProtoSegment::Walk { from: None, .. }
            &&& info.segment->Walk_start == departure.time
            &&& info.arrival == ts_offset(departure, info.segment->Walk_duration)
            &&& info.segment->Walk_duration <= RAW_LIMIT
            &&& departure.time.raw <= RAW_LIMIT
        },
        Some(p) => (p as int) < n,
    }
}

/// The settled record at `i` is consistent with the rest of the map: a
/// well-formed record, a parent settled strictly earlier, and a walk-finish
/// time exactly when the destination links reach stop `i`.
pub open spec fn info_ok(
    settled: Seq<Option<StopInfo>>,
    i: int,
    n: int,
    count: int,
    departure: Timestamp,
    dest_links: Seq<WalkLink>,
) -> bool {
    let info = settled[i]->0;
    &&& info_wf(info, n, count, departure)
    &&& match info.parent {
        Some(p) => settled[p as int] is Some && settled[p as int]->0.order < info.order,
        None => true,
    }
    &&& match spec_link_secs(dest_links, i) {
        Some(s) => info.walk_finish == Some(ts_offset(info.arrival, s))
            && info.arrival.time.raw + s <= 4 * RAW_LIMIT,
        None => info.walk_finish is None,
    }
}

/// The whole settled map is consistent.
pub open spec fn settled_ok(
    settled: Seq<Option<StopInfo>>,
    n: int,
    count: int,
    departure: Timestamp,
    dest_links: Seq<WalkLink>,
) -> bool {
    &&& settled.len() == n
    &&& forall|i: int|
        0 <= i < n && (#[trigger] settled[i]) is Some ==> info_ok(
            settled,
            i,
            n,
            count,
            departure,
            dest_links,
        )
}

/// A frontier entry is consistent with the settled map: well-formed, with a
/// parent that is already settled.
pub open spec fn item_ok(
    it: HeapItem,
    settled: Seq<Option<StopInfo>>,
    n: int,
    count: int,
    departure: Timestamp,
) -> bool {
    &&& item_wf(it, n, count, departure)
    &&& match it.parent {
        Some(p) => settled[p as int] is Some,
        None => true,
    }
}

/// Every frontier entry is consistent.
pub open spec fn queue_ok(
    queue: Seq<HeapItem>,
    settled: Seq<Option<StopInfo>>,
    n: int,
    count: int,
    departure: Timestamp,
) -> bool {
    forall|i: int|
        0 <= i < queue.len() ==> item_ok(#[trigger] queue[i], settled, n, count, departure)
}

/// Every stop a link list reaches is settled or still on the frontier.
pub open spec fn covered(
    queue: Seq<HeapItem>,
    settled: Seq<Option<StopInfo>>,
    links: Seq<WalkLink>,
) -> bool {
    forall|k: int|
        0 <= k < links.len() ==> (#[trigger] links[k]).stop < settled.len() && (
        settled[links[k].stop as int] is Some || exists|j: int|
            0 <= j < queue.len() && (#[trigger] queue[j]).stop == links[k].stop)
}

/// With the same arrival, the candidate with fewer transfers carries the
/// strictly smaller cost key, so the transfer penalty breaks such ties in
/// its favour -- unless the reference departure falls strictly inside the
/// penalty span, where the cyclic order wraps between the two keys.
pub proof fn lemma_transfer_penalty_breaks_ties(
    w: Timestamp,
    t_low: u64,
    t_high: u64,
    departure: Timestamp,
)
    requires
        t_low < t_high,
        t_high <= RAW_LIMIT,
        w.time.raw <= 4 * RAW_LIMIT,
        !(crate::time::ts_lt(cost_key(w, t_low), departure) && !crate::time::ts_lt(
            cost_key(w, t_high),
            departure,
        )),
    ensures
        cyclic_before(cost_key(w, t_low), cost_key(w, t_high), departure),
{
    crate::time::lemma_day_ord_injective(w.day, departure.day);
}

/// The best final stop: among settled stops from which the destination can
/// be reached on foot, one whose walk-finish time plus transfer penalty is
/// minimal under the cyclic order anchored at `departure`. `None` exactly
/// when no settled stop reaches the destination.
#[verifier::loop_isolation(false)]
pub fn select_final(
    settled: &Vec<Option<StopInfo>>,
    departure: Timestamp,
) -> (r: Option<(usize, Timestamp, u64)>)
    requires
        forall|i: int|
            0 <= i < settled@.len() && (#[trigger] settled@[i]) is Some ==> settled@[i]->0.transfers
                <= RAW_LIMIT && (settled@[i]->0.walk_finish matches Some(w) ==> w.time.raw <= 4
                * RAW_LIMIT),
    ensures
        match r {
            None => forall|i: int|
                0 <= i < settled@.len() && (#[trigger] settled@[i]) is Some
                    ==> settled@[i]->0.walk_finish is None,
            Some((s, w, t)) => {
                &&& (s as int) < settled@.len()
                &&& settled@[s as int] is Some
                &&& settled@[s as int]->0.walk_finish == Some(w)
                &&& settled@[s as int]->0.transfers == t
                &&& forall|i: int|
                    0 <= i < settled@.len() && (#[trigger] settled@[i]) is Some
                        && settled@[i]->0.walk_finish is Some ==> !cyclic_before(
                        cost_key(settled@[i]->0.walk_finish->0, settled@[i]->0.transfers),
                        cost_key(w, t),
                        departure,
                    )
            },
        },
{
    let mut have: bool = false;
    let mut best_stop: usize = 0;
    let mut best_w: Timestamp = departure;
    let mut best_t: u64 = 0;
    let mut si: usize = 0;
    while si < settled.len()
        invariant
            si <= settled@.len(),
            !have ==> forall|i: int|
                0 <= i < si && (#[trigger] settled@[i]) is Some ==> settled@[i]->0.walk_finish
                    is None,
            have ==> {
                &&& (best_stop as int) < settled@.len()
                &&& settled@[best_stop as int] is Some
                &&& settled@[best_stop as int]->0.walk_finish == Some(best_w)
                &&& settled@[best_stop as int]->0.transfers == best_t
                &&& best_w.time.raw <= 4 * RAW_LIMIT
                &&& best_t <= RAW_LIMIT
                &&& forall|i: int|
                    0 <= i < si && (#[trigger] settled@[i]) is Some
                        && settled@[i]->0.walk_finish is Some ==> !cyclic_before(
                        cost_key(settled@[i]->0.walk_finish->0, settled@[i]->0.transfers),
                        cost_key(best_w, best_t),
                        departure,
                    )
            },
        decreases settled@.len() - si,
    {
        let mut found: Option<(Timestamp, u64)> = None;
        match &settled[si] {
            Some(info) => {
                match info.walk_finish {
                    Some(w) => {
                        found = Some((w, info.transfers));
                    },
                    None => {},
                }
            },
            None => {},
        }
        match found {
            Some((w, t)) => {
                let take = if !have {
                    true
                } else {
                    cost_before(w, t, best_w, best_t, departure)
                };
                if take {
                    let ghost old_have = have;
                    let ghost old_w = best_w;
                    let ghost old_t = best_t;
                    have = true;
                    best_stop = si;
                    best_w = w;
                    best_t = t;
                    proof {
                        if old_have {
                            assert forall|i: int|
                                0 <= i < si + 1 && (#[trigger] settled@[i]) is Some
                                    && settled@[i]->0.walk_finish is Some implies !cyclic_before(
                                cost_key(settled@[i]->0.walk_finish->0, settled@[i]->0.transfers),
                                cost_key(best_w, best_t),
                                departure,
                            ) by {
                                let ki = cost_key(
                                    settled@[i]->0.walk_finish->0,
                                    settled@[i]->0.transfers,
                                );
                                let kn = cost_key(best_w, best_t);
                                let ko = cost_key(old_w, old_t);
                                if i < si && cyclic_before(ki, kn, departure) {
                                    crate::time::lemma_cyclic_transitive(ki, kn, ko, departure);
                                }
                            }
                        }
                    }
                } else {
                    proof {
                        crate::time::lemma_cyclic_total(
                            cost_key(w, t),
                            cost_key(best_w, best_t),
                            departure,
                        );
                    }
                }
            },
            None => {},
        }
        si = si + 1;
    }
    if have {
        Some((best_stop, best_w, best_t))
    } else {
        None
    }
}



/// How many stops are settled.
pub open spec fn num_settled(s: Seq<Option<StopInfo>>) -> int
    decreases s.len(),
{
    if s.len() == 0 {
        0
    } else {
        num_settled(s.drop_last()) + if s.last() is Some {
            1int
        } else {
            0int
        }
    }
}

proof fn lemma_num_settled_le(s: Seq<Option<StopInfo>>)
    ensures
        0 <= num_settled(s) <= s.len(),
    decreases s.len(),
{
    if s.len() > 0 {
        lemma_num_settled_le(s.drop_last());
    }
}

proof fn lemma_num_settled_none(s: Seq<Option<StopInfo>>, i: int)
    requires
        0 <= i < s.len(),
        s[i] is None,
    ensures
        num_settled(s) <= s.len() - 1,
    decreases s.len(),
{
    if i == s.len() - 1 {
        lemma_num_settled_le(s.drop_last());
    } else {
        lemma_num_settled_none(s.drop_last(), i);
    }
}

proof fn lemma_num_settled_update(s: Seq<Option<StopInfo>>, i: int, v: StopInfo)
    requires
        0 <= i < s.len(),
        s[i] is None,
    ensures
        num_settled(s.update(i, Some(v))) == num_settled(s) + 1,
    decreases s.len(),
{
    let t = s.update(i, Some(v));
    if i == s.len() - 1 {
        assert(t.drop_last() =~= s.drop_last());
    } else {
        assert(t.drop_last() =~= s.drop_last().update(i, Some(v)));
        lemma_num_settled_update(s.drop_last(), i, v);
    }
}

proof fn lemma_num_settled_push_none(s: Seq<Option<StopInfo>>)
    ensures
        num_settled(s.push(None)) == num_settled(s),
{
    assert(s.push(None).drop_last() =~= s);
}

/// Does catching `route` from a stop reached at `arrival` by `prev_bus`
/// (`None`: reached on foot) count as a transfer? Boarding after a walk, a
/// different bus, or a same-bus layover (the hop does not depart exactly
/// when the passenger arrived) transfers; an exact same-bus continuation
/// does not.
pub open spec fn spec_is_transfer(
    prev_bus: Option<String>,
    arrival: Timestamp,
    route: StopRoute,
) -> bool {
    match prev_bus {
        None => true,
        Some(b) => b@ != route.bus@ || arrival != route.departure,
    }
}

/// The instant from which the passenger can board `route`: the arrival,
/// plus the boarding buffer when the boarding is a transfer.
pub open spec fn spec_ready(
    prev_bus: Option<String>,
    arrival: Timestamp,
    route: StopRoute,
) -> Timestamp {
    if spec_is_transfer(prev_bus, arrival, route) {
        ts_offset(arrival, TRANSFER_DELAY)
    } else {
        arrival
    }
}

/// May the passenger catch `route`: its departure lies at or after the
/// ready instant, within the two-day window.
pub open spec fn spec_can_board(
    prev_bus: Option<String>,
    arrival: Timestamp,
    route: StopRoute,
) -> bool {
    crate::time::spec_followed_by(spec_ready(prev_bus, arrival, route), route.departure)
}

/// The frontier entry that catching `route` from `stop_idx` yields: the
/// hop's arrival, the transfer count up by one exactly on a transfer.
pub open spec fn boarded_item(
    prev_bus: Option<String>,
    arrival: Timestamp,
    transfers: u64,
    stop_idx: usize,
    route: StopRoute,
) -> HeapItem {
    HeapItem {
        arrival: route.arrival,
        transfers: (transfers + if spec_is_transfer(prev_bus, arrival, route) {
            1u64
        } else {
            0u64
        }) as u64,
        stop: route.next_stop,
        parent: Some(stop_idx),
        segment: ProtoSegment::Ride {
            bus: route.bus,
            typ: route.typ,
            from_stop: stop_idx,
            to_stop: route.next_stop,
            start: route.departure.time,
            duration: route.duration,
        },
    }
}

/// The frontier entries that expanding the first `i` hops of a stop
/// enqueues, in order: one boarded entry per catchable hop.
pub open spec fn rides_enqueued(
    routes: Seq<StopRoute>,
    prev_bus: Option<String>,
    arrival: Timestamp,
    transfers: u64,
    stop_idx: usize,
    i: int,
) -> Seq<HeapItem>
    decreases i,
{
    if i <= 0 {
        Seq::empty()
    } else {
        let rest = rides_enqueued(routes, prev_bus, arrival, transfers, stop_idx, i - 1);
        if spec_can_board(prev_bus, arrival, routes[i - 1]) {
            rest.push(boarded_item(prev_bus, arrival, transfers, stop_idx, routes[i - 1]))
        } else {
            rest
        }
    }
}

/// The frontier entry that walking one link from `stop_idx` yields: the
/// arrival advanced by the walking time, the transfer count unchanged.
pub open spec fn walked_item(
    stop_idx: usize,
    arrival: Timestamp,
    transfers: u64,
    link: WalkLink,
) -> HeapItem {
    HeapItem {
        arrival: ts_offset(arrival, link.secs),
        transfers,
        stop: link.stop,
        parent: Some(stop_idx),
        segment: ProtoSegment::Walk {
            from: Some(stop_idx),
            to: Some(link.stop),
            start: arrival.time,
            duration: link.secs,
        },
    }
}

/// The set of stop names of the arena.
pub open spec fn stop_names(stops: Seq<crate::graph::GraphStop>) -> Set<Seq<char>> {
    Set::new(
        |nm: Seq<char>|
            exists|i: int| 0 <= i < stops.len() && (#[trigger] stops[i]).name@ == nm,
    )
}

impl Searcher {
    /// Enqueue every scheduled hop leaving the just-settled stop that the
    /// passenger can catch: a transfer (different bus, boarding after a
    /// walk, or a layover on the same bus) imposes the boarding buffer and
    /// counts toward the penalty.
    #[verifier::loop_isolation(false)]
    fn expand_rides(
        &self,
        queue: &mut Vec<HeapItem>,
        settled: &Vec<Option<StopInfo>>,
        origin_links: &Vec<WalkLink>,
        stop_idx: usize,
        arrival: Timestamp,
        transfers: u64,
        prev_bus: &Option<String>,
        settled_count: usize,
        departure: Timestamp,
    )
        requires
            self.wf(),
            (stop_idx as int) < self.stops@.len(),
            settled@.len() == self.stops@.len(),
            settled_count <= self.stops@.len(),
            transfers + 1 <= settled_count,
            arrival.time.raw <= 3 * RAW_LIMIT,
            settled@[stop_idx as int] is Some,
            queue_ok(
                queue@,
                settled@,
                self.stops@.len() as int,
                settled_count as int,
                departure,
            ),
            covered(queue@, settled@, origin_links@),
        ensures
            queue_ok(
                final(queue)@,
                settled@,
                self.stops@.len() as int,
                settled_count as int,
                departure,
            ),
            covered(final(queue)@, settled@, origin_links@),
            final(queue)@ == old(queue)@ + rides_enqueued(
                self.stops@[stop_idx as int].routes@,
                *prev_bus,
                arrival,
                transfers,
                stop_idx,
                self.stops@[stop_idx as int].routes@.len() as int,
            ),
    {
        let ghost n = self.stops@.len() as int;
        let ghost q0 = queue@;
        let ghost routes_seq = self.stops@[stop_idx as int].routes@;
        let routes_len = self.stops[stop_idx].routes.len();
        let mut ri: usize = 0;
        while ri < routes_len
            invariant
                ri <= routes_len,
                queue_ok(queue@, settled@, n, settled_count as int, departure),
                covered(queue@, settled@, origin_links@),
                queue@ == q0 + rides_enqueued(
                    routes_seq,
                    *prev_bus,
                    arrival,
                    transfers,
                    stop_idx,
                    ri as int,
                ),
            decreases routes_len - ri,
        {
            let ghost q_pre = queue@;
            let route = &self.stops[stop_idx].routes[ri];
            assert(wf_route(self.stops@[stop_idx as int].routes@[ri as int], n));
            let is_transferring = match prev_bus {
                None => true,
                Some(b) => !(*b == route.bus) || arrival != route.departure,
            };
            let ready = if is_transferring {
                arrival.offset(TRANSFER_DELAY)
            } else {
                arrival
            };
            let new_transfers = if is_transferring {
                transfers + 1
            } else {
                transfers
            };
            assert(is_transferring == spec_is_transfer(*prev_bus, arrival, routes_seq[ri as int]));
            if ready.is_followed_by(route.departure) {
                queue.push(
                    HeapItem {
                        arrival: route.arrival,
                        transfers: new_transfers,
                        stop: route.next_stop,
                        parent: Some(stop_idx),
                        segment: ProtoSegment::Ride {
                            bus: route.bus.clone(),
                            typ: route.typ,
                            from_stop: stop_idx,
                            to_stop: route.next_stop,
                            start: route.departure.time,
                            duration: route.duration,
                        },
                    },
                );
                proof {
                    assert(queue@.last() == boarded_item(
                        *prev_bus,
                        arrival,
                        transfers,
                        stop_idx,
                        routes_seq[ri as int],
                    ));
                    assert(queue@ =~= q0 + rides_enqueued(
                        routes_seq,
                        *prev_bus,
                        arrival,
                        transfers,
                        stop_idx,
                        ri as int + 1,
                    ));
                    assert forall|i: int|
                        0 <= i < queue@.len() implies item_ok(
                        #[trigger] queue@[i],
                        settled@,
                        n,
                        settled_count as int,
                        departure,
                    ) by {
                        if i < q_pre.len() {
                            assert(queue@[i] == q_pre[i]);
                        }
                    }
                    assert forall|k: int|
                        0 <= k < origin_links@.len() implies (#[trigger] origin_links@[k]).stop
                        < settled@.len() && (settled@[origin_links@[k].stop as int] is Some
                        || exists|j: int|
                        0 <= j < queue@.len() && (#[trigger] queue@[j]).stop
                            == origin_links@[k].stop) by {
                        let st = origin_links@[k].stop;
                        if settled@[st as int] is None {
                            let j0 = choose|j0: int|
                                0 <= j0 < q_pre.len() && (#[trigger] q_pre[j0]).stop == st;
                            assert(queue@[j0] == q_pre[j0]);
                        }
                    }
                }
            } else {
                proof {
                    assert(queue@ == q0 + rides_enqueued(
                        routes_seq,
                        *prev_bus,
                        arrival,
                        transfers,
                        stop_idx,
                        ri as int + 1,
                    ));
                }
            }
            ri = ri + 1;
        }
    }

    /// Enqueue a walk to every stop within walking reach of the
    /// just-settled stop. Only called when the stop was reached by a ride,
    /// so the search never chains two walks.
    #[verifier::loop_isolation(false)]
    fn expand_walks(
        &self,
        queue: &mut Vec<HeapItem>,
        settled: &Vec<Option<StopInfo>>,
        origin_links: &Vec<WalkLink>,
        links: &Vec<WalkLink>,
        stop_idx: usize,
        arrival: Timestamp,
        transfers: u64,
        settled_count: usize,
        departure: Timestamp,
    )
        requires
            self.wf(),
            (stop_idx as int) < self.stops@.len(),
            settled@.len() == self.stops@.len(),
            settled_count <= self.stops@.len(),
            transfers <= settled_count,
            arrival.time.raw <= 2 * RAW_LIMIT,
            settled@[stop_idx as int] is Some,
            links_wf(links@, self.stops@.len() as int),
            queue_ok(
                queue@,
                settled@,
                self.stops@.len() as int,
                settled_count as int,
                departure,
            ),
            covered(queue@, settled@, origin_links@),
        ensures
            queue_ok(
                final(queue)@,
                settled@,
                self.stops@.len() as int,
                settled_count as int,
                departure,
            ),
            covered(final(queue)@, settled@, origin_links@),
            final(queue)@.len() == old(queue)@.len() + links@.len(),
            forall|i: int| 0 <= i < old(queue)@.len() ==> final(queue)@[i] == old(queue)@[i],
            forall|k: int|
                0 <= k < links@.len() ==> final(queue)@[old(queue)@.len() + k] == walked_item(
                    stop_idx,
                    arrival,
                    transfers,
                    #[trigger] links@[k],
                ),
    {
        let ghost n = self.stops@.len() as int;
        let ghost q0 = queue@;
        let mut li: usize = 0;
        while li < links.len()
            invariant
                li <= links@.len(),
                queue_ok(queue@, settled@, n, settled_count as int, departure),
                covered(queue@, settled@, origin_links@),
                queue@.len() == q0.len() + li,
                forall|i: int| 0 <= i < q0.len() ==> queue@[i] == q0[i],
                forall|k: int|
                    0 <= k < li ==> queue@[q0.len() + k] == walked_item(
                        stop_idx,
                        arrival,
                        transfers,
                        #[trigger] links@[k],
                    ),
            decreases links@.len() - li,
        {
            let ghost q_pre = queue@;
            let link = links[li];
            let a2 = arrival.offset(link.secs);
            queue.push(
                HeapItem {
                    arrival: a2,
                    transfers,
                    stop: link.stop,
                    parent: Some(stop_idx),
                    segment: ProtoSegment::Walk {
                        from: Some(stop_idx),
                        to: Some(link.stop),
                        start: arrival.time,
                        duration: link.secs,
                    },
                },
            );
            proof {
                assert forall|i: int|
                    0 <= i < queue@.len() implies item_ok(
                    #[trigger] queue@[i],
                    settled@,
                    n,
                    settled_count as int,
                    departure,
                ) by {
                    if i < q_pre.len() {
                        assert(queue@[i] == q_pre[i]);
                    }
                }
                assert forall|k: int|
                    0 <= k < origin_links@.len() implies (#[trigger] origin_links@[k]).stop
                    < settled@.len() && (settled@[origin_links@[k].stop as int] is Some || exists|
                j: int|
                    0 <= j < queue@.len() && (#[trigger] queue@[j]).stop == origin_links@[k].stop)
                    by {
                    let st = origin_links@[k].stop;
                    if settled@[st as int] is None {
                        let j0 = choose|j0: int|
                            0 <= j0 < q_pre.len() && (#[trigger] q_pre[j0]).stop == st;
                        assert(queue@[j0] == q_pre[j0]);
                    }
                }
            }
            li = li + 1;
        }
    }

    /// Walk the parent chain back from the chosen final stop, materialize
    /// stop names, reverse into chronological order and coalesce. The
    /// itinerary starts with the origin walk (leaving exactly at the query
    /// departure) and ends with a walk to the destination point.
    #[verifier::loop_isolation(false)]
    #[verifier::rlimit(100)]
    fn build_route(
        &self,
        settled: &mut Vec<Option<StopInfo>>,
        dest_links: &Vec<WalkLink>,
        final_stop: usize,
        arrival_ts: Timestamp,
        departure: Timestamp,
        Ghost(count_final): Ghost<int>,
    ) -> (r: Route)
        requires
            self.wf(),
            old(settled)@.len() == self.stops@.len(),
            0 <= count_final <= self.stops@.len(),
            (final_stop as int) < self.stops@.len(),
            old(settled)@[final_stop as int] is Some,
            old(settled)@[final_stop as int]->0.walk_finish == Some(arrival_ts),
            settled_ok(
                old(settled)@,
                self.stops@.len() as int,
                count_final,
                departure,
                dest_links@,
            ),
            links_wf(dest_links@, self.stops@.len() as int),
        ensures
            r.segments@.len() >= 1,
            r.departure_time == departure.time,
            r.arrival_time == arrival_ts.time,
            r.segments@[0] is Walk,
            r.segments@[0]->Walk_0.from is None,
            r.segments@[0]->Walk_0.start == departure.time,
            r.segments@.last() is Walk,
            r.segments@.last()->Walk_0.to is None,
            forall|k: int|
                0 <= k < r.segments@.len() - 1 ==> !((#[trigger] r.segments@[k]) is Walk
                    && r.segments@[k + 1] is Walk),
            old(settled)@[final_stop as int]->0.parent is None ==> r.segments@.len() == 1,
            crate::route::bus_names_from(r.segments@, stop_names(self.stops@)),
    {
        let ghost n = self.stops@.len() as int;
        let ghost orig_settled = settled@;
        let ghost solo = settled@[final_stop as int]->0.parent is None;
        let mut segments: Vec<Segment> = Vec::new();
        let f_arr = match &settled[final_stop] {
            Some(info) => info.arrival,
            None => {
                proof {
                    assert(false);
                }
                departure
            },
        };
        proof {
            assert(info_ok(settled@, final_stop as int, n, count_final, departure, dest_links@));
            lemma_link_secs_bounded(dest_links@, final_stop as int, n);
        }
        segments.push(
            Segment::Walk(
                WalkSegment {
                    from: Some(self.stops[final_stop].name.clone()),
                    to: None,
                    start: f_arr.time,
                    duration: arrival_ts.time.raw - f_arr.time.raw,
                },
            ),
        );
        proof {
            assert(crate::route::prefix_total(segments@, 0) == 0);
        }

        let mut cur: usize = final_stop;
        let mut done: bool = false;
        let mut departure_time: DayTime = departure.time;
        while !done
            invariant
                settled@.len() == n,
                !done ==> (cur as int) < n && settled@[cur as int] is Some,
                forall|i: int|
                    0 <= i < n && (#[trigger] settled@[i]) is Some ==> info_wf(
                        settled@[i]->0,
                        n,
                        count_final,
                        departure,
                    ),
                !done ==> forall|i: int|
                    0 <= i < n && (#[trigger] settled@[i]) is Some && settled@[i]->0.order
                        <= settled@[cur as int]->0.order ==> match settled@[i]->0.parent {
                        Some(p) => settled@[p as int] is Some && settled@[p as int]->0.order
                            < settled@[i]->0.order,
                        None => true,
                    },
                segments@.len() >= 1,
                segments@[0] is Walk,
                segments@[0]->Walk_0.to is None,
                forall|k: int|
                    0 <= k < segments@.len() ==> crate::route::seg_start(#[trigger] segments@[k])
                        <= 4 * RAW_LIMIT && crate::route::seg_duration(segments@[k]) <= 2
                        * RAW_LIMIT,
                crate::route::total_duration(segments@) <= 2 * RAW_LIMIT * segments@.len(),
                segments@.len() + (if done {
                    0int
                } else {
                    settled@[cur as int]->0.order + 1
                }) <= count_final + 1,
                done ==> segments@.len() >= 2,
                done ==> (segments@.last() is Walk && segments@.last()->Walk_0.from is None
                    && segments@.last()->Walk_0.start == departure.time),
                done ==> departure_time == departure.time,
                solo && !done ==> cur == final_stop && segments@.len() == 1 && settled@[cur as int]
                    == orig_settled[final_stop as int],
                solo && done ==> segments@.len() == 2 && segments@[1] is Walk,
                crate::route::bus_names_from(segments@, stop_names(self.stops@)),
            decreases (if done {
                0int
            } else {
                settled@[cur as int]->0.order + 1
            }),
        {
            let ghost settled_pre = settled@;
            let ghost segs_pre = segments@;
            let ghost cur_order = settled@[cur as int]->0.order as int;
            let info_opt = settled[cur].take();
            match info_opt {
                Some(info) => {
                    let walk_dur: u64 = match &info.segment {
                        ProtoSegment::Walk { duration, .. } => *duration,
                        ProtoSegment::Ride { duration, .. } => *duration,
                    };
                    let seg: Segment = match info.segment {
                        ProtoSegment::Walk { from, to, start, duration } => {
                            let from_name = match from {
                                Some(ix) => Some(self.stops[ix].name.clone()),
                                None => None,
                            };
                            let to_name = match to {
                                Some(ix) => Some(self.stops[ix].name.clone()),
                                None => None,
                            };
                            Segment::Walk(
                                WalkSegment { from: from_name, to: to_name, start, duration },
                            )
                        },
                        ProtoSegment::Ride { bus, typ, from_stop, to_stop, start, duration } => {
                            Segment::Bus(
                                BusSegment {
                                    bus,
                                    typ,
                                    from_stop: self.stops[from_stop].name.clone(),
                                    to_stop: self.stops[to_stop].name.clone(),
                                    start,
                                    duration,
                                },
                            )
                        },
                    };
                    segments.push(seg);
                    proof {
                        crate::route::lemma_prefix_total_same(
                            segments@,
                            segs_pre,
                            segs_pre.len() as int,
                        );
                    }
                    match info.parent {
                        Some(p) => {
                            proof {
                                if solo {
                                    assert(settled_pre[cur as int] == orig_settled[final_stop as int]);
                                    assert(false);
                                }
                                assert(settled_pre[p as int] is Some);
                                assert(settled@[p as int] is Some);
                                assert forall|i: int|
                                    0 <= i < n && (#[trigger] settled@[i]) is Some
                                        && settled@[i]->0.order <= settled@[p as int]->0.order
                                        implies match settled@[i]->0.parent {
                                    Some(pp) => settled@[pp as int] is Some && settled@[pp
                                        as int]->0.order < settled@[i]->0.order,
                                    None => true,
                                } by {
                                    assert(settled_pre[i] is Some);
                                    assert(settled@[i]->0.order < cur_order);
                                    match settled_pre[i]->0.parent {
                                        Some(pp) => {
                                            assert(settled_pre[pp as int] is Some);
                                            assert(settled_pre[pp as int]->0.order < settled_pre[i]->0.order);
                                            assert(pp != cur);
                                        },
                                        None => {},
                                    }
                                }
                            }
                            cur = p;
                        },
                        None => {
                            departure_time = info.arrival.neg_offset(walk_dur).time;
                            done = true;
                        },
                    }
                },
                None => {
                    proof {
                        assert(false);
                    }
                    done = true;
                },
            }
        }

        let ghost built = segments@;
        let mut rev: Vec<Segment> = Vec::new();
        while segments.len() > 0
            invariant
                rev@.len() + segments@.len() == built.len(),
                segments@ == built.subrange(0, segments@.len() as int),
                forall|k: int| 0 <= k < rev@.len() ==> rev@[k] == built[built.len() - 1 - k],
                forall|k: int|
                    0 <= k < rev@.len() ==> crate::route::seg_start(#[trigger] rev@[k]) <= 4
                        * RAW_LIMIT && crate::route::seg_duration(rev@[k]) <= 2 * RAW_LIMIT,
                crate::route::total_duration(rev@) <= 2 * RAW_LIMIT * rev@.len(),
                crate::route::bus_names_from(rev@, stop_names(self.stops@)),
            decreases segments@.len(),
        {
            let ghost rev_pre = rev@;
            match segments.pop() {
                Some(x) => {
                    proof {
                        assert(x == built[segments@.len() as int]);
                        assert(segments@ =~= built.subrange(0, segments@.len() as int));
                    }
                    rev.push(x);
                    proof {
                        crate::route::lemma_prefix_total_same(rev@, rev_pre, rev_pre.len() as int);
                    }
                },
                None => {
                    proof {
                        assert(false);
                    }
                },
            }
        }
        proof {
            assert(rev@.len() == built.len());
            assert(rev@[0] == built.last());
            assert(rev@.last() == built[0]);
            assert(crate::route::total_duration(rev@) + 4 * RAW_LIMIT <= u64::MAX) by {
                assert(rev@.len() <= count_final + 1);
                assert(count_final <= RAW_LIMIT);
            }
        }

        let ghost rev_seq = rev@;
        let pass1 = crate::route::coalesce_rides(rev);
        proof {
            crate::route::lemma_rides_first_walk(rev_seq, rev_seq.len() as int);
            crate::route::lemma_rides_last_walk(rev_seq);
            crate::route::lemma_rides_keep_names(rev_seq, stop_names(self.stops@), rev_seq.len() as int);
            if solo {
                assert(rev_seq.len() == 2);
                assert(rev_seq[0] is Walk && rev_seq[1] is Walk);
                assert(crate::route::coalesce_rides_from(rev_seq, 0) =~= Seq::<Segment>::empty());
                assert(crate::route::coalesce_rides_from(rev_seq, 1) =~= seq![rev_seq[0]]);
                assert(pass1@ =~= rev_seq);
            }
        }
        let ghost pass1_seq = pass1@;
        let final_segments = crate::route::coalesce_walks(pass1);
        proof {
            crate::route::lemma_walks_first_walk(pass1_seq, pass1_seq.len() as int);
            crate::route::lemma_walks_last_walk(pass1_seq);
            crate::route::lemma_walks_no_adjacent(pass1_seq, pass1_seq.len() as int);
            crate::route::lemma_walks_keep_names(pass1_seq, stop_names(self.stops@), pass1_seq.len() as int);
            if solo {
                assert(crate::route::coalesce_walks_from(pass1_seq, 0) =~= Seq::<Segment>::empty());
                assert(crate::route::coalesce_walks_from(pass1_seq, 1) =~= seq![pass1_seq[0]]);
                assert(final_segments@.len() == 1);
            }
        }

        Route { segments: final_segments, departure_time, arrival_time: arrival_ts.time }
    }

    /// Answer a journey query. `origin_links` and `dest_links` are the
    /// stops within walking reach of the origin and destination points with
    /// their walking times; `transfer_links[s]` are the stops within
    /// walking reach of stop `s`. Best-first search under the cost key
    /// (arrival plus transfer penalty, cyclically ordered from `departure`),
    /// first-settle-wins; the returned itinerary starts with a walk from
    /// the origin point leaving at the departure time and ends with a walk
    /// to the destination point. `None` when no stop is within reach of the
    /// origin or of the destination, and also when no stop within reach of
    /// the destination can be reached from the origin; always a route when
    /// one stop is within reach of both.
    #[verifier::loop_isolation(false)]
    #[verifier::rlimit(60)]
    pub fn find_route(
        &self,
        origin_links: &Vec<WalkLink>,
        dest_links: &Vec<WalkLink>,
        transfer_links: &Vec<Vec<WalkLink>>,
        departure: Timestamp,
    ) -> (r: Option<Route>)
        requires
            self.wf(),
            departure.time.raw <= RAW_LIMIT,
            links_wf(origin_links@, self.stops.len() as int),
            links_wf(dest_links@, self.stops.len() as int),
            transfer_links@.len() == self.stops@.len(),
            forall|i: int|
                0 <= i < transfer_links@.len() ==> links_wf(
                    (#[trigger] transfer_links@[i])@,
                    self.stops.len() as int,
                ),
        ensures
            origin_links@.len() == 0 ==> r is None,
            dest_links@.len() == 0 ==> r is None,
            (exists|i: int, j: int|
                0 <= i < origin_links@.len() && 0 <= j < dest_links@.len() && (
                #[trigger] origin_links@[i]).stop == (#[trigger] dest_links@[j]).stop) ==> r
                is Some,
            r is Some ==> r->0.segments@.len() >= 1,
            r is Some ==> r->0.departure_time == departure.time,
            r is Some ==> (r->0.segments@[0] is Walk && r->0.segments@[0]->Walk_0.from is None
                && r->0.segments@[0]->Walk_0.start == departure.time),
            r is Some ==> (r->0.segments@.last() is Walk && r->0.segments@.last()->Walk_0.to
                is None),
            r is Some ==> forall|k: int|
                0 <= k < r->0.segments@.len() - 1 ==> !((#[trigger] r->0.segments@[k]) is Walk
                    && r->0.segments@[k + 1] is Walk),
            ((exists|i: int, j: int|
                0 <= i < origin_links@.len() && 0 <= j < dest_links@.len() && (
                #[trigger] origin_links@[i]).stop == (#[trigger] dest_links@[j]).stop) && (forall|
                i: int,
            |
                0 <= i < self.stops@.len() ==> (#[trigger] self.stops@[i]).routes@.len() == 0))
                ==> (r is Some && r->0.segments@.len() == 1),
            r is Some ==> crate::route::bus_names_from(r->0.segments@, stop_names(self.stops@)),
    {
        let n = self.stops.len();
        let ghost hopfree = forall|i: int|
            0 <= i < self.stops@.len() ==> (#[trigger] self.stops@[i]).routes@.len() == 0;

        let mut settled: Vec<Option<StopInfo>> = Vec::new();
        let mut z: usize = 0;
        while z < n
            invariant
                z <= n,
                settled@.len() == z,
                num_settled(settled@) == 0,
                forall|i: int| 0 <= i < z ==> (#[trigger] settled@[i]) is None,
            decreases n - z,
        {
            proof {
                lemma_num_settled_push_none(settled@);
            }
            settled.push(None);
            z = z + 1;
        }

        let mut settled_count: usize = 0;
        let mut queue: Vec<HeapItem> = Vec::new();

        let mut oi: usize = 0;
        while oi < origin_links.len()
            invariant
                oi <= origin_links@.len(),
                queue@.len() == oi,
                forall|k: int| 0 <= k < oi ==> (#[trigger] queue@[k]).stop == origin_links@[k].stop,
                forall|k: int|
                    0 <= k < queue@.len() ==> (#[trigger] queue@[k]).parent is None
                        && queue@[k].segment is Walk,
                queue_ok(queue@, settled@, n as int, 0, departure),
            decreases origin_links@.len() - oi,
        {
            let link = origin_links[oi];
            let arrival = departure.offset(link.secs);
            queue.push(
                HeapItem {
                    arrival,
                    transfers: 0,
                    stop: link.stop,
                    parent: None,
                    segment: ProtoSegment::Walk {
                        from: None,
                        to: Some(link.stop),
                        start: departure.time,
                        duration: link.secs,
                    },
                },
            );
            oi = oi + 1;
        }
        proof {
            assert forall|k: int|
                0 <= k < origin_links@.len() implies (#[trigger] origin_links@[k]).stop
                < settled@.len() && (settled@[origin_links@[k].stop as int] is Some || exists|
            j: int|
                0 <= j < queue@.len() && (#[trigger] queue@[j]).stop == origin_links@[k].stop) by {
                assert(queue@[k].stop == origin_links@[k].stop);
            }
        }

        while queue.len() > 0
            invariant
                settled@.len() == n,
                settled_count <= n,
                settled_count as int == num_settled(settled@),
                settled_ok(settled@, n as int, settled_count as int, departure, dest_links@),
                queue_ok(queue@, settled@, n as int, settled_count as int, departure),
                covered(queue@, settled@, origin_links@),
                origin_links@.len() == 0 ==> queue@.len() == 0 && settled_count == 0,
                settled_count == 0 ==> forall|i: int| 0 <= i < n ==> (#[trigger] settled@[i])
                    is None,
                hopfree ==> forall|i: int|
                    0 <= i < queue@.len() ==> (#[trigger] queue@[i]).parent is None
                        && queue@[i].segment is Walk,
                hopfree ==> forall|i: int|
                    0 <= i < n && (#[trigger] settled@[i]) is Some ==> settled@[i]->0.parent
                        is None,
            decreases n - settled_count, queue.len(),
        {
            let ghost q_before_pop = queue@;
            let item = match pop_min(&mut queue, departure) {
                Some(it) => it,
                None => {
                    proof {
                        assert(false);
                    }
                    break ;
                },
            };
            let ghost item_g = item;
            let stop_idx = item.stop;
            let arrival = item.arrival;
            let transfers = item.transfers;
            let (was_ride, prev_bus): (bool, Option<String>) = match &item.segment {
                ProtoSegment::Walk { .. } => (false, None),
                ProtoSegment::Ride { bus, .. } => (true, Some(bus.clone())),
            };
            assert(was_ride == (item.segment is Ride));
            proof {
                if hopfree {
                    assert(q_before_pop.contains(item_g));
                    let qi = choose|qi: int|
                        0 <= qi < q_before_pop.len() && q_before_pop[qi] == item_g;
                    assert(q_before_pop[qi].parent is None && q_before_pop[qi].segment is Walk);
                    assert(!was_ride);
                }
            }

            let ghost settled_before = settled@;
            proof {
                lemma_link_secs_bounded(dest_links@, stop_idx as int, n as int);
            }
            let settled_now = settle_item(&mut settled, settled_count, item, dest_links);
            if settled_now {
                proof {
                    lemma_num_settled_none(settled_before, stop_idx as int);
                    let new_info = settled@[stop_idx as int]->0;
                    assert(settled@ == settled_before.update(stop_idx as int, Some(new_info)));
                    lemma_num_settled_update(settled_before, stop_idx as int, new_info);
                }
                settled_count = settled_count + 1;
                proof {
                    assert forall|i: int|
                        0 <= i < n && (#[trigger] settled@[i]) is Some implies info_ok(
                        settled@,
                        i,
                        n as int,
                        settled_count as int,
                        departure,
                        dest_links@,
                    ) by {
                        if i != stop_idx {
                            assert(settled_before[i] is Some);
                            assert(info_ok(
                                settled_before,
                                i,
                                n as int,
                                settled_count as int - 1,
                                departure,
                                dest_links@,
                            ));
                        }
                    }
                    assert(settled_ok(
                        settled@,
                        n as int,
                        settled_count as int,
                        departure,
                        dest_links@,
                    ));
                    assert forall|i: int|
                        0 <= i < queue@.len() implies item_ok(
                        #[trigger] queue@[i],
                        settled@,
                        n as int,
                        settled_count as int,
                        departure,
                    ) by {
                        assert(q_before_pop.contains(queue@[i]));
                    }
                    assert forall|k: int|
                        0 <= k < origin_links@.len() implies (#[trigger] origin_links@[k]).stop
                        < settled@.len() && (settled@[origin_links@[k].stop as int] is Some
                        || exists|j: int|
                        0 <= j < queue@.len() && (#[trigger] queue@[j]).stop
                            == origin_links@[k].stop) by {
                        let st = origin_links@[k].stop;
                        if settled_before[st as int] is None && st != stop_idx {
                            let j0 = choose|j0: int|
                                0 <= j0 < q_before_pop.len() && (#[trigger] q_before_pop[j0]).stop
                                    == st;
                            assert(exists|j: int|
                                0 <= j < queue@.len() && (#[trigger] queue@[j]).stop == st);
                        }
                    }
                    if hopfree {
                        assert forall|i: int|
                            0 <= i < queue@.len() implies (#[trigger] queue@[i]).parent is None
                            && queue@[i].segment is Walk by {
                            assert(q_before_pop.contains(queue@[i]));
                            let qi = choose|qi: int|
                                0 <= qi < q_before_pop.len() && q_before_pop[qi] == queue@[i];
                            assert(q_before_pop[qi].parent is None);
                        }
                        assert forall|i: int|
                            0 <= i < n && (#[trigger] settled@[i]) is Some
                                implies settled@[i]->0.parent is None by {
                            if i == stop_idx {
                                assert(settled@[i]->0.parent == item_g.parent);
                            } else {
                                assert(settled_before[i] is Some);
                            }
                        }
                    }
                }
                let ghost q_pre_expand = queue@;
                self.expand_rides(
                    &mut queue,
                    &settled,
                    origin_links,
                    stop_idx,
                    arrival,
                    transfers,
                    &prev_bus,
                    settled_count,
                    departure,
                );
                proof {
                    if hopfree {
                        assert(self.stops@[stop_idx as int].routes@.len() == 0);
                        assert(rides_enqueued(
                            self.stops@[stop_idx as int].routes@,
                            prev_bus,
                            arrival,
                            transfers,
                            stop_idx,
                            0,
                        ) =~= Seq::<HeapItem>::empty());
                        assert(queue@ =~= q_pre_expand);
                    }
                }
                if was_ride {
                    let wl = &transfer_links[stop_idx];
                    self.expand_walks(
                        &mut queue,
                        &settled,
                        origin_links,
                        wl,
                        stop_idx,
                        arrival,
                        transfers,
                        settled_count,
                        departure,
                    );
                }
            } else {
                proof {
                    assert(settled@ == settled_before);
                    assert forall|i: int|
                        0 <= i < queue@.len() implies item_ok(
                        #[trigger] queue@[i],
                        settled@,
                        n as int,
                        settled_count as int,
                        departure,
                    ) by {
                        assert(q_before_pop.contains(queue@[i]));
                    }
                    assert forall|k: int|
                        0 <= k < origin_links@.len() implies (#[trigger] origin_links@[k]).stop
                        < settled@.len() && (settled@[origin_links@[k].stop as int] is Some
                        || exists|j: int|
                        0 <= j < queue@.len() && (#[trigger] queue@[j]).stop
                            == origin_links@[k].stop) by {
                        let st = origin_links@[k].stop;
                        if settled@[st as int] is None && st != stop_idx {
                            let j0 = choose|j0: int|
                                0 <= j0 < q_before_pop.len() && (#[trigger] q_before_pop[j0]).stop
                                    == st;
                            assert(exists|j: int|
                                0 <= j < queue@.len() && (#[trigger] queue@[j]).stop == st);
                        }
                    }
                    if hopfree {
                        assert forall|i: int|
                            0 <= i < queue@.len() implies (#[trigger] queue@[i]).parent is None
                            && queue@[i].segment is Walk by {
                            assert(q_before_pop.contains(queue@[i]));
                            let qi = choose|qi: int|
                                0 <= qi < q_before_pop.len() && q_before_pop[qi] == queue@[i];
                            assert(q_before_pop[qi].parent is None);
                        }
                    }
                }
            }
        }

        proof {
            assert forall|i: int|
                0 <= i < settled@.len() && (#[trigger] settled@[i]) is Some implies settled@[i]->0.transfers
                <= RAW_LIMIT && (settled@[i]->0.walk_finish matches Some(w) ==> w.time.raw <= 4
                * RAW_LIMIT) by {
                assert(info_ok(
                    settled@,
                    i,
                    n as int,
                    settled_count as int,
                    departure,
                    dest_links@,
                ));
            }
        }
        let best = select_final(&settled, departure);
        match best {
            Some((final_stop, arrival_ts, _best_t)) => {
                proof {
                    assert(info_ok(
                        settled@,
                        final_stop as int,
                        n as int,
                        settled_count as int,
                        departure,
                        dest_links@,
                    ));
                    if dest_links@.len() == 0 {
                        assert(spec_link_secs(dest_links@, final_stop as int) is None);
                        assert(false);
                    }
                    if origin_links@.len() == 0 {
                        assert(settled@[final_stop as int] is None);
                        assert(false);
                    }
                }
                let route = self.build_route(
                    &mut settled,
                    dest_links,
                    final_stop,
                    arrival_ts,
                    departure,
                    Ghost(settled_count as int),
                );
                Some(route)
            },
            None => {
                proof {
                    if exists|i: int, j: int|
                        0 <= i < origin_links@.len() && 0 <= j < dest_links@.len() && (
                        #[trigger] origin_links@[i]).stop == (#[trigger] dest_links@[j]).stop {
                        let (i, j) = choose|i: int, j: int|
                            0 <= i < origin_links@.len() && 0 <= j < dest_links@.len() && (
                            #[trigger] origin_links@[i]).stop == (#[trigger] dest_links@[j]).stop;
                        let st = origin_links@[i].stop;
                        assert(settled@[st as int] is Some);
                        lemma_linked_stop_has_secs(dest_links@, st as int, j);
                        assert(info_ok(
                            settled@,
                            st as int,
                            n as int,
                            settled_count as int,
                            departure,
                            dest_links@,
                        ));
                        assert(false);
                    }
                }
                None
            },
        }
    }
}

} // verus!
