//! Finished itineraries and their post-processing: merging chains of
//! same-bus hops into single ride segments and merging adjacent walks.

use vstd::prelude::*;
use crate::time::DayTime;
use crate::model::TransportType;
use crate::RAW_LIMIT;

verus! {

/// An itinerary step on foot. `from`/`to` carry stop names, or `None` for
/// the query's raw origin or destination point.
pub struct WalkSegment {
    pub from: Option<String>,
    pub to: Option<String>,
    pub start: DayTime,
    pub duration: u64,
}

/// An itinerary step on a vehicle, between two named stops.
pub struct BusSegment {
    pub bus: String,
    pub typ: TransportType,
    pub from_stop: String,
    pub to_stop: String,
    pub start: DayTime,
    pub duration: u64,
}

/// One step of a finished itinerary.
pub enum Segment {
    Walk(WalkSegment),
    Bus(BusSegment),
}

/// A finished itinerary: chronologically ordered segments with the overall
/// departure and arrival times of day.
pub struct Route {
    pub segments: Vec<Segment>,
    pub departure_time: DayTime,
    pub arrival_time: DayTime,
}

/// A segment's duration in seconds.
pub open spec fn seg_duration(g: Segment) -> int {
    match g {
        Segment::Walk(w) => w.duration as int,
        Segment::Bus(b) => b.duration as int,
    }
}

/// A segment's starting time of day, as raw seconds.
pub open spec fn seg_start(g: Segment) -> int {
    match g {
        Segment::Walk(w) => w.start.raw as int,
        Segment::Bus(b) => b.start.raw as int,
    }
}

/// The total duration of the first `i` segments.
pub open spec fn prefix_total(s: Seq<Segment>, i: int) -> int
    decreases i,
{
    if i <= 0 {
        0
    } else {
        prefix_total(s, i - 1) + seg_duration(s[i - 1])
    }
}

/// The total duration of all segments.
pub open spec fn total_duration(s: Seq<Segment>) -> int {
    prefix_total(s, s.len() as int)
}

pub proof fn lemma_prefix_total_nonneg(s: Seq<Segment>, i: int)
    ensures
        prefix_total(s, i) >= 0,
    decreases i,
{
    if i > 0 {
        lemma_prefix_total_nonneg(s, i - 1);
    }
}

/// Sequences that agree on their first `i` elements have the same prefix
/// total there.
pub proof fn lemma_prefix_total_same(a: Seq<Segment>, b: Seq<Segment>, i: int)
    requires
        i <= a.len(),
        i <= b.len(),
        forall|k: int| 0 <= k < i ==> a[k] == b[k],
    ensures
        prefix_total(a, i) == prefix_total(b, i),
    decreases i,
{
    if i > 0 {
        lemma_prefix_total_same(a, b, i - 1);
    }
}

/// Each segment's duration is at most any prefix total that covers it.
pub proof fn lemma_elem_le_prefix(s: Seq<Segment>, i: int, j: int)
    requires
        0 <= i < j <= s.len(),
    ensures
        seg_duration(s[i]) <= prefix_total(s, j),
    decreases j,
{
    if i == j - 1 {
        lemma_prefix_total_nonneg(s, i);
    } else {
        lemma_elem_le_prefix(s, i, j - 1);
    }
}

/// May two adjacent segments be merged into one ride: both rides of the
/// same bus, the second departing exactly when the first ends.
pub open spec fn can_merge_ride(a: Segment, b: Segment) -> bool {
    &&& a is Bus
    &&& b is Bus
    &&& a->Bus_0.bus@ == b->Bus_0.bus@
    &&& a->Bus_0.start.raw + a->Bus_0.duration == b->Bus_0.start.raw
}

/// The single ride that stands for two mergeable adjacent rides.
pub open spec fn merged_ride(a: Segment, b: Segment) -> Segment {
    Segment::Bus(
        BusSegment {
            bus: a->Bus_0.bus,
            typ: a->Bus_0.typ,
            from_stop: a->Bus_0.from_stop,
            to_stop: b->Bus_0.to_stop,
            start: a->Bus_0.start,
            duration: (a->Bus_0.duration + b->Bus_0.duration) as u64,
        },
    )
}

/// One step of the ride-merging pass: `x` either merges into the last kept
/// segment or is appended.
pub open spec fn rides_step(acc: Seq<Segment>, x: Segment) -> Seq<Segment> {
    if acc.len() > 0 && can_merge_ride(acc.last(), x) {
        acc.drop_last().push(merged_ride(acc.last(), x))
    } else {
        acc.push(x)
    }
}

/// The ride-merging pass over the first `i` segments.
pub open spec fn coalesce_rides_from(s: Seq<Segment>, i: int) -> Seq<Segment>
    decreases i,
{
    if i <= 0 {
        Seq::empty()
    } else {
        rides_step(coalesce_rides_from(s, i - 1), s[i - 1])
    }
}

/// The ride-merging pass: adjacent same-bus rides with no layover become
/// one ride whose duration is the sum and whose destination is the later
/// ride's.
pub open spec fn spec_coalesce_rides(s: Seq<Segment>) -> Seq<Segment> {
    coalesce_rides_from(s, s.len() as int)
}

/// The single walk that stands for two adjacent walks.
pub open spec fn merged_walk(a: Segment, b: Segment) -> Segment {
    Segment::Walk(
        WalkSegment {
            from: a->Walk_0.from,
            to: b->Walk_0.to,
            start: a->Walk_0.start,
            duration: (a->Walk_0.duration + b->Walk_0.duration) as u64,
        },
    )
}

/// One step of the walk-merging pass: adjacent walks always merge.
pub open spec fn walks_step(acc: Seq<Segment>, x: Segment) -> Seq<Segment> {
    if acc.len() > 0 && acc.last() is Walk && x is Walk {
        acc.drop_last().push(merged_walk(acc.last(), x))
    } else {
        acc.push(x)
    }
}

/// The walk-merging pass over the first `i` segments.
pub open spec fn coalesce_walks_from(s: Seq<Segment>, i: int) -> Seq<Segment>
    decreases i,
{
    if i <= 0 {
        Seq::empty()
    } else {
        walks_step(coalesce_walks_from(s, i - 1), s[i - 1])
    }
}

/// The walk-merging pass: any two adjacent walks become one, keeping the
/// first's origin and start and the second's destination.
pub open spec fn spec_coalesce_walks(s: Seq<Segment>) -> Seq<Segment> {
    coalesce_walks_from(s, s.len() as int)
}

/// Merge every chain of adjacent same-bus no-layover rides into a single
/// ride segment.
#[verifier::loop_isolation(false)]
pub fn coalesce_rides(segments: Vec<Segment>) -> (r: Vec<Segment>)
    requires
        total_duration(segments@) + 4 * RAW_LIMIT <= u64::MAX,
        forall|i: int| 0 <= i < segments@.len() ==> seg_start(#[trigger] segments@[i]) <= 4
            * RAW_LIMIT,
    ensures
        r@ == spec_coalesce_rides(segments@),
        total_duration(r@) <= total_duration(segments@),
        forall|i: int| 0 <= i < r@.len() ==> seg_start(#[trigger] r@[i]) <= 4 * RAW_LIMIT,
{
    let ghost orig = segments@;
    let mut rest = segments;
    proof {
        assert(orig.len() <= usize::MAX) by {
            assert(orig.len() == rest.len());
        }
    }
    let mut result: Vec<Segment> = Vec::new();
    let mut i: usize = 0;
    while rest.len() > 0
        invariant
            orig.len() <= usize::MAX,
            i + rest@.len() == orig.len(),
            rest@ == orig.subrange(i as int, orig.len() as int),
            result@ == coalesce_rides_from(orig, i as int),
            total_duration(result@) <= prefix_total(orig, i as int),
            forall|k: int| 0 <= k < result@.len() ==> seg_start(#[trigger] result@[k]) <= 4
                * RAW_LIMIT,
        decreases rest.len(),
    {
        let x = rest.remove(0);
        assert(x == orig[i as int]);
        proof {
            lemma_prefix_total_nonneg(orig, i as int);
            lemma_prefix_total_nonneg(orig, orig.len() as int);
            assert(prefix_total(orig, i as int + 1) <= total_duration(orig)) by {
                lemma_prefix_mono(orig, i as int + 1, orig.len() as int);
            }
        }
        let mergeable: bool = if result.len() > 0 {
            let last_i = result.len() - 1;
            match (&result[last_i], &x) {
                (Segment::Bus(a), Segment::Bus(b)) => {
                    proof {
                        lemma_elem_le_prefix(result@, last_i as int, result@.len() as int);
                        lemma_prefix_total_same(result@, result@, result@.len() as int);
                    }
                    a.bus == b.bus && a.start.raw + a.duration == b.start.raw
                },
                _ => false,
            }
        } else {
            false
        };
        let ghost pre = result@;
        if mergeable {
            match (result.pop(), x) {
                (Some(Segment::Bus(a)), Segment::Bus(b)) => {
                    proof {
                        lemma_elem_le_prefix(pre, pre.len() - 1, pre.len() as int);
                    }
                    let merged = Segment::Bus(
                        BusSegment {
                            bus: a.bus,
                            typ: a.typ,
                            from_stop: a.from_stop,
                            to_stop: b.to_stop,
                            start: a.start,
                            duration: a.duration + b.duration,
                        },
                    );
                    result.push(merged);
                    proof {
                        assert(result@ =~= rides_step(pre, orig[i as int]));
                        lemma_prefix_total_same(result@, pre, pre.len() - 1);
                        assert(total_duration(result@) == prefix_total(result@, pre.len() - 1)
                            + seg_duration(result@.last()));
                        assert(total_duration(pre) == prefix_total(pre, pre.len() - 1)
                            + seg_duration(pre.last()));
                    }
                },
                (popped, other) => {
                    proof {
                        assert(false);
                    }
                    if let Some(p) = popped {
                        result.push(p);
                    }
                    result.push(other);
                },
            }
        } else {
            result.push(x);
            proof {
                assert(result@ =~= rides_step(pre, orig[i as int]));
                lemma_prefix_total_same(result@, pre, pre.len() as int);
                assert(total_duration(result@) == prefix_total(result@, pre.len() as int)
                    + seg_duration(result@.last()));
            }
        }
        i = i + 1;
    }
    proof {
        assert(rest@ =~= Seq::<Segment>::empty());
        assert(i == orig.len());
    }
    result
}

/// Merge every pair of adjacent walk segments into one walk.
#[verifier::loop_isolation(false)]
pub fn coalesce_walks(segments: Vec<Segment>) -> (r: Vec<Segment>)
    requires
        total_duration(segments@) <= u64::MAX,
    ensures
        r@ == spec_coalesce_walks(segments@),
        total_duration(r@) <= total_duration(segments@),
{
    let ghost orig = segments@;
    let mut rest = segments;
    proof {
        assert(orig.len() <= usize::MAX) by {
            assert(orig.len() == rest.len());
        }
    }
    let mut result: Vec<Segment> = Vec::new();
    let mut i: usize = 0;
    while rest.len() > 0
        invariant
            orig.len() <= usize::MAX,
            i + rest@.len() == orig.len(),
            rest@ == orig.subrange(i as int, orig.len() as int),
            result@ == coalesce_walks_from(orig, i as int),
            total_duration(result@) <= prefix_total(orig, i as int),
        decreases rest.len(),
    {
        let x = rest.remove(0);
        assert(x == orig[i as int]);
        proof {
            lemma_prefix_total_nonneg(orig, i as int);
            lemma_prefix_mono(orig, i as int + 1, orig.len() as int);
        }
        let mergeable: bool = if result.len() > 0 {
            let last_i = result.len() - 1;
            match (&result[last_i], &x) {
                (Segment::Walk(_), Segment::Walk(_)) => true,
                _ => false,
            }
        } else {
            false
        };
        let ghost pre = result@;
        if mergeable {
            match (result.pop(), x) {
                (Some(Segment::Walk(a)), Segment::Walk(b)) => {
                    proof {
                        lemma_elem_le_prefix(pre, pre.len() - 1, pre.len() as int);
                    }
                    let merged = Segment::Walk(
                        WalkSegment {
                            from: a.from,
                            to: b.to,
                            start: a.start,
                            duration: a.duration + b.duration,
                        },
                    );
                    result.push(merged);
                    proof {
                        assert(result@ =~= walks_step(pre, orig[i as int]));
                        lemma_prefix_total_same(result@, pre, pre.len() - 1);
                        assert(total_duration(result@) == prefix_total(result@, pre.len() - 1)
                            + seg_duration(result@.last()));
                        assert(total_duration(pre) == prefix_total(pre, pre.len() - 1)
                            + seg_duration(pre.last()));
                    }
                },
                (popped, other) => {
                    proof {
                        assert(false);
                    }
                    if let Some(p) = popped {
                        result.push(p);
                    }
                    result.push(other);
                },
            }
        } else {
            result.push(x);
            proof {
                assert(result@ =~= walks_step(pre, orig[i as int]));
                lemma_prefix_total_same(result@, pre, pre.len() as int);
                assert(total_duration(result@) == prefix_total(result@, pre.len() as int)
                    + seg_duration(result@.last()));
            }
        }
        i = i + 1;
    }
    proof {
        assert(rest@ =~= Seq::<Segment>::empty());
        assert(i == orig.len());
    }
    result
}

/// Prefix totals grow with the prefix.
pub proof fn lemma_prefix_mono(s: Seq<Segment>, i: int, j: int)
    requires
        0 <= i <= j,
    ensures
        prefix_total(s, i) <= prefix_total(s, j),
    decreases j,
{
    if i < j {
        lemma_prefix_mono(s, i, j - 1);
    }
}

/// The ride-merging pass leaves a leading walk segment exactly in place.
pub proof fn lemma_rides_first_walk(s: Seq<Segment>, i: int)
    requires
        1 <= i <= s.len(),
        s[0] is Walk,
    ensures
        coalesce_rides_from(s, i).len() >= 1,
        coalesce_rides_from(s, i)[0] == s[0],
    decreases i,
{
    if i > 1 {
        lemma_rides_first_walk(s, i - 1);
        let acc = coalesce_rides_from(s, i - 1);
        let res = coalesce_rides_from(s, i);
        if acc.len() > 0 && can_merge_ride(acc.last(), s[i - 1]) {
            if acc.len() == 1 {
                assert(acc.last() == acc[0]);
            }
            assert(res[0] == acc.drop_last()[0]);
        }
    } else {
        assert(coalesce_rides_from(s, 0) =~= Seq::<Segment>::empty());
    }
}

/// The ride-merging pass leaves a trailing walk segment exactly in place.
pub proof fn lemma_rides_last_walk(s: Seq<Segment>)
    requires
        s.len() >= 1,
        s.last() is Walk,
    ensures
        spec_coalesce_rides(s).len() >= 1,
        spec_coalesce_rides(s).last() == s.last(),
{
}

/// The walk-merging pass keeps the first segment a walk, with the starting
/// point and start time it had before the pass.
pub proof fn lemma_walks_first_walk(s: Seq<Segment>, i: int)
    requires
        1 <= i <= s.len(),
        s[0] is Walk,
    ensures
        coalesce_walks_from(s, i).len() >= 1,
        coalesce_walks_from(s, i)[0] is Walk,
        coalesce_walks_from(s, i)[0]->Walk_0.from == s[0]->Walk_0.from,
        coalesce_walks_from(s, i)[0]->Walk_0.start == s[0]->Walk_0.start,
    decreases i,
{
    if i > 1 {
        lemma_walks_first_walk(s, i - 1);
        let acc = coalesce_walks_from(s, i - 1);
        let res = coalesce_walks_from(s, i);
        if acc.len() > 0 && acc.last() is Walk && s[i - 1] is Walk {
            if acc.len() == 1 {
                assert(acc.last() == acc[0]);
                assert(res[0] == merged_walk(acc[0], s[i - 1]));
            } else {
                assert(res[0] == acc.drop_last()[0]);
            }
        }
    } else {
        assert(coalesce_walks_from(s, 0) =~= Seq::<Segment>::empty());
    }
}

/// The walk-merging pass keeps the last segment a walk, with the endpoint
/// it had before the pass.
pub proof fn lemma_walks_last_walk(s: Seq<Segment>)
    requires
        s.len() >= 1,
        s.last() is Walk,
    ensures
        spec_coalesce_walks(s).len() >= 1,
        spec_coalesce_walks(s).last() is Walk,
        spec_coalesce_walks(s).last()->Walk_0.to == s.last()->Walk_0.to,
{
}


/// No two adjacent walk segments survive the walk-merging pass.
pub proof fn lemma_walks_no_adjacent(s: Seq<Segment>, i: int)
    requires
        0 <= i <= s.len(),
    ensures
        forall|k: int|
            0 <= k < coalesce_walks_from(s, i).len() - 1 ==> !((#[trigger] coalesce_walks_from(
                s,
                i,
            )[k]) is Walk && coalesce_walks_from(s, i)[k + 1] is Walk),
    decreases i,
{
    if i > 0 {
        lemma_walks_no_adjacent(s, i - 1);
        let acc = coalesce_walks_from(s, i - 1);
        let res = coalesce_walks_from(s, i);
        if acc.len() > 0 && acc.last() is Walk && s[i - 1] is Walk {
            assert forall|k: int| 0 <= k < res.len() - 1 implies !((#[trigger] res[k]) is Walk
                && res[k + 1] is Walk) by {
                if k < res.len() - 2 {
                    assert(res[k] == acc[k]);
                    assert(res[k + 1] == acc[k + 1]);
                } else {
                    assert(res[k] == acc[k]);
                    assert(res[k + 1] == merged_walk(acc.last(), s[i - 1]));
                    assert(acc[k + 1] == acc.last());
                    assert(!(acc[k] is Walk && acc[k + 1] is Walk));
                }
            }
        } else {
            assert forall|k: int| 0 <= k < res.len() - 1 implies !((#[trigger] res[k]) is Walk
                && res[k + 1] is Walk) by {
                if k < res.len() - 2 {
                    assert(res[k] == acc[k]);
                    assert(res[k + 1] == acc[k + 1]);
                } else {
                    assert(res[k] == acc[k]);
                    assert(res[k + 1] == s[i - 1]);
                    if acc.len() > 0 {
                        assert(res[k] == acc.last());
                    }
                }
            }
        }
    }
}


/// Every ride segment's endpoints are drawn from `names`.
pub open spec fn bus_names_from(s: Seq<Segment>, names: Set<Seq<char>>) -> bool {
    forall|k: int|
        0 <= k < s.len() && (#[trigger] s[k]) is Bus ==> names.contains(s[k]->Bus_0.from_stop@)
            && names.contains(s[k]->Bus_0.to_stop@)
}

/// The ride-merging pass keeps every ride endpoint drawn from `names`.
pub proof fn lemma_rides_keep_names(s: Seq<Segment>, names: Set<Seq<char>>, i: int)
    requires
        0 <= i <= s.len(),
        bus_names_from(s, names),
    ensures
        bus_names_from(coalesce_rides_from(s, i), names),
    decreases i,
{
    if i > 0 {
        lemma_rides_keep_names(s, names, i - 1);
        let acc = coalesce_rides_from(s, i - 1);
        let res = coalesce_rides_from(s, i);
        assert forall|k: int| 0 <= k < res.len() && (#[trigger] res[k]) is Bus implies
            names.contains(res[k]->Bus_0.from_stop@) && names.contains(res[k]->Bus_0.to_stop@) by {
            if acc.len() > 0 && can_merge_ride(acc.last(), s[i - 1]) {
                if k < res.len() - 1 {
                    assert(res[k] == acc[k]);
                } else {
                    assert(res[k] == merged_ride(acc.last(), s[i - 1]));
                    assert(acc.last() == acc[acc.len() - 1]);
                }
            } else {
                if k < res.len() - 1 {
                    assert(res[k] == acc[k]);
                } else {
                    assert(res[k] == s[i - 1]);
                }
            }
        }
    }
}

/// The walk-merging pass keeps every ride endpoint drawn from `names`.
pub proof fn lemma_walks_keep_names(s: Seq<Segment>, names: Set<Seq<char>>, i: int)
    requires
        0 <= i <= s.len(),
        bus_names_from(s, names),
    ensures
        bus_names_from(coalesce_walks_from(s, i), names),
    decreases i,
{
    if i > 0 {
        lemma_walks_keep_names(s, names, i - 1);
        let acc = coalesce_walks_from(s, i - 1);
        let res = coalesce_walks_from(s, i);
        assert forall|k: int| 0 <= k < res.len() && (#[trigger] res[k]) is Bus implies
            names.contains(res[k]->Bus_0.from_stop@) && names.contains(res[k]->Bus_0.to_stop@) by {
            if acc.len() > 0 && acc.last() is Walk && s[i - 1] is Walk {
                if k < res.len() - 1 {
                    assert(res[k] == acc[k]);
                } else {
                    assert(res[k] == merged_walk(acc.last(), s[i - 1]));
                }
            } else {
                if k < res.len() - 1 {
                    assert(res[k] == acc[k]);
                } else {
                    assert(res[k] == s[i - 1]);
                }
            }
        }
    }
}

} // verus!
