//! Shortest-route planning: of all the routes from a departure stop to a target that
//! board at or after the departure time on the day of departure (and may go on into the
//! day after), change journey only at stops where a change is possible and at most `MAX_CONNECTIONS` times,
//! and pass no stop twice, find one that arrives earliest.
use std::collections::HashSet;
use vstd::prelude::*;

use crate::models::{following_day, time_before, Date, JourneyRouteEntry, Time};
use crate::routing::{
    section_entries_spec,
    section_showable,
    sections_chained,
    Hrdf,
    Node,
    RouteSection,
};
use crate::storage::{find_position, lemma_position, operates_on, position, DataStorage};

verus! {

broadcast use vstd::std_specs::hash::group_hash_axioms;

/// A planned route changes journey at most this many times.
pub const MAX_CONNECTIONS: usize = 5;

/// The minutes in a day.
pub const MINUTES_PER_DAY: i64 = 1440;

/// What a journey is planned for.
#[derive(Clone, Copy, Debug, PartialEq, Eq, Structural)]
pub struct PlanRequest {
    pub departure_stop_id: i32,
    pub target_arrival_stop_id: i32,
    pub departure_date: Date,
    pub departure_time: Time,
}

/// One stretch of a route, ridden on one journey: the journey's position in the storage,
/// the day it runs on (0 for the day of departure, 1 for the day after), and the
/// positions on its route where it is boarded and left.
pub struct Leg {
    pub day: int,
    pub journey: int,
    pub board: int,
    pub alight: int,
}

/// A time of day in minutes.
pub open spec fn minutes(t: Time) -> int {
    t.hour as int * 60 + t.minute as int
}

/// The date of day `day` of the request.
pub open spec fn day_date(q: PlanRequest, day: int) -> Option<Date> {
    if day == 0 {
        Some(q.departure_date)
    } else {
        following_day(q.departure_date)
    }
}

/// The route of the journey of a leg.
pub open spec fn leg_route(s: DataStorage, l: Leg) -> Seq<JourneyRouteEntry> {
    s.journeys@[l.journey].route@
}

pub open spec fn board_stop(s: DataStorage, l: Leg) -> i32 {
    leg_route(s, l)[l.board].stop_id
}

pub open spec fn alight_stop(s: DataStorage, l: Leg) -> i32 {
    leg_route(s, l)[l.alight].stop_id
}

/// When the leg departs, in minutes from the start of the day of departure.
pub open spec fn leg_departure(s: DataStorage, l: Leg) -> int {
    minutes(leg_route(s, l)[l.board].departure_time->0) + 1440 * l.day
}

/// When the leg arrives, in minutes from the start of the day of departure.
pub open spec fn leg_arrival(s: DataStorage, l: Leg) -> int {
    minutes(leg_route(s, l)[l.alight].arrival_time->0) + 1440 * l.day
}

/// The stop at position `k` of the route was served before.
pub open spec fn repeats_at(route: Seq<JourneyRouteEntry>, k: int) -> bool {
    exists|i: int| 0 <= i < k && route[i].stop_id == route[k].stop_id
}

/// The route serves no stop twice up to position `a`: a journey is followed no further
/// than where it comes back to a stop it served before.
pub open spec fn no_loop_until(route: Seq<JourneyRouteEntry>, a: int) -> bool {
    forall|k: int| 0 <= k <= a ==> !#[trigger] repeats_at(route, k)
}

/// The leg rides a journey of the storage that runs on its day, forward from a stop with
/// a departure time to a later stop with an arrival time, before the journey loops.
pub open spec fn leg_valid(s: DataStorage, q: PlanRequest, l: Leg) -> bool {
    let route = leg_route(s, l);
    &&& 0 <= l.journey < s.journeys.len()
    &&& (l.day == 0 || l.day == 1)
    &&& day_date(q, l.day) matches Some(d) && operates_on(s.journeys@[l.journey], d)
    &&& 0 <= l.board < l.alight < route.len()
    &&& route[l.board].departure_time is Some
    &&& route[l.alight].arrival_time is Some
    &&& no_loop_until(route, l.alight)
}

/// The stops that a leg passes after its boarding stop, up to and including the one where
/// it is left.
pub open spec fn leg_stops(s: DataStorage, l: Leg) -> Seq<i32> {
    Seq::new((l.alight - l.board) as nat, |i: int| leg_route(s, l)[l.board + 1 + i].stop_id)
}

/// The stops that a route passes, from its departure stop on.
pub open spec fn stops_of(s: DataStorage, departure_stop_id: i32, legs: Seq<Leg>) -> Seq<i32>
    decreases legs.len(),
{
    if legs.len() == 0 {
        seq![departure_stop_id]
    } else {
        stops_of(s, departure_stop_id, legs.drop_last()) + leg_stops(s, legs.last())
    }
}

/// A change of journey is possible at the stop.
pub open spec fn change_allowed(s: DataStorage, stop: i32) -> bool {
    s.has_stop(stop) && s.stop_of(stop).transfer_flag != 0
}

/// The legs follow one another: the first rides a journey of the day of departure and
/// boards at the departure stop no earlier than the departure time, and each later one boards where the one before it is left, no
/// earlier than it arrives there, at a stop where a change is possible.
pub open spec fn legs_chained(s: DataStorage, q: PlanRequest, legs: Seq<Leg>) -> bool {
    &&& forall|k: int| 0 <= k < legs.len() ==> leg_valid(s, q, #[trigger] legs[k])
    &&& legs.len() > 0 ==> legs[0].day == 0 && board_stop(s, legs[0]) == q.departure_stop_id
        && leg_departure(s, legs[0]) >= minutes(q.departure_time)
    &&& forall|k: int|
        0 < k < legs.len() ==> {
            &&& board_stop(s, #[trigger] legs[k]) == alight_stop(s, legs[k - 1])
            &&& leg_departure(s, legs[k]) >= leg_arrival(s, legs[k - 1])
            &&& change_allowed(s, board_stop(s, legs[k]))
        }
}

/// The start of a route: chained legs, at most `MAX_CONNECTIONS` changes, no stop twice.
pub open spec fn partial_route(s: DataStorage, q: PlanRequest, legs: Seq<Leg>) -> bool {
    &&& legs.len() <= MAX_CONNECTIONS + 1
    &&& legs_chained(s, q, legs)
    &&& stops_of(s, q.departure_stop_id, legs).no_duplicates()
}

/// A route that the request can take: a start of a route whose last leg is left at the
/// target.
pub open spec fn feasible_route(s: DataStorage, q: PlanRequest, legs: Seq<Leg>) -> bool {
    &&& legs.len() > 0
    &&& partial_route(s, q, legs)
    &&& alight_stop(s, legs.last()) == q.target_arrival_stop_id
}

/// When a route arrives, in minutes from the start of the day of departure.
pub open spec fn route_arrival(s: DataStorage, legs: Seq<Leg>) -> int {
    leg_arrival(s, legs.last())
}

/// The section of a leg.
pub open spec fn leg_section(s: DataStorage, l: Leg) -> RouteSection {
    RouteSection {
        journey_id: s.journeys@[l.journey].id,
        departure_stop_id: board_stop(s, l),
        arrival_stop_id: alight_stop(s, l),
    }
}

/// The sections of a route.
pub open spec fn sections_of(s: DataStorage, legs: Seq<Leg>) -> Seq<RouteSection> {
    legs.map_values(|l: Leg| leg_section(s, l))
}

// ------------------------------------------------------------------------------------------------
// --- Facts on routes
// ------------------------------------------------------------------------------------------------

proof fn lemma_no_duplicates_concat(a: Seq<i32>, b: Seq<i32>)
    requires
        a.no_duplicates(),
        b.no_duplicates(),
        forall|k: int| 0 <= k < b.len() ==> !a.contains(#[trigger] b[k]),
    ensures
        (a + b).no_duplicates(),
{
    let c = a + b;
    assert forall|i: int, j: int| 0 <= i < c.len() && 0 <= j < c.len() && i != j implies c[i]
        != c[j] by {
        if i < a.len() && j >= a.len() {
            assert(!a.contains(b[j - a.len()]));
            assert(a[i] == c[i]);
        } else if j < a.len() && i >= a.len() {
            assert(!a.contains(b[i - a.len()]));
            assert(a[j] == c[j]);
        } else if i >= a.len() && j >= a.len() {
            assert(b[i - a.len()] != b[j - a.len()]);
        }
    }
}

proof fn lemma_no_duplicates_split(a: Seq<i32>, b: Seq<i32>)
    requires
        (a + b).no_duplicates(),
    ensures
        a.no_duplicates(),
        forall|k: int| 0 <= k < b.len() ==> !a.contains(#[trigger] b[k]),
{
    let c = a + b;
    assert forall|i: int, j: int| 0 <= i < a.len() && 0 <= j < a.len() && i != j implies a[i]
        != a[j] by {
        assert(c[i] == a[i] && c[j] == a[j]);
    }
    assert forall|k: int| 0 <= k < b.len() implies !a.contains(#[trigger] b[k]) by {
        if a.contains(b[k]) {
            let i = choose|i: int| 0 <= i < a.len() && a[i] == b[k];
            assert(c[i] == c[a.len() + k]);
        }
    }
}

/// The stops of the start of a route are the first of the stops of the route.
proof fn lemma_stops_prefix(s: DataStorage, dep: i32, legs: Seq<Leg>, n: int)
    requires
        0 <= n <= legs.len(),
    ensures
        stops_of(s, dep, legs.take(n)).len() <= stops_of(s, dep, legs).len(),
        stops_of(s, dep, legs).take(stops_of(s, dep, legs.take(n)).len() as int) == stops_of(
            s,
            dep,
            legs.take(n),
        ),
    decreases legs.len(),
{
    if n == legs.len() {
        assert(legs.take(n) =~= legs);
    } else {
        let d = legs.drop_last();
        assert(legs.take(n) =~= d.take(n));
        lemma_stops_prefix(s, dep, d, n);
        let a = stops_of(s, dep, d);
        let whole = a + leg_stops(s, legs.last());
        assert(stops_of(s, dep, legs) == whole);
        let m = stops_of(s, dep, d.take(n)).len() as int;
        assert(whole.take(m) =~= a.take(m));
    }
}

/// The leg fits after the start `prefix`: it is valid, boards where `prefix` ends no
/// earlier than it arrives there (at a stop where a change is possible, unless it is the
/// first leg), and passes none of the stops passed before.
pub open spec fn fits(s: DataStorage, q: PlanRequest, prefix: Seq<Leg>, l: Leg) -> bool {
    &&& leg_valid(s, q, l)
    &&& prefix.len() == 0 ==> l.day == 0 && board_stop(s, l) == q.departure_stop_id
        && leg_departure(s, l) >= minutes(q.departure_time)
    &&& prefix.len() > 0 ==> board_stop(s, l) == alight_stop(s, prefix.last()) && leg_departure(
        s,
        l,
    ) >= leg_arrival(s, prefix.last()) && change_allowed(s, board_stop(s, l))
    &&& forall|k: int|
        0 <= k < leg_stops(s, l).len() ==> !stops_of(s, q.departure_stop_id, prefix).contains(
            #[trigger] leg_stops(s, l)[k],
        )
}

proof fn lemma_leg_stops_distinct(s: DataStorage, l: Leg)
    requires
        0 <= l.board < l.alight < leg_route(s, l).len(),
        no_loop_until(leg_route(s, l), l.alight),
    ensures
        leg_stops(s, l).no_duplicates(),
{
    let route = leg_route(s, l);
    let st = leg_stops(s, l);
    assert forall|i: int, j: int| 0 <= i < st.len() && 0 <= j < st.len() && i != j implies st[i]
        != st[j] by {
        if i < j {
            assert(!repeats_at(route, l.board + 1 + j));
        } else {
            assert(!repeats_at(route, l.board + 1 + i));
        }
    }
}

/// A leg that fits extends a start of a route with room for it.
proof fn lemma_extend(s: DataStorage, q: PlanRequest, prefix: Seq<Leg>, l: Leg)
    requires
        partial_route(s, q, prefix),
        prefix.len() <= MAX_CONNECTIONS,
        fits(s, q, prefix, l),
    ensures
        partial_route(s, q, prefix.push(l)),
{
    let p = prefix.push(l);
    assert(p.drop_last() =~= prefix);
    lemma_leg_stops_distinct(s, l);
    lemma_no_duplicates_concat(stops_of(s, q.departure_stop_id, prefix), leg_stops(s, l));
    assert forall|k: int| 0 <= k < p.len() implies leg_valid(s, q, #[trigger] p[k]) by {
        if k < prefix.len() {
            assert(p[k] == prefix[k]);
        }
    }
    assert forall|k: int| 0 < k < p.len() implies {
        &&& board_stop(s, #[trigger] p[k]) == alight_stop(s, p[k - 1])
        &&& leg_departure(s, p[k]) >= leg_arrival(s, p[k - 1])
        &&& change_allowed(s, board_stop(s, p[k]))
    } by {
        if k < prefix.len() {
            assert(p[k] == prefix[k] && p[k - 1] == prefix[k - 1]);
        } else {
            assert(p[k - 1] == prefix.last());
        }
    }
}

/// The first leg of what follows a start of a route fits after it, and what follows that
/// leg continues the longer start.
proof fn lemma_first_leg(s: DataStorage, q: PlanRequest, prefix: Seq<Leg>, c: Seq<Leg>)
    requires
        c.len() > 0,
        feasible_route(s, q, prefix + c),
    ensures
        fits(s, q, prefix, c[0]),
        partial_route(s, q, prefix.push(c[0])),
        prefix.len() + c.len() <= MAX_CONNECTIONS + 1,
        c.len() == 1 ==> alight_stop(s, c[0]) == q.target_arrival_stop_id,
        c.len() > 1 ==> feasible_route(s, q, prefix.push(c[0]) + c.drop_first()),
        route_arrival(s, prefix + c) == route_arrival(s, c),
{
    let all = prefix + c;
    let p = prefix.push(c[0]);
    let n = prefix.len() as int;
    assert(all.take(n + 1) =~= p);
    assert(p + c.drop_first() =~= all);
    assert(all.last() == c.last());
    assert(all[n] == c[0]);
    lemma_stops_prefix(s, q.departure_stop_id, all, n + 1);
    let whole = stops_of(s, q.departure_stop_id, all);
    let part = stops_of(s, q.departure_stop_id, p);
    assert forall|i: int, j: int| 0 <= i < part.len() && 0 <= j < part.len() && i != j implies part[i]
        != part[j] by {
        assert(part[i] == whole[i] && part[j] == whole[j]);
    }
    assert(p.drop_last() =~= prefix);
    lemma_no_duplicates_split(stops_of(s, q.departure_stop_id, prefix), leg_stops(s, c[0]));
    assert forall|k: int| 0 <= k < p.len() implies leg_valid(s, q, #[trigger] p[k]) by {
        assert(p[k] == all[k]);
    }
    assert forall|k: int| 0 < k < p.len() implies {
        &&& board_stop(s, #[trigger] p[k]) == alight_stop(s, p[k - 1])
        &&& leg_departure(s, p[k]) >= leg_arrival(s, p[k - 1])
        &&& change_allowed(s, board_stop(s, p[k]))
    } by {
        assert(p[k] == all[k] && p[k - 1] == all[k - 1]);
    }
    assert(leg_valid(s, q, all[n]));
    if n > 0 {
        assert(all[n - 1] == prefix.last());
    }
}


// ------------------------------------------------------------------------------------------------
// --- Search
// ------------------------------------------------------------------------------------------------

/// What can follow the start `prefix` to make a feasible route.
pub open spec fn continues(s: DataStorage, q: PlanRequest, prefix: Seq<Leg>, c: Seq<Leg>) -> bool {
    c.len() > 0 && feasible_route(s, q, prefix + c)
}

/// The first leg of `c` comes before position `a` of journey `j` on day `day`, in the
/// order of days, then journeys, then positions where the leg is left.
pub open spec fn first_before(c: Seq<Leg>, day: int, j: int, a: int) -> bool {
    ||| c[0].day < day
    ||| (c[0].day == day && c[0].journey < j)
    ||| (c[0].day == day && c[0].journey == j && c[0].alight < a)
}

/// The stop where the start of a route ends.
pub open spec fn state_stop(s: DataStorage, q: PlanRequest, prefix: Seq<Leg>) -> i32 {
    if prefix.len() == 0 {
        q.departure_stop_id
    } else {
        alight_stop(s, prefix.last())
    }
}

/// The time when the start of a route ends, in minutes from the start of the day of
/// departure.
pub open spec fn state_time(s: DataStorage, q: PlanRequest, prefix: Seq<Leg>) -> int {
    if prefix.len() == 0 {
        minutes(q.departure_time)
    } else {
        leg_arrival(s, prefix.last())
    }
}

/// A continuation found by the search, with its sections, its arrival and the stops of
/// the whole route.
struct Found {
    sections: Vec<RouteSection>,
    arrival: i64,
    stops: Vec<i32>,
    legs: Ghost<Seq<Leg>>,
}

spec fn found_ok(s: DataStorage, q: PlanRequest, prefix: Seq<Leg>, f: Found) -> bool {
    &&& continues(s, q, prefix, f.legs@)
    &&& f.sections@ == sections_of(s, f.legs@)
    &&& f.arrival == route_arrival(s, f.legs@)
    &&& f.stops@ == stops_of(s, q.departure_stop_id, prefix + f.legs@)
}

/// `best` arrives no later than any continuation whose first leg comes before
/// `(day, j, a)`; none where there is no such continuation.
#[verifier::opaque]
spec fn best_where(
    s: DataStorage,
    q: PlanRequest,
    prefix: Seq<Leg>,
    best: Option<Found>,
    day: int,
    j: int,
    a: int,
) -> bool {
    match best {
        None => forall|c: Seq<Leg>| #[trigger] continues(s, q, prefix, c) ==> !first_before(c, day, j, a),
        Some(f) => found_ok(s, q, prefix, f) && forall|c: Seq<Leg>|
            #[trigger] continues(s, q, prefix, c) && first_before(c, day, j, a) ==> f.arrival
                <= route_arrival(s, c),
    }
}

/// `best` arrives no later than any continuation that starts with the leg `l`; none
/// where there is no such continuation.
spec fn best_starting(s: DataStorage, q: PlanRequest, prefix: Seq<Leg>, best: Option<Found>, l: Leg) -> bool {
    match best {
        None => forall|c: Seq<Leg>| #[trigger] continues(s, q, prefix, c) ==> c[0] != l,
        Some(f) => found_ok(s, q, prefix, f) && forall|c: Seq<Leg>|
            #[trigger] continues(s, q, prefix, c) && c[0] == l ==> f.arrival <= route_arrival(s, c),
    }
}

/// The one of two results that arrives earlier; on a tie, the one with fewer sections,
/// and the first where those are as many too.
fn earlier(best: Option<Found>, cand: Option<Found>) -> (r: Option<Found>)
    ensures
        r is None <==> (best is None && cand is None),
        r matches Some(f) ==> (best == Some(f) || cand == Some(f)),
        r matches Some(f) ==> (best matches Some(x) ==> f.arrival <= x.arrival),
        r matches Some(f) ==> (cand matches Some(y) ==> f.arrival <= y.arrival),
{
    match best {
        None => cand,
        Some(x) => match cand {
            None => Some(x),
            Some(y) => if y.arrival < x.arrival || (y.arrival == x.arrival && y.sections.len()
                < x.sections.len()) {
                Some(y)
            } else {
                Some(x)
            },
        },
    }
}

/// A time in minutes from the start of the day of departure, on day `day`.
fn time_minutes(t: Time, day: usize) -> (r: i64)
    requires
        day <= 1,
    ensures
        r == minutes(t) + 1440 * day,
{
    t.hour as i64 * 60 + t.minute as i64 + MINUTES_PER_DAY * day as i64
}

fn contains_stop(v: &Vec<i32>, x: i32) -> (r: bool)
    ensures
        r == v@.contains(x),
{
    let mut i: usize = 0;
    while i < v.len()
        invariant
            i <= v.len(),
            forall|k: int| 0 <= k < i ==> v@[k] != x,
        decreases v.len() - i,
    {
        if v[i] == x {
            assert(v@[i as int] == x);
            return true;
        }
        i = i + 1;
    }
    false
}

fn repeats(route: &Vec<JourneyRouteEntry>, k: usize) -> (r: bool)
    requires
        k < route.len(),
    ensures
        r == repeats_at(route@, k as int),
{
    let mut i: usize = 0;
    while i < k
        invariant
            i <= k < route.len(),
            forall|m: int| 0 <= m < i ==> route@[m].stop_id != route@[k as int].stop_id,
        decreases k - i,
    {
        if route[i].stop_id == route[k].stop_id {
            return true;
        }
        i = i + 1;
    }
    false
}

/// Whether the route serves a stop twice up to position `b`.
fn loops_until(route: &Vec<JourneyRouteEntry>, b: usize) -> (r: bool)
    requires
        b < route.len(),
    ensures
        r == !no_loop_until(route@, b as int),
{
    let mut k: usize = 0;
    while k <= b
        invariant
            k <= b + 1,
            b < route.len(),
            forall|m: int| 0 <= m < k ==> !#[trigger] repeats_at(route@, m),
        decreases b + 1 - k,
    {
        if repeats(route, k) {
            return true;
        }
        k = k + 1;
    }
    false
}

/// The stops of `visited` followed by those that the route passes after position `b` up
/// to and including position `a`.
fn with_passed_stops(visited: &Vec<i32>, route: &Vec<JourneyRouteEntry>, b: usize, a: usize) -> (r: Vec<i32>)
    requires
        b < a < route.len(),
    ensures
        r@ == visited@ + Seq::new((a - b) as nat, |i: int| route@[b + 1 + i].stop_id),
{
    let mut r: Vec<i32> = Vec::new();
    let mut i: usize = 0;
    while i < visited.len()
        invariant
            i <= visited.len(),
            r@ == visited@.take(i as int),
        decreases visited.len() - i,
    {
        r.push(visited[i]);
        i = i + 1;
        assert(r@ =~= visited@.take(i as int));
    }
    assert(visited@.take(i as int) =~= visited@);
    let mut k: usize = b + 1;
    while k <= a
        invariant
            b < k <= a + 1,
            a < route.len(),
            r@ == visited@ + Seq::new((k - 1 - b) as nat, |i: int| route@[b + 1 + i].stop_id),
        decreases a + 1 - k,
    {
        r.push(route[k].stop_id);
        k = k + 1;
        assert(r@ =~= visited@ + Seq::new((k - 1 - b) as nat, |i: int| route@[b + 1 + i].stop_id));
    }
    r
}

/// `section` followed by `rest`.
fn prepend_section(section: RouteSection, rest: &Vec<RouteSection>) -> (r: Vec<RouteSection>)
    ensures
        r@ == seq![section] + rest@,
{
    let mut r: Vec<RouteSection> = Vec::new();
    r.push(section);
    let mut i: usize = 0;
    while i < rest.len()
        invariant
            i <= rest.len(),
            r@ == seq![section] + rest@.take(i as int),
        decreases rest.len() - i,
    {
        r.push(rest[i]);
        i = i + 1;
        assert(r@ =~= seq![section] + rest@.take(i as int));
    }
    assert(rest@.take(i as int) =~= rest@);
    r
}


/// The route boards at its first leg where it serves the boarding stop first.
proof fn lemma_board_first(s: DataStorage, q: PlanRequest, l: Leg, b: int)
    requires
        leg_valid(s, q, l),
        position(leg_route(s, l), board_stop(s, l)) == Some(b),
    ensures
        l.board == b,
{
    let route = leg_route(s, l);
    lemma_position(route, board_stop(s, l));
    if l.board > b {
        assert(route[b].stop_id == route[l.board].stop_id);
        assert(repeats_at(route, l.board));
    }
}

/// `best` arrives no later than any continuation; none where there is no continuation.
spec fn best_complete(s: DataStorage, q: PlanRequest, prefix: Seq<Leg>, best: Option<Found>) -> bool {
    match best {
        None => forall|c: Seq<Leg>| !#[trigger] continues(s, q, prefix, c),
        Some(f) => found_ok(s, q, prefix, f) && forall|c: Seq<Leg>|
            #[trigger] continues(s, q, prefix, c) ==> f.arrival <= route_arrival(s, c),
    }
}

proof fn lemma_best_complete(s: DataStorage, q: PlanRequest, prefix: Seq<Leg>, best: Option<Found>)
    requires
        best_where(s, q, prefix, best, 2, 0, 0),
        forall|c: Seq<Leg>| #[trigger] continues(s, q, prefix, c) ==> c[0].day <= 1,
    ensures
        best_complete(s, q, prefix, best),
{
    reveal(best_where);
}

/// Where every continuation that rides a journey first on day `day` rides one of the
/// first `n`, what covers those covers every continuation that starts on that day.
proof fn lemma_next_day(
    s: DataStorage,
    q: PlanRequest,
    prefix: Seq<Leg>,
    best: Option<Found>,
    day: int,
    n: int,
)
    requires
        best_where(s, q, prefix, best, day, n, 0),
        forall|c: Seq<Leg>| #[trigger] continues(s, q, prefix, c) && c[0].day == day ==> c[0].journey < n,
    ensures
        best_where(s, q, prefix, best, day + 1, 0, 0),
{
    reveal(best_where);
}

/// No continuation comes before the first leg of all.
proof fn lemma_start(s: DataStorage, q: PlanRequest, prefix: Seq<Leg>)
    ensures
        best_where(s, q, prefix, None, 0, 0, 0),
{
    reveal(best_where);
    assert forall|c: Seq<Leg>| #[trigger] continues(s, q, prefix, c) implies !first_before(c, 0, 0, 0) by {
        lemma_first_leg(s, q, prefix, c);
    }
}

/// Taking the earlier of `best` and the best continuation with the leg left at position
/// `a` covers the continuations left up to position `a`.
proof fn lemma_step(
    s: DataStorage,
    q: PlanRequest,
    prefix: Seq<Leg>,
    best: Option<Found>,
    cand: Option<Found>,
    r: Option<Found>,
    day: int,
    j: int,
    b: int,
    a: int,
)
    requires
        best_where(s, q, prefix, best, day, j, a),
        best_starting(s, q, prefix, cand, Leg { day, journey: j, board: b, alight: a }),
        r is None <==> (best is None && cand is None),
        r matches Some(f) ==> (best == Some(f) || cand == Some(f)),
        r matches Some(f) ==> (best matches Some(x) ==> f.arrival <= x.arrival),
        r matches Some(f) ==> (cand matches Some(y) ==> f.arrival <= y.arrival),
        forall|c: Seq<Leg>| #[trigger] continues(s, q, prefix, c) && c[0].day == day && c[0].journey == j
            ==> c[0].board == b,
    ensures
        best_where(s, q, prefix, r, day, j, a + 1),
{
    reveal(best_where);
    let l = Leg { day, journey: j, board: b, alight: a };
    assert forall|c: Seq<Leg>| #[trigger] continues(s, q, prefix, c) && first_before(c, day, j, a + 1)
        && !first_before(c, day, j, a) implies c[0] == l by {}
}

/// Where no continuation rides journey `j` first on day `day` and leaves it at position
/// `a` or later, what covers the continuations left before `a` covers all that ride the
/// journey first.
proof fn lemma_skip_rest(
    s: DataStorage,
    q: PlanRequest,
    prefix: Seq<Leg>,
    best: Option<Found>,
    day: int,
    j: int,
    a: int,
)
    requires
        best_where(s, q, prefix, best, day, j, a),
        forall|c: Seq<Leg>| #[trigger] continues(s, q, prefix, c) && c[0].day == day && c[0].journey == j
            ==> c[0].alight < a,
    ensures
        best_where(s, q, prefix, best, day, j + 1, 0),
{
    reveal(best_where);
}

/// Where every continuation that rides journey `j` first on day `day` leaves it at
/// position `a` or later, what covers the continuations that ride earlier journeys first
/// covers those left before `a`.
proof fn lemma_skip_below(
    s: DataStorage,
    q: PlanRequest,
    prefix: Seq<Leg>,
    best: Option<Found>,
    day: int,
    j: int,
    a: int,
)
    requires
        best_where(s, q, prefix, best, day, j, 0),
        forall|c: Seq<Leg>| #[trigger] continues(s, q, prefix, c) && c[0].day == day && c[0].journey == j
            ==> c[0].alight >= a,
    ensures
        best_where(s, q, prefix, best, day, j, a),
{
    reveal(best_where);
}

/// Where no continuation rides journey `j` first on day `day` and leaves it at position
/// `a`, what covers the continuations left before `a` covers those left up to `a`.
proof fn lemma_skip_one(
    s: DataStorage,
    q: PlanRequest,
    prefix: Seq<Leg>,
    best: Option<Found>,
    day: int,
    j: int,
    a: int,
)
    requires
        best_where(s, q, prefix, best, day, j, a),
        forall|c: Seq<Leg>| #[trigger] continues(s, q, prefix, c) && c[0].day == day && c[0].journey == j
            ==> c[0].alight != a,
    ensures
        best_where(s, q, prefix, best, day, j, a + 1),
{
    reveal(best_where);
}

impl Hrdf {
    /// Whether a change of journey is possible at the stop `stop_id`.
    fn change_possible(&self, stop_id: i32) -> (r: bool)
        requires
            self.data_storage.ids_unique(),
            self.data_storage.has_stop(stop_id),
        ensures
            r == change_allowed(self.data_storage, stop_id),
    {
        self.data_storage.find_stop(stop_id).transfer_flag != 0
    }

    /// The earliest continuation of `prefix` that starts with the leg of journey `j` on
    /// day `day` from position `b` to position `a`.
    #[verifier::rlimit(40)]
    fn try_leg(
        &self,
        q: &PlanRequest,
        next: Option<Date>,
        prefix: Ghost<Seq<Leg>>,
        depth: usize,
        visited: &Vec<i32>,
        day: usize,
        j: usize,
        b: usize,
        a: usize,
    ) -> (r: Option<Found>)
        requires
            self.data_storage.wf(),
            next == following_day(q.departure_date),
            partial_route(self.data_storage, *q, prefix@),
            depth == prefix@.len(),
            depth <= MAX_CONNECTIONS,
            visited@ == stops_of(self.data_storage, q.departure_stop_id, prefix@),
            fits(
                self.data_storage,
                *q,
                prefix@,
                Leg { day: day as int, journey: j as int, board: b as int, alight: a as int },
            ),
        ensures
            best_starting(
                self.data_storage,
                *q,
                prefix@,
                r,
                Leg { day: day as int, journey: j as int, board: b as int, alight: a as int },
            ),
        decreases MAX_CONNECTIONS + 1 - depth, 0nat,
    {
        let ghost s = self.data_storage;
        let ghost l = Leg { day: day as int, journey: j as int, board: b as int, alight: a as int };
        let ghost p = prefix@.push(l);
        proof {
            lemma_extend(s, *q, prefix@, l);
            assert(p.drop_last() =~= prefix@);
        }
        let journey = &self.data_storage.journeys[j];
        let section = RouteSection::new(journey.id, journey.route[b].stop_id, journey.route[a].stop_id);
        assert(section == leg_section(s, l));
        let arrival_time = match journey.route[a].arrival_time {
            Some(t) => t,
            None => {
                assert(false);
                Time::new(0, 0)
            },
        };
        let arrival = time_minutes(arrival_time, day);
        let passed = with_passed_stops(visited, &journey.route, b, a);
        assert(passed@ =~= stops_of(s, q.departure_stop_id, p));
        let mut further: Option<Found> = None;
        if depth < MAX_CONNECTIONS {
            let stop = journey.route[a].stop_id;
            let rest = self.search(q, next, Ghost(p), depth + 1, stop, arrival, &passed);
            match rest {
                Some(f) => {
                    let sections = prepend_section(section, &f.sections);
                    let ghost legs = seq![l] + f.legs@;
                    proof {
                        assert(prefix@ + legs =~= p + f.legs@);
                        assert(sections_of(s, legs) =~= sections@);
                        assert(legs.last() == f.legs@.last());
                    }
                    further = Some(Found { sections, arrival: f.arrival, stops: f.stops, legs: Ghost(legs) });
                },
                None => {},
            }
        }
        let mut direct: Option<Found> = None;
        if journey.route[a].stop_id == q.target_arrival_stop_id {
            let mut sections: Vec<RouteSection> = Vec::new();
            sections.push(section);
            proof {
                assert(prefix@ + seq![l] =~= p);
                assert(sections_of(s, seq![l]) =~= sections@);
            }
            let ghost single = seq![l];
            direct = Some(Found { sections, arrival, stops: passed, legs: Ghost(single) });
        }
        let best = earlier(direct, further);
        proof {
            assert forall|c: Seq<Leg>| #[trigger] continues(s, *q, prefix@, c) && c[0] == l implies (
            best matches Some(f) && f.arrival <= route_arrival(s, c)) by {
                lemma_first_leg(s, *q, prefix@, c);
                if c.len() == 1 {
                    assert(c.last() == l);
                } else {
                    assert(continues(s, *q, p, c.drop_first()));
                    assert(c.drop_first().last() == c.last());
                }
            }
        }
        best
    }

    /// The earliest continuation of `prefix` whose first leg rides journey `j` on day
    /// `day`, or `best`, whichever arrives earlier.
    #[verifier::rlimit(40)]
    fn scan_journey(
        &self,
        q: &PlanRequest,
        next: Option<Date>,
        prefix: Ghost<Seq<Leg>>,
        depth: usize,
        stop: i32,
        time: i64,
        visited: &Vec<i32>,
        day: usize,
        date: Date,
        j: usize,
        best: Option<Found>,
    ) -> (r: Option<Found>)
        requires
            self.data_storage.wf(),
            next == following_day(q.departure_date),
            partial_route(self.data_storage, *q, prefix@),
            depth == prefix@.len(),
            depth <= MAX_CONNECTIONS,
            stop == state_stop(self.data_storage, *q, prefix@),
            time == state_time(self.data_storage, *q, prefix@),
            visited@ == stops_of(self.data_storage, q.departure_stop_id, prefix@),
            day <= 1,
            day_date(*q, day as int) == Some(date),
            j < self.data_storage.journeys.len(),
            best_where(self.data_storage, *q, prefix@, best, day as int, j as int, 0),
        ensures
            best_where(self.data_storage, *q, prefix@, r, day as int, j as int + 1, 0),
        decreases MAX_CONNECTIONS + 1 - depth, 1nat,
    {
        let ghost s = self.data_storage;
        let journey = &self.data_storage.journeys[j];
        let ghost route = journey.route@;
        // Whatever continuation rides this journey first, on this day, fits after `prefix`.
        assert forall|c: Seq<Leg>| #[trigger] continues(s, *q, prefix@, c) && c[0].day == day && c[0].journey == j
            implies fits(s, *q, prefix@, c[0]) && leg_route(s, c[0]) == route by {
            lemma_first_leg(s, *q, prefix@, c);
        }
        if (depth == 0 && day == 1) || !Hrdf::operates(journey, date) {
            proof {
                lemma_skip_rest(s, *q, prefix@, best, day as int, j as int, 0);
            }
            return best;
        }
        let b = match find_position(&journey.route, stop) {
            Some(b) => b,
            None => {
                assert forall|c: Seq<Leg>| #[trigger] continues(s, *q, prefix@, c) && c[0].day == day
                    && c[0].journey == j implies c[0].alight < 0 by {
                    lemma_position(route, stop);
                    assert(route[c[0].board].stop_id == stop);
                }
                proof {
                    lemma_skip_rest(s, *q, prefix@, best, day as int, j as int, 0);
                }
                return best;
            },
        };
        assert forall|c: Seq<Leg>| #[trigger] continues(s, *q, prefix@, c) && c[0].day == day && c[0].journey == j
            implies c[0].board == b by {
            lemma_board_first(s, *q, c[0], b as int);
        }
        let departure_time = match journey.route[b].departure_time {
            Some(t) => t,
            None => {
                proof {
                    lemma_skip_rest(s, *q, prefix@, best, day as int, j as int, 0);
                }
                return best;
            },
        };
        if time_minutes(departure_time, day) < time {
            proof {
                lemma_skip_rest(s, *q, prefix@, best, day as int, j as int, 0);
            }
            return best;
        }
        if depth > 0 {
            proof {
                assert(s.has_stop(s.journeys@[j as int].route@[b as int].stop_id));
            }
            if !self.change_possible(stop) {
                proof {
                    lemma_skip_rest(s, *q, prefix@, best, day as int, j as int, 0);
                }
                return best;
            }
        }
        if loops_until(&journey.route, b) {
            assert forall|c: Seq<Leg>| #[trigger] continues(s, *q, prefix@, c) && c[0].day == day
                && c[0].journey == j implies c[0].alight < 0 by {
                let k = choose|k: int| 0 <= k <= b && #[trigger] repeats_at(route, k);
                assert(!repeats_at(route, k));
            }
            proof {
                lemma_skip_rest(s, *q, prefix@, best, day as int, j as int, 0);
            }
            return best;
        }
        assert forall|c: Seq<Leg>| #[trigger] continues(s, *q, prefix@, c) && c[0].day == day && c[0].journey == j
            implies c[0].alight >= b + 1 by {
            assert(leg_valid(s, *q, c[0]));
        }
        proof {
            lemma_skip_below(s, *q, prefix@, best, day as int, j as int, b + 1);
        }
        let mut best = best;
        let mut a: usize = b + 1;
        while a < journey.route.len()
            invariant
                self.data_storage.wf(),
                s == self.data_storage,
                next == following_day(q.departure_date),
                partial_route(s, *q, prefix@),
                depth == prefix@.len(),
                depth <= MAX_CONNECTIONS,
                stop == state_stop(s, *q, prefix@),
                time == state_time(s, *q, prefix@),
                visited@ == stops_of(s, q.departure_stop_id, prefix@),
                day <= 1,
                day_date(*q, day as int) == Some(date),
                j < s.journeys.len(),
                journey == s.journeys@[j as int],
                route == journey.route@,
                operates_on(*journey, date),
                position(route, stop) == Some(b as int),
                route[b as int].stop_id == stop,
                route[b as int].departure_time == Some(departure_time),
                minutes(departure_time) + 1440 * day >= time,
                depth > 0 ==> change_allowed(s, stop),
                depth == 0 ==> day == 0,
                b < a <= route.len(),
                forall|k: int| 0 <= k < a ==> !#[trigger] repeats_at(route, k),
                forall|k: int| b < k < a ==> !visited@.contains(#[trigger] route[k].stop_id),
                forall|c: Seq<Leg>| #[trigger] continues(s, *q, prefix@, c) && c[0].day == day && c[0].journey == j
                    ==> fits(s, *q, prefix@, c[0]) && leg_route(s, c[0]) == route && c[0].board == b,
                best_where(s, *q, prefix@, best, day as int, j as int, a as int),
            decreases route.len() - a,
        {
            if repeats(&journey.route, a) || contains_stop(visited, journey.route[a].stop_id) {
                assert forall|c: Seq<Leg>| #[trigger] continues(s, *q, prefix@, c) && c[0].day == day
                    && c[0].journey == j implies c[0].alight < a by {
                    if c[0].alight >= a {
                        assert(leg_valid(s, *q, c[0]));
                        assert(leg_stops(s, c[0])[a - b - 1] == route[a as int].stop_id);
                    }
                }
                proof {
                    lemma_skip_rest(s, *q, prefix@, best, day as int, j as int, a as int);
                }
                return best;
            }
            match journey.route[a].arrival_time {
                Some(_) => {
                    let ghost l = Leg { day: day as int, journey: j as int, board: b as int, alight: a as int };
                    proof {
                        assert(leg_route(s, l) == route);
                        assert forall|k: int| 0 <= k < leg_stops(s, l).len() implies !stops_of(
                            s,
                            q.departure_stop_id,
                            prefix@,
                        ).contains(#[trigger] leg_stops(s, l)[k]) by {
                            assert(leg_stops(s, l)[k] == route[b + 1 + k].stop_id);
                        }
                        assert(fits(s, *q, prefix@, l));
                    }
                    let cand = self.try_leg(q, next, prefix, depth, visited, day, j, b, a);
                    let r = earlier(best, cand);
                    proof {
                        lemma_step(s, *q, prefix@, best, cand, r, day as int, j as int, b as int, a as int);
                    }
                    best = r;
                },
                None => {
                    assert forall|c: Seq<Leg>| #[trigger] continues(s, *q, prefix@, c) && c[0].day == day
                        && c[0].journey == j implies c[0].alight != a by {
                        assert(leg_valid(s, *q, c[0]));
                    }
                    proof {
                        lemma_skip_one(s, *q, prefix@, best, day as int, j as int, a as int);
                    }
                },
            }
            a = a + 1;
        }
        assert forall|c: Seq<Leg>| #[trigger] continues(s, *q, prefix@, c) && c[0].day == day && c[0].journey == j
            implies c[0].alight < a by {
            assert(leg_valid(s, *q, c[0]));
        }
        proof {
            lemma_skip_rest(s, *q, prefix@, best, day as int, j as int, a as int);
        }
        best
    }

    /// The earliest continuation of `prefix` into a feasible route, where there is one.
    fn search(
        &self,
        q: &PlanRequest,
        next: Option<Date>,
        prefix: Ghost<Seq<Leg>>,
        depth: usize,
        stop: i32,
        time: i64,
        visited: &Vec<i32>,
    ) -> (r: Option<Found>)
        requires
            self.data_storage.wf(),
            next == following_day(q.departure_date),
            partial_route(self.data_storage, *q, prefix@),
            depth == prefix@.len(),
            stop == state_stop(self.data_storage, *q, prefix@),
            time == state_time(self.data_storage, *q, prefix@),
            visited@ == stops_of(self.data_storage, q.departure_stop_id, prefix@),
        ensures
            best_complete(self.data_storage, *q, prefix@, r),
        decreases MAX_CONNECTIONS + 1 - depth, 2nat,
    {
        let ghost s = self.data_storage;
        assert forall|c: Seq<Leg>| #[trigger] continues(s, *q, prefix@, c) implies depth < MAX_CONNECTIONS + 1
            && c[0].day <= 1 && c[0].journey < s.journeys.len() && day_date(*q, c[0].day) is Some by {
            lemma_first_leg(s, *q, prefix@, c);
        }
        if depth > MAX_CONNECTIONS {
            return None;
        }
        proof {
            lemma_start(s, *q, prefix@);
        }
        let mut best: Option<Found> = None;
        let mut day: usize = 0;
        while day < 2
            invariant
                self.data_storage.wf(),
                s == self.data_storage,
                next == following_day(q.departure_date),
                partial_route(s, *q, prefix@),
                depth == prefix@.len(),
                depth <= MAX_CONNECTIONS,
                stop == state_stop(s, *q, prefix@),
                time == state_time(s, *q, prefix@),
                visited@ == stops_of(s, q.departure_stop_id, prefix@),
                day <= 2,
                forall|c: Seq<Leg>| #[trigger] continues(s, *q, prefix@, c) ==> c[0].day <= 1
                    && c[0].journey < s.journeys.len() && day_date(*q, c[0].day) is Some,
                best_where(s, *q, prefix@, best, day as int, 0, 0),
            decreases 2 - day,
        {
            let date = if day == 0 {
                Some(q.departure_date)
            } else {
                next
            };
            match date {
                Some(d) => {
                    let mut j: usize = 0;
                    while j < self.data_storage.journeys.len()
                        invariant
                            self.data_storage.wf(),
                            s == self.data_storage,
                            next == following_day(q.departure_date),
                            partial_route(s, *q, prefix@),
                            depth == prefix@.len(),
                            depth <= MAX_CONNECTIONS,
                            stop == state_stop(s, *q, prefix@),
                            time == state_time(s, *q, prefix@),
                            visited@ == stops_of(s, q.departure_stop_id, prefix@),
                            day <= 1,
                            day_date(*q, day as int) == Some(d),
                            j <= s.journeys.len(),
                            best_where(s, *q, prefix@, best, day as int, j as int, 0),
                        decreases s.journeys.len() - j,
                    {
                        best = self.scan_journey(q, next, prefix, depth, stop, time, visited, day, d, j, best);
                        j = j + 1;
                    }
                    proof {
                        lemma_next_day(s, *q, prefix@, best, day as int, s.journeys.len() as int);
                    }
                },
                None => {
                    proof {
                        lemma_next_day(s, *q, prefix@, best, day as int, 0);
                    }
                },
            }
            day = day + 1;
        }
        proof {
            lemma_best_complete(s, *q, prefix@, best);
        }
        best
    }
}


/// The set of the stops in `v`.
fn stop_set(v: &Vec<i32>) -> (r: HashSet<i32>)
    ensures
        r@ == v@.to_set(),
{
    let mut r: HashSet<i32> = HashSet::new();
    let mut i: usize = 0;
    while i < v.len()
        invariant
            i <= v.len(),
            r@ == v@.take(i as int).to_set(),
        decreases v.len() - i,
    {
        let ghost before = v@.take(i as int);
        r.insert(v[i]);
        i = i + 1;
        assert(r@ =~= v@.take(i as int).to_set()) by {
            let now = v@.take(i as int);
            assert forall|y: i32| now.contains(y) <==> (before.contains(y) || y == v@[i - 1]) by {
                if now.contains(y) {
                    let k = choose|k: int| 0 <= k < now.len() && now[k] == y;
                    if k < before.len() {
                        assert(before[k] == y);
                    }
                }
                if before.contains(y) {
                    let k = choose|k: int| 0 <= k < before.len() && before[k] == y;
                    assert(now[k] == y);
                }
                if y == v@[i - 1] {
                    assert(now[i - 1] == y);
                }
            }
        }
    }
    assert(v@.take(i as int) =~= v@);
    r
}

impl Hrdf {
    /// Plans a journey from `departure_stop_id` to `target_arrival_stop_id`, leaving on
    /// `departure_date` at `departure_time` or later: among the feasible routes (see
    /// `feasible_route`: a first journey that runs on the day of departure, later ones
    /// that run on that day or the day after, ridden forward and not past where they loop, changes only at stops where a change
    /// is possible and at most `MAX_CONNECTIONS` of them, no stop passed twice), one that
    /// arrives earliest, with its sections and the stops it passes; none where no route
    /// is feasible.
    pub fn plan_journey(
        &self,
        departure_stop_id: i32,
        target_arrival_stop_id: i32,
        departure_date: Date,
        departure_time: Time,
    ) -> (r: Option<Node>)
        requires
            self.data_storage.wf(),
        ensures
            ({
                let s = self.data_storage;
                let q = PlanRequest {
                    departure_stop_id,
                    target_arrival_stop_id,
                    departure_date,
                    departure_time,
                };
                match r {
                    None => forall|legs: Seq<Leg>| !#[trigger] feasible_route(s, q, legs),
                    Some(n) => exists|legs: Seq<Leg>|
                        {
                            &&& #[trigger] feasible_route(s, q, legs)
                            &&& n.route_sections@ == sections_of(s, legs)
                            &&& n.visited_stops@ == stops_of(s, departure_stop_id, legs).to_set()
                            &&& forall|other: Seq<Leg>| #[trigger]
                                feasible_route(s, q, other) ==> route_arrival(s, legs)
                                    <= route_arrival(s, other)
                        },
                }
            }),
    {
        let ghost s = self.data_storage;
        let q = PlanRequest { departure_stop_id, target_arrival_stop_id, departure_date, departure_time };
        let next = departure_date.next_day();
        let mut visited: Vec<i32> = Vec::new();
        visited.push(departure_stop_id);
        let ghost empty = Seq::<Leg>::empty();
        proof {
            assert(visited@ =~= stops_of(s, departure_stop_id, empty));
            assert(partial_route(s, q, empty));
            assert forall|legs: Seq<Leg>| #[trigger] feasible_route(s, q, legs) <==> continues(s, q, empty, legs) by {
                assert(empty + legs =~= legs);
            }
        }
        let time = time_minutes(departure_time, 0);
        let found = self.search(&q, next, Ghost(empty), 0, departure_stop_id, time, &visited);
        match found {
            None => None,
            Some(f) => {
                proof {
                    assert(empty + f.legs@ =~= f.legs@);
                }
                let stops = stop_set(&f.stops);
                Some(Node::new(f.sections, stops))
            },
        }
    }
}

// ------------------------------------------------------------------------------------------------
// --- Laws
// ------------------------------------------------------------------------------------------------

/// A leg's journey, found by its number, is the leg's journey; its section is shown from
/// where the leg is boarded to where it is left.
proof fn lemma_leg_section_entries(s: DataStorage, q: PlanRequest, l: Leg)
    requires
        s.ids_unique(),
        leg_valid(s, q, l),
    ensures
        section_showable(s, leg_section(s, l)),
        section_entries_spec(s, leg_section(s, l)) == leg_route(s, l).subrange(l.board, l.alight + 1),
{
    let id = s.journeys@[l.journey].id;
    assert(s.has_journey(id));
    let i = s.journey_index(id);
    assert(s.journeys@[i].id == id);
    assert(i == l.journey);
    let route = leg_route(s, l);
    lemma_position(route, board_stop(s, l));
    if let Some(p) = position(route, board_stop(s, l)) {
        if p < l.board {
            assert(repeats_at(route, l.board));
        }
    }
    crate::storage::lemma_position_from(route, alight_stop(s, l), l.board);
    if let Some(p) = crate::storage::position_from(route, alight_stop(s, l), l.board) {
        if p < l.alight {
            assert(repeats_at(route, l.alight));
        }
    }
}

/// The sections of a feasible route are chained from the departure stop to the target,
/// each is shown as the stretch of its journey that its leg rides, forward along the
/// route, and the route passes no stop twice.
pub proof fn lemma_feasible_route_sections(s: DataStorage, q: PlanRequest, legs: Seq<Leg>)
    requires
        s.ids_unique(),
        feasible_route(s, q, legs),
    ensures
        sections_chained(sections_of(s, legs)),
        sections_of(s, legs)[0].departure_stop_id == q.departure_stop_id,
        sections_of(s, legs).last().arrival_stop_id == q.target_arrival_stop_id,
        stops_of(s, q.departure_stop_id, legs).no_duplicates(),
        forall|k: int|
            0 <= k < legs.len() ==> section_showable(s, #[trigger] sections_of(s, legs)[k])
                && section_entries_spec(s, sections_of(s, legs)[k]) == leg_route(s, legs[k]).subrange(
                legs[k].board,
                legs[k].alight + 1,
            ) && legs[k].board < legs[k].alight,
{
    let secs = sections_of(s, legs);
    assert forall|k: int| 0 < k < secs.len() implies #[trigger] secs[k].departure_stop_id == secs[k
        - 1].arrival_stop_id by {
        assert(leg_valid(s, q, legs[k]));
    }
    assert forall|k: int| 0 <= k < legs.len() implies section_showable(s, #[trigger] secs[k])
        && section_entries_spec(s, secs[k]) == leg_route(s, legs[k]).subrange(
        legs[k].board,
        legs[k].alight + 1,
    ) && legs[k].board < legs[k].alight by {
        assert(leg_valid(s, q, legs[k]));
        lemma_leg_section_entries(s, q, legs[k]);
    }
}


/// For times whose minutes lie between 0 and 59, minutes follow clock order, hours past
/// 23 included: one time comes before another exactly when it has fewer minutes, and two
/// times have as many minutes exactly when they are the same; a time on the day after
/// comes after every time of the day of departure that is before 24:00.
pub proof fn lemma_minutes_order(a: Time, b: Time)
    requires
        0 <= a.minute < 60,
        0 <= b.minute < 60,
    ensures
        time_before(a, b) <==> minutes(a) < minutes(b),
        a == b <==> minutes(a) == minutes(b),
        0 <= a.hour < 24 && 0 <= b.hour ==> minutes(a) < minutes(b) + 1440,
{
    if a.hour < b.hour {
        assert(a.hour as int * 60 + 60 <= b.hour as int * 60) by (nonlinear_arith)
            requires
                a.hour < b.hour,
        ;
    } else if b.hour < a.hour {
        assert(b.hour as int * 60 + 60 <= a.hour as int * 60) by (nonlinear_arith)
            requires
                b.hour < a.hour,
        ;
    }
    if 0 <= a.hour < 24 && 0 <= b.hour {
        assert(a.hour as int * 60 < 1440) by (nonlinear_arith)
            requires
                a.hour < 24,
        ;
        assert(b.hour as int * 60 >= 0) by (nonlinear_arith)
            requires
                b.hour >= 0,
        ;
    }
}

} // verus!
