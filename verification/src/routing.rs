//! Routes through the timetable: route sections and routes under construction, the
//! next departures from a stop, and following a journey from a stop to the next stop
//! where a change is possible or the target is reached.
use std::collections::HashSet;
use vstd::prelude::*;

use crate::models::{time_before, Date, Journey, JourneyRouteEntry, Time};
use crate::storage::{
    find_position,
    position_from,
    lemma_position,
    operates_on,
    position,
    serves,
    DataStorage,
};

verus! {

broadcast use vstd::std_specs::hash::group_hash_axioms;

/// A stretch of a journey, from the stop where it is boarded to the stop where it is left.
#[derive(Clone, Copy, Debug, PartialEq, Eq, Structural)]
pub struct RouteSection {
    pub journey_id: i32,
    pub departure_stop_id: i32,
    pub arrival_stop_id: i32,
}

impl RouteSection {
    pub fn new(journey_id: i32, departure_stop_id: i32, arrival_stop_id: i32) -> (r: Self)
        ensures
            r == (RouteSection { journey_id, departure_stop_id, arrival_stop_id }),
    {
        Self { journey_id, departure_stop_id, arrival_stop_id }
    }

    pub fn journey_id(&self) -> (r: i32)
        ensures
            r == self.journey_id,
    {
        self.journey_id
    }

    pub fn departure_stop_id(&self) -> (r: i32)
        ensures
            r == self.departure_stop_id,
    {
        self.departure_stop_id
    }

    pub fn arrival_stop_id(&self) -> (r: i32)
        ensures
            r == self.arrival_stop_id,
    {
        self.arrival_stop_id
    }

    pub fn set_arrival_stop_id(&mut self, value: i32)
        ensures
            *final(self) == (RouteSection { arrival_stop_id: value, ..*old(self) }),
    {
        self.arrival_stop_id = value;
    }

    /// The journey of this section.
    pub fn journey<'a>(&'a self, data_storage: &'a DataStorage) -> (r: &'a Journey)
        requires
            data_storage.ids_unique(),
            data_storage.has_journey(self.journey_id),
        ensures
            *r == data_storage.journey_of(self.journey_id),
    {
        data_storage.find_journey(self.journey_id)
    }
}

/// A route under construction: its sections and the stops it has passed.
pub struct Node {
    pub route_sections: Vec<RouteSection>,
    pub visited_stops: HashSet<i32>,
}

/// What a route under construction holds.
pub struct NodeView {
    pub sections: Seq<RouteSection>,
    pub visited: Set<i32>,
}

impl View for Node {
    type V = NodeView;

    open spec fn view(&self) -> NodeView {
        NodeView { sections: self.route_sections@, visited: self.visited_stops@ }
    }
}

/// The time at which the journey of the last section reaches (the first stop of its route
/// that is) the section's arrival stop.
pub open spec fn arrival_time_of(s: DataStorage, n: NodeView) -> Option<Time> {
    let section = n.sections.last();
    let route = s.journey_of(section.journey_id).route@;
    match position(route, section.arrival_stop_id) {
        Some(p) => route[p].arrival_time,
        None => None,
    }
}

/// The departure time of a journey at (the first stop of its route that is) `stop`.
pub open spec fn departure_time_at(j: Journey, stop: i32) -> Option<Time> {
    match position(j.route@, stop) {
        Some(p) => j.route@[p].departure_time,
        None => None,
    }
}

impl Node {
    pub fn new(route_sections: Vec<RouteSection>, visited_stops: HashSet<i32>) -> (r: Self)
        ensures
            r.route_sections@ == route_sections@,
            r.visited_stops@ == visited_stops@,
    {
        Self { route_sections, visited_stops }
    }

    pub fn route_sections(&self) -> (r: &Vec<RouteSection>)
        ensures
            r@ == self.route_sections@,
    {
        &self.route_sections
    }

    pub fn visited_stops(&self) -> (r: &HashSet<i32>)
        ensures
            r@ == self.visited_stops@,
    {
        &self.visited_stops
    }

    /// When the route reaches the arrival stop of its last section.
    pub fn arrival_time(&self, data_storage: &DataStorage) -> (r: Time)
        requires
            data_storage.ids_unique(),
            self.route_sections.len() > 0,
            data_storage.has_journey(self.route_sections@.last().journey_id),
            arrival_time_of(*data_storage, self@) is Some,
        ensures
            Some(r) == arrival_time_of(*data_storage, self@),
    {
        let route_section = &self.route_sections[self.route_sections.len() - 1];
        let journey = route_section.journey(data_storage);
        match find_position(&journey.route, route_section.arrival_stop_id) {
            Some(p) => match journey.route[p].arrival_time {
                Some(t) => t,
                None => {
                    assert(false);
                    Time { hour: 0, minute: 0 }
                },
            },
            None => {
                assert(false);
                Time { hour: 0, minute: 0 }
            },
        }
    }
}

/// A timetable ready for planning.
pub struct Hrdf {
    pub data_storage: DataStorage,
}

impl Hrdf {
    pub fn new(data_storage: DataStorage) -> (r: Hrdf)
        ensures
            r.data_storage == data_storage,
    {
        Hrdf { data_storage }
    }

    pub fn data_storage(&self) -> (r: &DataStorage)
        ensures
            *r == self.data_storage,
    {
        &self.data_storage
    }
}

// ------------------------------------------------------------------------------------------------
// --- Following a journey
// ------------------------------------------------------------------------------------------------

/// At position `j` of the route a route section ends: the stop is known and a change is
/// possible there, or it is the target.
pub open spec fn exits_at(
    s: DataStorage,
    route: Seq<JourneyRouteEntry>,
    j: int,
    target: i32,
) -> bool {
    &&& s.has_stop(route[j].stop_id)
    &&& (s.stop_of(route[j].stop_id).transfer_flag != 0 || route[j].stop_id == target)
}

/// The first position at or after `j` where a route section ends.
pub open spec fn exit_from(s: DataStorage, route: Seq<JourneyRouteEntry>, j: int, target: i32) -> Option<int>
    decreases route.len() - j,
{
    if j < 0 || j >= route.len() {
        None
    } else if exits_at(s, route, j, target) {
        Some(j)
    } else {
        exit_from(s, route, j + 1, target)
    }
}

pub proof fn lemma_exit_from(s: DataStorage, route: Seq<JourneyRouteEntry>, j: int, target: i32)
    requires
        0 <= j,
    ensures
        match exit_from(s, route, j, target) {
            Some(e) => j <= e < route.len() && exits_at(s, route, e, target) && forall|m: int|
                j <= m < e ==> !exits_at(s, route, m, target),
            None => forall|m: int| j <= m < route.len() ==> !exits_at(s, route, m, target),
        },
    decreases route.len() - j,
{
    if j < route.len() && !exits_at(s, route, j, target) {
        lemma_exit_from(s, route, j + 1, target);
    }
}

/// Every stop after position `d` that the journey is followed to is known.
pub open spec fn stops_known_until_exit(
    s: DataStorage,
    route: Seq<JourneyRouteEntry>,
    d: int,
    target: i32,
) -> bool {
    forall|j: int|
        d < j < route.len() && (forall|m: int| d < m < j ==> !exits_at(s, route, m, target))
            ==> s.has_stop(#[trigger] route[j].stop_id)
}

/// The section of `journey` from (the first stop of its route that is) `departure_stop_id`
/// to the next stop where a change is possible or that is the target, with the stops
/// passed after the departure up to and including that stop; none where the journey ends
/// before.
pub open spec fn next_route_section_spec(
    s: DataStorage,
    journey: Journey,
    departure_stop_id: i32,
    target_arrival_stop_id: i32,
) -> Option<(RouteSection, Set<i32>)> {
    let route = journey.route@;
    match position(route, departure_stop_id) {
        None => None,
        Some(d) => match exit_from(s, route, d + 1, target_arrival_stop_id) {
            None => None,
            Some(e) => Some(
                (
                    RouteSection {
                        journey_id: journey.id,
                        departure_stop_id,
                        arrival_stop_id: route[e].stop_id,
                    },
                    Set::new(|x: i32| exists|k: int| d < k <= e && route[k].stop_id == x),
                ),
            ),
        },
    }
}

/// Whether a journey can be followed from `departure_stop_id`: its route serves the stop
/// and every stop it is followed to is known.
pub open spec fn can_follow(
    s: DataStorage,
    journey: Journey,
    departure_stop_id: i32,
    target_arrival_stop_id: i32,
) -> bool {
    match position(journey.route@, departure_stop_id) {
        Some(d) => stops_known_until_exit(s, journey.route@, d, target_arrival_stop_id),
        None => false,
    }
}

/// The sections of `sections` followed by `section`: where the last one is on the same
/// journey, it is extended to the new arrival stop.
pub open spec fn merged_sections(sections: Seq<RouteSection>, journey_id: i32, section: RouteSection) -> Seq<RouteSection> {
    if sections.last().journey_id == journey_id {
        sections.update(
            sections.len() - 1,
            RouteSection { arrival_stop_id: section.arrival_stop_id, ..sections.last() },
        )
    } else {
        sections.push(section)
    }
}

/// The route `parent` extended along the journey `journey_id` from `departure_stop_id`.
pub open spec fn created_node_spec(
    s: DataStorage,
    parent: NodeView,
    journey_id: i32,
    departure_stop_id: i32,
    target_arrival_stop_id: i32,
) -> Option<NodeView> {
    match next_route_section_spec(
        s,
        s.journey_of(journey_id),
        departure_stop_id,
        target_arrival_stop_id,
    ) {
        None => None,
        Some((section, stops)) => Some(
            NodeView {
                sections: merged_sections(parent.sections, journey_id, section),
                visited: parent.visited.union(stops),
            },
        ),
    }
}

/// A journey of the storage can be followed from any stop its route serves.
pub proof fn lemma_storage_journey_can_follow(s: DataStorage, i: int, stop: i32, target: i32)
    requires
        s.wf(),
        0 <= i < s.journeys.len(),
        serves(s.journeys@[i].route@, stop),
    ensures
        can_follow(s, s.journeys@[i], stop, target),
{
    lemma_position(s.journeys@[i].route@, stop);
    let route = s.journeys@[i].route@;
    assert forall|j: int|
        #![trigger route[j]]
        0 <= j < route.len() implies s.has_stop(route[j].stop_id) by {
        assert(s.has_stop(s.journeys@[i].route@[j].stop_id));
    }
}

/// The journey numbered `id` is the one at its position in the storage.
pub proof fn lemma_journey_of(s: DataStorage, id: i32)
    requires
        s.has_journey(id),
    ensures
        0 <= s.journey_index(id) < s.journeys.len(),
        s.journey_of(id).id == id,
{
}

/// A set of stop numbers made of the members of `a` and `b`.
fn union_into(target: &mut HashSet<i32>, source: &HashSet<i32>)
    ensures
        final(target)@ == old(target)@.union(source@),
{
    broadcast use vstd::seq_lib::group_seq_properties;

    let ghost start = target@;
    let ghost mut seen: Seq<i32> = Seq::empty();
    for x in it: source.iter()
        invariant
            seen == it.seq().unref().take(it.index() as int),
            target@ == start.union(seen.to_set()),
            it.seq().unref().to_set() == source@,
    {
        let ghost before = seen;
        target.insert(*x);
        proof {
            seen = seen.push(*x);
        }
        assert(it.seq().unref().take(it.index() + 1) =~= seen);
        assert(seen.to_set() =~= before.to_set().insert(*x)) by {
            assert forall|y: i32| seen.contains(y) <==> (before.contains(y) || y == *x) by {
                if seen.contains(y) {
                    let k = choose|k: int| 0 <= k < seen.len() && seen[k] == y;
                    if k < before.len() {
                        assert(before[k] == y);
                    }
                }
                if before.contains(y) {
                    let k = choose|k: int| 0 <= k < before.len() && before[k] == y;
                    assert(seen[k] == y);
                }
                if y == *x {
                    assert(seen[before.len() as int] == y);
                }
            }
        }
    }
    assert(target@ =~= start.union(source@));
}

impl Hrdf {
    /// Follows a route from the stop where it is: see `next_route_section_spec`.
    pub fn get_next_route_section(
        &self,
        journey: &Journey,
        departure_stop_id: i32,
        target_arrival_stop_id: i32,
    ) -> (r: Option<(RouteSection, HashSet<i32>)>)
        requires
            self.data_storage.ids_unique(),
            can_follow(self.data_storage, *journey, departure_stop_id, target_arrival_stop_id),
        ensures
            match next_route_section_spec(
                self.data_storage,
                *journey,
                departure_stop_id,
                target_arrival_stop_id,
            ) {
                None => r is None,
                Some((section, stops)) => r matches Some((rs, visited)) && rs == section
                    && visited@ == stops,
            },
    {
        let data_storage = &self.data_storage;
        let ghost route = journey.route@;
        proof {
            lemma_position(route, departure_stop_id);
        }
        let d = match find_position(&journey.route, departure_stop_id) {
            Some(d) => d,
            None => {
                assert(false);
                0
            },
        };
        let mut visited_stops: HashSet<i32> = HashSet::new();
        let mut j: usize = d + 1;
        while j < journey.route.len()
            invariant
                data_storage.ids_unique(),
                *data_storage == self.data_storage,
                route == journey.route@,
                d < j <= route.len(),
                position(route, departure_stop_id) == Some(d as int),
                stops_known_until_exit(*data_storage, route, d as int, target_arrival_stop_id),
                forall|m: int| d < m < j ==> !exits_at(*data_storage, route, m, target_arrival_stop_id),
                exit_from(*data_storage, route, d + 1, target_arrival_stop_id) == exit_from(
                    *data_storage,
                    route,
                    j as int,
                    target_arrival_stop_id,
                ),
                visited_stops@ == Set::new(
                    |x: i32| exists|k: int| d < k < j && route[k].stop_id == x,
                ),
            decreases route.len() - j,
        {
            let stop_id = journey.route[j].stop_id;
            assert(data_storage.has_stop(route[j as int].stop_id));
            let stop = data_storage.find_stop(stop_id);
            let ghost before = visited_stops@;
            visited_stops.insert(stop.id);
            assert(visited_stops@ =~= Set::new(
                |x: i32| exists|k: int| d < k < j + 1 && route[k].stop_id == x,
            )) by {
                assert forall|x: i32|
                    (exists|k: int| d < k < j + 1 && route[k].stop_id == x) implies #[trigger] visited_stops@.contains(x) by {
                    let k = choose|k: int| d < k < j + 1 && route[k].stop_id == x;
                    if k < j {
                        assert(before.contains(x));
                    }
                }
            }
            if stop.transfer_flag != 0 || stop.id == target_arrival_stop_id {
                assert(exits_at(*data_storage, route, j as int, target_arrival_stop_id));
                return Some(
                    (RouteSection::new(journey.id, departure_stop_id, stop.id), visited_stops),
                );
            }
            j = j + 1;
        }
        None
    }

    /// Extends `parent_node` along the journey `journey_id` from `departure_stop_id`: see
    /// `created_node_spec`.
    pub fn create_node(
        &self,
        parent_node: &Node,
        journey_id: i32,
        departure_stop_id: i32,
        target_arrival_stop_id: i32,
    ) -> (r: Option<Node>)
        requires
            self.data_storage.ids_unique(),
            self.data_storage.has_journey(journey_id),
            can_follow(
                self.data_storage,
                self.data_storage.journey_of(journey_id),
                departure_stop_id,
                target_arrival_stop_id,
            ),
            parent_node.route_sections.len() > 0,
        ensures
            match created_node_spec(
                self.data_storage,
                parent_node@,
                journey_id,
                departure_stop_id,
                target_arrival_stop_id,
            ) {
                None => r is None,
                Some(n) => r matches Some(node) && node@ == n,
            },
    {
        let journey = self.data_storage.find_journey(journey_id);
        proof {
            lemma_journey_of(self.data_storage, journey_id);
        }
        match self.get_next_route_section(
            journey,
            departure_stop_id,
            target_arrival_stop_id,
        ) {
            None => None,
            Some((route_section, new_visited_stops)) => {
                let mut route_sections = parent_node.route_sections.clone();
                assert(route_sections@ =~= parent_node.route_sections@);
                let last = route_sections.len() - 1;
                if route_sections[last].journey_id == journey_id {
                    let mut section = route_sections[last];
                    section.set_arrival_stop_id(route_section.arrival_stop_id);
                    route_sections.set(last, section);
                } else {
                    route_sections.push(route_section);
                }
                let mut visited_stops: HashSet<i32> = HashSet::new();
                union_into(&mut visited_stops, &parent_node.visited_stops);
                union_into(&mut visited_stops, &new_visited_stops);
                assert(visited_stops@ =~= parent_node.visited_stops@.union(new_visited_stops@));
                Some(Node::new(route_sections, visited_stops))
            },
        }
    }
}

impl Hrdf {
    /// The departure time of `journey` at (the first stop of its route that is) `stop_id`.
    pub fn get_departure_time(&self, journey: &Journey, stop_id: i32) -> (r: Time)
        requires
            departure_time_at(*journey, stop_id) is Some,
        ensures
            Some(r) == departure_time_at(*journey, stop_id),
    {
        match find_position(&journey.route, stop_id) {
            Some(p) => match journey.route[p].departure_time {
                Some(t) => t,
                None => {
                    assert(false);
                    Time { hour: 0, minute: 0 }
                },
            },
            None => {
                assert(false);
                Time { hour: 0, minute: 0 }
            },
        }
    }
}


// ------------------------------------------------------------------------------------------------
// --- Departures
// ------------------------------------------------------------------------------------------------

/// The journey runs on `date` and its route serves `stop`.
pub open spec fn is_candidate(j: Journey, date: Date, stop: i32) -> bool {
    operates_on(j, date) && serves(j.route@, stop)
}

/// The journeys of `js` that run on `date` and serve `stop`, in order.
pub open spec fn candidates_from(js: Seq<Journey>, date: Date, stop: i32) -> Seq<Journey>
    decreases js.len(),
{
    if js.len() == 0 {
        Seq::empty()
    } else {
        let rest = candidates_from(js.drop_last(), date, stop);
        if is_candidate(js.last(), date, stop) {
            rest.push(js.last())
        } else {
            rest
        }
    }
}

/// The journeys of the storage that run on `date` and serve `stop`, in storage order.
pub open spec fn operating_journeys_spec(s: DataStorage, date: Date, stop: i32) -> Seq<Journey> {
    candidates_from(s.journeys@, date, stop)
}

/// The journeys that references point to.
pub open spec fn derefs(v: Seq<&Journey>) -> Seq<Journey> {
    v.map_values(|j: &Journey| *j)
}

/// A journey of the storage that runs on `date`, serves `stop` and departs there.
pub open spec fn usable_departure(s: DataStorage, j: Journey, stop: i32, date: Date) -> bool {
    &&& exists|i: int| 0 <= i < s.journeys.len() && s.journeys@[i] == j
    &&& is_candidate(j, date, stop)
    &&& departure_time_at(j, stop) is Some
}

/// Every journey of the storage that runs on `date` and serves `stop` departs there.
pub open spec fn departures_defined(s: DataStorage, stop: i32, date: Date) -> bool {
    forall|i: int|
        0 <= i < s.journeys.len() && is_candidate(#[trigger] s.journeys@[i], date, stop)
            ==> departure_time_at(s.journeys@[i], stop) is Some
}

/// The departure time of `j` at `stop`.
pub open spec fn departure_key(j: Journey, stop: i32) -> Time {
    departure_time_at(j, stop)->0
}

/// The first position at or after `k` in `sorted` whose journey departs strictly after `x`.
pub open spec fn insert_position_from(sorted: Seq<Journey>, x: Journey, stop: i32, k: int) -> int
    decreases sorted.len() - k,
{
    if k < 0 || k >= sorted.len() {
        sorted.len() as int
    } else if time_before(departure_key(x, stop), departure_key(sorted[k], stop)) {
        k
    } else {
        insert_position_from(sorted, x, stop, k + 1)
    }
}

/// `js` sorted by departure time at `stop`, journeys with equal times in their order in
/// `js` (a stable sort).
pub open spec fn sorted_by_departure(js: Seq<Journey>, stop: i32) -> Seq<Journey>
    decreases js.len(),
{
    if js.len() == 0 {
        js
    } else {
        let sorted = sorted_by_departure(js.drop_last(), stop);
        sorted.insert(insert_position_from(sorted, js.last(), stop, 0), js.last())
    }
}

/// The journeys of `js` that depart at `stop` no earlier than `time`.
pub open spec fn departing_from(js: Seq<Journey>, stop: i32, time: Time) -> Seq<Journey>
    decreases js.len(),
{
    if js.len() == 0 {
        js
    } else {
        let rest = departing_from(js.drop_last(), stop, time);
        if !time_before(departure_key(js.last(), stop), time) {
            rest.push(js.last())
        } else {
            rest
        }
    }
}

/// The first five of `js`, or all where there are fewer.
pub open spec fn first_five(js: Seq<Journey>) -> Seq<Journey> {
    if js.len() <= 5 {
        js
    } else {
        js.take(5)
    }
}

/// The (at most five) next journeys leaving `stop` on `date` at `time` or later, by
/// departure time.
pub open spec fn next_departures_spec(s: DataStorage, stop: i32, date: Date, time: Time) -> Seq<
    Journey,
> {
    first_five(
        departing_from(sorted_by_departure(operating_journeys_spec(s, date, stop), stop), stop, time),
    )
}

proof fn lemma_insert_position(sorted: Seq<Journey>, x: Journey, stop: i32, k: int)
    requires
        0 <= k <= sorted.len(),
    ensures
        k <= insert_position_from(sorted, x, stop, k) <= sorted.len(),
    decreases sorted.len() - k,
{
    if k < sorted.len() && !time_before(departure_key(x, stop), departure_key(sorted[k], stop)) {
        lemma_insert_position(sorted, x, stop, k + 1);
    }
}

impl Hrdf {
    /// Whether `journey` runs on `date`.
    pub(crate) fn operates(journey: &Journey, date: Date) -> (r: bool)
        ensures
            r == operates_on(*journey, date),
    {
        let mut i: usize = 0;
        while i < journey.operating_days.len()
            invariant
                i <= journey.operating_days.len(),
                forall|k: int| 0 <= k < i ==> journey.operating_days@[k] != date,
            decreases journey.operating_days.len() - i,
        {
            if journey.operating_days[i] == date {
                assert(journey.operating_days@[i as int] == date);
                return true;
            }
            i = i + 1;
        }
        false
    }

    /// The journeys that run on `date` and serve `stop_id`, in storage order.
    pub fn get_operating_journeys(&self, date: Date, stop_id: i32) -> (r: Vec<&Journey>)
        ensures
            derefs(r@) == operating_journeys_spec(self.data_storage, date, stop_id),
            forall|k: int|
                0 <= k < r.len() ==> (exists|i: int|
                    0 <= i < self.data_storage.journeys.len() && self.data_storage.journeys@[i]
                        == *r@[k]) && is_candidate(*#[trigger] r@[k], date, stop_id),
    {
        let journeys = &self.data_storage.journeys;
        let mut result: Vec<&Journey> = Vec::new();
        let mut i: usize = 0;
        while i < journeys.len()
            invariant
                i <= journeys.len(),
                journeys@ == self.data_storage.journeys@,
                derefs(result@) == candidates_from(journeys@.take(i as int), date, stop_id),
                forall|k: int|
                    0 <= k < result.len() ==> (exists|m: int|
                        0 <= m < journeys.len() && journeys@[m] == *result@[k]) && is_candidate(
                        *#[trigger] result@[k],
                        date,
                        stop_id,
                    ),
            decreases journeys.len() - i,
        {
            assert(journeys@.take(i + 1).drop_last() =~= journeys@.take(i as int));
            let ghost before = result@;
            proof {
                lemma_position(journeys@[i as int].route@, stop_id);
            }
            if Self::operates(&journeys[i], date) && find_position(
                &journeys[i].route,
                stop_id,
            ).is_some() {
                result.push(&journeys[i]);
                assert(derefs(result@) =~= derefs(before).push(journeys@[i as int]));
            }
            i = i + 1;
        }
        assert(journeys@.take(journeys.len() as int) =~= journeys@);
        result
    }

    /// The (at most five) next journeys leaving `stop_id` on `date` at `time` or later,
    /// by departure time (equal times in storage order).
    pub fn next_departures(&self, stop_id: i32, date: Date, time: Time) -> (r: Vec<&Journey>)
        requires
            departures_defined(self.data_storage, stop_id, date),
        ensures
            derefs(r@) == next_departures_spec(self.data_storage, stop_id, date, time),
            forall|k: int|
                0 <= k < r.len() ==> usable_departure(
                    self.data_storage,
                    *#[trigger] r@[k],
                    stop_id,
                    date,
                ),
    {
        let journeys = self.get_operating_journeys(date, stop_id);
        let ghost all = derefs(journeys@);
        let mut sorted: Vec<&Journey> = Vec::new();
        let mut i: usize = 0;
        while i < journeys.len()
            invariant
                i <= journeys.len(),
                all == derefs(journeys@),
                departures_defined(self.data_storage, stop_id, date),
                forall|k: int|
                    0 <= k < journeys.len() ==> (exists|m: int|
                        0 <= m < self.data_storage.journeys.len()
                            && self.data_storage.journeys@[m] == *journeys@[k]) && is_candidate(
                        *#[trigger] journeys@[k],
                        date,
                        stop_id,
                    ),
                derefs(sorted@) == sorted_by_departure(all.take(i as int), stop_id),
                forall|k: int|
                    0 <= k < sorted.len() ==> usable_departure(
                        self.data_storage,
                        *#[trigger] sorted@[k],
                        stop_id,
                        date,
                    ),
            decreases journeys.len() - i,
        {
            assert(all.take(i + 1).drop_last() =~= all.take(i as int));
            let x = journeys[i];
            assert(usable_departure(self.data_storage, *x, stop_id, date)) by {
                let m = choose|m: int|
                    0 <= m < self.data_storage.journeys.len() && self.data_storage.journeys@[m]
                        == *journeys@[i as int];
                assert(is_candidate(self.data_storage.journeys@[m], date, stop_id));
            }
            let key = self.get_departure_time(x, stop_id);
            let ghost s = derefs(sorted@);
            let mut k: usize = 0;
            while k < sorted.len() && !key.is_before(&self.get_departure_time(sorted[k], stop_id))
                invariant
                    k <= sorted.len(),
                    s == derefs(sorted@),
                    key == departure_key(*x, stop_id),
                    insert_position_from(s, *x, stop_id, 0) == insert_position_from(
                        s,
                        *x,
                        stop_id,
                        k as int,
                    ),
                    forall|m: int|
                        0 <= m < sorted.len() ==> usable_departure(
                            self.data_storage,
                            *#[trigger] sorted@[m],
                            stop_id,
                            date,
                        ),
                decreases sorted.len() - k,
            {
                k = k + 1;
            }
            let ghost old_sorted = sorted@;
            sorted.insert(k, x);
            assert(derefs(sorted@) =~= s.insert(k as int, *x));
            assert forall|m: int| 0 <= m < sorted.len() implies usable_departure(
                self.data_storage,
                *#[trigger] sorted@[m],
                stop_id,
                date,
            ) by {
                if m < k {
                    assert(sorted@[m] == old_sorted[m]);
                } else if m > k {
                    assert(sorted@[m] == old_sorted[m - 1]);
                }
            }
            i = i + 1;
        }
        assert(all.take(journeys.len() as int) =~= all);
        let ghost ordered = derefs(sorted@);
        let mut result: Vec<&Journey> = Vec::new();
        let mut k: usize = 0;
        while k < sorted.len()
            invariant
                k <= sorted.len(),
                ordered == derefs(sorted@),
                derefs(result@) == first_five(departing_from(ordered.take(k as int), stop_id, time)),
                forall|m: int|
                    0 <= m < sorted.len() ==> usable_departure(
                        self.data_storage,
                        *#[trigger] sorted@[m],
                        stop_id,
                        date,
                    ),
                forall|m: int|
                    0 <= m < result.len() ==> usable_departure(
                        self.data_storage,
                        *#[trigger] result@[m],
                        stop_id,
                        date,
                    ),
            decreases sorted.len() - k,
        {
            assert(ordered.take(k + 1).drop_last() =~= ordered.take(k as int));
            let ghost before = departing_from(ordered.take(k as int), stop_id, time);
            let ghost old_result = result@;
            assert(usable_departure(self.data_storage, *sorted@[k as int], stop_id, date));
            let departs = !self.get_departure_time(sorted[k], stop_id).is_before(&time);
            if departs {
                assert(departing_from(ordered.take(k + 1), stop_id, time) == before.push(
                    ordered[k as int],
                ));
                if result.len() < 5 {
                    result.push(sorted[k]);
                    assert(derefs(result@) =~= derefs(old_result).push(ordered[k as int]));
                    assert(first_five(before.push(ordered[k as int])) =~= before.push(
                        ordered[k as int],
                    ));
                } else {
                    assert(first_five(before.push(ordered[k as int])) =~= first_five(before));
                }
            }
            k = k + 1;
        }
        assert(ordered.take(sorted.len() as int) =~= ordered);
        result
    }
}


// ------------------------------------------------------------------------------------------------
// --- Planning
// ------------------------------------------------------------------------------------------------

/// The views of a sequence of routes.
pub open spec fn node_views(v: Seq<Node>) -> Seq<NodeView> {
    v.map_values(|n: Node| n@)
}

/// The routes that start with a section of each journey of `js` from `departure_stop_id`,
/// for the journeys that reach a stop where a change is possible or the target.
pub open spec fn initial_nodes_from(
    s: DataStorage,
    js: Seq<Journey>,
    departure_stop_id: i32,
    target_arrival_stop_id: i32,
) -> Seq<NodeView>
    decreases js.len(),
{
    if js.len() == 0 {
        Seq::empty()
    } else {
        let rest = initial_nodes_from(
            s,
            js.drop_last(),
            departure_stop_id,
            target_arrival_stop_id,
        );
        match next_route_section_spec(s, js.last(), departure_stop_id, target_arrival_stop_id) {
            None => rest,
            Some((section, stops)) => rest.push(NodeView { sections: seq![section], visited: stops }),
        }
    }
}

/// Each of the next departures can be followed from the departure stop.
pub open spec fn departures_followable(
    s: DataStorage,
    departure_stop_id: i32,
    target_arrival_stop_id: i32,
    departure_date: Date,
    departure_time: Time,
) -> bool {
    let js = next_departures_spec(s, departure_stop_id, departure_date, departure_time);
    forall|k: int|
        0 <= k < js.len() ==> can_follow(s, #[trigger] js[k], departure_stop_id, target_arrival_stop_id)
}

/// The routes the planner starts from: one for each of the next departures.
pub open spec fn initial_nodes_spec(
    s: DataStorage,
    departure_stop_id: i32,
    target_arrival_stop_id: i32,
    departure_date: Date,
    departure_time: Time,
) -> Seq<NodeView> {
    initial_nodes_from(
        s,
        next_departures_spec(s, departure_stop_id, departure_date, departure_time),
        departure_stop_id,
        target_arrival_stop_id,
    )
}

/// The route can be extended: it has a section whose journey is known and serves the
/// section's arrival stop.
pub open spec fn extendable(s: DataStorage, n: NodeView) -> bool {
    &&& n.sections.len() > 0
    &&& s.has_journey(n.sections.last().journey_id)
    &&& serves(s.journey_of(n.sections.last().journey_id).route@, n.sections.last().arrival_stop_id)
}

/// The journey numbered like a journey of the storage is that journey.
proof fn lemma_journey_of_member(s: DataStorage, i: int)
    requires
        s.ids_unique(),
        0 <= i < s.journeys.len(),
    ensures
        s.has_journey(s.journeys@[i].id),
        s.journey_of(s.journeys@[i].id) == s.journeys@[i],
{
    let id = s.journeys@[i].id;
    assert(s.has_journey(id));
    let c = s.journey_index(id);
    assert(s.journeys@[c].id == id);
}

impl Hrdf {
    /// The routes the planner starts from: for each of the next departures, the route
    /// with its first section, where the journey reaches a stop where a change is
    /// possible or the target.
    pub fn get_initial_nodes(
        &self,
        departure_stop_id: i32,
        target_arrival_stop_id: i32,
        departure_date: Date,
        departure_time: Time,
    ) -> (r: Vec<Node>)
        requires
            self.data_storage.ids_unique(),
            departures_defined(self.data_storage, departure_stop_id, departure_date),
            departures_followable(
                self.data_storage,
                departure_stop_id,
                target_arrival_stop_id,
                departure_date,
                departure_time,
            ),
        ensures
            node_views(r@) == initial_nodes_spec(
                self.data_storage,
                departure_stop_id,
                target_arrival_stop_id,
                departure_date,
                departure_time,
            ),
            forall|k: int| 0 <= k < r.len() ==> extendable(self.data_storage, #[trigger] r@[k]@),
    {
        let departures = self.next_departures(departure_stop_id, departure_date, departure_time);
        let ghost js = derefs(departures@);
        let mut nodes: Vec<Node> = Vec::new();
        let mut i: usize = 0;
        while i < departures.len()
            invariant
                i <= departures.len(),
                js == derefs(departures@),
                js == next_departures_spec(
                    self.data_storage,
                    departure_stop_id,
                    departure_date,
                    departure_time,
                ),
                self.data_storage.ids_unique(),
                departures_followable(
                    self.data_storage,
                    departure_stop_id,
                    target_arrival_stop_id,
                    departure_date,
                    departure_time,
                ),
                forall|k: int|
                    0 <= k < departures.len() ==> usable_departure(
                        self.data_storage,
                        *#[trigger] departures@[k],
                        departure_stop_id,
                        departure_date,
                    ),
                node_views(nodes@) == initial_nodes_from(
                    self.data_storage,
                    js.take(i as int),
                    departure_stop_id,
                    target_arrival_stop_id,
                ),
                forall|k: int|
                    0 <= k < nodes.len() ==> extendable(self.data_storage, #[trigger] nodes@[k]@),
            decreases departures.len() - i,
        {
            assert(js.take(i + 1).drop_last() =~= js.take(i as int));
            let journey = departures[i];
            assert(usable_departure(self.data_storage, *departures@[i as int], departure_stop_id, departure_date));
            let ghost m = choose|m: int|
                0 <= m < self.data_storage.journeys.len() && self.data_storage.journeys@[m]
                    == *journey;
            proof {
                assert(js[i as int] == *journey);
                lemma_journey_of_member(self.data_storage, m);
            }
            let ghost before = nodes@;
            match self.get_next_route_section(
                journey,
                departure_stop_id,
                target_arrival_stop_id,
            ) {
                Some((route_section, visited_stops)) => {
                    let mut sections: Vec<RouteSection> = Vec::new();
                    sections.push(route_section);
                    let node = Node::new(sections, visited_stops);
                    assert(node@.sections =~= seq![route_section]);
                    nodes.push(node);
                    assert(node_views(nodes@) =~= node_views(before).push(node@));
                    proof {
                        let route = journey.route@;
                        lemma_position(route, departure_stop_id);
                        let d = position(route, departure_stop_id)->0;
                        lemma_exit_from(self.data_storage, route, d + 1, target_arrival_stop_id);
                        let e = exit_from(self.data_storage, route, d + 1, target_arrival_stop_id)->0;
                        assert(route[e].stop_id == route_section.arrival_stop_id);
                        assert(extendable(self.data_storage, node@));
                    }
                },
                None => {},
            }
            i = i + 1;
        }
        assert(js.take(departures.len() as int) =~= js);
        nodes
    }
}

// ------------------------------------------------------------------------------------------------
// --- Showing a route
// ------------------------------------------------------------------------------------------------

/// The stops of a section's journey from (the first stop of its route that is) the
/// departure stop to the first following stop, or that stop itself, that is the arrival
/// stop.
pub open spec fn section_entries_spec(s: DataStorage, section: RouteSection) -> Seq<JourneyRouteEntry> {
    let route = s.journey_of(section.journey_id).route@;
    let d = position(route, section.departure_stop_id)->0;
    let a = position_from(route, section.arrival_stop_id, d)->0;
    route.subrange(d, a + 1)
}

/// The section can be shown: its journey is known, and its route serves the departure
/// stop and, from there on, the arrival stop.
pub open spec fn section_showable(s: DataStorage, section: RouteSection) -> bool {
    let route = s.journey_of(section.journey_id).route@;
    &&& s.has_journey(section.journey_id)
    &&& position(route, section.departure_stop_id) is Some
    &&& position_from(route, section.arrival_stop_id, position(route, section.departure_stop_id)->0) is Some
}

/// Whether the section can be shown: see `section_showable`.
pub fn check_section_showable(data_storage: &DataStorage, section: &RouteSection) -> (r: bool)
    requires
        data_storage.ids_unique(),
    ensures
        r == section_showable(*data_storage, *section),
{
    let mut i: usize = 0;
    let mut known = false;
    while i < data_storage.journeys.len() && !known
        invariant
            i <= data_storage.journeys.len(),
            known ==> data_storage.has_journey(section.journey_id),
            !known ==> forall|k: int| 0 <= k < i ==> data_storage.journeys@[k].id != section.journey_id,
        decreases data_storage.journeys.len() - i,
    {
        if data_storage.journeys[i].id == section.journey_id {
            assert(data_storage.journeys@[i as int].id == section.journey_id);
            known = true;
        }
        i = i + 1;
    }
    if !known {
        return false;
    }
    let journey = section.journey(data_storage);
    let ghost route = journey.route@;
    let d = match find_position(&journey.route, section.departure_stop_id) {
        Some(d) => d,
        None => {
            return false;
        },
    };
    proof {
        crate::storage::lemma_position_from(route, section.arrival_stop_id, d as int);
    }
    let mut k: usize = d;
    while k < journey.route.len()
        invariant
            route == journey.route@,
            route == data_storage.journey_of(section.journey_id).route@,
            data_storage.has_journey(section.journey_id),
            position(route, section.departure_stop_id) == Some(d as int),
            d <= k <= route.len(),
            forall|m: int| d <= m < k ==> route[m].stop_id != section.arrival_stop_id,
        decreases route.len() - k,
    {
        if journey.route[k].stop_id == section.arrival_stop_id {
            proof {
                crate::storage::lemma_position_from(route, section.arrival_stop_id, d as int);
            }
            assert(route[k as int].stop_id == section.arrival_stop_id);
            return true;
        }
        k = k + 1;
    }
    false
}

/// The route entries that a section covers, from its departure to its arrival.
pub fn section_entries(data_storage: &DataStorage, section: &RouteSection) -> (r: Vec<JourneyRouteEntry>)
    requires
        data_storage.ids_unique(),
        section_showable(*data_storage, *section),
    ensures
        r@ == section_entries_spec(*data_storage, *section),
{
    let journey = section.journey(data_storage);
    let ghost route = journey.route@;
    let d = match find_position(&journey.route, section.departure_stop_id) {
        Some(d) => d,
        None => {
            assert(false);
            0
        },
    };
    proof {
        crate::storage::lemma_position_from(route, section.arrival_stop_id, d as int);
    }
    let mut entries: Vec<JourneyRouteEntry> = Vec::new();
    let mut k: usize = d;
    while k < journey.route.len()
        invariant
            route == journey.route@,
            route == data_storage.journey_of(section.journey_id).route@,
            position(route, section.departure_stop_id) == Some(d as int),
            d <= k <= route.len(),
            entries@ == route.subrange(d as int, k as int),
            position_from(route, section.arrival_stop_id, d as int) matches Some(a) && k <= a < route.len()
                && route[a].stop_id == section.arrival_stop_id,
            forall|m: int| d <= m < k ==> route[m].stop_id != section.arrival_stop_id,
            forall|m: int|
                d <= m < position_from(route, section.arrival_stop_id, d as int)->0 ==> route[m].stop_id
                    != section.arrival_stop_id,
        decreases route.len() - k,
    {
        entries.push(journey.route[k]);
        if journey.route[k].stop_id == section.arrival_stop_id {
            assert(entries@ =~= route.subrange(d as int, k + 1));
            return entries;
        }
        k = k + 1;
        assert(entries@ =~= route.subrange(d as int, k as int));
    }
    assert(false);
    entries
}


// ------------------------------------------------------------------------------------------------
// --- Laws
// ------------------------------------------------------------------------------------------------

/// The journeys are in order of departure time at `stop`.
pub open spec fn in_departure_order(js: Seq<Journey>, stop: i32) -> bool {
    forall|a: int, b: int|
        0 <= a < b < js.len() ==> !time_before(
            departure_key(#[trigger] js[b], stop),
            departure_key(#[trigger] js[a], stop),
        )
}

proof fn lemma_candidates_from(js: Seq<Journey>, date: Date, stop: i32)
    ensures
        forall|k: int|
            0 <= k < candidates_from(js, date, stop).len() ==> is_candidate(
                #[trigger] candidates_from(js, date, stop)[k],
                date,
                stop,
            ),
    decreases js.len(),
{
    if js.len() > 0 {
        lemma_candidates_from(js.drop_last(), date, stop);
        let c = candidates_from(js.drop_last(), date, stop);
        assert forall|k: int| 0 <= k < candidates_from(js, date, stop).len() implies is_candidate(
            #[trigger] candidates_from(js, date, stop)[k],
            date,
            stop,
        ) by {
            if k < c.len() {
                assert(candidates_from(js, date, stop)[k] == c[k]);
            }
        }
    }
}

proof fn lemma_sorted_by_departure(js: Seq<Journey>, stop: i32)
    ensures
        in_departure_order(sorted_by_departure(js, stop), stop),
        sorted_by_departure(js, stop).len() == js.len(),
        forall|k: int|
            0 <= k < js.len() ==> exists|m: int|
                0 <= m < js.len() && #[trigger] sorted_by_departure(js, stop)[k] == js[m],
    decreases js.len(),
{
    if js.len() > 0 {
        let rest = js.drop_last();
        lemma_sorted_by_departure(rest, stop);
        let s = sorted_by_departure(rest, stop);
        let x = js.last();
        let p = insert_position_from(s, x, stop, 0);
        lemma_insert_position(s, x, stop, 0);
        lemma_insert_position_bounds(s, x, stop, 0);
        let r = s.insert(p, x);
        assert forall|a: int, b: int| 0 <= a < b < r.len() implies !time_before(
            departure_key(#[trigger] r[b], stop),
            departure_key(#[trigger] r[a], stop),
        ) by {
            if b < p {
                assert(r[a] == s[a] && r[b] == s[b]);
            } else if b == p {
                assert(r[a] == s[a]);
            } else if a < p {
                assert(r[a] == s[a] && r[b] == s[b - 1]);
                assert(!time_before(departure_key(s[b - 1], stop), departure_key(s[p], stop)) || b - 1 == p);
            } else if a == p {
                assert(r[b] == s[b - 1]);
                assert(!time_before(departure_key(s[b - 1], stop), departure_key(s[p], stop)) || b - 1 == p);
            } else {
                assert(r[a] == s[a - 1] && r[b] == s[b - 1]);
            }
        }
        assert forall|k: int| 0 <= k < js.len() implies exists|m: int|
            0 <= m < js.len() && #[trigger] sorted_by_departure(js, stop)[k] == js[m] by {
            if k < p {
                assert(r[k] == s[k]);
                let m = choose|m: int| 0 <= m < rest.len() && s[k] == rest[m];
                assert(js[m] == rest[m]);
            } else if k == p {
                assert(r[k] == js[js.len() - 1]);
            } else {
                assert(r[k] == s[k - 1]);
                let m = choose|m: int| 0 <= m < rest.len() && s[k - 1] == rest[m];
                assert(js[m] == rest[m]);
            }
        }
    }
}

/// Before the insert position all journeys depart no later than `x`; from it on (where
/// there is one) the first departs strictly later.
proof fn lemma_insert_position_bounds(sorted: Seq<Journey>, x: Journey, stop: i32, k: int)
    requires
        0 <= k <= sorted.len(),
    ensures
        forall|m: int|
            k <= m < insert_position_from(sorted, x, stop, k) ==> !time_before(
                departure_key(x, stop),
                departure_key(#[trigger] sorted[m], stop),
            ),
        insert_position_from(sorted, x, stop, k) < sorted.len() ==> time_before(
            departure_key(x, stop),
            departure_key(sorted[insert_position_from(sorted, x, stop, k)], stop),
        ),
    decreases sorted.len() - k,
{
    if k < sorted.len() && !time_before(departure_key(x, stop), departure_key(sorted[k], stop)) {
        lemma_insert_position_bounds(sorted, x, stop, k + 1);
    }
}

proof fn lemma_departing_from(js: Seq<Journey>, stop: i32, time: Time)
    requires
        in_departure_order(js, stop),
    ensures
        in_departure_order(departing_from(js, stop, time), stop),
        forall|k: int|
            0 <= k < departing_from(js, stop, time).len() ==> !time_before(
                departure_key(#[trigger] departing_from(js, stop, time)[k], stop),
                time,
            ) && exists|m: int| 0 <= m < js.len() && departing_from(js, stop, time)[k] == js[m],
    decreases js.len(),
{
    if js.len() > 0 {
        let rest = js.drop_last();
        assert(in_departure_order(rest, stop)) by {
            assert forall|a: int, b: int| 0 <= a < b < rest.len() implies !time_before(
                departure_key(#[trigger] rest[b], stop),
                departure_key(#[trigger] rest[a], stop),
            ) by {
                assert(rest[a] == js[a] && rest[b] == js[b]);
            }
        }
        lemma_departing_from(rest, stop, time);
        let d = departing_from(rest, stop, time);
        assert forall|k: int| #![trigger d[k]] 0 <= k < d.len() implies exists|m: int|
            0 <= m < js.len() && d[k] == js[m] by {
            let m = choose|m: int| 0 <= m < rest.len() && d[k] == rest[m];
            assert(js[m] == rest[m]);
        }
        if !time_before(departure_key(js.last(), stop), time) {
            let r = d.push(js.last());
            assert forall|a: int, b: int| 0 <= a < b < r.len() implies !time_before(
                departure_key(#[trigger] r[b], stop),
                departure_key(#[trigger] r[a], stop),
            ) by {
                if b == r.len() - 1 {
                    let m = choose|m: int| 0 <= m < rest.len() && d[a] == rest[m];
                    assert(js[m] == d[a]);
                    assert(js[js.len() - 1] == r[b]);
                } else {
                    assert(r[a] == d[a] && r[b] == d[b]);
                }
            }
            assert forall|k: int| #![trigger r[k]] 0 <= k < r.len() implies exists|m: int|
                0 <= m < js.len() && r[k] == js[m] by {
                if k == r.len() - 1 {
                    assert(r[k] == js[js.len() - 1]);
                } else {
                    assert(r[k] == d[k]);
                }
            }
        }
    }
}

/// The next departures are at most five journeys of the storage that run on the date,
/// serve the stop and depart there no earlier than the given time, in order of departure.
pub proof fn lemma_next_departures(s: DataStorage, stop: i32, date: Date, time: Time)
    ensures
        ({
            let r = next_departures_spec(s, stop, date, time);
            &&& r.len() <= 5
            &&& in_departure_order(r, stop)
            &&& forall|k: int|
                0 <= k < r.len() ==> is_candidate(#[trigger] r[k], date, stop) && !time_before(
                    departure_key(r[k], stop),
                    time,
                ) && exists|m: int| 0 <= m < s.journeys.len() && r[k] == s.journeys@[m]
        }),
{
    let c = operating_journeys_spec(s, date, stop);
    lemma_candidates_from(s.journeys@, date, stop);
    lemma_candidates_members(s.journeys@, date, stop);
    lemma_sorted_by_departure(c, stop);
    let sorted = sorted_by_departure(c, stop);
    lemma_departing_from(sorted, stop, time);
    let d = departing_from(sorted, stop, time);
    let r = first_five(d);
    assert forall|k: int| 0 <= k < r.len() implies is_candidate(#[trigger] r[k], date, stop)
        && !time_before(departure_key(r[k], stop), time) && exists|m: int|
        0 <= m < s.journeys.len() && r[k] == s.journeys@[m] by {
        assert(r[k] == d[k]);
        let m1 = choose|m: int| 0 <= m < sorted.len() && d[k] == sorted[m];
        let m2 = choose|m: int| 0 <= m < c.len() && sorted[m1] == c[m];
        let m3 = choose|m: int| 0 <= m < s.journeys.len() && c[m2] == s.journeys@[m];
    }
    assert forall|a: int, b: int| 0 <= a < b < r.len() implies !time_before(
        departure_key(#[trigger] r[b], stop),
        departure_key(#[trigger] r[a], stop),
    ) by {
        assert(r[a] == d[a] && r[b] == d[b]);
    }
}

proof fn lemma_candidates_members(js: Seq<Journey>, date: Date, stop: i32)
    ensures
        forall|k: int|
            0 <= k < candidates_from(js, date, stop).len() ==> exists|m: int|
                0 <= m < js.len() && #[trigger] candidates_from(js, date, stop)[k] == js[m],
    decreases js.len(),
{
    if js.len() > 0 {
        let rest = js.drop_last();
        lemma_candidates_members(rest, date, stop);
        let c = candidates_from(rest, date, stop);
        assert forall|k: int| 0 <= k < candidates_from(js, date, stop).len() implies exists|m: int|
            0 <= m < js.len() && #[trigger] candidates_from(js, date, stop)[k] == js[m] by {
            if k < c.len() {
                let m = choose|m: int| 0 <= m < rest.len() && c[k] == rest[m];
                assert(js[m] == rest[m]);
                assert(candidates_from(js, date, stop)[k] == c[k]);
            } else {
                assert(candidates_from(js, date, stop)[k] == js[js.len() - 1]);
            }
        }
    }
}

/// Every journey of `js` that runs on `date` and serves `stop` is among the candidates.
proof fn lemma_candidates_complete(js: Seq<Journey>, date: Date, stop: i32)
    ensures
        forall|i: int|
            0 <= i < js.len() && operates_on(#[trigger] js[i], date) && serves(js[i].route@, stop)
                ==> candidates_from(js, date, stop).contains(js[i]),
    decreases js.len(),
{
    if js.len() > 0 {
        let rest = js.drop_last();
        lemma_candidates_complete(rest, date, stop);
        let c = candidates_from(rest, date, stop);
        let all = candidates_from(js, date, stop);
        assert forall|i: int|
            0 <= i < js.len() && operates_on(#[trigger] js[i], date) && serves(js[i].route@, stop)
                implies all.contains(js[i]) by {
            if i < js.len() - 1 {
                assert(rest[i] == js[i]);
                assert(c.contains(rest[i]));
                let k = choose|k: int| 0 <= k < c.len() && c[k] == rest[i];
                assert(all[k] == c[k]);
            } else {
                assert(all[all.len() - 1] == js[i]);
            }
        }
    }
}

/// The journeys operating at a stop on a date are exactly the journeys of the storage
/// that run on that date and whose route serves the stop, wherever on the route, each
/// in storage order.
pub proof fn lemma_operating_journeys(s: DataStorage, date: Date, stop: i32)
    ensures
        forall|i: int|
            0 <= i < s.journeys.len() && operates_on(#[trigger] s.journeys@[i], date) && serves(
                s.journeys@[i].route@,
                stop,
            ) ==> operating_journeys_spec(s, date, stop).contains(s.journeys@[i]),
        forall|k: int|
            0 <= k < operating_journeys_spec(s, date, stop).len() ==> operates_on(
                #[trigger] operating_journeys_spec(s, date, stop)[k],
                date,
            ) && serves(operating_journeys_spec(s, date, stop)[k].route@, stop) && exists|m: int|
                0 <= m < s.journeys.len() && operating_journeys_spec(s, date, stop)[k]
                    == s.journeys@[m],
{
    lemma_candidates_complete(s.journeys@, date, stop);
    lemma_candidates_from(s.journeys@, date, stop);
    lemma_candidates_members(s.journeys@, date, stop);
}

/// Sorting keeps every journey.
proof fn lemma_sorted_keeps(js: Seq<Journey>, stop: i32)
    ensures
        forall|m: int| 0 <= m < js.len() ==> sorted_by_departure(js, stop).contains(#[trigger] js[m]),
    decreases js.len(),
{
    if js.len() > 0 {
        let rest = js.drop_last();
        lemma_sorted_keeps(rest, stop);
        let s = sorted_by_departure(rest, stop);
        let x = js.last();
        let p = insert_position_from(s, x, stop, 0);
        lemma_insert_position(s, x, stop, 0);
        let r = s.insert(p, x);
        assert(r == sorted_by_departure(js, stop));
        assert forall|m: int| 0 <= m < js.len() implies r.contains(#[trigger] js[m]) by {
            if m < js.len() - 1 {
                assert(rest[m] == js[m]);
                assert(s.contains(rest[m]));
                let k = choose|k: int| 0 <= k < s.len() && s[k] == rest[m];
                if k < p {
                    assert(r[k] == s[k]);
                } else {
                    assert(r[k + 1] == s[k]);
                }
            } else {
                assert(r[p] == x);
            }
        }
    }
}

/// Keeping the journeys that depart no earlier than `time` keeps each of them.
proof fn lemma_departing_keeps(js: Seq<Journey>, stop: i32, time: Time)
    ensures
        forall|m: int|
            0 <= m < js.len() && !time_before(departure_key(#[trigger] js[m], stop), time)
                ==> departing_from(js, stop, time).contains(js[m]),
    decreases js.len(),
{
    if js.len() > 0 {
        let rest = js.drop_last();
        lemma_departing_keeps(rest, stop, time);
        let d = departing_from(rest, stop, time);
        let all = departing_from(js, stop, time);
        assert forall|m: int|
            0 <= m < js.len() && !time_before(departure_key(#[trigger] js[m], stop), time)
                implies all.contains(js[m]) by {
            if m < js.len() - 1 {
                assert(rest[m] == js[m]);
                assert(d.contains(rest[m]));
                let k = choose|k: int| 0 <= k < d.len() && d[k] == rest[m];
                assert(all[k] == d[k]);
            } else {
                assert(all[all.len() - 1] == js[m]);
            }
        }
    }
}

/// No departure is left out: every journey of the storage that runs on the date, serves
/// the stop and departs there at the given time or later is among the next departures,
/// unless five journeys that depart no later than it are.
pub proof fn lemma_next_departures_complete(s: DataStorage, stop: i32, date: Date, time: Time)
    ensures
        forall|i: int|
            0 <= i < s.journeys.len() && operates_on(#[trigger] s.journeys@[i], date) && serves(
                s.journeys@[i].route@,
                stop,
            ) && !time_before(departure_key(s.journeys@[i], stop), time) ==> {
                let r = next_departures_spec(s, stop, date, time);
                ||| r.contains(s.journeys@[i])
                ||| (r.len() == 5 && forall|k: int|
                    0 <= k < 5 ==> !time_before(
                        departure_key(s.journeys@[i], stop),
                        departure_key(#[trigger] r[k], stop),
                    ))
            },
{
    let c = operating_journeys_spec(s, date, stop);
    lemma_candidates_complete(s.journeys@, date, stop);
    lemma_sorted_by_departure(c, stop);
    lemma_sorted_keeps(c, stop);
    let sorted = sorted_by_departure(c, stop);
    lemma_departing_from(sorted, stop, time);
    lemma_departing_keeps(sorted, stop, time);
    let d = departing_from(sorted, stop, time);
    let r = first_five(d);
    assert forall|i: int|
        0 <= i < s.journeys.len() && operates_on(#[trigger] s.journeys@[i], date) && serves(
            s.journeys@[i].route@,
            stop,
        ) && !time_before(departure_key(s.journeys@[i], stop), time) implies {
        ||| r.contains(s.journeys@[i])
        ||| (r.len() == 5 && forall|k: int|
            0 <= k < 5 ==> !time_before(
                departure_key(s.journeys@[i], stop),
                departure_key(#[trigger] r[k], stop),
            ))
    } by {
        let j = s.journeys@[i];
        assert(c.contains(j));
        let a = choose|a: int| 0 <= a < c.len() && c[a] == j;
        assert(sorted.contains(c[a]));
        let b = choose|b: int| 0 <= b < sorted.len() && sorted[b] == j;
        assert(d.contains(sorted[b]));
        let e = choose|e: int| 0 <= e < d.len() && d[e] == j;
        if d.len() <= 5 {
            assert(r[e] == j);
        } else if e < 5 {
            assert(r[e] == d[e]);
        } else {
            assert forall|k: int| 0 <= k < 5 implies !time_before(
                departure_key(j, stop),
                departure_key(#[trigger] r[k], stop),
            ) by {
                assert(r[k] == d[k]);
            }
        }
    }
}

/// A route section runs on its journey from the given stop to the first following stop
/// where a change is possible or that is the target; that stop is among the stops passed,
/// and no stop passed before it allows a change or is the target.
pub proof fn lemma_route_section(
    s: DataStorage,
    journey: Journey,
    departure_stop_id: i32,
    target_arrival_stop_id: i32,
)
    ensures
        next_route_section_spec(s, journey, departure_stop_id, target_arrival_stop_id) matches Some(
            (section, stops),
        ) ==> {
            let route = journey.route@;
            let d = position(route, departure_stop_id)->0;
            &&& section.journey_id == journey.id
            &&& section.departure_stop_id == departure_stop_id
            &&& stops.contains(section.arrival_stop_id)
            &&& s.has_stop(section.arrival_stop_id)
            &&& (s.stop_of(section.arrival_stop_id).transfer_flag != 0 || section.arrival_stop_id
                == target_arrival_stop_id)
            &&& exists|e: int|
                d < e < route.len() && route[e].stop_id == section.arrival_stop_id && forall|m: int|
                    d < m < e ==> !exits_at(s, route, m, target_arrival_stop_id)
        },
{
    let route = journey.route@;
    lemma_position(route, departure_stop_id);
    if let Some(d) = position(route, departure_stop_id) {
        lemma_exit_from(s, route, d + 1, target_arrival_stop_id);
        if let Some(e) = exit_from(s, route, d + 1, target_arrival_stop_id) {
            let stops = Set::new(|x: i32| exists|k: int| d < k <= e && route[k].stop_id == x);
            assert(stops.contains(route[e].stop_id));
        }
    }
}

/// Extending a route keeps its earlier sections and passed stops: all sections but the
/// last stay as they were, the last one keeps its journey and departure where the route
/// goes on along the same journey, and a new section on the journey is added otherwise.
pub proof fn lemma_created_node_extends(
    s: DataStorage,
    parent: NodeView,
    journey_id: i32,
    departure_stop_id: i32,
    target_arrival_stop_id: i32,
)
    requires
        parent.sections.len() > 0,
        s.has_journey(journey_id),
    ensures
        created_node_spec(s, parent, journey_id, departure_stop_id, target_arrival_stop_id) matches Some(
            c,
        ) ==> {
            &&& c.sections.len() >= parent.sections.len()
            &&& forall|i: int| 0 <= i < parent.sections.len() - 1 ==> c.sections[i] == parent.sections[i]
            &&& c.sections.last().journey_id == journey_id
            &&& parent.sections.last().journey_id == journey_id ==> c.sections.len() == parent.sections.len()
                && c.sections.last().departure_stop_id == parent.sections.last().departure_stop_id
            &&& parent.sections.last().journey_id != journey_id ==> c.sections.len() == parent.sections.len() + 1
                && c.sections[parent.sections.len() - 1] == parent.sections.last()
                && c.sections.last().departure_stop_id == departure_stop_id
            &&& parent.visited.subset_of(c.visited)
            &&& c.visited.contains(c.sections.last().arrival_stop_id)
        },
{
    let journey = s.journey_of(journey_id);
    lemma_journey_of(s, journey_id);
    lemma_route_section(s, journey, departure_stop_id, target_arrival_stop_id);
    if let Some((section, stops)) = next_route_section_spec(
        s,
        journey,
        departure_stop_id,
        target_arrival_stop_id,
    ) {
        let c = created_node_spec(s, parent, journey_id, departure_stop_id, target_arrival_stop_id)->0;
        let n = parent.sections.len();
        assert(c.visited == parent.visited.union(stops));
        assert(c.sections == merged_sections(parent.sections, journey_id, section));
        if parent.sections.last().journey_id == journey_id {
            assert(c.sections.last() == RouteSection {
                arrival_stop_id: section.arrival_stop_id,
                ..parent.sections.last()
            });
            assert forall|i: int| 0 <= i < n - 1 implies c.sections[i] == parent.sections[i] by {}
        } else {
            assert(c.sections.last() == section);
            assert forall|i: int| 0 <= i < n - 1 implies c.sections[i] == parent.sections[i] by {}
            assert(c.sections[n - 1] == parent.sections[n - 1]);
        }
        assert(c.visited.contains(section.arrival_stop_id));
        assert(c.sections.len() >= parent.sections.len());
        assert(c.sections.last().journey_id == journey_id);
        assert(parent.sections.last().journey_id == journey_id ==> c.sections.len() == parent.sections.len()
                && c.sections.last().departure_stop_id == parent.sections.last().departure_stop_id);
        assert(parent.sections.last().journey_id != journey_id ==> c.sections.len() == parent.sections.len() + 1
                && c.sections[parent.sections.len() - 1] == parent.sections.last()
                && c.sections.last().departure_stop_id == departure_stop_id);
        assert(parent.visited.subset_of(c.visited));
        assert(c.visited.contains(c.sections.last().arrival_stop_id));
    }
}

/// Each section departs from the stop where the one before it arrives.
pub open spec fn sections_chained(sections: Seq<RouteSection>) -> bool {
    forall|k: int|
        0 < k < sections.len() ==> #[trigger] sections[k].departure_stop_id == sections[k
            - 1].arrival_stop_id
}

/// Extending a chained route from the stop where it arrives keeps it chained, keeps the
/// stop it departs from, and only adds to the stops it has passed.
pub proof fn lemma_created_node_chained(
    s: DataStorage,
    parent: NodeView,
    journey_id: i32,
    departure_stop_id: i32,
    target_arrival_stop_id: i32,
)
    requires
        parent.sections.len() > 0,
        sections_chained(parent.sections),
        departure_stop_id == parent.sections.last().arrival_stop_id,
    ensures
        created_node_spec(s, parent, journey_id, departure_stop_id, target_arrival_stop_id) matches Some(
            c,
        ) ==> {
            &&& sections_chained(c.sections)
            &&& c.sections[0].departure_stop_id == parent.sections[0].departure_stop_id
            &&& parent.visited.subset_of(c.visited)
        },
{
    if let Some((section, stops)) = next_route_section_spec(
        s,
        s.journey_of(journey_id),
        departure_stop_id,
        target_arrival_stop_id,
    ) {
        let c = created_node_spec(s, parent, journey_id, departure_stop_id, target_arrival_stop_id)->0;
        let n = parent.sections.len() as int;
        assert(section.departure_stop_id == departure_stop_id);
        assert(c.sections == merged_sections(parent.sections, journey_id, section));
        assert(c.visited == parent.visited.union(stops));
        if parent.sections.last().journey_id == journey_id {
            assert(c.sections.len() == n);
            assert forall|k: int| 0 < k < c.sections.len() implies #[trigger] c.sections[k].departure_stop_id
                == c.sections[k - 1].arrival_stop_id by {
                assert(c.sections[k].departure_stop_id == parent.sections[k].departure_stop_id);
                assert(c.sections[k - 1] == parent.sections[k - 1]);
            }
            assert(c.sections[0].departure_stop_id == parent.sections[0].departure_stop_id);
        } else {
            assert(c.sections == parent.sections.push(section));
            assert forall|k: int| 0 < k < c.sections.len() implies #[trigger] c.sections[k].departure_stop_id
                == c.sections[k - 1].arrival_stop_id by {
                if k < n {
                    assert(c.sections[k] == parent.sections[k]);
                    assert(c.sections[k - 1] == parent.sections[k - 1]);
                } else {
                    assert(c.sections[k - 1] == parent.sections[n - 1]);
                }
            }
            assert(c.sections[0] == parent.sections[0]);
        }
    }
}

} // verus!

