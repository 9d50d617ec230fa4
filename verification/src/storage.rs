//! The loaded timetable: its stops and its journeys, found by number.
use std::rc::Rc;
use vstd::prelude::*;

use crate::models::{Date, Journey, JourneyRouteEntry, Stop};

verus! {

/// The stops and journeys of a timetable.
pub struct DataStorage {
    pub stops: Vec<Rc<Stop>>,
    pub journeys: Vec<Journey>,
}

// ------------------------------------------------------------------------------------------------
// --- Routes
// ------------------------------------------------------------------------------------------------

/// The first position at or after `i` where the route serves `stop`.
pub open spec fn position_from(route: Seq<JourneyRouteEntry>, stop: i32, i: int) -> Option<int>
    decreases route.len() - i,
{
    if i < 0 || i >= route.len() {
        None
    } else if route[i].stop_id == stop {
        Some(i)
    } else {
        position_from(route, stop, i + 1)
    }
}

/// The first position where the route serves `stop`.
pub open spec fn position(route: Seq<JourneyRouteEntry>, stop: i32) -> Option<int> {
    position_from(route, stop, 0)
}

/// The route serves `stop` somewhere.
pub open spec fn serves(route: Seq<JourneyRouteEntry>, stop: i32) -> bool {
    exists|k: int| 0 <= k < route.len() && route[k].stop_id == stop
}

pub proof fn lemma_position_from(route: Seq<JourneyRouteEntry>, stop: i32, i: int)
    requires
        0 <= i,
    ensures
        match position_from(route, stop, i) {
            Some(j) => i <= j < route.len() && route[j].stop_id == stop && forall|k: int|
                i <= k < j ==> route[k].stop_id != stop,
            None => forall|k: int| i <= k < route.len() ==> route[k].stop_id != stop,
        },
    decreases route.len() - i,
{
    if i < route.len() && route[i].stop_id != stop {
        lemma_position_from(route, stop, i + 1);
    }
}

pub proof fn lemma_position(route: Seq<JourneyRouteEntry>, stop: i32)
    ensures
        match position(route, stop) {
            Some(j) => 0 <= j < route.len() && route[j].stop_id == stop && forall|k: int|
                0 <= k < j ==> route[k].stop_id != stop,
            None => !serves(route, stop),
        },
{
    lemma_position_from(route, stop, 0);
}

/// The first position where `route` serves `stop`.
pub fn find_position(route: &Vec<JourneyRouteEntry>, stop: i32) -> (r: Option<usize>)
    ensures
        match r {
            Some(p) => position(route@, stop) == Some(p as int) && p < route.len()
                && route@[p as int].stop_id == stop,
            None => position(route@, stop) is None,
        },
{
    proof {
        lemma_position(route@, stop);
    }
    let mut i: usize = 0;
    while i < route.len()
        invariant
            i <= route.len(),
            position(route@, stop) == position_from(route@, stop, i as int),
            position(route@, stop) matches Some(j) ==> i <= j < route.len() && route@[j].stop_id
                == stop,
        decreases route.len() - i,
    {
        if route[i].stop_id == stop {
            return Some(i);
        }
        i = i + 1;
    }
    None
}

// ------------------------------------------------------------------------------------------------
// --- Storage
// ------------------------------------------------------------------------------------------------

impl DataStorage {
    pub open spec fn has_stop(&self, id: i32) -> bool {
        exists|i: int| 0 <= i < self.stops.len() && self.stops@[i].id == id
    }

    /// The position of the stop numbered `id`.
    pub open spec fn stop_index(&self, id: i32) -> int {
        choose|i: int| 0 <= i < self.stops.len() && self.stops@[i].id == id
    }

    /// The stop numbered `id`.
    pub open spec fn stop_of(&self, id: i32) -> Stop {
        *self.stops@[self.stop_index(id)]
    }

    pub open spec fn has_journey(&self, id: i32) -> bool {
        exists|i: int| 0 <= i < self.journeys.len() && self.journeys@[i].id == id
    }

    /// The position of the journey numbered `id`.
    pub open spec fn journey_index(&self, id: i32) -> int {
        choose|i: int| 0 <= i < self.journeys.len() && self.journeys@[i].id == id
    }

    /// The journey numbered `id`.
    pub open spec fn journey_of(&self, id: i32) -> Journey {
        self.journeys@[self.journey_index(id)]
    }

    /// Stops and journeys have distinct numbers.
    pub open spec fn ids_unique(&self) -> bool {
        &&& forall|i: int, j: int|
            0 <= i < self.stops.len() && 0 <= j < self.stops.len() && i != j
                ==> #[trigger] self.stops@[i].id != #[trigger] self.stops@[j].id
        &&& forall|i: int, j: int|
            0 <= i < self.journeys.len() && 0 <= j < self.journeys.len() && i != j
                ==> #[trigger] self.journeys@[i].id != #[trigger] self.journeys@[j].id
    }

    /// Stops and journeys have distinct numbers, and every stop of every route is known.
    pub open spec fn wf(&self) -> bool {
        &&& self.ids_unique()
        &&& forall|i: int, k: int|
            0 <= i < self.journeys.len() && 0 <= k < self.journeys@[i].route.len()
                ==> self.has_stop(#[trigger] self.journeys@[i].route@[k].stop_id)
    }

    pub fn new(stops: Vec<Rc<Stop>>, journeys: Vec<Journey>) -> (s: DataStorage)
        ensures
            s.stops@ == stops@,
            s.journeys@ == journeys@,
    {
        DataStorage { stops, journeys }
    }

    /// The stop numbered `id`.
    pub fn find_stop(&self, id: i32) -> (r: &Stop)
        requires
            self.ids_unique(),
            self.has_stop(id),
        ensures
            *r == self.stop_of(id),
    {
        let mut i: usize = 0;
        while i < self.stops.len()
            invariant
                i <= self.stops.len(),
                self.ids_unique(),
                self.has_stop(id),
                forall|k: int| 0 <= k < i ==> self.stops@[k].id != id,
            decreases self.stops.len() - i,
        {
            if self.stops[i].id == id {
                let ghost c = self.stop_index(id);
                assert(self.stops@[c].id == id);
                assert(c == i);
                return &*self.stops[i];
            }
            i = i + 1;
        }
        assert(false);
        &*self.stops[0]
    }

    /// The journey numbered `id`.
    pub fn find_journey(&self, id: i32) -> (r: &Journey)
        requires
            self.ids_unique(),
            self.has_journey(id),
        ensures
            *r == self.journey_of(id),
    {
        let mut i: usize = 0;
        while i < self.journeys.len()
            invariant
                i <= self.journeys.len(),
                self.ids_unique(),
                self.has_journey(id),
                forall|k: int| 0 <= k < i ==> self.journeys@[k].id != id,
            decreases self.journeys.len() - i,
        {
            if self.journeys[i].id == id {
                let ghost c = self.journey_index(id);
                assert(self.journeys@[c].id == id);
                assert(c == i);
                return &self.journeys[i];
            }
            i = i + 1;
        }
        assert(false);
        &self.journeys[0]
    }

    /// Whether the stops and journeys have distinct numbers and every stop of every route
    /// is known.
    pub fn check_wf(&self) -> (r: bool)
        ensures
            r == self.wf(),
    {
        let mut i: usize = 0;
        while i < self.stops.len()
            invariant
                i <= self.stops.len(),
                forall|a: int, b: int|
                    0 <= a < i && 0 <= b < self.stops.len() && a != b
                        ==> #[trigger] self.stops@[a].id != #[trigger] self.stops@[b].id,
            decreases self.stops.len() - i,
        {
            let mut j: usize = 0;
            while j < self.stops.len()
                invariant
                    i < self.stops.len(),
                    j <= self.stops.len(),
                    forall|a: int, b: int|
                        0 <= a < i && 0 <= b < self.stops.len() && a != b
                            ==> #[trigger] self.stops@[a].id != #[trigger] self.stops@[b].id,
                    forall|b: int|
                        0 <= b < j && b != i ==> self.stops@[i as int].id != #[trigger] self.stops@[b].id,
                decreases self.stops.len() - j,
            {
                if j != i && self.stops[i].id == self.stops[j].id {
                    return false;
                }
                j = j + 1;
            }
            i = i + 1;
        }
        let mut i: usize = 0;
        while i < self.journeys.len()
            invariant
                i <= self.journeys.len(),
                forall|a: int, b: int|
                    0 <= a < self.stops.len() && 0 <= b < self.stops.len() && a != b
                        ==> #[trigger] self.stops@[a].id != #[trigger] self.stops@[b].id,
                forall|a: int, b: int|
                    0 <= a < i && 0 <= b < self.journeys.len() && a != b
                        ==> #[trigger] self.journeys@[a].id != #[trigger] self.journeys@[b].id,
                forall|a: int, k: int|
                    0 <= a < i && 0 <= k < self.journeys@[a].route.len() ==> self.has_stop(
                        #[trigger] self.journeys@[a].route@[k].stop_id,
                    ),
            decreases self.journeys.len() - i,
        {
            let mut j: usize = 0;
            while j < self.journeys.len()
                invariant
                    i < self.journeys.len(),
                    j <= self.journeys.len(),
                    forall|b: int|
                        0 <= b < j && b != i ==> self.journeys@[i as int].id
                            != #[trigger] self.journeys@[b].id,
                decreases self.journeys.len() - j,
            {
                if j != i && self.journeys[i].id == self.journeys[j].id {
                    return false;
                }
                j = j + 1;
            }
            let mut k: usize = 0;
            while k < self.journeys[i].route.len()
                invariant
                    i < self.journeys.len(),
                    k <= self.journeys@[i as int].route.len(),
                    forall|m: int|
                        0 <= m < k ==> self.has_stop(
                            #[trigger] self.journeys@[i as int].route@[m].stop_id,
                        ),
                decreases self.journeys@[i as int].route.len() - k,
            {
                let id = self.journeys[i].route[k].stop_id;
                let mut found = false;
                let mut s: usize = 0;
                while s < self.stops.len()
                    invariant
                        s <= self.stops.len(),
                        found ==> self.has_stop(id),
                        !found ==> forall|t: int| 0 <= t < s ==> self.stops@[t].id != id,
                    decreases self.stops.len() - s,
                {
                    if self.stops[s].id == id {
                        found = true;
                    }
                    s = s + 1;
                }
                if !found {
                    return false;
                }
                k = k + 1;
            }
            i = i + 1;
        }
        true
    }
}

/// The journey runs on `date`.
pub open spec fn operates_on(j: Journey, date: Date) -> bool {
    j.operating_days@.contains(date)
}

} // verus!
