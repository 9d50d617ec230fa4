use std::collections::HashSet;
use std::rc::Rc;

use hrdf_routing_engine::models::{Date, Journey, JourneyRouteEntry, Stop, Time};
use hrdf_routing_engine::routing::{section_entries, Hrdf, Node, RouteSection};
use hrdf_routing_engine::storage::DataStorage;

fn stop(id: i32, transfer_flag: i16) -> Rc<Stop> {
    Rc::new(Stop {
        id,
        name: format!("Stop {}", id),
        long_name: None,
        abbreviation: None,
        synonyms: None,
        transfer_flag,
    })
}

fn t(hour: i16, minute: i16) -> Option<Time> {
    Some(Time::new(hour, minute))
}

fn entry(stop_id: i32, arrival: Option<Time>, departure: Option<Time>) -> JourneyRouteEntry {
    JourneyRouteEntry { stop_id, arrival_time: arrival, departure_time: departure }
}

fn day() -> Date {
    Date { year: 2024, month: 8, day: 1 }
}

fn storage() -> DataStorage {
    let stops = vec![stop(1, 1), stop(2, 0), stop(3, 1), stop(4, 0), stop(5, 0)];
    let journeys = vec![
        Journey {
            id: 10,
            route: vec![
                entry(1, None, t(8, 0)),
                entry(2, t(8, 10), t(8, 11)),
                entry(3, t(8, 20), t(8, 21)),
                entry(5, t(8, 40), None),
            ],
            operating_days: vec![day()],
        },
        Journey {
            id: 11,
            route: vec![entry(1, None, t(8, 5)), entry(4, t(8, 15), t(8, 16)), entry(5, t(8, 30), None)],
            operating_days: vec![day()],
        },
        Journey {
            id: 12,
            route: vec![entry(1, None, t(7, 0)), entry(5, t(7, 50), None)],
            operating_days: vec![day()],
        },
        Journey {
            id: 13,
            route: vec![entry(1, None, t(8, 1)), entry(5, t(8, 20), None)],
            operating_days: vec![Date { year: 2024, month: 8, day: 2 }],
        },
    ];
    DataStorage::new(stops, journeys)
}

#[test]
fn storage_is_well_formed() {
    let s = storage();
    assert!(s.check_wf());
    let bad = DataStorage::new(vec![stop(1, 0)], vec![Journey { id: 1, route: vec![entry(2, None, None)], operating_days: vec![] }]);
    assert!(!bad.check_wf());
    let twice = DataStorage::new(vec![stop(1, 0), stop(1, 1)], vec![]);
    assert!(!twice.check_wf());
}

#[test]
fn route_section_accessors() {
    let mut section = RouteSection::new(10, 1, 3);
    assert_eq!((section.journey_id(), section.departure_stop_id(), section.arrival_stop_id()), (10, 1, 3));
    section.set_arrival_stop_id(5);
    assert_eq!(section.arrival_stop_id(), 5);
    let s = storage();
    assert_eq!(section.journey(&s).id, 10);
}

#[test]
fn route_section_stops_at_first_change() {
    let hrdf = Hrdf::new(storage());
    let s = hrdf.data_storage();
    let (section, visited) = hrdf.get_next_route_section(&s.journeys[0], 1, 5).unwrap();
    assert_eq!(section, RouteSection::new(10, 1, 3));
    assert_eq!(visited, HashSet::from([2, 3]));
    let (section, visited) = hrdf.get_next_route_section(&s.journeys[1], 1, 5).unwrap();
    assert_eq!(section, RouteSection::new(11, 1, 5));
    assert_eq!(visited, HashSet::from([4, 5]));
    assert!(hrdf.get_next_route_section(&s.journeys[0], 5, 5).is_none());
}

#[test]
fn departure_and_arrival_times() {
    let hrdf = Hrdf::new(storage());
    assert_eq!(hrdf.get_departure_time(&hrdf.data_storage().journeys[0], 2), Time::new(8, 11));
    let node = Node::new(vec![RouteSection::new(10, 1, 3)], HashSet::new());
    assert_eq!(node.arrival_time(hrdf.data_storage()), Time::new(8, 20));
    assert_eq!(node.route_sections().len(), 1);
    assert!(node.visited_stops().is_empty());
}

#[test]
fn operating_journeys_on_a_day() {
    let hrdf = Hrdf::new(storage());
    let ids: Vec<i32> = hrdf.get_operating_journeys(day(), 1).iter().map(|j| j.id).collect();
    assert_eq!(ids, vec![10, 11, 12]);
    let ids: Vec<i32> = hrdf.get_operating_journeys(day(), 4).iter().map(|j| j.id).collect();
    assert_eq!(ids, vec![11]);
}

#[test]
fn next_departures_are_sorted_and_after_the_time() {
    let hrdf = Hrdf::new(storage());
    let ids: Vec<i32> = hrdf.next_departures(1, day(), Time::new(7, 30)).iter().map(|j| j.id).collect();
    assert_eq!(ids, vec![10, 11]);
    let ids: Vec<i32> = hrdf.next_departures(1, day(), Time::new(6, 0)).iter().map(|j| j.id).collect();
    assert_eq!(ids, vec![12, 10, 11]);
    assert!(hrdf.next_departures(1, day(), Time::new(9, 0)).is_empty());
}

#[test]
fn next_departures_keeps_five_earliest_in_stable_order() {
    let stops = vec![stop(1, 1), stop(2, 1)];
    let times = [(9, 0), (8, 0), (8, 30), (8, 0), (10, 0), (7, 0), (8, 15)];
    let journeys = times
        .iter()
        .enumerate()
        .map(|(i, (h, m))| Journey {
            id: i as i32,
            route: vec![entry(1, None, t(*h, *m)), entry(2, t(11, 0), None)],
            operating_days: vec![day()],
        })
        .collect();
    let hrdf = Hrdf::new(DataStorage::new(stops, journeys));
    let ids: Vec<i32> = hrdf.next_departures(1, day(), Time::new(7, 30)).iter().map(|j| j.id).collect();
    assert_eq!(ids, vec![1, 3, 6, 2, 0]);
}

#[test]
fn initial_nodes_one_per_departure() {
    let hrdf = Hrdf::new(storage());
    let nodes = hrdf.get_initial_nodes(1, 5, day(), Time::new(7, 30));
    let sections: Vec<Vec<RouteSection>> = nodes.iter().map(|n| n.route_sections().clone()).collect();
    assert_eq!(sections, vec![vec![RouteSection::new(10, 1, 3)], vec![RouteSection::new(11, 1, 5)]]);
}

#[test]
fn create_node_extends_the_same_journey() {
    let hrdf = Hrdf::new(storage());
    let parent = Node::new(vec![RouteSection::new(10, 1, 3)], HashSet::from([2, 3]));
    let child = hrdf.create_node(&parent, 10, 3, 5).unwrap();
    assert_eq!(child.route_sections(), &vec![RouteSection::new(10, 1, 5)]);
    assert_eq!(child.visited_stops(), &HashSet::from([2, 3, 5]));
    let other = hrdf.create_node(&parent, 11, 1, 5).unwrap();
    assert_eq!(other.route_sections(), &vec![RouteSection::new(10, 1, 3), RouteSection::new(11, 1, 5)]);
    assert_eq!(other.visited_stops(), &HashSet::from([2, 3, 4, 5]));
    assert!(hrdf.create_node(&parent, 10, 5, 5).is_none());
}

#[test]
fn plan_journey_keeps_earliest_arrival() {
    let hrdf = Hrdf::new(storage());
    let solution = hrdf.plan_journey(1, 5, day(), Time::new(7, 30)).unwrap();
    assert_eq!(solution.route_sections(), &vec![RouteSection::new(11, 1, 5)]);
    assert_eq!(solution.arrival_time(hrdf.data_storage()), Time::new(8, 30));
    let early = hrdf.plan_journey(1, 5, day(), Time::new(6, 0)).unwrap();
    assert_eq!(early.route_sections(), &vec![RouteSection::new(12, 1, 5)]);
}

#[test]
fn plan_journey_without_route() {
    let hrdf = Hrdf::new(storage());
    assert!(hrdf.plan_journey(1, 5, Date { year: 2024, month: 8, day: 3 }, Time::new(6, 0)).is_none());
    assert!(hrdf.plan_journey(1, 5, Date { year: 2024, month: 8, day: 2 }, Time::new(9, 0)).is_none());
}

#[test]
fn plan_journey_runs_into_the_next_day() {
    let hrdf = Hrdf::new(storage());
    assert!(hrdf.plan_journey(1, 5, day(), Time::new(9, 0)).is_none());

    let next = Date { year: 2024, month: 8, day: 2 };
    let journeys = vec![
        journey(70, vec![entry(1, None, t(23, 0)), entry(2, t(23, 50), None)]),
        Journey { id: 71, route: vec![entry(2, None, t(6, 0)), entry(3, t(6, 30), None)], operating_days: vec![next] },
    ];
    let hrdf = Hrdf::new(DataStorage::new(vec![stop(1, 0), stop(2, 1), stop(3, 0)], journeys));
    let solution = hrdf.plan_journey(1, 3, day(), Time::new(22, 0)).unwrap();
    assert_eq!(solution.route_sections(), &vec![RouteSection::new(70, 1, 2), RouteSection::new(71, 2, 3)]);
    assert!(hrdf.plan_journey(2, 3, day(), Time::new(22, 0)).is_none());
}

#[test]
fn section_entries_from_departure_to_arrival() {
    let s = storage();
    let entries = section_entries(&s, &RouteSection::new(10, 2, 5));
    let stops: Vec<i32> = entries.iter().map(|e| e.stop_id).collect();
    assert_eq!(stops, vec![2, 3, 5]);
}

#[test]
fn time_and_date_order() {
    assert!(Time::new(8, 59).is_before(&Time::new(9, 0)));
    assert!(!Time::new(9, 0).is_before(&Time::new(9, 0)));
    assert!(Time::new(23, 59).is_before(&Time::new(24, 1)));
    assert!(Date { year: 2023, month: 12, day: 31 }.is_before(&Date { year: 2024, month: 1, day: 1 }));
    assert!(!Date { year: 2024, month: 1, day: 2 }.is_before(&Date { year: 2024, month: 1, day: 1 }));
}

#[test]
fn plan_journey_prefers_fewer_sections_among_equal_arrivals() {
    let stops = vec![stop(1, 1), stop(3, 1), stop(5, 0)];
    let journeys = vec![
        Journey {
            id: 20,
            route: vec![entry(1, None, t(7, 40)), entry(3, t(8, 0), t(8, 1)), entry(5, t(9, 0), None)],
            operating_days: vec![day()],
        },
        Journey { id: 21, route: vec![entry(1, None, t(7, 50)), entry(5, t(9, 0), None)], operating_days: vec![day()] },
        Journey { id: 22, route: vec![entry(1, None, t(7, 55)), entry(5, t(9, 0), None)], operating_days: vec![day()] },
    ];
    let hrdf = Hrdf::new(DataStorage::new(stops, journeys));
    let solution = hrdf.plan_journey(1, 5, day(), Time::new(7, 30)).unwrap();
    assert_eq!(solution.route_sections(), &vec![RouteSection::new(20, 1, 5)]);
    assert_eq!(solution.visited_stops(), &HashSet::from([1, 3, 5]));
}

fn journey(id: i32, route: Vec<JourneyRouteEntry>) -> Journey {
    Journey { id, route, operating_days: vec![day()] }
}

#[test]
fn plan_journey_changes_journey_where_allowed() {
    let journeys = vec![
        journey(30, vec![entry(1, None, t(8, 0)), entry(2, t(8, 10), None)]),
        journey(31, vec![entry(2, None, t(8, 20)), entry(3, t(8, 30), None)]),
    ];
    let hrdf = Hrdf::new(DataStorage::new(vec![stop(1, 0), stop(2, 1), stop(3, 0)], journeys));
    let solution = hrdf.plan_journey(1, 3, day(), Time::new(7, 0)).unwrap();
    assert_eq!(solution.route_sections(), &vec![RouteSection::new(30, 1, 2), RouteSection::new(31, 2, 3)]);
    assert_eq!(solution.arrival_time(hrdf.data_storage()), Time::new(8, 30));
    assert_eq!(solution.visited_stops(), &HashSet::from([1, 2, 3]));

    let journeys = vec![
        journey(30, vec![entry(1, None, t(8, 0)), entry(2, t(8, 10), None)]),
        journey(31, vec![entry(2, None, t(8, 20)), entry(3, t(8, 30), None)]),
    ];
    let no_change = Hrdf::new(DataStorage::new(vec![stop(1, 0), stop(2, 0), stop(3, 0)], journeys));
    assert!(no_change.plan_journey(1, 3, day(), Time::new(7, 0)).is_none());

    let journeys = vec![
        journey(30, vec![entry(1, None, t(8, 0)), entry(2, t(8, 25), None)]),
        journey(31, vec![entry(2, None, t(8, 20)), entry(3, t(8, 30), None)]),
    ];
    let missed = Hrdf::new(DataStorage::new(vec![stop(1, 0), stop(2, 1), stop(3, 0)], journeys));
    assert!(missed.plan_journey(1, 3, day(), Time::new(7, 0)).is_none());
}

#[test]
fn plan_journey_does_not_follow_a_looping_journey() {
    let stops = vec![stop(1, 0), stop(2, 0), stop(3, 1), stop(4, 0)];
    let looping = journey(
        40,
        vec![
            entry(1, None, t(8, 0)),
            entry(2, t(8, 5), t(8, 6)),
            entry(3, t(8, 10), t(8, 11)),
            entry(2, t(8, 15), t(8, 16)),
            entry(4, t(8, 20), None),
        ],
    );
    let hrdf = Hrdf::new(DataStorage::new(stops.clone(), vec![looping]));
    assert!(hrdf.plan_journey(1, 4, day(), Time::new(7, 0)).is_none());

    let looping = journey(
        40,
        vec![
            entry(1, None, t(8, 0)),
            entry(2, t(8, 5), t(8, 6)),
            entry(3, t(8, 10), t(8, 11)),
            entry(2, t(8, 15), t(8, 16)),
            entry(4, t(8, 20), None),
        ],
    );
    let onward = journey(41, vec![entry(3, None, t(8, 30)), entry(4, t(8, 45), None)]);
    let hrdf = Hrdf::new(DataStorage::new(stops, vec![looping, onward]));
    let solution = hrdf.plan_journey(1, 4, day(), Time::new(7, 0)).unwrap();
    assert_eq!(solution.route_sections(), &vec![RouteSection::new(40, 1, 3), RouteSection::new(41, 3, 4)]);
}

#[test]
fn plan_journey_rides_journeys_forward_only() {
    let stops = vec![stop(1, 0), stop(2, 1), stop(3, 0), stop(4, 0), stop(5, 0)];
    let route = vec![
        entry(5, None, t(7, 0)),
        entry(2, t(7, 10), t(7, 11)),
        entry(3, t(7, 20), t(7, 21)),
        entry(1, t(7, 30), t(7, 31)),
        entry(4, t(7, 40), t(7, 41)),
        entry(2, t(7, 50), None),
    ];
    let hrdf = Hrdf::new(DataStorage::new(stops, vec![journey(50, route)]));
    assert!(hrdf.plan_journey(1, 3, day(), Time::new(6, 0)).is_none());
    assert!(hrdf.plan_journey(1, 2, day(), Time::new(6, 0)).is_none());
    let solution = hrdf.plan_journey(5, 1, day(), Time::new(6, 0)).unwrap();
    assert_eq!(solution.route_sections(), &vec![RouteSection::new(50, 5, 1)]);
}

#[test]
fn plan_journey_considers_every_departure_of_the_day() {
    let mut journeys = Vec::new();
    for k in 0..6 {
        let arrival = if k == 5 { t(8, 30) } else { t(9, k as i16) };
        journeys.push(journey(60 + k, vec![entry(1, None, t(8, k as i16)), entry(2, arrival, None)]));
    }
    let hrdf = Hrdf::new(DataStorage::new(vec![stop(1, 0), stop(2, 0)], journeys));
    assert_eq!(hrdf.next_departures(1, day(), Time::new(7, 0)).len(), 5);
    let solution = hrdf.plan_journey(1, 2, day(), Time::new(7, 0)).unwrap();
    assert_eq!(solution.route_sections(), &vec![RouteSection::new(65, 1, 2)]);
}

#[test]
fn next_day_of_dates() {
    assert_eq!(Date { year: 2024, month: 2, day: 28 }.next_day(), Some(Date { year: 2024, month: 2, day: 29 }));
    assert_eq!(Date { year: 2023, month: 2, day: 28 }.next_day(), Some(Date { year: 2023, month: 3, day: 1 }));
    assert_eq!(Date { year: 1900, month: 2, day: 28 }.next_day(), Some(Date { year: 1900, month: 3, day: 1 }));
    assert_eq!(Date { year: 2000, month: 2, day: 29 }.next_day(), Some(Date { year: 2000, month: 3, day: 1 }));
    assert_eq!(Date { year: 2024, month: 4, day: 30 }.next_day(), Some(Date { year: 2024, month: 5, day: 1 }));
    assert_eq!(Date { year: 2024, month: 12, day: 31 }.next_day(), Some(Date { year: 2025, month: 1, day: 1 }));
    assert_eq!(Date { year: i32::MAX, month: 12, day: 31 }.next_day(), None);
}
