use std::rc::Rc;

use hrdf_routing_engine::models::{AutoIncrement, CoordinateType, Date, JourneyPlatform, Platform, Stop};
use hrdf_routing_engine::parsing::holiday_parser::{
    try_parse_name_translations, create_instance, holiday_from_parts, parse_name_translations,
    parse_row, parse_rows,
};
use hrdf_routing_engine::parsing::platforms_parser::{
    try_parse_platform_data, create_journey_platform_index, create_platforms_index, pair_key, parse_lv95_row, Lv95Row,
    parse_platform_data, parse_platform_row, parse_platform_rows, PlatformRow,
};
use hrdf_routing_engine::parsing::stops_parser::{
    try_parse_stop_name, coordinates_file_name, create_stop, create_stops_primary_index,
    parse_coordinate_row, parse_stop_name, parse_stop_row, parse_stop_rows, set_coordinate, StopCoordinates,
};
use hrdf_routing_engine::parsing::ParsingError;

fn stop(id: i32, name: &str) -> Stop {
    Stop {
        id,
        name: name.to_string(),
        long_name: None,
        abbreviation: None,
        synonyms: None,
        transfer_flag: 0,
    }
}

// --- Holidays -------------------------------------------------------------------------------

#[test]
fn name_translations_by_language() {
    let names = parse_name_translations("Neujahr<deu>Nouvel an<fra>Capodanno<ita>".to_string());
    assert_eq!(names.len(), 3);
    assert_eq!(names.get("deu"), Some("Neujahr".to_string()));
    assert_eq!(names.get("fra"), Some("Nouvel an".to_string()));
    assert_eq!(names.get("ita"), Some("Capodanno".to_string()));
    assert_eq!(names.get("eng"), None);
}

#[test]
fn name_translations_later_language_wins() {
    let names = parse_name_translations("A<deu>B<deu>".to_string());
    assert_eq!(names.len(), 1);
    assert_eq!(names.get("deu"), Some("B".to_string()));
}

#[test]
fn name_translations_empty() {
    assert_eq!(parse_name_translations(String::new()).len(), 0);
}

#[test]
fn name_translations_well_formedness() {
    assert_eq!(try_parse_name_translations(&"Neujahr<deu>".to_string()).unwrap().get("deu"), Some("Neujahr".to_string()));
    assert_eq!(try_parse_name_translations(&">>".to_string()).unwrap().len(), 0);
    assert!(try_parse_name_translations(&"Neujahr>".to_string()).is_none());
}

#[test]
fn holiday_from_valid_date() {
    let mut counter = AutoIncrement::new();
    let holiday = create_instance("25.12.2023".to_string(), "Weihnachten<deu>Noël<fra>".to_string(), &mut counter)
        .unwrap();
    assert_eq!(holiday.id, 1);
    assert_eq!(holiday.date, Date { year: 2023, month: 12, day: 25 });
    assert_eq!(holiday.name.get("fra"), Some("Noël".to_string()));
    let second = create_instance("01.01.2024".to_string(), "Neujahr<deu>".to_string(), &mut counter).unwrap();
    assert_eq!(second.id, 2);
    assert_eq!(second.date, Date { year: 2024, month: 1, day: 1 });
}

#[test]
fn holiday_with_invalid_date_is_an_error() {
    let mut counter = AutoIncrement::new();
    for date in ["31.02.2023", "2023-12-25", "", "32.01.2023"] {
        let result = create_instance(date.to_string(), "X<deu>".to_string(), &mut counter);
        assert!(matches!(result, Err(ParsingError::InvalidDate)), "date {:?}", date);
    }
    assert_eq!(counter.current_value(), 0);
}

#[test]
fn holiday_from_parts_uses_no_number_on_error() {
    let mut counter = AutoIncrement::new();
    assert!(holiday_from_parts(None, "X<deu>".to_string(), &mut counter).is_err());
    assert_eq!(counter.next(), 1);
}

#[test]
fn holiday_rows() {
    let mut counter = AutoIncrement::new();
    let row = "01.08.2024 Bundesfeier<deu>Fête nationale<fra>";
    let holiday = parse_row(row, &mut counter).unwrap().unwrap();
    assert_eq!(holiday.date, Date { year: 2024, month: 8, day: 1 });
    assert_eq!(holiday.name.get("deu"), Some("Bundesfeier".to_string()));
    assert!(matches!(parse_row("xx.08.2024 A<deu>", &mut counter), Some(Err(ParsingError::InvalidDate))));
    assert!(parse_row("01.08.2024 Bundesfeier", &mut counter).is_none());
    assert_eq!(counter.current_value(), 1);
}

// --- Stops ----------------------------------------------------------------------------------

#[test]
fn stop_name_grouped_by_kind() {
    let names = parse_stop_name("Bern$<1>$Berne$<2>BN$<3>Bärn$<4>Berna$<4>".to_string());
    assert_eq!(names.len(), 4);
    assert_eq!(names[&1], vec!["Bern".to_string()]);
    assert_eq!(names[&2], vec!["Berne".to_string()]);
    assert_eq!(names[&3], vec!["BN".to_string()]);
    assert_eq!(names[&4], vec!["Bärn".to_string(), "Berna".to_string()]);
    for values in names.values() {
        for name in values {
            assert!(!name.contains('$'));
        }
    }
}

#[test]
fn stop_name_well_formedness() {
    assert_eq!(try_parse_stop_name(&"Bern<1>".to_string()).unwrap().get(&1), Some(&vec!["Bern".to_string()]));
    assert!(try_parse_stop_name(&"Bern<x>".to_string()).is_none());
    assert!(try_parse_stop_name(&"Bern".to_string()).is_none());
    assert!(try_parse_stop_name(&"$".to_string()).is_none());
}

#[test]
fn create_stop_takes_first_names() {
    let s = create_stop(8507000, "Bern$<1>Bern HB$<1>Berne$<2>Bärn$<4>".to_string());
    assert_eq!(s.id, 8507000);
    assert_eq!(s.name, "Bern");
    assert_eq!(s.long_name, Some("Berne".to_string()));
    assert_eq!(s.abbreviation, None);
    assert_eq!(s.synonyms, Some(vec!["Bärn".to_string()]));
    assert_eq!(s.transfer_flag, 0);
}

#[test]
fn stop_rows() {
    let s = parse_stop_row("8500010     Basel SBB$<1>BS$<3>").unwrap();
    assert_eq!(s.id, 8500010);
    assert_eq!(s.name, "Basel SBB");
    assert_eq!(s.abbreviation, Some("BS".to_string()));
    assert!(parse_stop_row("85000x0     Basel SBB$<1>").is_none());
    assert!(parse_stop_row("8500010     Basel SBB$<2>").is_none());
}

#[test]
fn stops_index_keeps_last_stop_of_a_number() {
    let stops = vec![Rc::new(stop(1, "A")), Rc::new(stop(2, "B")), Rc::new(stop(1, "C"))];
    let index = create_stops_primary_index(&stops);
    assert_eq!(index.len(), 2);
    assert_eq!(index[&1].name, "C");
    assert_eq!(index[&2].name, "B");
    assert!(Rc::ptr_eq(&index[&2], &stops[1]));
}

#[test]
fn coordinate_files() {
    assert_eq!(coordinates_file_name(CoordinateType::LV95), "BFKOORD_LV95");
    assert_eq!(coordinates_file_name(CoordinateType::WGS84), "BFKOORD_WGS");
}

#[test]
fn wgs84_coordinates_are_swapped() {
    let stops = vec![Rc::new(stop(8507000, "Bern"))];
    let index = create_stops_primary_index(&stops);
    let mut coordinates: StopCoordinates<f64> = StopCoordinates::new();
    set_coordinate(8507000, 2600000.5, 1200000.25, 540, CoordinateType::LV95, &index, &mut coordinates);
    set_coordinate(8507000, 7.43, 46.95, 540, CoordinateType::WGS84, &index, &mut coordinates);
    let lv95 = &coordinates.lv95[&8507000];
    assert_eq!((lv95.x, lv95.y, lv95.altitude), (2600000.5, 1200000.25, 540));
    let wgs = &coordinates.wgs84[&8507000];
    assert_eq!((wgs.x, wgs.y), (46.95, 7.43));
    assert_eq!(wgs.coordinate_type, CoordinateType::WGS84);
}

#[test]
fn coordinate_rows() {
    let row = "8507000 2600000.50 1200000.25    540";
    let (id, x, y, altitude) = parse_coordinate_row(row).unwrap();
    assert_eq!(id, 8507000);
    assert_eq!(x, "2600000.50");
    assert_eq!(y, "1200000.25");
    assert_eq!(altitude, 540);
    assert!(parse_coordinate_row("8507000 2600000.50 1200000.25  99999").is_none());
}

// --- Platforms ------------------------------------------------------------------------------

#[test]
fn platform_data_number_and_sectors() {
    assert_eq!(
        parse_platform_data("G '1' A 'AB'".to_string()),
        ("1".to_string(), Some("AB".to_string()))
    );
    assert_eq!(parse_platform_data("  G '12'  ".to_string()), ("12".to_string(), None));
    assert_eq!(parse_platform_data("A 'C' G '3' G '4'".to_string()), ("4".to_string(), Some("C".to_string())));
}

#[test]
fn platform_data_checks() {
    assert_eq!(
        try_parse_platform_data(&"G '1' A 'AB'".to_string()),
        Some(("1".to_string(), Some("AB".to_string())))
    );
    assert!(try_parse_platform_data(&"A 'AB'".to_string()).is_none());
    assert!(try_parse_platform_data(&"G 1".to_string()).is_none());
}

#[test]
fn pair_keys_are_distinct() {
    let pairs = [(0, 0), (0, 1), (1, 0), (-1, 0), (i32::MIN, i32::MIN), (i32::MAX, i32::MAX), (i32::MIN, i32::MAX)];
    for (i, a) in pairs.iter().enumerate() {
        for (j, b) in pairs.iter().enumerate() {
            assert_eq!(pair_key(a.0, a.1) == pair_key(b.0, b.1), i == j);
        }
    }
    assert_eq!(pair_key(0, 0), 2147483648);
}

fn journey_platform(journey_id: i32, stop_id: i32, platform_index: i32) -> Rc<JourneyPlatform> {
    Rc::new(JourneyPlatform {
        journey_id,
        stop_id,
        unknown1: "000011".to_string(),
        platform_index,
        hour: None,
        bit_field_id: None,
    })
}

#[test]
fn journey_platforms_grouped_by_journey_and_stop() {
    let ps = vec![journey_platform(1, 10, 100), journey_platform(2, 10, 200), journey_platform(1, 10, 300)];
    let index = create_journey_platform_index(&ps);
    assert_eq!(index.len(), 2);
    let group = &index[&pair_key(1, 10)];
    assert_eq!(group.iter().map(|p| p.platform_index).collect::<Vec<_>>(), vec![100, 300]);
    assert_eq!(index[&pair_key(2, 10)].len(), 1);
    assert!(!index.contains_key(&pair_key(10, 1)));
}

#[test]
fn platforms_index_by_stop_and_index() {
    let ps = vec![
        Rc::new(Platform { stop_id: 10, platform_index: 1, number: "1".to_string(), sectors: None }),
        Rc::new(Platform { stop_id: 10, platform_index: 2, number: "2".to_string(), sectors: None }),
        Rc::new(Platform { stop_id: 10, platform_index: 1, number: "1a".to_string(), sectors: None }),
    ];
    let index = create_platforms_index(&ps);
    assert_eq!(index.len(), 2);
    assert_eq!(index[&pair_key(10, 1)].number, "1a");
    assert_eq!(index[&pair_key(10, 2)].number, "2");
}

#[test]
fn platform_rows() {
    let a = format!("{:07} {:06} {:<6} #{:07} {:>4} {:>6}", 8507000, 1234, "000011", 5, 7, 12);
    match parse_platform_row(&a).unwrap() {
        PlatformRow::JourneyPlatform(p) => {
            assert_eq!((p.stop_id, p.journey_id, p.platform_index), (8507000, 1234, 5));
            assert_eq!(p.unknown1, "000011");
            assert_eq!((p.hour, p.bit_field_id), (Some(7), Some(12)));
        }
        PlatformRow::Platform(_) => panic!("not a platform row"),
    }
    let a_empty = format!("{:07} {:06} {:<6} #{:07}", 8507000, 1234, "000011", 5);
    match parse_platform_row(&a_empty).unwrap() {
        PlatformRow::JourneyPlatform(p) => assert_eq!((p.hour, p.bit_field_id), (None, None)),
        PlatformRow::Platform(_) => panic!("not a platform row"),
    }
    let b = format!("{:07} #{:07} {}", 8507000, 5, "G '3' A 'CD'");
    match parse_platform_row(&b).unwrap() {
        PlatformRow::Platform(p) => {
            assert_eq!((p.stop_id, p.platform_index), (8507000, 5));
            assert_eq!((p.number, p.sectors), ("3".to_string(), Some("CD".to_string())));
        }
        PlatformRow::JourneyPlatform(_) => panic!("not a journey platform row"),
    }
    let bad = format!("{:07} #{:07} {}", 8507000, 5, "A 'CD'");
    assert!(parse_platform_row(&bad).is_none());
}

#[test]
fn platform_coordinate_rows() {
    assert!(matches!(parse_lv95_row(&format!("{:07} #{:07} G", 8507000, 5)), Some(Lv95Row::Stop(8507000))));
    match parse_lv95_row(&format!("{:07} #{:07} I A {}", 8507000, 5, "2600000 1200000")) {
        Some(Lv95Row::Platform(id, index, text)) => assert_eq!((id, index, text.as_str()), (8507000, 5, "2600000 1200000")),
        _ => panic!("expected a platform row"),
    }
    match parse_lv95_row(&format!("{:07} #{:07} K {}", 8507000, 5, "1 2")) {
        Some(Lv95Row::Coordinates(id, index, text)) => assert_eq!((id, index, text.as_str()), (8507000, 5, "1 2")),
        _ => panic!("expected a coordinates row"),
    }
    assert!(parse_lv95_row(&format!("{:07} {:06} {:<6} #{:07}", 8507000, 1234, "000011", 5)).is_none());
    assert!(parse_lv95_row(&format!("{:07} #{:07} X", 8507000, 5)).is_none());
}

#[test]
fn holiday_file_rows() {
    let rows = vec!["01.01.2024 Neujahr<deu>".to_string(), "01.08.2024 Bundesfeier<deu>".to_string()];
    let mut counter = AutoIncrement::new();
    let holidays = parse_rows(&rows, &mut counter).unwrap().unwrap();
    assert_eq!(holidays.len(), 2);
    assert_eq!((holidays[0].id, holidays[1].id), (1, 2));
    assert_eq!(holidays[1].date, Date { year: 2024, month: 8, day: 1 });
    assert_eq!(counter.current_value(), 2);

    let rows = vec!["01.01.2024 Neujahr<deu>".to_string(), "xx.08.2024 A<deu>".to_string(), "02.01.2024 B<deu>".to_string()];
    let mut counter = AutoIncrement::new();
    assert!(matches!(parse_rows(&rows, &mut counter), Some(Err(ParsingError::InvalidDate))));
    assert_eq!(counter.current_value(), 1);

    let rows = vec!["01.01.2024 Neujahr".to_string()];
    let mut counter = AutoIncrement::new();
    assert!(parse_rows(&rows, &mut counter).is_none());
    assert_eq!(counter.current_value(), 0);
}

#[test]
fn stop_file_rows() {
    let rows = vec!["8500010     Basel SBB$<1>".to_string(), "8507000     Bern<1>".to_string()];
    let stops = parse_stop_rows(&rows).unwrap();
    assert_eq!(stops.iter().map(|s| s.id).collect::<Vec<i32>>(), vec![8500010, 8507000]);
    assert_eq!(stops[1].name, "Bern");
    let rows = vec!["8500010     Basel SBB$<1>".to_string(), "8507000     Bern<2>".to_string()];
    assert!(parse_stop_rows(&rows).is_none());
}

#[test]
fn platform_file_rows() {
    let first = format!("{:07} {:06} {:<6} #{:07}", 8507000, 1234, "000011", 5);
    let platform = format!("{:07} #{:07} {}", 8507000, 5, "G '3'");
    let second = format!("{:07} {:06} {:<6} #{:07}", 8507000, 1235, "000011", 6);
    let rows = vec![first, platform, second];
    let (journey_platforms, platforms, size) = parse_platform_rows(&rows, &vec![40, 20, 41]).unwrap();
    assert_eq!(journey_platforms.iter().map(|p| p.journey_id).collect::<Vec<i32>>(), vec![1234, 1235]);
    assert_eq!(platforms.len(), 1);
    assert_eq!(platforms[0].number, "3");
    assert_eq!(size, 81);
    let bad = vec![format!("{:07} #{:07} {}", 8507000, 5, "A 'CD'")];
    assert!(parse_platform_rows(&bad, &vec![10]).is_none());
}
