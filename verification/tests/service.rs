use hrdf_routing_engine::models::Date;
use hrdf_routing_engine::service::{check_isochrone_request, display_mode_from_str, IsochroneDisplayMode, RequestError};

fn d(year: i32, month: u32, day: u32) -> Date {
    Date { year, month, day }
}

#[test]
fn display_modes() {
    assert_eq!(display_mode_from_str("circles"), Some(IsochroneDisplayMode::Circles));
    assert_eq!(display_mode_from_str("contour_line"), Some(IsochroneDisplayMode::ContourLine));
    assert_eq!(display_mode_from_str("Circles"), None);
    assert_eq!(display_mode_from_str(""), None);
}

#[test]
fn request_checks() {
    let (start, end) = (d(2023, 12, 10), d(2024, 12, 14));
    assert_eq!(check_isochrone_request(d(2024, 6, 1), start, end, 60, 10, "circles"), Ok(IsochroneDisplayMode::Circles));
    assert_eq!(check_isochrone_request(start, start, end, 60, 60, "contour_line"), Ok(IsochroneDisplayMode::ContourLine));
    assert_eq!(check_isochrone_request(end, start, end, 0, 7, "circles"), Ok(IsochroneDisplayMode::Circles));
    assert_eq!(check_isochrone_request(d(2023, 12, 9), start, end, 60, 10, "circles"), Err(RequestError::DateOutOfRange));
    assert_eq!(check_isochrone_request(d(2024, 12, 15), start, end, 60, 10, "circles"), Err(RequestError::DateOutOfRange));
    assert_eq!(check_isochrone_request(d(2024, 6, 1), start, end, 60, 7, "circles"), Err(RequestError::IntervalMismatch));
    assert_eq!(check_isochrone_request(d(2024, 6, 1), start, end, 60, 0, "circles"), Err(RequestError::IntervalMismatch));
    assert_eq!(check_isochrone_request(d(2024, 6, 1), start, end, 0, 0, "circles"), Err(RequestError::IntervalMismatch));
    assert_eq!(check_isochrone_request(d(2024, 6, 1), start, end, 60, 10, "squares"), Err(RequestError::UnknownDisplayMode));
    assert_eq!(check_isochrone_request(d(2025, 1, 1), start, end, 61, 10, "squares"), Err(RequestError::DateOutOfRange));
}
