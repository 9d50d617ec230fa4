//! The checks that the isochrone service makes on a request before computing.
use vstd::prelude::*;

use crate::models::{date_before, Date};
use crate::text::chars_of;

verus! {

/// How isochrones are drawn.
#[derive(Clone, Copy, Debug, PartialEq, Eq, Structural)]
pub enum IsochroneDisplayMode {
    Circles,
    ContourLine,
}

/// Why a request is refused.
#[derive(Clone, Copy, Debug, PartialEq, Eq, Structural)]
pub enum RequestError {
    /// The departure date is outside the dates of the timetable.
    DateOutOfRange,
    /// The time limit is not a whole number of isochrone intervals (or the interval is
    /// zero).
    IntervalMismatch,
    /// The display mode is neither `circles` nor `contour_line`.
    UnknownDisplayMode,
}

/// The display mode that `text` names.
pub open spec fn display_mode_spec(text: Seq<char>) -> Option<IsochroneDisplayMode> {
    if text == "circles"@ {
        Some(IsochroneDisplayMode::Circles)
    } else if text == "contour_line"@ {
        Some(IsochroneDisplayMode::ContourLine)
    } else {
        None
    }
}

/// The display mode that `display_mode` names: `circles` or `contour_line`.
pub fn display_mode_from_str(display_mode: &str) -> (r: Option<IsochroneDisplayMode>)
    ensures
        r == display_mode_spec(display_mode@),
{
    let text = chars_of(display_mode);
    if crate::text::chars_eq_str(&text, "circles") {
        Some(IsochroneDisplayMode::Circles)
    } else if crate::text::chars_eq_str(&text, "contour_line") {
        Some(IsochroneDisplayMode::ContourLine)
    } else {
        None
    }
}

/// What the service answers to a request: the first failed check refuses it, in the order
/// date, intervals, display mode; otherwise the display mode to draw with.
pub open spec fn isochrone_request_spec(
    departure_date: Date,
    start_date: Date,
    end_date: Date,
    time_limit: u32,
    isochrone_interval: u32,
    display_mode: Seq<char>,
) -> Result<IsochroneDisplayMode, RequestError> {
    if date_before(departure_date, start_date) || date_before(end_date, departure_date) {
        Err(RequestError::DateOutOfRange)
    } else if isochrone_interval == 0 || time_limit % isochrone_interval != 0 {
        Err(RequestError::IntervalMismatch)
    } else {
        match display_mode_spec(display_mode) {
            Some(mode) => Ok(mode),
            None => Err(RequestError::UnknownDisplayMode),
        }
    }
}

/// Checks an isochrone request against the dates of the timetable (`start_date` to
/// `end_date`, both included): see `isochrone_request_spec`.
pub fn check_isochrone_request(
    departure_date: Date,
    start_date: Date,
    end_date: Date,
    time_limit: u32,
    isochrone_interval: u32,
    display_mode: &str,
) -> (r: Result<IsochroneDisplayMode, RequestError>)
    ensures
        r == isochrone_request_spec(
            departure_date,
            start_date,
            end_date,
            time_limit,
            isochrone_interval,
            display_mode@,
        ),
{
    if departure_date.is_before(&start_date) || end_date.is_before(&departure_date) {
        return Err(RequestError::DateOutOfRange);
    }
    if isochrone_interval == 0 || time_limit % isochrone_interval != 0 {
        return Err(RequestError::IntervalMismatch);
    }
    match display_mode_from_str(display_mode) {
        Some(mode) => Ok(mode),
        None => Err(RequestError::UnknownDisplayMode),
    }
}

} // verus!
