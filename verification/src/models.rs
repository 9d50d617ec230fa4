//! The timetable records: calendar dates and times of day, stops, platforms,
//! holidays and journeys with their routes.
use vstd::prelude::*;

use crate::text_map::TextMap;

verus! {

/// A calendar date.
#[derive(Clone, Copy, Debug, PartialEq, Eq, Structural)]
pub struct Date {
    pub year: i32,
    pub month: u32,
    pub day: u32,
}

/// Calendar order on dates.
pub open spec fn date_before(a: Date, b: Date) -> bool {
    ||| a.year < b.year
    ||| (a.year == b.year && a.month < b.month)
    ||| (a.year == b.year && a.month == b.month && a.day < b.day)
}

/// Whether `year` is a leap year of the Gregorian calendar.
pub open spec fn is_leap_year(year: int) -> bool {
    (year % 4 == 0 && year % 100 != 0) || year % 400 == 0
}

/// The number of days of a month (31 for a month number outside 1 to 12).
pub open spec fn days_in_month(year: int, month: int) -> int {
    if month == 2 {
        if is_leap_year(year) {
            29
        } else {
            28
        }
    } else if month == 4 || month == 6 || month == 9 || month == 11 {
        30
    } else {
        31
    }
}

/// The day after `d`; none after the last day of the last year that a date can hold.
pub open spec fn following_day(d: Date) -> Option<Date> {
    if (d.day as int) < days_in_month(d.year as int, d.month as int) {
        Some(Date { day: (d.day + 1) as u32, ..d })
    } else if d.month < 12 {
        Some(Date { month: (d.month + 1) as u32, day: 1, ..d })
    } else if d.year < i32::MAX {
        Some(Date { year: (d.year + 1) as i32, month: 1, day: 1 })
    } else {
        None
    }
}

impl Date {
    /// The day after this one: see `following_day`.
    pub fn next_day(&self) -> (r: Option<Date>)
        ensures
            r == following_day(*self),
    {
        let days: u32 = if self.month == 2 {
            if (self.year % 4 == 0 && self.year % 100 != 0) || self.year % 400 == 0 {
                29
            } else {
                28
            }
        } else if self.month == 4 || self.month == 6 || self.month == 9 || self.month == 11 {
            30
        } else {
            31
        };
        if self.day < days {
            Some(Date { day: self.day + 1, ..*self })
        } else if self.month < 12 {
            Some(Date { month: self.month + 1, day: 1, ..*self })
        } else if self.year < i32::MAX {
            Some(Date { year: self.year + 1, month: 1, day: 1 })
        } else {
            None
        }
    }

    /// Whether `self` comes before `other` in the calendar.
    pub fn is_before(&self, other: &Date) -> (r: bool)
        ensures
            r == date_before(*self, *other),
    {
        self.year < other.year || (self.year == other.year && self.month < other.month) || (
        self.year == other.year && self.month == other.month && self.day < other.day)
    }
}

/// A time of day in a timetable; hours may run past 23 for journeys that go on after midnight.
#[derive(Clone, Copy, Debug, PartialEq, Eq, Structural)]
pub struct Time {
    pub hour: i16,
    pub minute: i16,
}

/// Order on times: by hour, then by minute.
pub open spec fn time_before(a: Time, b: Time) -> bool {
    a.hour < b.hour || (a.hour == b.hour && a.minute < b.minute)
}

impl Time {
    pub fn new(hour: i16, minute: i16) -> (t: Time)
        ensures
            t.hour == hour,
            t.minute == minute,
    {
        Time { hour, minute }
    }

    /// Whether `self` is strictly earlier than `other`.
    pub fn is_before(&self, other: &Time) -> (r: bool)
        ensures
            r == time_before(*self, *other),
    {
        self.hour < other.hour || (self.hour == other.hour && self.minute < other.minute)
    }
}

/// Hands out the numbers 1, 2, 3, ... as record identifiers.
pub struct AutoIncrement {
    value: i32,
}

impl AutoIncrement {
    /// The last number handed out (0 before the first).
    pub closed spec fn current(&self) -> i32 {
        self.value
    }

    pub fn new() -> (a: AutoIncrement)
        ensures
            a.current() == 0,
    {
        AutoIncrement { value: 0 }
    }

    /// The last number handed out.
    pub fn current_value(&self) -> (n: i32)
        ensures
            n == self.current(),
    {
        self.value
    }

    /// The next number.
    pub fn next(&mut self) -> (n: i32)
        requires
            old(self).current() < i32::MAX,
        ensures
            n == old(self).current() + 1,
            final(self).current() == n,
    {
        self.value = self.value + 1;
        self.value
    }
}

/// A public holiday with its name in several languages (language code to name).
pub struct Holiday {
    pub id: i32,
    pub date: Date,
    pub name: TextMap,
}

/// A stop (station, halt) with its names and its transfer flag.
pub struct Stop {
    pub id: i32,
    pub name: String,
    pub long_name: Option<String>,
    pub abbreviation: Option<String>,
    pub synonyms: Option<Vec<String>>,
    /// Non-zero where a change of vehicle is possible at this stop.
    pub transfer_flag: i16,
}

/// The platform that a journey uses at a stop.
pub struct JourneyPlatform {
    pub journey_id: i32,
    pub stop_id: i32,
    pub unknown1: String,
    pub platform_index: i32,
    pub hour: Option<i16>,
    pub bit_field_id: Option<i32>,
}

/// A platform of a stop, with its number and its optional sectors.
pub struct Platform {
    pub stop_id: i32,
    pub platform_index: i32,
    pub number: String,
    pub sectors: Option<String>,
}

/// One stop of a journey's route with the times there.
#[derive(Clone, Copy, Debug, PartialEq, Eq, Structural)]
pub struct JourneyRouteEntry {
    pub stop_id: i32,
    pub arrival_time: Option<Time>,
    pub departure_time: Option<Time>,
}

/// A journey: the run of one vehicle along its route, on the days it operates.
pub struct Journey {
    pub id: i32,
    pub route: Vec<JourneyRouteEntry>,
    pub operating_days: Vec<Date>,
}

/// The two coordinate systems of the timetable.
#[derive(Clone, Copy, Debug, PartialEq, Eq, Structural)]
pub enum CoordinateType {
    LV95,
    WGS84,
}

/// A position in one of the coordinate systems, its components of type `C`.
#[derive(Debug)]
pub struct Coordinate<C> {
    pub coordinate_type: CoordinateType,
    pub x: C,
    pub y: C,
    pub altitude: i16,
}

/// Dates are in calendar order: by year, then within a year by month whatever the days,
/// then within a month by day; no date comes before itself, of two dates at most one
/// comes before the other, and of two different dates one does.
pub proof fn lemma_date_order(a: Date, b: Date)
    ensures
        a.year < b.year ==> date_before(a, b),
        a.year == b.year && a.month < b.month ==> date_before(a, b),
        a.year == b.year && a.month == b.month && a.day < b.day ==> date_before(a, b),
        !date_before(a, a),
        date_before(a, b) ==> !date_before(b, a),
        a != b ==> date_before(a, b) || date_before(b, a),
{
}

/// Times are in clock order, hours past 23 included: by hour, then by minute; no time
/// comes before itself, of two times at most one comes before the other, and of two
/// different times one does.
pub proof fn lemma_time_order(a: Time, b: Time)
    ensures
        a.hour < b.hour ==> time_before(a, b),
        a.hour == b.hour && a.minute < b.minute ==> time_before(a, b),
        !time_before(a, a),
        time_before(a, b) ==> !time_before(b, a),
        a != b ==> time_before(a, b) || time_before(b, a),
{
}

} // verus!
