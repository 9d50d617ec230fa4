//! Parsers for the timetable files: holidays (FEIERTAG), stops (BAHNHOF and the
//! coordinate files BFKOORD_*), platforms (GLEIS).
pub mod columns;
pub mod holiday_parser;
pub mod platforms_parser;
pub mod stops_parser;

use vstd::prelude::*;

verus! {

/// Why a row could not be read.
#[derive(Clone, Copy, Debug, PartialEq, Eq, Structural)]
pub enum ParsingError {
    /// The date is not written `dd.mm.yyyy` or names no calendar day.
    InvalidDate,
}

} // verus!
