//! Fixed-width columns of a timetable row: columns are numbered from 1, both ends
//! inclusive, an open end reaching to the end of the row; a value is the trimmed text
//! of its columns.
use vstd::prelude::*;

use crate::text::{parse_i32, parse_i32_spec, sub_chars, trim, trim_chars};

verus! {

/// The text in columns `start` to `stop` (to the end of the row where `stop` is `None`),
/// as far as the row reaches, without surrounding whitespace.
pub open spec fn column_spec(row: Seq<char>, start: int, stop: Option<int>) -> Seq<char> {
    let from = if start - 1 < row.len() {
        start - 1
    } else {
        row.len() as int
    };
    let to = match stop {
        Some(e) => if e < from {
            from
        } else if e < row.len() {
            e
        } else {
            row.len() as int
        },
        None => row.len() as int,
    };
    trim(row.subrange(from, to))
}

/// The text in columns `start` to `stop` of `row`.
pub fn read_column(row: &Vec<char>, start: usize, stop: Option<usize>) -> (r: Vec<char>)
    requires
        start >= 1,
    ensures
        r@ == column_spec(row@, start as int, match stop {
            Some(e) => Some(e as int),
            None => None,
        }),
{
    let from: usize = if start - 1 < row.len() {
        start - 1
    } else {
        row.len()
    };
    let to: usize = match stop {
        Some(e) => if e < from {
            from
        } else if e < row.len() {
            e
        } else {
            row.len()
        },
        None => row.len(),
    };
    let raw = sub_chars(row, from, to);
    trim_chars(&raw)
}

/// The integer in columns `start` to `stop` of `row`, if they hold one.
pub fn read_i32_column(row: &Vec<char>, start: usize, stop: Option<usize>) -> (r: Option<i32>)
    requires
        start >= 1,
    ensures
        r == parse_i32_spec(
            column_spec(row@, start as int, match stop {
                Some(e) => Some(e as int),
                None => None,
            }),
        ),
{
    let text = read_column(row, start, stop);
    parse_i32(&text)
}

} // verus!
