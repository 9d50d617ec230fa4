//! The holidays file (FEIERTAG): each row holds a date `dd.mm.yyyy` in columns 1 to 10
//! and, from column 12 on, the holiday's name in several languages, written
//! `name<language>name<language>...`.
use chrono::Datelike;
use std::rc::Rc;
use vstd::prelude::*;

use crate::models::{AutoIncrement, Date, Holiday};
use crate::parsing::columns::{column_spec, read_column};
use crate::parsing::ParsingError;
use crate::text::{chars_of, split_at_char, split_char, views};
use crate::text_map::TextMap;

verus! {

// ------------------------------------------------------------------------------------------------
// --- Dates
// ------------------------------------------------------------------------------------------------

/// The year, month and day that chrono reads from `text` with the format `%d.%m.%Y`.
pub uninterp spec fn parsed_dmy(text: Seq<char>) -> Option<(i32, u32, u32)>;

/// The date that `text` holds in the form `dd.mm.yyyy`, as chrono reads it.
pub open spec fn dmy_date(text: Seq<char>) -> Option<Date> {
    match parsed_dmy(text) {
        Some((y, m, d)) => Some(Date { year: y, month: m, day: d }),
        None => None,
    }
}

/// Calls chrono's `NaiveDate::parse_from_str(text, "%d.%m.%Y")` and gives the date read
/// as year, month and day (through `Datelike`). Claimed: the result is the named
/// `parsed_dmy` of the text, and a date read has a month from 1 to 12 and a day from
/// 1 to 31, as chrono's `Datelike::month` and `Datelike::day` document. How chrono
/// reads the text is not stated.
#[verifier::external_body]
fn parse_dmy_date(text: &str) -> (r: Option<Date>)
    ensures
        r is None <==> parsed_dmy(text@) is None,
        r matches Some(d) ==> parsed_dmy(text@) == Some((d.year, d.month, d.day)),
        r matches Some(d) ==> 1 <= d.month <= 12 && 1 <= d.day <= 31,
{
    match chrono::NaiveDate::parse_from_str(text, "%d.%m.%Y") {
        Ok(d) => Some(Date { year: d.year(), month: d.month(), day: d.day() }),
        Err(_) => None,
    }
}

// ------------------------------------------------------------------------------------------------
// --- Names
// ------------------------------------------------------------------------------------------------

/// The (language, name) written by one piece `name<language`.
pub open spec fn translation_of(piece: Seq<char>) -> (Seq<char>, Seq<char>) {
    let parts = split_char(piece, '<');
    (parts[1], parts[0])
}

/// The names of the non-empty pieces, by language; a later piece of a language wins.
pub open spec fn translations_from(pieces: Seq<Seq<char>>) -> Map<Seq<char>, Seq<char>>
    decreases pieces.len(),
{
    if pieces.len() == 0 {
        Map::empty()
    } else {
        let m = translations_from(pieces.drop_last());
        let p = pieces.last();
        if p.len() == 0 {
            m
        } else {
            m.insert(translation_of(p).0, translation_of(p).1)
        }
    }
}

/// The names written in `text` (pieces separated by `>`), by language.
pub open spec fn name_translations_spec(text: Seq<char>) -> Map<Seq<char>, Seq<char>> {
    translations_from(split_char(text, '>'))
}

/// Every non-empty piece of `text` names its language after a `<`.
pub open spec fn name_translations_well_formed(text: Seq<char>) -> bool {
    let pieces = split_char(text, '>');
    forall|i: int|
        0 <= i < pieces.len() && pieces[i].len() > 0 ==> #[trigger] split_char(
            pieces[i],
            '<',
        ).len() >= 2
}

/// Reads `name<language>name<language>...` into a map from language to name.
pub fn parse_name_translations(name_translations: String) -> (r: TextMap)
    requires
        name_translations_well_formed(name_translations@),
    ensures
        r.wf(),
        r@ == name_translations_spec(name_translations@),
{
    match try_parse_name_translations(&name_translations) {
        Some(r) => r,
        None => {
            assert(false);
            TextMap::new()
        },
    }
}

/// Reads `name<language>name<language>...` into a map from language to name; `None`
/// where a non-empty piece names no language.
pub fn try_parse_name_translations(name_translations: &String) -> (r: Option<TextMap>)
    ensures
        r is Some <==> name_translations_well_formed(name_translations@),
        r matches Some(m) ==> m.wf() && m@ == name_translations_spec(name_translations@),
{
    let text = chars_of(name_translations.as_str());
    let pieces = split_at_char(&text, '>');
    let ghost all = views(pieces@);
    let mut result = TextMap::new();
    let mut i: usize = 0;
    while i < pieces.len()
        invariant
            i <= pieces.len(),
            all == views(pieces@),
            all == split_char(text@, '>'),
            text@ == name_translations@,
            forall|j: int|
                0 <= j < i && all[j].len() > 0 ==> #[trigger] split_char(all[j], '<').len() >= 2,
            result.wf(),
            result@ == translations_from(all.take(i as int)),
        decreases pieces.len() - i,
    {
        assert(all.take(i + 1).drop_last() =~= all.take(i as int));
        assert(all.take(i + 1).last() == pieces@[i as int]@);
        if pieces[i].len() > 0 {
            let mut parts = split_at_char(&pieces[i], '<');
            if parts.len() < 2 {
                assert(split_char(all[i as int], '<').len() < 2);
                return None;
            }
            let ghost ps = views(parts@);
            let language = parts.remove(1);
            let name = parts.remove(0);
            assert(language@ == ps[1] && name@ == ps[0]);
            result.insert(language, name);
        }
        i = i + 1;
    }
    assert(all.take(pieces.len() as int) =~= all);
    Some(result)
}

// ------------------------------------------------------------------------------------------------
// --- Holidays
// ------------------------------------------------------------------------------------------------

/// The holiday of a row whose date chrono read as `date` (`None` where it could not), with
/// the names `name_translations` and the next number of `auto_increment` as its id; a
/// date that could not be read is an error, and then no number is used.
pub fn holiday_from_parts(
    date: Option<Date>,
    name_translations: String,
    auto_increment: &mut AutoIncrement,
) -> (r: Result<Holiday, ParsingError>)
    requires
        date is Some ==> name_translations_well_formed(name_translations@) && old(auto_increment).current() < i32::MAX,
    ensures
        match date {
            None => r matches Err(ParsingError::InvalidDate) && final(auto_increment).current()
                == old(auto_increment).current(),
            Some(d) => r matches Ok(h) && h.date == d && h.id == old(auto_increment).current() + 1
                && final(auto_increment).current() == h.id && h.name.wf() && h.name@
                == name_translations_spec(name_translations@),
        },
{
    match date {
        None => Err(ParsingError::InvalidDate),
        Some(d) => {
            let name = parse_name_translations(name_translations);
            let id = auto_increment.next();
            Ok(Holiday { id, date: d, name })
        },
    }
}

/// The holiday whose date is written `dd.mm.yyyy` in `date` and whose names are written
/// in `name_translations`, numbered by `auto_increment`.
pub fn create_instance(
    date: String,
    name_translations: String,
    auto_increment: &mut AutoIncrement,
) -> (r: Result<Holiday, ParsingError>)
    requires
        dmy_date(date@) is Some ==> name_translations_well_formed(name_translations@) && old(auto_increment).current() < i32::MAX,
    ensures
        match dmy_date(date@) {
            None => r matches Err(ParsingError::InvalidDate) && final(auto_increment).current()
                == old(auto_increment).current(),
            Some(d) => r matches Ok(h) && h.date == d && h.id == old(auto_increment).current() + 1
                && final(auto_increment).current() == h.id && h.name.wf() && h.name@
                == name_translations_spec(name_translations@),
        },
{
    let parsed = parse_dmy_date(date.as_str());
    assert(parsed == dmy_date(date@));
    holiday_from_parts(parsed, name_translations, auto_increment)
}

/// The text of a row's date (columns 1 to 10).
pub open spec fn row_date(row: Seq<char>) -> Seq<char> {
    column_spec(row, 1, Some(10))
}

/// The text of a row's names (column 12 to the end).
pub open spec fn row_names(row: Seq<char>) -> Seq<char> {
    column_spec(row, 12, None)
}

/// The holiday of one row of the holidays file, numbered by `auto_increment`. `None`
/// where the row cannot be taken in: its date is read but its names are not well formed,
/// or no number is left; the counter is then unchanged.
pub fn parse_row(row: &str, auto_increment: &mut AutoIncrement) -> (r: Option<
    Result<Holiday, ParsingError>,
>)
    ensures
        match dmy_date(row_date(row@)) {
            None => r matches Some(Err(ParsingError::InvalidDate)) && final(auto_increment).current() == old(auto_increment).current(),
            Some(d) => if name_translations_well_formed(row_names(row@)) && old(auto_increment).current() < i32::MAX {
                r matches Some(Ok(h)) && h.date == d && h.id == old(auto_increment).current() + 1
                    && final(auto_increment).current() == h.id && h.name.wf() && h.name@
                    == name_translations_spec(row_names(row@))
            } else {
                r is None && final(auto_increment).current() == old(auto_increment).current()
            },
        },
{
    let chars = chars_of(row);
    let date_text = crate::text::string_from_chars(read_column(&chars, 1, Some(10)));
    let names_text = crate::text::string_from_chars(read_column(&chars, 12, None));
    if auto_increment.current_value() < i32::MAX && try_parse_name_translations(&names_text).is_some() {
        Some(create_instance(date_text, names_text, auto_increment))
    } else {
        match parse_dmy_date(date_text.as_str()) {
            None => Some(Err(ParsingError::InvalidDate)),
            Some(_) => None,
        }
    }
}

/// The row's date reads and its names are well formed.
pub open spec fn holiday_row_ok(row: Seq<char>) -> bool {
    dmy_date(row_date(row)) is Some && name_translations_well_formed(row_names(row))
}

/// `h` is the holiday of the row, numbered `id`.
pub open spec fn holiday_of_row(row: Seq<char>, id: int, h: Holiday) -> bool {
    &&& dmy_date(row_date(row)) == Some(h.date)
    &&& h.id == id
    &&& h.name.wf()
    &&& h.name@ == name_translations_spec(row_names(row))
}

/// The rows before `k` can be taken in, numbered from `start + 1` on.
pub open spec fn rows_ok_before(rows: Seq<String>, start: int, k: int) -> bool {
    forall|m: int| 0 <= m < k ==> holiday_row_ok(#[trigger] rows[m]@) && start + m < i32::MAX
}

/// The holidays of the rows of the holidays file, in file order, numbered by
/// `auto_increment`. Reading stops at the first row that cannot be taken in: an error
/// where its date does not read; `None` where its names are not well formed or no number
/// is left. The counter then holds the number of the last holiday read.
pub fn parse_rows(rows: &Vec<String>, auto_increment: &mut AutoIncrement) -> (r: Option<
    Result<Vec<Rc<Holiday>>, ParsingError>,
>)
    ensures
        ({
            let start = old(auto_increment).current() as int;
            match r {
                Some(Ok(v)) => {
                    &&& rows_ok_before(rows@, start, rows.len() as int)
                    &&& v.len() == rows.len()
                    &&& forall|k: int|
                        0 <= k < rows.len() ==> holiday_of_row(#[trigger] rows@[k]@, start + k + 1, *v@[k])
                    &&& final(auto_increment).current() == start + rows.len()
                },
                Some(Err(e)) => exists|k: int|
                    0 <= k < rows.len() && rows_ok_before(rows@, start, k) && dmy_date(
                        row_date(#[trigger] rows@[k]@),
                    ) is None && e == ParsingError::InvalidDate && final(auto_increment).current()
                        == start + k,
                None => exists|k: int|
                    0 <= k < rows.len() && rows_ok_before(rows@, start, k) && dmy_date(
                        row_date(#[trigger] rows@[k]@),
                    ) is Some && (!name_translations_well_formed(row_names(rows@[k]@)) || start + k
                        == i32::MAX) && final(auto_increment).current() == start + k,
            }
        }),
{
    let ghost start = auto_increment.current() as int;
    let mut holidays: Vec<Rc<Holiday>> = Vec::new();
    let mut i: usize = 0;
    while i < rows.len()
        invariant
            i <= rows.len(),
            holidays.len() == i,
            rows_ok_before(rows@, start, i as int),
            forall|k: int| 0 <= k < i ==> holiday_of_row(#[trigger] rows@[k]@, start + k + 1, *holidays@[k]),
            auto_increment.current() == start + i,
            start == old(auto_increment).current() as int,
        decreases rows.len() - i,
    {
        match parse_row(rows[i].as_str(), auto_increment) {
            Some(Ok(h)) => {
                holidays.push(Rc::new(h));
            },
            Some(Err(e)) => {
                let ghost k = i as int;
                assert(0 <= k < rows.len() && rows_ok_before(rows@, start, k) && dmy_date(
                    row_date(rows@[k]@),
                ) is None && e == ParsingError::InvalidDate && auto_increment.current() == start + k);
                return Some(Err(e));
            },
            None => {
                let ghost k = i as int;
                assert(0 <= k < rows.len() && rows_ok_before(rows@, start, k) && dmy_date(
                    row_date(rows@[k]@),
                ) is Some && (!name_translations_well_formed(row_names(rows@[k]@)) || start + k
                    == i32::MAX) && auto_increment.current() == start + k);
                return None;
            },
        }
        i = i + 1;
    }
    Some(Ok(holidays))
}

} // verus!
