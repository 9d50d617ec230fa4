//! The stops file (BAHNHOF) and the stop coordinate files (BFKOORD_LV95, BFKOORD_WGS).
//!
//! A stop row holds the stop's number in columns 1 to 7 and, from column 13 on, its
//! names written `name<kind>name<kind>...`, where kind 1 is the name, 2 the long name,
//! 3 the abbreviation and 4 a synonym; `$` characters in the names are dropped.
use std::collections::HashMap;
use std::rc::Rc;
use vstd::prelude::*;

use crate::models::{Coordinate, CoordinateType, Stop};
use crate::parsing::columns::{column_spec, read_column, read_i32_column};
use crate::shared::share;
use crate::text::{
    chars_of,
    parse_i32,
    parse_i32_spec,
    remove_char,
    remove_char_exec,
    split_at_char,
    split_char,
    string_from_chars,
    views,
};

verus! {

broadcast use vstd::std_specs::hash::group_hash_axioms;

/// The views of a sequence of strings.
pub open spec fn string_views(v: Seq<String>) -> Seq<Seq<char>> {
    v.map_values(|x: String| x@)
}

// ------------------------------------------------------------------------------------------------
// --- Names
// ------------------------------------------------------------------------------------------------

/// The parts `name`, `kind`, ... of one piece, once its `$` characters are dropped.
pub open spec fn stop_name_parts(piece: Seq<char>) -> Seq<Seq<char>> {
    split_char(remove_char(piece, '$'), '<')
}

/// The names of the non-empty pieces, grouped by kind in the order they come.
pub open spec fn stop_names_from(pieces: Seq<Seq<char>>) -> Map<i32, Seq<Seq<char>>>
    decreases pieces.len(),
{
    if pieces.len() == 0 {
        Map::empty()
    } else {
        let m = stop_names_from(pieces.drop_last());
        let p = pieces.last();
        if p.len() == 0 {
            m
        } else {
            let parts = stop_name_parts(p);
            let kind = parse_i32_spec(parts[1])->0;
            let earlier = if m.contains_key(kind) {
                m[kind]
            } else {
                Seq::empty()
            };
            m.insert(kind, earlier.push(parts[0]))
        }
    }
}

/// The names written in `text` (pieces separated by `>`), grouped by kind.
pub open spec fn stop_names_spec(text: Seq<char>) -> Map<i32, Seq<Seq<char>>> {
    stop_names_from(split_char(text, '>'))
}

/// Every non-empty piece of `text` has an integer kind after its `<`.
pub open spec fn stop_name_well_formed(text: Seq<char>) -> bool {
    let pieces = split_char(text, '>');
    forall|i: int|
        0 <= i < pieces.len() && pieces[i].len() > 0 ==> {
            let parts = #[trigger] stop_name_parts(pieces[i]);
            parts.len() >= 2 && parse_i32_spec(parts[1]) is Some
        }
}

/// The names held by a map from kind to strings.
pub open spec fn names_view(m: Map<i32, Vec<String>>) -> Map<i32, Seq<Seq<char>>> {
    Map::new(|k: i32| m.contains_key(k), |k: i32| string_views(m[k]@))
}

/// Reads `name<kind>name<kind>...` into the names of each kind, in the order they come.
pub fn parse_stop_name(stop_name: String) -> (r: HashMap<i32, Vec<String>>)
    requires
        stop_name_well_formed(stop_name@),
    ensures
        names_view(r@) == stop_names_spec(stop_name@),
        forall|k: i32| #[trigger] r@.contains_key(k) ==> r@[k]@.len() > 0,
{
    match try_parse_stop_name(&stop_name) {
        Some(r) => r,
        None => {
            assert(false);
            HashMap::new()
        },
    }
}

/// Reads `name<kind>name<kind>...` into the names of each kind, in the order they come;
/// `None` where a non-empty piece has no integer kind after its `<`.
pub fn try_parse_stop_name(stop_name: &String) -> (r: Option<HashMap<i32, Vec<String>>>)
    ensures
        r is Some <==> stop_name_well_formed(stop_name@),
        r matches Some(m) ==> names_view(m@) == stop_names_spec(stop_name@) && forall|k: i32|
            #[trigger] m@.contains_key(k) ==> m@[k]@.len() > 0,
{
    let text = chars_of(stop_name.as_str());
    let pieces = split_at_char(&text, '>');
    let ghost all = views(pieces@);
    let mut result: HashMap<i32, Vec<String>> = HashMap::new();
    let mut i: usize = 0;
    assert(names_view(result@) =~= stop_names_from(all.take(0)));
    while i < pieces.len()
        invariant
            i <= pieces.len(),
            all == views(pieces@),
            all == split_char(text@, '>'),
            text@ == stop_name@,
            forall|j: int|
                0 <= j < i && all[j].len() > 0 ==> {
                    let parts = #[trigger] stop_name_parts(all[j]);
                    parts.len() >= 2 && parse_i32_spec(parts[1]) is Some
                },
            names_view(result@) == stop_names_from(all.take(i as int)),
            forall|k: i32| #[trigger] result@.contains_key(k) ==> result@[k]@.len() > 0,
        decreases pieces.len() - i,
    {
        assert(all.take(i + 1).drop_last() =~= all.take(i as int));
        assert(all.take(i + 1).last() == pieces@[i as int]@);
        if pieces[i].len() > 0 {
            let cleaned = remove_char_exec(&pieces[i], '$');
            let mut parts = split_at_char(&cleaned, '<');
            let ghost ps = views(parts@);
            assert(ps == stop_name_parts(all[i as int]));
            if parts.len() < 2 {
                return None;
            }
            let kind = match parse_i32(&parts[1]) {
                Some(k) => k,
                None => {
                    return None;
                },
            };
            let name = string_from_chars(parts.remove(0));
            let ghost before = names_view(result@);
            let names = match result.remove(&kind) {
                Some(mut earlier) => {
                    earlier.push(name);
                    earlier
                },
                None => {
                    let mut fresh: Vec<String> = Vec::new();
                    fresh.push(name);
                    fresh
                },
            };
            let ghost pushed = names@;
            result.insert(kind, names);
            assert(string_views(pushed) =~= (if before.contains_key(kind) {
                before[kind]
            } else {
                Seq::empty()
            }).push(ps[0]));
            assert(names_view(result@) =~= before.insert(
                kind,
                (if before.contains_key(kind) {
                    before[kind]
                } else {
                    Seq::empty()
                }).push(ps[0]),
            ));
        }
        i = i + 1;
    }
    assert(all.take(pieces.len() as int) =~= all);
    Some(result)
}

// ------------------------------------------------------------------------------------------------
// --- Stops
// ------------------------------------------------------------------------------------------------

/// The stop numbered `id` whose names are written in `raw_name`: its name is the first
/// name of kind 1, its long name and abbreviation the first of kinds 2 and 3, its
/// synonyms all names of kind 4; its transfer flag is 0.
pub fn create_stop(id: i32, raw_name: String) -> (s: Stop)
    requires
        stop_name_well_formed(raw_name@),
        stop_names_spec(raw_name@).contains_key(1),
    ensures
        stop_from_names_spec(s, id, stop_names_spec(raw_name@)),
{
    stop_from_names(id, parse_stop_name(raw_name))
}

/// The stop numbered `id` with the names `names` (by kind): see `create_stop`.
pub open spec fn stop_from_names_spec(s: Stop, id: i32, names: Map<i32, Seq<Seq<char>>>) -> bool {
    &&& s.id == id
    &&& s.name@ == names[1][0]
    &&& (s.long_name is Some <==> names.contains_key(2))
    &&& (s.long_name matches Some(n) ==> n@ == names[2][0])
    &&& (s.abbreviation is Some <==> names.contains_key(3))
    &&& (s.abbreviation matches Some(n) ==> n@ == names[3][0])
    &&& (s.synonyms is Some <==> names.contains_key(4))
    &&& (s.synonyms matches Some(v) ==> string_views(v@) == names[4])
    &&& s.transfer_flag == 0
}

/// The stop numbered `id` with the names of each kind in `names`.
fn stop_from_names(id: i32, names: HashMap<i32, Vec<String>>) -> (s: Stop)
    requires
        names@.contains_key(1),
        forall|k: i32| #[trigger] names@.contains_key(k) ==> names@[k]@.len() > 0,
    ensures
        stop_from_names_spec(s, id, names_view(names@)),
{
    let mut parsed = names;
    let name = match parsed.remove(&1) {
        Some(mut v) => {
            assert(string_views(v@)[0] == v@[0]@);
            v.remove(0)
        },
        None => {
            assert(false);
            String::new()
        },
    };
    let long_name = match parsed.remove(&2) {
        Some(mut v) => {
            assert(string_views(v@)[0] == v@[0]@);
            Some(v.remove(0))
        },
        None => None,
    };
    let abbreviation = match parsed.remove(&3) {
        Some(mut v) => {
            assert(string_views(v@)[0] == v@[0]@);
            Some(v.remove(0))
        },
        None => None,
    };
    let synonyms = parsed.remove(&4);
    Stop { id, name, long_name, abbreviation, synonyms, transfer_flag: 0 }
}

/// What one row of the stops file gives: its number in columns 1 to 7, its names from
/// column 13 on. `None` where the row cannot be taken in: the number is not an integer,
/// or the names are not well formed or have no name of kind 1.
pub open spec fn stop_row_spec(row: Seq<char>, r: Option<Stop>) -> bool {
    let id = parse_i32_spec(column_spec(row, 1, Some(7)));
    let names = column_spec(row, 13, None);
    match r {
        Some(s) => id == Some(s.id) && stop_name_well_formed(names) && stop_names_spec(
            names,
        ).contains_key(1) && stop_from_names_spec(s, s.id, stop_names_spec(names)),
        None => id is None || !stop_name_well_formed(names) || !stop_names_spec(
            names,
        ).contains_key(1),
    }
}

/// The stop of one row of the stops file: see `stop_row_spec`.
pub fn parse_stop_row(row: &str) -> (r: Option<Stop>)
    ensures
        stop_row_spec(row@, r),
{
    let chars = chars_of(row);
    let id = match read_i32_column(&chars, 1, Some(7)) {
        Some(id) => id,
        None => return None,
    };
    let raw_name = string_from_chars(read_column(&chars, 13, None));
    let names = match try_parse_stop_name(&raw_name) {
        Some(names) => names,
        None => return None,
    };
    if !names.contains_key(&1) {
        return None;
    }
    Some(stop_from_names(id, names))
}

/// The stops of the rows of a stops file, in file order; `None` where a row cannot be
/// taken in.
pub fn parse_stop_rows(rows: &Vec<String>) -> (r: Option<Vec<Rc<Stop>>>)
    ensures
        r is None <==> exists|k: int| 0 <= k < rows.len() && stop_row_spec(#[trigger] rows@[k]@, None),
        r matches Some(v) ==> v.len() == rows.len() && forall|k: int|
            0 <= k < rows.len() ==> stop_row_spec(#[trigger] rows@[k]@, Some(*v@[k])),
{
    let mut stops: Vec<Rc<Stop>> = Vec::new();
    let mut i: usize = 0;
    while i < rows.len()
        invariant
            i <= rows.len(),
            stops.len() == i,
            forall|k: int| 0 <= k < i ==> stop_row_spec(#[trigger] rows@[k]@, Some(*stops@[k])),
        decreases rows.len() - i,
    {
        match parse_stop_row(rows[i].as_str()) {
            Some(stop) => {
                stops.push(Rc::new(stop));
            },
            None => {
                return None;
            },
        }
        i = i + 1;
    }
    Some(stops)
}

// ------------------------------------------------------------------------------------------------
// --- Indexes
// ------------------------------------------------------------------------------------------------

/// The stops by number; of two stops with one number the later one is kept.
pub open spec fn stops_index_from(stops: Seq<Rc<Stop>>) -> Map<i32, Rc<Stop>>
    decreases stops.len(),
{
    if stops.len() == 0 {
        Map::empty()
    } else {
        stops_index_from(stops.drop_last()).insert(stops.last().id, stops.last())
    }
}

/// The stops by number.
pub fn create_stops_primary_index(stops: &Vec<Rc<Stop>>) -> (r: HashMap<i32, Rc<Stop>>)
    ensures
        r@ == stops_index_from(stops@),
{
    let mut index: HashMap<i32, Rc<Stop>> = HashMap::new();
    let mut i: usize = 0;
    while i < stops.len()
        invariant
            i <= stops.len(),
            index@ == stops_index_from(stops@.take(i as int)),
        decreases stops.len() - i,
    {
        assert(stops@.take(i + 1).drop_last() =~= stops@.take(i as int));
        let stop = share(&stops[i]);
        index.insert(stops[i].id, stop);
        i = i + 1;
    }
    assert(stops@.take(stops.len() as int) =~= stops@);
    index
}

// ------------------------------------------------------------------------------------------------
// --- Coordinates
// ------------------------------------------------------------------------------------------------

/// The coordinates of the stops, by stop number, in each coordinate system.
pub struct StopCoordinates<C> {
    pub lv95: HashMap<i32, Coordinate<C>>,
    pub wgs84: HashMap<i32, Coordinate<C>>,
}

impl<C> StopCoordinates<C> {
    pub fn new() -> (r: StopCoordinates<C>)
        ensures
            r.lv95@ == Map::<i32, Coordinate<C>>::empty(),
            r.wgs84@ == Map::<i32, Coordinate<C>>::empty(),
    {
        StopCoordinates { lv95: HashMap::new(), wgs84: HashMap::new() }
    }
}

/// The name of the coordinate file of a coordinate system.
pub fn coordinates_file_name(coordinate_type: CoordinateType) -> (r: &'static str)
    ensures
        coordinate_type == CoordinateType::LV95 ==> r@ == "BFKOORD_LV95"@,
        coordinate_type == CoordinateType::WGS84 ==> r@ == "BFKOORD_WGS"@,
{
    match coordinate_type {
        CoordinateType::LV95 => "BFKOORD_LV95",
        CoordinateType::WGS84 => "BFKOORD_WGS",
    }
}

/// The coordinate that a row gives with the components `xy1` and `xy2`: the files hold
/// WGS84 coordinates with their two components in reverse order.
pub open spec fn row_coordinate<C>(
    coordinate_type: CoordinateType,
    xy1: C,
    xy2: C,
    altitude: i16,
) -> Coordinate<C> {
    if coordinate_type == CoordinateType::WGS84 {
        Coordinate { coordinate_type, x: xy2, y: xy1, altitude }
    } else {
        Coordinate { coordinate_type, x: xy1, y: xy2, altitude }
    }
}

/// Records the coordinate of the stop `stop_id` that one row of a coordinate file gives.
pub fn set_coordinate<C>(
    stop_id: i32,
    xy1: C,
    xy2: C,
    altitude: i16,
    coordinate_type: CoordinateType,
    stops_primary_index: &HashMap<i32, Rc<Stop>>,
    coordinates: &mut StopCoordinates<C>,
)
    requires
        stops_primary_index@.contains_key(stop_id),
    ensures
        coordinate_type == CoordinateType::LV95 ==> final(coordinates).lv95@ == old(coordinates).lv95@.insert(stop_id, row_coordinate(coordinate_type, xy1, xy2, altitude)) && final(coordinates).wgs84@ == old(coordinates).wgs84@,
        coordinate_type == CoordinateType::WGS84 ==> final(coordinates).wgs84@ == old(coordinates).wgs84@.insert(stop_id, row_coordinate(coordinate_type, xy1, xy2, altitude)) && final(coordinates).lv95@ == old(coordinates).lv95@,
{
    let (x, y) = match coordinate_type {
        CoordinateType::WGS84 => (xy2, xy1),
        CoordinateType::LV95 => (xy1, xy2),
    };
    let coordinate = Coordinate { coordinate_type, x, y, altitude };
    match coordinate_type {
        CoordinateType::LV95 => {
            coordinates.lv95.insert(stop_id, coordinate);
        },
        CoordinateType::WGS84 => {
            coordinates.wgs84.insert(stop_id, coordinate);
        },
    }
}

/// The fields of one row of a coordinate file: the stop number (columns 1 to 7), the
/// text of the two components (columns 9 to 18 and 20 to 29) and the altitude (columns
/// 31 to 36). `None` where the number or the altitude is not an integer of its size.
pub fn parse_coordinate_row(row: &str) -> (r: Option<(i32, String, String, i16)>)
    ensures
        ({
            let id = parse_i32_spec(column_spec(row@, 1, Some(7)));
            let alt = parse_i32_spec(column_spec(row@, 31, Some(36)));
            match r {
                Some((stop_id, xy1, xy2, altitude)) => id == Some(stop_id) && alt == Some(
                    altitude as i32,
                ) && xy1@ == column_spec(row@, 9, Some(18)) && xy2@ == column_spec(
                    row@,
                    20,
                    Some(29),
                ),
                None => id is None || alt is None || alt->0 < i16::MIN || alt->0 > i16::MAX,
            }
        }),
{
    let chars = chars_of(row);
    let stop_id = match read_i32_column(&chars, 1, Some(7)) {
        Some(v) => v,
        None => return None,
    };
    let altitude = match read_i32_column(&chars, 31, Some(36)) {
        Some(v) => if -32768 <= v && v <= 32767 {
            v as i16
        } else {
            return None;
        },
        None => return None,
    };
    let xy1 = string_from_chars(read_column(&chars, 9, Some(18)));
    let xy2 = string_from_chars(read_column(&chars, 20, Some(29)));
    Some((stop_id, xy1, xy2, altitude))
}


// ------------------------------------------------------------------------------------------------
// --- Laws
// ------------------------------------------------------------------------------------------------

proof fn lemma_remove_char_absent(s: Seq<char>, c: char)
    ensures
        !remove_char(s, c).contains(c),
    decreases s.len(),
{
    if s.len() > 0 {
        lemma_remove_char_absent(s.drop_last(), c);
        let r = remove_char(s.drop_last(), c);
        if s.last() != c {
            assert forall|k: int| 0 <= k < r.push(s.last()).len() implies r.push(s.last())[k] != c by {
                if k < r.len() {
                    assert(r.push(s.last())[k] == r[k]);
                }
            }
        }
    }
}

proof fn lemma_split_pieces_within(s: Seq<char>, sep: Seq<char>, start: int, c: char)
    requires
        sep.len() > 0,
        0 <= start <= s.len(),
        !s.contains(c),
    ensures
        forall|k: int|
            0 <= k < crate::text::split_from(s, sep, start).len() ==> !(#[trigger] crate::text::split_from(
                s,
                sep,
                start,
            )[k]).contains(c),
    decreases s.len() - start,
{
    crate::text::lemma_first_match_bounds(s, sep, start);
    let pieces = crate::text::split_from(s, sep, start);
    match crate::text::first_match_from(s, sep, start) {
        None => {
            assert forall|k: int| 0 <= k < pieces.len() implies !(#[trigger] pieces[k]).contains(c) by {
                let p = s.subrange(start, s.len() as int);
                assert(pieces[k] == p);
                if p.contains(c) {
                    let j = choose|j: int| 0 <= j < p.len() && p[j] == c;
                    assert(s[start + j] == c);
                }
            }
        },
        Some(i) => {
            lemma_split_pieces_within(s, sep, i + sep.len(), c);
            let rest = crate::text::split_from(s, sep, i + sep.len());
            let p = s.subrange(start, i);
            assert forall|k: int| 0 <= k < pieces.len() implies !(#[trigger] pieces[k]).contains(c) by {
                if k == 0 {
                    assert(pieces[k] == p);
                    if p.contains(c) {
                        let j = choose|j: int| 0 <= j < p.len() && p[j] == c;
                        assert(s[start + j] == c);
                    }
                } else {
                    assert(pieces[k] == rest[k - 1]);
                }
            }
        },
    }
}

/// No stop name keeps a `$`: every name read for every kind is free of `$`.
pub proof fn lemma_stop_names_have_no_dollar(text: Seq<char>)
    ensures
        forall|kind: i32, i: int|
            #[trigger] stop_names_spec(text).contains_key(kind) && 0 <= i < stop_names_spec(
                text,
            )[kind].len() ==> !(#[trigger] stop_names_spec(text)[kind][i]).contains('$'),
{
    lemma_stop_names_from_no_dollar(split_char(text, '>'));
}

proof fn lemma_stop_names_from_no_dollar(pieces: Seq<Seq<char>>)
    ensures
        forall|kind: i32, i: int|
            #[trigger] stop_names_from(pieces).contains_key(kind) && 0 <= i < stop_names_from(
                pieces,
            )[kind].len() ==> !(#[trigger] stop_names_from(pieces)[kind][i]).contains('$'),
    decreases pieces.len(),
{
    if pieces.len() > 0 {
        lemma_stop_names_from_no_dollar(pieces.drop_last());
        let p = pieces.last();
        if p.len() > 0 {
            let cleaned = remove_char(p, '$');
            lemma_remove_char_absent(p, '$');
            crate::text::lemma_split_from_len(cleaned, seq!['<'], 0);
            lemma_split_pieces_within(cleaned, seq!['<'], 0, '$');
            let parts = stop_name_parts(p);
            assert(!parts[0].contains('$'));
            let m = stop_names_from(pieces.drop_last());
            let kind = parse_i32_spec(parts[1])->0;
            let earlier = if m.contains_key(kind) {
                m[kind]
            } else {
                Seq::empty()
            };
            let r = stop_names_from(pieces);
            assert forall|k: i32, i: int|
                #[trigger] r.contains_key(k) && 0 <= i < r[k].len() implies !(#[trigger] r[k][i]).contains(
                '$',
            ) by {
                if k == kind {
                    if i < earlier.len() {
                        assert(r[k][i] == earlier[i]);
                    } else {
                        assert(r[k][i] == parts[0]);
                    }
                } else {
                    assert(r[k] == m[k]);
                }
            }
        }
    }
}

/// The stop index holds exactly the numbers of the stops, and under each number the last
/// stop with that number.
pub proof fn lemma_stops_index(stops: Seq<Rc<Stop>>, id: i32)
    ensures
        stops_index_from(stops).contains_key(id) <==> exists|i: int|
            0 <= i < stops.len() && stops[i].id == id,
        stops_index_from(stops).contains_key(id) ==> exists|i: int|
            0 <= i < stops.len() && stops[i].id == id && stops_index_from(stops)[id] == stops[i]
                && forall|j: int| i < j < stops.len() ==> stops[j].id != id,
    decreases stops.len(),
{
    if stops.len() > 0 {
        let rest = stops.drop_last();
        lemma_stops_index(rest, id);
        let last = stops.len() - 1;
        if stops[last].id != id {
            if stops_index_from(rest).contains_key(id) {
                let i = choose|i: int|
                    0 <= i < rest.len() && rest[i].id == id && stops_index_from(rest)[id] == rest[i]
                        && forall|j: int| i < j < rest.len() ==> rest[j].id != id;
                assert(stops[i] == rest[i]);
                assert(stops_index_from(stops)[id] == stops[i]);
                assert forall|j: int| i < j < stops.len() implies stops[j].id != id by {
                    if j < rest.len() {
                        assert(stops[j] == rest[j]);
                    }
                }
            }
            if exists|i: int| 0 <= i < stops.len() && stops[i].id == id {
                let i = choose|i: int| 0 <= i < stops.len() && stops[i].id == id;
                assert(rest[i] == stops[i]);
            }
        } else {
            assert(stops_index_from(stops)[id] == stops[last]);
        }
    }
}


/// The coordinate that a row gives keeps the row's coordinate system and altitude in
/// either system; an LV95 row gives its components in order, a WGS84 row in reverse
/// order, so the same row read in the two systems gives swapped components.
pub proof fn lemma_row_coordinate<C>(coordinate_type: CoordinateType, xy1: C, xy2: C, altitude: i16)
    ensures
        row_coordinate(coordinate_type, xy1, xy2, altitude).altitude == altitude,
        row_coordinate(coordinate_type, xy1, xy2, altitude).coordinate_type == coordinate_type,
        coordinate_type == CoordinateType::LV95 ==> row_coordinate(coordinate_type, xy1, xy2, altitude).x
            == xy1 && row_coordinate(coordinate_type, xy1, xy2, altitude).y == xy2,
        coordinate_type == CoordinateType::WGS84 ==> row_coordinate(coordinate_type, xy1, xy2, altitude).x
            == xy2 && row_coordinate(coordinate_type, xy1, xy2, altitude).y == xy1,
        row_coordinate(CoordinateType::WGS84, xy1, xy2, altitude).x == row_coordinate(
            CoordinateType::LV95,
            xy1,
            xy2,
            altitude,
        ).y,
        row_coordinate(CoordinateType::WGS84, xy1, xy2, altitude).y == row_coordinate(
            CoordinateType::LV95,
            xy1,
            xy2,
            altitude,
        ).x,
        row_coordinate(CoordinateType::WGS84, xy1, xy2, altitude).altitude == row_coordinate(
            CoordinateType::LV95,
            xy1,
            xy2,
            altitude,
        ).altitude,
{
}

} // verus!
