//! The platforms file (GLEIS). Rows of the first kind say which platform a journey uses
//! at a stop; rows of the second kind, marked by a `#` in column 9, describe a platform:
//! its number and its sectors, written `G 'number' A 'sectors'`.
use std::collections::HashMap;
use std::rc::Rc;
use vstd::prelude::*;

use crate::models::{JourneyPlatform, Platform};
use crate::parsing::columns::{column_spec, read_column, read_i32_column};
use crate::shared::share;
use crate::text::{
    chars_of,
    parse_i32_spec,
    split_chars,
    split_seq,
    string_from_chars,
    trim,
    trim_chars,
    views,
};
use crate::text_map::TextMap;

verus! {

broadcast use vstd::std_specs::hash::group_hash_axioms;

// ------------------------------------------------------------------------------------------------
// --- Platform data
// ------------------------------------------------------------------------------------------------

/// The parts of one item `key 'value`.
pub open spec fn entry_parts(item: Seq<char>) -> Seq<Seq<char>> {
    split_seq(item, seq![' ', '\''])
}

/// The entries `key 'value` of the non-empty items; a later entry of a key wins.
pub open spec fn platform_entries_from(items: Seq<Seq<char>>) -> Map<Seq<char>, Seq<char>>
    decreases items.len(),
{
    if items.len() == 0 {
        Map::empty()
    } else {
        let m = platform_entries_from(items.drop_last());
        let item = items.last();
        if item.len() == 0 {
            m
        } else {
            let parts = entry_parts(item);
            m.insert(parts[0], parts[1])
        }
    }
}

/// The items of a platform description: its trimmed text with a space added, cut at
/// each `' `.
pub open spec fn platform_items(text: Seq<char>) -> Seq<Seq<char>> {
    split_seq(trim(text).push(' '), seq!['\'', ' '])
}

/// The entries of a platform description `G 'number' A 'sectors' ...`, by key.
pub open spec fn platform_entries(text: Seq<char>) -> Map<Seq<char>, Seq<char>> {
    platform_entries_from(platform_items(text))
}

/// Every non-empty item of the description holds a ` '`.
pub open spec fn platform_items_well_formed(text: Seq<char>) -> bool {
    let items = platform_items(text);
    forall|i: int|
        0 <= i < items.len() && items[i].len() > 0 ==> #[trigger] entry_parts(items[i]).len() >= 2
}

/// The number (key `G`) and the optional sectors (key `A`) of a platform description.
pub fn parse_platform_data(platform_data: String) -> (r: (String, Option<String>))
    requires
        platform_items_well_formed(platform_data@),
        platform_entries(platform_data@).contains_key(seq!['G']),
    ensures
        r.0@ == platform_entries(platform_data@)[seq!['G']],
        r.1 is Some <==> platform_entries(platform_data@).contains_key(seq!['A']),
        r.1 matches Some(a) ==> a@ == platform_entries(platform_data@)[seq!['A']],
{
    match try_parse_platform_data(&platform_data) {
        Some(r) => r,
        None => {
            assert(false);
            (String::new(), None)
        },
    }
}

/// The number (key `G`) and the optional sectors (key `A`) of a platform description;
/// `None` where an item is not well formed or there is no number.
pub fn try_parse_platform_data(platform_data: &String) -> (r: Option<(String, Option<String>)>)
    ensures
        r is Some <==> (platform_items_well_formed(platform_data@) && platform_entries(
            platform_data@,
        ).contains_key(seq!['G'])),
        r matches Some((number, sectors)) ==> {
            &&& number@ == platform_entries(platform_data@)[seq!['G']]
            &&& (sectors is Some <==> platform_entries(platform_data@).contains_key(seq!['A']))
            &&& (sectors matches Some(a) ==> a@ == platform_entries(platform_data@)[seq!['A']])
        },
{
    let text = chars_of(platform_data.as_str());
    let mut cleaned = trim_chars(&text);
    cleaned.push(' ');
    let separator = vec!['\'', ' '];
    assert(separator@ =~= seq!['\'', ' ']);
    let items = split_chars(&cleaned, &separator);
    let ghost all = views(items@);
    assert(all == platform_items(platform_data@));
    let inner = vec![' ', '\''];
    assert(inner@ =~= seq![' ', '\'']);
    let mut entries = TextMap::new();
    let mut i: usize = 0;
    while i < items.len()
        invariant
            i <= items.len(),
            all == views(items@),
            all == platform_items(platform_data@),
            inner@ == seq![' ', '\''],
            forall|j: int|
                0 <= j < i && all[j].len() > 0 ==> #[trigger] entry_parts(all[j]).len() >= 2,
            entries.wf(),
            entries@ == platform_entries_from(all.take(i as int)),
        decreases items.len() - i,
    {
        assert(all.take(i + 1).drop_last() =~= all.take(i as int));
        assert(all.take(i + 1).last() == items@[i as int]@);
        if items[i].len() > 0 {
            let mut parts = split_chars(&items[i], &inner);
            if parts.len() < 2 {
                assert(entry_parts(all[i as int]).len() < 2);
                return None;
            }
            let ghost ps = views(parts@);
            let value = parts.remove(1);
            let key = parts.remove(0);
            assert(key@ == ps[0] && value@ == ps[1]);
            entries.insert(key, value);
        }
        i = i + 1;
    }
    assert(all.take(items.len() as int) =~= all);
    let g = vec!['G'];
    assert(g@ =~= seq!['G']);
    let a = vec!['A'];
    assert(a@ =~= seq!['A']);
    let number = match entries.get_chars(&g) {
        Some(n) => string_from_chars(n),
        None => {
            return None;
        },
    };
    let sectors = match entries.get_chars(&a) {
        Some(s) => Some(string_from_chars(s)),
        None => None,
    };
    Some((number, sectors))
}

// ------------------------------------------------------------------------------------------------
// --- Indexes
// ------------------------------------------------------------------------------------------------

/// The key under which the pair (`a`, `b`) is filed in an index: distinct pairs have
/// distinct keys.
pub open spec fn pair_key_spec(a: i32, b: i32) -> int {
    a * 4294967296 + (b + 2147483648)
}

/// The key of the pair (`a`, `b`).
pub fn pair_key(a: i32, b: i32) -> (k: i64)
    ensures
        k == pair_key_spec(a, b),
{
    (a as i64) * 4294967296 + ((b as i64) + 2147483648)
}

/// Distinct pairs have distinct keys.
pub proof fn lemma_pair_key_injective(a1: i32, b1: i32, a2: i32, b2: i32)
    ensures
        pair_key_spec(a1, b1) == pair_key_spec(a2, b2) ==> a1 == a2 && b1 == b2,
{
    if pair_key_spec(a1, b1) == pair_key_spec(a2, b2) {
        if a1 < a2 {
            assert(a1 * 4294967296 + 4294967296 <= a2 * 4294967296);
        } else if a1 > a2 {
            assert(a2 * 4294967296 + 4294967296 <= a1 * 4294967296);
        }
    }
}

/// The key of a platform: its stop and its index at the stop.
pub open spec fn platform_key(p: Platform) -> int {
    pair_key_spec(p.stop_id, p.platform_index)
}

/// The platforms by key; of two platforms with one key the later one is kept.
pub open spec fn platforms_index_from(platforms: Seq<Rc<Platform>>) -> Map<i64, Rc<Platform>>
    decreases platforms.len(),
{
    if platforms.len() == 0 {
        Map::empty()
    } else {
        platforms_index_from(platforms.drop_last()).insert(
            platform_key(*platforms.last()) as i64,
            platforms.last(),
        )
    }
}

/// The platforms by the key of their stop and index (`pair_key(stop_id, platform_index)`).
pub fn create_platforms_index(platforms: &Vec<Rc<Platform>>) -> (r: HashMap<i64, Rc<Platform>>)
    ensures
        r@ == platforms_index_from(platforms@),
{
    let mut index: HashMap<i64, Rc<Platform>> = HashMap::new();
    let mut i: usize = 0;
    while i < platforms.len()
        invariant
            i <= platforms.len(),
            index@ == platforms_index_from(platforms@.take(i as int)),
        decreases platforms.len() - i,
    {
        assert(platforms@.take(i + 1).drop_last() =~= platforms@.take(i as int));
        let key = pair_key(platforms[i].stop_id, platforms[i].platform_index);
        let platform = share(&platforms[i]);
        index.insert(key, platform);
        i = i + 1;
    }
    assert(platforms@.take(platforms.len() as int) =~= platforms@);
    index
}

/// The key of a journey platform: its journey and its stop.
pub open spec fn journey_platform_key(p: JourneyPlatform) -> int {
    pair_key_spec(p.journey_id, p.stop_id)
}

/// The journey platforms grouped by key, each group in the order of the input.
pub open spec fn journey_platform_groups(ps: Seq<Rc<JourneyPlatform>>) -> Map<
    i64,
    Seq<Rc<JourneyPlatform>>,
>
    decreases ps.len(),
{
    if ps.len() == 0 {
        Map::empty()
    } else {
        let m = journey_platform_groups(ps.drop_last());
        let k = journey_platform_key(*ps.last()) as i64;
        let earlier = if m.contains_key(k) {
            m[k]
        } else {
            Seq::empty()
        };
        m.insert(k, earlier.push(ps.last()))
    }
}

/// The groups held by an index.
pub open spec fn groups_view(m: Map<i64, Vec<Rc<JourneyPlatform>>>) -> Map<
    i64,
    Seq<Rc<JourneyPlatform>>,
> {
    Map::new(|k: i64| m.contains_key(k), |k: i64| m[k]@)
}

/// The journey platforms grouped by the key of their journey and stop
/// (`pair_key(journey_id, stop_id)`).
pub fn create_journey_platform_index(journey_platform: &Vec<Rc<JourneyPlatform>>) -> (r: HashMap<
    i64,
    Vec<Rc<JourneyPlatform>>,
>)
    ensures
        groups_view(r@) == journey_platform_groups(journey_platform@),
{
    let mut index: HashMap<i64, Vec<Rc<JourneyPlatform>>> = HashMap::new();
    let mut i: usize = 0;
    assert(groups_view(index@) =~= journey_platform_groups(journey_platform@.take(0)));
    while i < journey_platform.len()
        invariant
            i <= journey_platform.len(),
            groups_view(index@) == journey_platform_groups(journey_platform@.take(i as int)),
        decreases journey_platform.len() - i,
    {
        let ghost prefix = journey_platform@.take(i + 1);
        assert(prefix.drop_last() =~= journey_platform@.take(i as int));
        let key = pair_key(journey_platform[i].journey_id, journey_platform[i].stop_id);
        let item = share(&journey_platform[i]);
        let ghost before = groups_view(index@);
        let group = match index.remove(&key) {
            Some(mut earlier) => {
                earlier.push(item);
                earlier
            },
            None => {
                let mut fresh: Vec<Rc<JourneyPlatform>> = Vec::new();
                fresh.push(item);
                fresh
            },
        };
        let ghost pushed = group@;
        index.insert(key, group);
        assert(pushed =~= (if before.contains_key(key) {
            before[key]
        } else {
            Seq::empty()
        }).push(prefix.last()));
        assert(groups_view(index@) =~= before.insert(key, pushed));
        i = i + 1;
    }
    assert(journey_platform@.take(journey_platform.len() as int) =~= journey_platform@);
    index
}

// ------------------------------------------------------------------------------------------------
// --- Rows
// ------------------------------------------------------------------------------------------------

/// A row of the platforms file.
pub enum PlatformRow {
    JourneyPlatform(JourneyPlatform),
    Platform(Platform),
}

/// A row describes a platform where column 9 holds `#`.
pub open spec fn is_platform_row(row: Seq<char>) -> bool {
    row.len() > 8 && row[8] == '#'
}

/// The optional integer of a column: none where the column is empty.
pub open spec fn optional_i32(text: Seq<char>) -> Option<Option<i32>> {
    if text.len() == 0 {
        Some(None)
    } else {
        match parse_i32_spec(text) {
            Some(v) => Some(Some(v)),
            None => None,
        }
    }
}

fn read_optional_i32_column(row: &Vec<char>, start: usize, stop: usize) -> (r: Option<
    Option<i32>,
>)
    requires
        start >= 1,
    ensures
        r == optional_i32(column_spec(row@, start as int, Some(stop as int))),
{
    let text = read_column(row, start, Some(stop));
    if text.len() == 0 {
        Some(None)
    } else {
        match crate::text::parse_i32(&text) {
            Some(v) => Some(Some(v)),
            None => None,
        }
    }
}

/// One row of the platforms file. A journey platform row holds the stop (columns 1 to 7),
/// the journey (9 to 14), a text (16 to 21), the platform index (24 to 30), an optional
/// hour (32 to 35) and an optional bit field (37 to 42); a platform row holds the stop
/// (1 to 7), the platform index (10 to 16) and the description (18 to the end). `None`
/// where a column does not hold what it should.
pub open spec fn platform_row_spec(row: Seq<char>, r: Option<PlatformRow>) -> bool {
    match r {
        Some(PlatformRow::JourneyPlatform(p)) => {
            &&& !is_platform_row(row)
            &&& parse_i32_spec(column_spec(row, 1, Some(7))) == Some(p.stop_id)
            &&& parse_i32_spec(column_spec(row, 9, Some(14))) == Some(p.journey_id)
            &&& p.unknown1@ == column_spec(row, 16, Some(21))
            &&& parse_i32_spec(column_spec(row, 24, Some(30))) == Some(p.platform_index)
            &&& optional_i32(column_spec(row, 32, Some(35))) matches Some(h) && match h {
                Some(v) => p.hour == Some(v as i16) && i16::MIN <= v <= i16::MAX,
                None => p.hour is None,
            }
            &&& optional_i32(column_spec(row, 37, Some(42))) == Some(p.bit_field_id)
        },
        Some(PlatformRow::Platform(p)) => {
            &&& is_platform_row(row)
            &&& parse_i32_spec(column_spec(row, 1, Some(7))) == Some(p.stop_id)
            &&& parse_i32_spec(column_spec(row, 10, Some(16))) == Some(p.platform_index)
            &&& platform_items_well_formed(column_spec(row, 18, None))
            &&& platform_entries(column_spec(row, 18, None)).contains_key(seq!['G'])
            &&& p.number@ == platform_entries(column_spec(row, 18, None))[seq!['G']]
            &&& (p.sectors is Some <==> platform_entries(column_spec(row, 18, None)).contains_key(seq!['A']))
            &&& (p.sectors matches Some(a) ==> a@ == platform_entries(column_spec(row, 18, None))[seq!['A']])
        },
        None => if is_platform_row(row) {
            ||| parse_i32_spec(column_spec(row, 1, Some(7))) is None
            ||| parse_i32_spec(column_spec(row, 10, Some(16))) is None
            ||| !platform_items_well_formed(column_spec(row, 18, None))
            ||| !platform_entries(column_spec(row, 18, None)).contains_key(seq!['G'])
        } else {
            ||| parse_i32_spec(column_spec(row, 1, Some(7))) is None
            ||| parse_i32_spec(column_spec(row, 9, Some(14))) is None
            ||| parse_i32_spec(column_spec(row, 24, Some(30))) is None
            ||| optional_i32(column_spec(row, 32, Some(35))) matches None
            ||| (optional_i32(column_spec(row, 32, Some(35))) matches Some(Some(v)) && (v
                < i16::MIN || v > i16::MAX))
            ||| optional_i32(column_spec(row, 37, Some(42))) is None
        },
    }
}

/// One row of the platforms file: see `platform_row_spec`.
pub fn parse_platform_row(row: &str) -> (r: Option<PlatformRow>)
    ensures
        platform_row_spec(row@, r),
{
    let chars = chars_of(row);
    let platform_row = chars.len() > 8 && chars[8] == '#';
    let stop_id = match read_i32_column(&chars, 1, Some(7)) {
        Some(v) => v,
        None => return None,
    };
    if platform_row {
        let platform_index = match read_i32_column(&chars, 10, Some(16)) {
            Some(v) => v,
            None => return None,
        };
        let data = string_from_chars(read_column(&chars, 18, None));
        let (number, sectors) = match try_parse_platform_data(&data) {
            Some(parsed) => parsed,
            None => return None,
        };
        Some(PlatformRow::Platform(Platform { stop_id, platform_index, number, sectors }))
    } else {
        let journey_id = match read_i32_column(&chars, 9, Some(14)) {
            Some(v) => v,
            None => return None,
        };
        let unknown1 = string_from_chars(read_column(&chars, 16, Some(21)));
        let platform_index = match read_i32_column(&chars, 24, Some(30)) {
            Some(v) => v,
            None => return None,
        };
        let hour: Option<i16> = match read_optional_i32_column(&chars, 32, 35) {
            Some(Some(v)) => if -32768 <= v && v <= 32767 {
                Some(v as i16)
            } else {
                return None;
            },
            Some(None) => None,
            None => return None,
        };
        let bit_field_id = match read_optional_i32_column(&chars, 37, 42) {
            Some(v) => v,
            None => return None,
        };
        Some(
            PlatformRow::JourneyPlatform(
                JourneyPlatform {
                    journey_id,
                    stop_id,
                    unknown1,
                    platform_index,
                    hour,
                    bit_field_id,
                },
            ),
        )
    }
}


/// The rows that describe platforms (`platform`) or say which platform a journey uses
/// (`!platform`), in file order.
pub open spec fn rows_of_kind(rows: Seq<Seq<char>>, platform: bool) -> Seq<Seq<char>>
    decreases rows.len(),
{
    if rows.len() == 0 {
        Seq::empty()
    } else {
        let earlier = rows_of_kind(rows.drop_last(), platform);
        if is_platform_row(rows.last()) == platform {
            earlier.push(rows.last())
        } else {
            earlier
        }
    }
}

/// The sum of the sizes of the rows that say which platform a journey uses.
pub open spec fn journey_rows_size(rows: Seq<Seq<char>>, sizes: Seq<usize>) -> int
    decreases rows.len(),
{
    if rows.len() == 0 || sizes.len() == 0 {
        0
    } else {
        journey_rows_size(rows.drop_last(), sizes.drop_last()) + if is_platform_row(rows.last()) {
            0
        } else {
            sizes.last() as int
        }
    }
}

/// The sum of the sizes.
pub open spec fn total_size(sizes: Seq<usize>) -> int
    decreases sizes.len(),
{
    if sizes.len() == 0 {
        0
    } else {
        total_size(sizes.drop_last()) + sizes.last()
    }
}

proof fn lemma_journey_rows_size_bound(rows: Seq<Seq<char>>, sizes: Seq<usize>)
    requires
        rows.len() == sizes.len(),
    ensures
        0 <= journey_rows_size(rows, sizes) <= total_size(sizes),
    decreases rows.len(),
{
    if rows.len() > 0 {
        lemma_journey_rows_size_bound(rows.drop_last(), sizes.drop_last());
    }
}

proof fn lemma_total_size_prefix(sizes: Seq<usize>, i: int)
    requires
        0 <= i <= sizes.len(),
    ensures
        total_size(sizes.take(i)) <= total_size(sizes),
    decreases sizes.len(),
{
    if i < sizes.len() {
        assert(sizes.drop_last().take(i) =~= sizes.take(i));
        lemma_total_size_prefix(sizes.drop_last(), i);
    } else {
        assert(sizes.take(i) =~= sizes);
    }
}

/// The journey platforms and the platforms of the rows of the platforms file, each in
/// file order, with the size of the rows of journey platforms (the first section of the
/// file), where `sizes` holds the size of each row; `None` where a row cannot be taken in.
pub fn parse_platform_rows(rows: &Vec<String>, sizes: &Vec<usize>) -> (r: Option<
    (Vec<Rc<JourneyPlatform>>, Vec<Rc<Platform>>, usize),
>)
    requires
        rows.len() == sizes.len(),
        total_size(sizes@) <= usize::MAX,
    ensures
        ({
            let texts = crate::parsing::stops_parser::string_views(rows@);
            match r {
                None => exists|k: int| 0 <= k < rows.len() && platform_row_spec(#[trigger] texts[k], None),
                Some((journey_platforms, platforms, size)) => {
                    &&& forall|k: int| 0 <= k < rows.len() ==> !platform_row_spec(#[trigger] texts[k], None)
                    &&& journey_platforms.len() == rows_of_kind(texts, false).len()
                    &&& forall|k: int|
                        0 <= k < journey_platforms.len() ==> platform_row_spec(
                            #[trigger] rows_of_kind(texts, false)[k],
                            Some(PlatformRow::JourneyPlatform(*journey_platforms@[k])),
                        )
                    &&& platforms.len() == rows_of_kind(texts, true).len()
                    &&& forall|k: int|
                        0 <= k < platforms.len() ==> platform_row_spec(
                            #[trigger] rows_of_kind(texts, true)[k],
                            Some(PlatformRow::Platform(*platforms@[k])),
                        )
                    &&& size == journey_rows_size(texts, sizes@)
                },
            }
        }),
{
    let ghost texts = crate::parsing::stops_parser::string_views(rows@);
    let mut journey_platforms: Vec<Rc<JourneyPlatform>> = Vec::new();
    let mut platforms: Vec<Rc<Platform>> = Vec::new();
    let mut size: usize = 0;
    let mut i: usize = 0;
    while i < rows.len()
        invariant
            i <= rows.len(),
            rows.len() == sizes.len(),
            total_size(sizes@) <= usize::MAX,
            texts == crate::parsing::stops_parser::string_views(rows@),
            forall|k: int| 0 <= k < i ==> !platform_row_spec(#[trigger] texts[k], None),
            journey_platforms.len() == rows_of_kind(texts.take(i as int), false).len(),
            forall|k: int|
                0 <= k < journey_platforms.len() ==> platform_row_spec(
                    #[trigger] rows_of_kind(texts.take(i as int), false)[k],
                    Some(PlatformRow::JourneyPlatform(*journey_platforms@[k])),
                ),
            platforms.len() == rows_of_kind(texts.take(i as int), true).len(),
            forall|k: int|
                0 <= k < platforms.len() ==> platform_row_spec(
                    #[trigger] rows_of_kind(texts.take(i as int), true)[k],
                    Some(PlatformRow::Platform(*platforms@[k])),
                ),
            size == journey_rows_size(texts.take(i as int), sizes@.take(i as int)),
        decreases rows.len() - i,
    {
        let ghost before = texts.take(i as int);
        let ghost after = texts.take(i + 1);
        assert(after.drop_last() =~= before);
        assert(after.last() == rows@[i as int]@);
        assert(sizes@.take(i + 1).drop_last() =~= sizes@.take(i as int));
        proof {
            lemma_journey_rows_size_bound(after, sizes@.take(i + 1));
            lemma_total_size_prefix(sizes@, i + 1);
        }
        match parse_platform_row(rows[i].as_str()) {
            Some(PlatformRow::JourneyPlatform(p)) => {
                assert(!platform_row_spec(texts[i as int], None));
                size = size + sizes[i];
                journey_platforms.push(Rc::new(p));
                assert(rows_of_kind(after, true) == rows_of_kind(before, true));
                assert(rows_of_kind(after, false) == rows_of_kind(before, false).push(rows@[i as int]@));
            },
            Some(PlatformRow::Platform(p)) => {
                assert(!platform_row_spec(texts[i as int], None));
                platforms.push(Rc::new(p));
                assert(rows_of_kind(after, false) == rows_of_kind(before, false));
                assert(rows_of_kind(after, true) == rows_of_kind(before, true).push(rows@[i as int]@));
            },
            None => {
                assert(platform_row_spec(texts[i as int], None));
                return None;
            },
        }
        i = i + 1;
    }
    assert(texts.take(rows.len() as int) =~= texts);
    assert(sizes@.take(rows.len() as int) =~= sizes@);
    Some((journey_platforms, platforms, size))
}

/// A row of the platform coordinates file (GLEIS_LV95) after its first section.
pub enum Lv95Row {
    /// A `G` row: the stop.
    Stop(i32),
    /// An `I A` row: the stop, the platform index and the text from column 22 on.
    Platform(i32, i32, String),
    /// A `K` row: the stop, the platform index and the text from column 20 on.
    Coordinates(i32, i32, String),
}

/// The characters of `row` from column `start` on are those of `text`.
pub open spec fn marked(row: Seq<char>, start: int, text: Seq<char>) -> bool {
    start + text.len() <= row.len() && row.subrange(start, start + text.len()) == text
}

fn marked_exec(row: &Vec<char>, start: usize, text: &str) -> (r: bool)
    requires
        start <= 100,
    ensures
        r == marked(row@, start as int, text@),
{
    let t = chars_of(text);
    if t.len() > row.len() || start > row.len() - t.len() {
        return false;
    }
    let part = crate::text::sub_chars(row, start, start + t.len());
    crate::text::chars_eq(&part, &t)
}

/// One row of the platform coordinates file. Rows without a `#` in column 9 belong to the
/// first section and give `None`; the others are told apart by column 18 onwards (`G`,
/// `I A` or `K`). `None` too where a row matches none of them or a number does not read.
pub fn parse_lv95_row(row: &str) -> (r: Option<Lv95Row>)
    ensures
        r is None <==> (!is_platform_row(row@) || parse_i32_spec(column_spec(row@, 1, Some(7))) is None
            || (!marked(row@, 17, "G"@) && (parse_i32_spec(column_spec(row@, 10, Some(16))) is None
            || (!marked(row@, 17, "I A"@) && !marked(row@, 17, "K"@))))),
        r matches Some(Lv95Row::Stop(id)) ==> marked(row@, 17, "G"@) && parse_i32_spec(
            column_spec(row@, 1, Some(7)),
        ) == Some(id),
        r matches Some(Lv95Row::Platform(id, index, text)) ==> !marked(row@, 17, "G"@)
            && marked(row@, 17, "I A"@) && parse_i32_spec(column_spec(row@, 1, Some(7)))
            == Some(id) && parse_i32_spec(column_spec(row@, 10, Some(16))) == Some(index) && text@
            == column_spec(row@, 22, None),
        r matches Some(Lv95Row::Coordinates(id, index, text)) ==> !marked(row@, 17, "G"@)
            && !marked(row@, 17, "I A"@) && marked(row@, 17, "K"@) && parse_i32_spec(
            column_spec(row@, 1, Some(7)),
        ) == Some(id) && parse_i32_spec(column_spec(row@, 10, Some(16))) == Some(index) && text@
            == column_spec(row@, 20, None),
{
    proof {
        reveal_strlit("G");
        reveal_strlit("I A");
        reveal_strlit("K");
    }
    let chars = chars_of(row);
    if !(chars.len() > 8 && chars[8] == '#') {
        return None;
    }
    let id = match read_i32_column(&chars, 1, Some(7)) {
        Some(v) => v,
        None => return None,
    };
    if marked_exec(&chars, 17, "G") {
        return Some(Lv95Row::Stop(id));
    }
    let index = match read_i32_column(&chars, 10, Some(16)) {
        Some(v) => v,
        None => return None,
    };
    if marked_exec(&chars, 17, "I A") {
        Some(Lv95Row::Platform(id, index, string_from_chars(read_column(&chars, 22, None))))
    } else if marked_exec(&chars, 17, "K") {
        Some(Lv95Row::Coordinates(id, index, string_from_chars(read_column(&chars, 20, None))))
    } else {
        None
    }
}

// ------------------------------------------------------------------------------------------------
// --- Laws
// ------------------------------------------------------------------------------------------------

/// The journey platforms of `ps` for the journey `journey_id` at the stop `stop_id`, in order.
pub open spec fn platforms_of(ps: Seq<Rc<JourneyPlatform>>, journey_id: i32, stop_id: i32) -> Seq<
    Rc<JourneyPlatform>,
>
    decreases ps.len(),
{
    if ps.len() == 0 {
        Seq::empty()
    } else {
        let rest = platforms_of(ps.drop_last(), journey_id, stop_id);
        if ps.last().journey_id == journey_id && ps.last().stop_id == stop_id {
            rest.push(ps.last())
        } else {
            rest
        }
    }
}

/// The journey platform index files under the key of (journey, stop) exactly the journey
/// platforms of that journey at that stop, in their order; a pair with none has no entry.
pub proof fn lemma_journey_platform_groups(
    ps: Seq<Rc<JourneyPlatform>>,
    journey_id: i32,
    stop_id: i32,
)
    ensures
        ({
            let groups = journey_platform_groups(ps);
            let key = pair_key_spec(journey_id, stop_id) as i64;
            &&& groups.contains_key(key) <==> platforms_of(ps, journey_id, stop_id).len() > 0
            &&& groups.contains_key(key) ==> groups[key] == platforms_of(ps, journey_id, stop_id)
        }),
    decreases ps.len(),
{
    if ps.len() > 0 {
        let rest = ps.drop_last();
        lemma_journey_platform_groups(rest, journey_id, stop_id);
        let last = ps.last();
        lemma_pair_key_injective(last.journey_id, last.stop_id, journey_id, stop_id);
        let key = pair_key_spec(journey_id, stop_id);
        let k = pair_key_spec(last.journey_id, last.stop_id);
        assert(i64::MIN <= key <= i64::MAX);
        assert(i64::MIN <= k <= i64::MAX);
        if k != key {
            assert(k as i64 != key as i64);
        }
    }
}

/// The platform index holds exactly the keys of the platforms' (stop, index) pairs, and under
/// each the last platform with that stop and index.
pub proof fn lemma_platforms_index(ps: Seq<Rc<Platform>>, stop_id: i32, platform_index: i32)
    ensures
        ({
            let index = platforms_index_from(ps);
            let key = pair_key_spec(stop_id, platform_index) as i64;
            &&& index.contains_key(key) <==> exists|i: int|
                0 <= i < ps.len() && ps[i].stop_id == stop_id && ps[i].platform_index
                    == platform_index
            &&& index.contains_key(key) ==> exists|i: int|
                0 <= i < ps.len() && ps[i].stop_id == stop_id && ps[i].platform_index
                    == platform_index && index[key] == ps[i] && forall|j: int|
                    i < j < ps.len() ==> !(ps[j].stop_id == stop_id && ps[j].platform_index
                        == platform_index)
        }),
    decreases ps.len(),
{
    if ps.len() > 0 {
        let rest = ps.drop_last();
        lemma_platforms_index(rest, stop_id, platform_index);
        let last_i = ps.len() - 1;
        let last = ps[last_i];
        lemma_pair_key_injective(last.stop_id, last.platform_index, stop_id, platform_index);
        let key = pair_key_spec(stop_id, platform_index);
        let k = pair_key_spec(last.stop_id, last.platform_index);
        assert(i64::MIN <= key <= i64::MAX);
        assert(i64::MIN <= k <= i64::MAX);
        let matches_last = last.stop_id == stop_id && last.platform_index == platform_index;
        if !matches_last {
            assert(k as i64 != key as i64);
            if platforms_index_from(rest).contains_key(key as i64) {
                let i = choose|i: int|
                    0 <= i < rest.len() && rest[i].stop_id == stop_id && rest[i].platform_index
                        == platform_index && platforms_index_from(rest)[key as i64] == rest[i]
                        && forall|j: int|
                        i < j < rest.len() ==> !(rest[j].stop_id == stop_id
                            && rest[j].platform_index == platform_index);
                assert(ps[i] == rest[i]);
                assert forall|j: int| i < j < ps.len() implies !(ps[j].stop_id == stop_id
                    && ps[j].platform_index == platform_index) by {
                    if j < rest.len() {
                        assert(ps[j] == rest[j]);
                    }
                }
            }
            if exists|i: int|
                0 <= i < ps.len() && ps[i].stop_id == stop_id && ps[i].platform_index
                    == platform_index {
                let i = choose|i: int|
                    0 <= i < ps.len() && ps[i].stop_id == stop_id && ps[i].platform_index
                        == platform_index;
                assert(rest[i] == ps[i]);
            }
        } else {
            assert(platforms_index_from(ps)[key as i64] == ps[last_i]);
        }
    }
}

/// The last piece of cutting `s`, which ends with `' `, at each `' ` (from a position where
/// no cut can start in the middle of the final `' `) is empty.
proof fn lemma_last_piece_empty(s: Seq<char>, start: int)
    requires
        s.len() >= 2,
        s[s.len() - 2] == '\'',
        s[s.len() - 1] == ' ',
        0 <= start <= s.len(),
        start != s.len() - 1,
    ensures
        crate::text::split_from(s, seq!['\'', ' '], start).last().len() == 0,
    decreases s.len() - start,
{
    let sep = seq!['\'', ' '];
    crate::text::lemma_first_match_bounds(s, sep, start);
    let n = s.len() as int;
    match crate::text::first_match_from(s, sep, start) {
        None => {
            if start <= n - 2 {
                assert(s.subrange(n - 2, n) =~= sep);
                assert(crate::text::matches_at(s, sep, n - 2));
            }
        },
        Some(i) => {
            if i == n - 3 {
                assert(s.subrange(i, i + 2)[1] == s[n - 2]);
            }
            lemma_last_piece_empty(s, i + 2);
            crate::text::lemma_split_from_len(s, sep, i + 2);
        },
    }
}

/// A platform description that ends with a quote gives an empty last item, which is
/// skipped.
pub proof fn lemma_platform_items_end_empty(text: Seq<char>)
    requires
        trim(text).len() > 0,
        trim(text).last() == '\'',
    ensures
        platform_items(text).last().len() == 0,
{
    let s = trim(text).push(' ');
    lemma_last_piece_empty(s, 0);
}

} // verus!
