//! Parsing a decoded dispatch message into an [`Emergency`].
//!
//! A message is a sequence of records `~~<property>~~<value>~~`, separated by
//! whitespace. A record whose delimiters are broken is dropped together with
//! the rest of its line, and parsing goes on with the next line: no input is
//! ever refused as a whole.
use vstd::prelude::*;

use crate::either::Either;
use crate::emergency::{empty_record, Emergency, EmergencyView};
use crate::radio_identifier::{unit_of, RadioIdentifier, RadioIdentifierView};
use crate::text::{
    chars_of, parse_signed, parse_unsigned, range_holds, scan_to, scan_to_char, signed_value,
    is_blank, skip_blank, skip_blank_from, split, split_ranges, string_of, sub_chars, sub_string,
    trim_non_ascii_end, unsigned_value, within, range_is,
};
use crate::timestamp::{parse_date_time, parsed_date_time};
use crate::unit_alarm_time::{dispatched_unit, UnitAlarmTime, UnitAlarmTimeView};

verus! {

/// Where the unit, station and alarm time stand in the rows of the alarm
/// table, and how many columns its header names.
#[derive(Debug, Clone, Copy, PartialEq, Eq, Structural)]
pub struct AlarmTableIndices {
    pub unit: usize,
    pub station: usize,
    pub alarm_time: usize,
    pub header_count: usize,
}

/// What the parser carries from one record to the next.
pub struct ParseState {
    pub ems: EmergencyView,
    pub header: Option<AlarmTableIndices>,
}

/// The format of the `Alarmzeit` field, `DD.MM.YY&HH:MM`.
pub open spec fn alarm_time_format() -> Seq<char> {
    "%d.%m.%y&%H:%M"@
}

/// End of the value that starts at `i`: the next `~` or line break, or the
/// end. A value never runs into the next line.
pub open spec fn value_end(s: Seq<char>, i: int) -> int
    decreases s.len() - i,
{
    if 0 <= i < s.len() && s[i] != '~' && !is_line_break(s[i]) {
        value_end(s, i + 1)
    } else {
        i
    }
}

/// End of the line that `i` is in: the next `\n` (not consumed), or the end.
pub open spec fn line_end(s: Seq<char>, i: int) -> int {
    scan_to(s, '\n', i)
}

/// Reading the delimiter `~~` at `i`: whether it is there, and where reading
/// stopped. A mismatching character is consumed, unless it is a line break,
/// which stays for the next line.
pub open spec fn expect_delim(s: Seq<char>, i: int) -> (bool, int) {
    if i >= s.len() {
        (false, i)
    } else if s[i] != '~' {
        (false, if is_line_break(s[i]) {
            i
        } else {
            i + 1
        })
    } else if i + 1 >= s.len() {
        (false, i + 1)
    } else if s[i + 1] != '~' {
        (false, if is_line_break(s[i + 1]) {
            i + 1
        } else {
            i + 2
        })
    } else {
        (true, i + 2)
    }
}

/// Position after the `~~` that closes a record at `i`; when it is missing,
/// the rest of the line is dropped.
pub open spec fn close_record(s: Seq<char>, i: int) -> int {
    let (ok, k) = expect_delim(s, i);
    if ok {
        k
    } else {
        line_end(s, k)
    }
}

pub open spec fn optional_text(v: Seq<char>) -> Option<Seq<char>> {
    if v.len() > 0 {
        Some(v)
    } else {
        None
    }
}

pub open spec fn no_columns() -> AlarmTableIndices {
    AlarmTableIndices { unit: 0, station: 0, alarm_time: 0, header_count: 0 }
}

/// The indices after the header column labelled `col`.
pub open spec fn label_column(h: AlarmTableIndices, col: Seq<char>) -> AlarmTableIndices {
    let n = h.header_count;
    let h2 = if col == "Fahrzeug"@ || col == "Zuget"@ {
        AlarmTableIndices { unit: n, ..h }
    } else if col == "Wache"@ {
        AlarmTableIndices { station: n, ..h }
    } else if col == "Alarm"@ || col == "Alarmiert"@ {
        AlarmTableIndices { alarm_time: n, ..h }
    } else {
        h
    };
    AlarmTableIndices { header_count: (n + 1) as usize, ..h2 }
}

pub open spec fn is_line_break(c: char) -> bool {
    c == '\r' || c == '\n'
}

/// Reads the column labels of the alarm table header from `i` to the end of
/// the line.
pub open spec fn header_columns(s: Seq<char>, i: int, h: AlarmTableIndices) -> (
    AlarmTableIndices,
    int,
)
    decreases s.len() - i,
{
    if i < 0 || i >= s.len() || is_line_break(s[i]) {
        (h, i)
    } else {
        let j = value_end(s, i);
        let h2 = label_column(h, s.subrange(i, j));
        let k = expect_delim(s, j).1;
        if i < k <= s.len() {
            header_columns(s, k, h2)
        } else {
            (h2, k)
        }
    }
}

/// Reads the cells of an alarm table row from `i` to the end of the line,
/// after those in `acc`: the cells, where reading stopped, and whether every
/// cell was closed by `~~` (if not, the rest of the line is dropped).
pub open spec fn row_cells(s: Seq<char>, i: int, acc: Seq<Seq<char>>) -> (
    Seq<Seq<char>>,
    int,
    bool,
)
    decreases s.len() - i,
{
    if i < 0 || i >= s.len() || is_line_break(s[i]) {
        (acc, i, true)
    } else {
        let j = value_end(s, i);
        let acc2 = acc.push(s.subrange(i, j));
        let (ok, k) = expect_delim(s, j);
        if !ok {
            (acc2, line_end(s, k), false)
        } else if i < k <= s.len() {
            row_cells(s, k, acc2)
        } else {
            (acc2, k, true)
        }
    }
}

/// What one alarm table row amounts to.
pub enum RowOutcome {
    /// The row has fewer cells than the header's columns need.
    TooShort,
    /// The row names neither station nor alarm time.
    Placeholder,
    Entry(UnitAlarmTimeView),
}

/// Cell `k`, or the empty text where the row is shorter.
pub open spec fn cell(cells: Seq<Seq<char>>, k: int) -> Seq<char> {
    if 0 <= k < cells.len() {
        cells[k]
    } else {
        seq![]
    }
}

pub open spec fn max3(a: int, b: int, c: int) -> int {
    if a >= b && a >= c {
        a
    } else if b >= c {
        b
    } else {
        c
    }
}

/// The entry an alarm table row gives, read through the header's indices.
///
/// The row is padded with empty cells to the header's width. The station
/// loses its trailing non-ASCII characters, the unit's cell is taken out
/// (and left empty), then the station's, and the alarm time is what remains
/// in its cell.
pub open spec fn alarm_row(cells: Seq<Seq<char>>, h: AlarmTableIndices) -> RowOutcome {
    let n = if cells.len() >= h.header_count {
        cells.len() as int
    } else {
        h.header_count as int
    };
    if n <= max3(h.unit as int, h.station as int, h.alarm_time as int) {
        RowOutcome::TooShort
    } else {
        let padded = Seq::new(n as nat, |k: int| cell(cells, k));
        let c1 = padded.update(h.station as int, trim_non_ascii_end(padded[h.station as int]));
        let id = c1[h.unit as int];
        let c2 = c1.update(h.unit as int, seq![]);
        if c2[h.station as int].len() == 0 && c2[h.alarm_time as int].len() == 0 {
            RowOutcome::Placeholder
        } else {
            let station = c2[h.station as int];
            let c3 = c2.update(h.station as int, seq![]);
            RowOutcome::Entry(
                UnitAlarmTimeView {
                    unit_id: unit_of(id),
                    station: station,
                    alarm_time: c3[h.alarm_time as int],
                },
            )
        }
    }
}

/// Reads an alarm table row at `i` into the state.
pub open spec fn alarm_step(s: Seq<char>, i: int, h: AlarmTableIndices, st: ParseState) -> (
    ParseState,
    int,
) {
    let (cells, k, ok) = row_cells(s, i, seq![]);
    if !ok {
        (st, k)
    } else {
        match alarm_row(cells, h) {
            RowOutcome::TooShort => (st, line_end(s, k)),
            RowOutcome::Placeholder => (st, k),
            RowOutcome::Entry(u) => (
                ParseState {
                    ems: EmergencyView {
                        unit_alarm_times: st.ems.unit_alarm_times.push(u),
                        ..st.ems
                    },
                    header: st.header,
                },
                k,
            ),
        }
    }
}

/// The dispatched units listed in `v`, separated by `", "`.
pub open spec fn units_listed(v: Seq<char>) -> Seq<Either<RadioIdentifierView, Seq<char>>> {
    split(v, ", "@).map_values(|t: Seq<char>| unit_of(t))
}

/// The record after a one-value property `prop` with value `v`; `None` when
/// `prop` is not such a property.
pub open spec fn field_step(prop: Seq<char>, v: Seq<char>, e: EmergencyView) -> Option<
    EmergencyView,
> {
    if prop == "Ort"@ {
        Some(EmergencyView { town: v, ..e })
    } else if prop == "Ortsteil"@ {
        Some(EmergencyView { district: v, ..e })
    } else if prop == "Ortslage"@ {
        Some(EmergencyView { location: v, ..e })
    } else if prop == "Strasse"@ {
        Some(EmergencyView { street: v, ..e })
    } else if prop == "Hausnummer"@ {
        Some(EmergencyView { house_number: v, ..e })
    } else if prop == "Objekt"@ {
        Some(EmergencyView { object: optional_text(v), ..e })
    } else if prop == "FWPlan"@ {
        Some(EmergencyView { fire_department_plan: optional_text(v), ..e })
    } else if prop == "Objektteil"@ {
        Some(EmergencyView { object_part: optional_text(v), ..e })
    } else if prop == "Objektnummer"@ {
        match within(signed_value(v), i64::MIN as int, i64::MAX as int) {
            Some(n) => if n != -1 {
                Some(EmergencyView { object_number: Some(n as i64), ..e })
            } else {
                Some(e)
            },
            None => Some(e),
        }
    } else if prop == "Einsatzart"@ {
        Some(EmergencyView { emergency_type: v, ..e })
    } else if prop == "Alarmgrund"@ {
        Some(EmergencyView { keyword: v, ..e })
    } else if prop == "Sondersignal"@ {
        Some(EmergencyView { code3: v, ..e })
    } else if prop == "Einsatznummer"@ {
        match within(unsigned_value(v), 0, u64::MAX as int) {
            Some(n) => Some(EmergencyView { emergency_number: n as u64, ..e }),
            None => Some(EmergencyView { emergency_number: 0, ..e }),
        }
    } else if prop == "Besonderheiten"@ {
        Some(EmergencyView { note: optional_text(v), ..e })
    } else if prop == "Name"@ {
        if v.len() > 0 && v != ","@ {
            Some(EmergencyView { patient_name: Some(v), ..e })
        } else {
            Some(e)
        }
    } else if prop == "EMListe"@ {
        Some(EmergencyView { dispatched_units: e.dispatched_units + units_listed(v), ..e })
    } else if prop == "WGS84_X"@ || prop == "WGS84_Y"@ {
        Some(e)
    } else if prop == "Einsatzortzusatz"@ {
        Some(EmergencyView { location_addition: optional_text(v), ..e })
    } else if prop == "Alarmzeit"@ {
        match parsed_date_time(v, alarm_time_format()) {
            Some(t) => Some(EmergencyView { alarm_time: t, ..e }),
            None => Some(e),
        }
    } else {
        None
    }
}

/// Reads what follows the property name `prop`, from `c` on.
pub open spec fn property_step(s: Seq<char>, c: int, prop: Seq<char>, st: ParseState) -> (
    ParseState,
    int,
) {
    let d = value_end(s, c);
    if prop == "Status"@ {
        let (h, k) = header_columns(s, c, no_columns());
        (ParseState { ems: st.ems, header: Some(h) }, k)
    } else if prop == "ALARM"@ {
        match st.header {
            None => (st, c),
            Some(h) => alarm_step(s, c, h, st),
        }
    } else if prop == "Koord_EPSG_25833"@ || prop == "Koord_EPSG_4326"@ {
        let (ok, k) = expect_delim(s, d);
        if ok {
            (st, close_record(s, value_end(s, k)))
        } else {
            (st, line_end(s, k))
        }
    } else {
        let (ok, k) = expect_delim(s, d);
        match field_step(prop, s.subrange(c, d), st.ems) {
            Some(e) => if ok {
                (ParseState { ems: e, header: st.header }, k)
            } else {
                (st, line_end(s, c))
            },
            None => (st, line_end(s, c)),
        }
    }
}

/// Reads the record that starts at `i`.
pub open spec fn record_step(s: Seq<char>, i: int, st: ParseState) -> (ParseState, int) {
    let (ok1, a) = expect_delim(s, i);
    if !ok1 {
        (st, line_end(s, a))
    } else {
        let b = value_end(s, a);
        let (ok2, c) = expect_delim(s, b);
        if !ok2 {
            (st, line_end(s, c))
        } else {
            property_step(s, c, s.subrange(a, b), st)
        }
    }
}

/// Reads the records from `i` to the end.
pub open spec fn parse_records(s: Seq<char>, i: int, st: ParseState) -> ParseState
    decreases s.len() - i,
{
    if i < 0 || i >= s.len() {
        st
    } else {
        let j = skip_blank(s, i);
        if j >= s.len() {
            st
        } else {
            let (st2, k) = record_step(s, j, st);
            if i < k <= s.len() {
                parse_records(s, k, st2)
            } else {
                st2
            }
        }
    }
}

/// The dispatch record that the decoded message `s` describes.
pub open spec fn dispatch_record(s: Seq<char>) -> EmergencyView {
    parse_records(s, 0, ParseState { ems: empty_record(), header: None }).ems
}

pub open spec fn cells_text(s: Seq<char>, r: Seq<(usize, usize)>) -> Seq<Seq<char>> {
    r.map_values(|p: (usize, usize)| s.subrange(p.0 as int, p.1 as int))
}

pub open spec fn ranges_within(s: Seq<char>, r: Seq<(usize, usize)>) -> bool {
    forall|k: int| 0 <= k < r.len() ==> (#[trigger] r[k]).0 <= r[k].1 <= s.len()
}

/// End of the value that starts at `i`.
fn value_end_exec(s: &Vec<char>, i: usize) -> (r: usize)
    requires
        i <= s.len(),
    ensures
        r as int == value_end(s@, i as int),
        i <= r <= s.len(),
{
    let mut j: usize = i;
    while j < s.len() && s[j] != '~' && s[j] != '\r' && s[j] != '\n'
        invariant
            i <= j <= s.len(),
            value_end(s@, i as int) == value_end(s@, j as int),
        decreases s.len() - j,
    {
        j += 1;
    }
    j
}

pub proof fn lemma_value_end_within(s: Seq<char>, i: int)
    requires
        0 <= i <= s.len(),
    ensures
        i <= value_end(s, i) <= s.len(),
    decreases s.len() - i,
{
    if i < s.len() {
        lemma_value_end_within(s, i + 1);
    }
}

/// A value from `i` ends at `k` when `k` is the first `~` or line break.
pub proof fn lemma_value_end_stops(s: Seq<char>, i: int, k: int)
    requires
        0 <= i <= k <= s.len(),
        forall|j: int| i <= j < k ==> s[j] != '~' && !is_line_break(s[j]),
        k == s.len() || s[k] == '~' || is_line_break(s[k]),
    ensures
        value_end(s, i) == k,
    decreases k - i,
{
    if i < k {
        lemma_value_end_stops(s, i + 1, k);
    }
}

/// Whether a property is read as one value does not depend on the value or
/// on the record so far.
pub proof fn lemma_field_step_some_any(prop: Seq<char>, v: Seq<char>, e: EmergencyView)
    ensures
        (field_step(prop, v, e) is Some) == (field_step(prop, seq![], empty_record()) is Some),
{
}

fn expect_delim_exec(s: &Vec<char>, i: usize) -> (r: (bool, usize))
    requires
        i <= s.len(),
    ensures
        r.0 == expect_delim(s@, i as int).0,
        r.1 as int == expect_delim(s@, i as int).1,
        i <= r.1 <= s.len(),
        i < s.len() && !is_line_break(s@[i as int]) ==> i < r.1,
{
    if i >= s.len() {
        (false, i)
    } else if s[i] != '~' {
        if s[i] == '\r' || s[i] == '\n' {
            (false, i)
        } else {
            (false, i + 1)
        }
    } else if i + 1 >= s.len() {
        (false, i + 1)
    } else if s[i + 1] != '~' {
        if s[i + 1] == '\r' || s[i + 1] == '\n' {
            (false, i + 1)
        } else {
            (false, i + 2)
        }
    } else {
        (true, i + 2)
    }
}

fn close_record_exec(s: &Vec<char>, i: usize) -> (r: usize)
    requires
        i <= s.len(),
    ensures
        r as int == close_record(s@, i as int),
        i <= r <= s.len(),
{
    let (ok, k) = expect_delim_exec(s, i);
    if ok {
        k
    } else {
        scan_to_char(s, '\n', k)
    }
}

fn label_column_exec(s: &Vec<char>, lo: usize, hi: usize, h: AlarmTableIndices) -> (r:
    AlarmTableIndices)
    requires
        lo <= hi <= s.len(),
        h.header_count < usize::MAX,
    ensures
        r == label_column(h, s@.subrange(lo as int, hi as int)),
{
    let n = h.header_count;
    let mut h2 = h;
    if range_is(s, lo, hi, "Fahrzeug") || range_is(s, lo, hi, "Zuget") {
        h2.unit = n;
    } else if range_is(s, lo, hi, "Wache") {
        h2.station = n;
    } else if range_is(s, lo, hi, "Alarm") || range_is(s, lo, hi, "Alarmiert") {
        h2.alarm_time = n;
    }
    h2.header_count = n + 1;
    h2
}

fn header_columns_exec(s: &Vec<char>, i0: usize) -> (r: (AlarmTableIndices, usize))
    requires
        i0 <= s.len(),
    ensures
        (r.0, r.1 as int) == header_columns(s@, i0 as int, no_columns()),
        i0 <= r.1 <= s.len(),
{
    let mut h = AlarmTableIndices { unit: 0, station: 0, alarm_time: 0, header_count: 0 };
    let mut i: usize = i0;
    while i < s.len() && s[i] != '\r' && s[i] != '\n'
        invariant
            i0 <= i <= s.len(),
            h.header_count <= i - i0,
            header_columns(s@, i0 as int, no_columns()) == header_columns(s@, i as int, h),
        decreases s.len() - i,
    {
        let j = value_end_exec(s, i);
        h = label_column_exec(s, i, j, h);
        let (_, k) = expect_delim_exec(s, j);
        assert(i < k);
        i = k;
    }
    (h, i)
}

fn row_cells_exec(s: &Vec<char>, i0: usize) -> (r: (Vec<(usize, usize)>, usize, bool))
    requires
        i0 <= s.len(),
    ensures
        (cells_text(s@, r.0@), r.1 as int, r.2) == row_cells(s@, i0 as int, seq![]),
        ranges_within(s@, r.0@),
        i0 <= r.1 <= s.len(),
{
    let mut cells: Vec<(usize, usize)> = Vec::new();
    let mut i: usize = i0;
    assert(cells_text(s@, cells@) =~= seq![]);
    while i < s.len() && s[i] != '\r' && s[i] != '\n'
        invariant
            i0 <= i <= s.len(),
            ranges_within(s@, cells@),
            row_cells(s@, i0 as int, seq![]) == row_cells(s@, i as int, cells_text(s@, cells@)),
        decreases s.len() - i,
    {
        let j = value_end_exec(s, i);
        let ghost before = cells@;
        cells.push((i, j));
        assert(cells_text(s@, cells@) =~= cells_text(s@, before).push(s@.subrange(i as int, j as int)));
        let (ok, k) = expect_delim_exec(s, j);
        if !ok {
            let e = scan_to_char(s, '\n', k);
            return (cells, e, false);
        }
        i = k;
    }
    (cells, i, true)
}

/// The range of cell `k`, or an empty one where the row is shorter.
pub open spec fn padded_range(cells: Seq<(usize, usize)>, k: int) -> (usize, usize) {
    if 0 <= k < cells.len() {
        cells[k]
    } else {
        (0usize, 0usize)
    }
}

fn cell_range(cells: &Vec<(usize, usize)>, k: usize) -> (r: (usize, usize))
    ensures
        r == padded_range(cells@, k as int),
{
    if k < cells.len() {
        cells[k]
    } else {
        (0, 0)
    }
}

fn trim_non_ascii_exec(s: &Vec<char>, lo: usize, hi: usize) -> (r: usize)
    requires
        lo <= hi <= s.len(),
    ensures
        lo <= r <= hi,
        s@.subrange(lo as int, r as int) == trim_non_ascii_end(s@.subrange(lo as int, hi as int)),
{
    let mut e: usize = hi;
    while e > lo && (s[e - 1] as u32) >= 128
        invariant
            lo <= e <= hi <= s.len(),
            trim_non_ascii_end(s@.subrange(lo as int, hi as int)) == trim_non_ascii_end(
                s@.subrange(lo as int, e as int),
            ),
        decreases e,
    {
        assert(s@.subrange(lo as int, e as int).drop_last() =~= s@.subrange(lo as int, e - 1));
        e -= 1;
    }
    e
}

enum RowParse {
    TooShort,
    Placeholder,
    Entry(UnitAlarmTime),
}

spec fn row_parse_view(r: RowParse) -> RowOutcome {
    match r {
        RowParse::TooShort => RowOutcome::TooShort,
        RowParse::Placeholder => RowOutcome::Placeholder,
        RowParse::Entry(u) => RowOutcome::Entry(u@),
    }
}

fn alarm_row_exec(s: &Vec<char>, cells: &Vec<(usize, usize)>, h: AlarmTableIndices) -> (r:
    RowParse)
    requires
        ranges_within(s@, cells@),
    ensures
        row_parse_view(r) == alarm_row(cells_text(s@, cells@), h),
{
    let ghost text = cells_text(s@, cells@);
    let n = if cells.len() >= h.header_count {
        cells.len()
    } else {
        h.header_count
    };
    let u = h.unit;
    let st = h.station;
    let at = h.alarm_time;
    if n <= u || n <= st || n <= at {
        return RowParse::TooShort;
    }
    let ghost padded = Seq::new(n as nat, |k: int| cell(text, k));
    assert forall|k: int| 0 <= k < n implies range_holds(
        s@,
        padded_range(cells@, k),
        #[trigger] padded[k],
    ) by {
        if k >= cells.len() {
            assert(s@.subrange(0, 0) =~= seq![]);
        }
    }
    assert(range_holds(s@, padded_range(cells@, st as int), padded[st as int]));
    assert(range_holds(s@, padded_range(cells@, u as int), padded[u as int]));
    assert(range_holds(s@, padded_range(cells@, at as int), padded[at as int]));
    let (slo, shi0) = cell_range(cells, st);
    let shi = trim_non_ascii_exec(s, slo, shi0);
    let ghost c1 = padded.update(st as int, trim_non_ascii_end(padded[st as int]));
    let ghost c2 = c1.update(u as int, seq![]);
    let ghost c3 = c2.update(st as int, seq![]);
    let (ilo, ihi) = if u == st {
        (slo, shi)
    } else {
        cell_range(cells, u)
    };
    assert(s@.subrange(ilo as int, ihi as int) == c1[u as int]);
    let (s2lo, s2hi) = if st == u {
        (0, 0)
    } else {
        (slo, shi)
    };
    assert(s@.subrange(0, 0) =~= seq![]);
    assert(s@.subrange(s2lo as int, s2hi as int) == c2[st as int]);
    let (a2lo, a2hi) = if at == u {
        (0, 0)
    } else if at == st {
        (slo, shi)
    } else {
        cell_range(cells, at)
    };
    assert(s@.subrange(a2lo as int, a2hi as int) == c2[at as int]);
    if s2lo == s2hi && a2lo == a2hi {
        return RowParse::Placeholder;
    }
    let (alo, ahi) = if at == st {
        (0, 0)
    } else {
        (a2lo, a2hi)
    };
    assert(s@.subrange(alo as int, ahi as int) == c3[at as int]);
    let unit_id = dispatched_unit(sub_chars(s, ilo, ihi), sub_string(s, ilo, ihi));
    RowParse::Entry(
        UnitAlarmTime {
            unit_id,
            station: sub_string(s, s2lo, s2hi),
            alarm_time: sub_string(s, alo, ahi),
        },
    )
}

fn alarm_step_exec(s: &Vec<char>, i: usize, h: AlarmTableIndices, ems: &mut Emergency) -> (r:
    usize)
    requires
        i <= s.len(),
    ensures
        (ParseState { ems: final(ems)@, header: Some(h) }, r as int) == alarm_step(
            s@,
            i as int,
            h,
            ParseState { ems: old(ems)@, header: Some(h) },
        ),
        i <= r <= s.len(),
{
    let (cells, k, ok) = row_cells_exec(s, i);
    if !ok {
        return k;
    }
    match alarm_row_exec(s, &cells, h) {
        RowParse::TooShort => scan_to_char(s, '\n', k),
        RowParse::Placeholder => k,
        RowParse::Entry(u) => {
            let ghost before = ems.unit_alarm_times@;
            ems.unit_alarm_times.push(u);
            assert(ems.unit_alarm_times@.map_values(|x: UnitAlarmTime| x@) =~= before.map_values(
                |x: UnitAlarmTime| x@,
            ).push(u@));
            k
        },
    }
}

/// Appends the units listed in `s[lo..hi]`.
fn push_listed_units(s: &Vec<char>, lo: usize, hi: usize, ems: &mut Emergency)
    requires
        lo <= hi <= s.len(),
    ensures
        final(ems)@ == (EmergencyView {
            dispatched_units: old(ems)@.dispatched_units + units_listed(
                s@.subrange(lo as int, hi as int),
            ),
            ..old(ems)@
        }),
{
    let v = sub_chars(s, lo, hi);
    let sep = chars_of(", ");
    proof {
        reveal_strlit(", ");
    }
    assert(sep.len() == 2);
    let parts = split_ranges(&v, &sep);
    let ghost listed = units_listed(v@);
    let ghost start = ems.dispatched_units@.map_values(|x: Either<RadioIdentifier, String>| x@);
    let mut k: usize = 0;
    while k < parts.len()
        invariant
            k <= parts.len(),
            sep@ == ", "@,
            parts@.len() == split(v@, sep@).len(),
            forall|m: int|
                0 <= m < parts@.len() ==> range_holds(v@, #[trigger] parts@[m], split(v@, sep@)[m]),
            listed == units_listed(v@),
            v@ == s@.subrange(lo as int, hi as int),
            ems@ == (EmergencyView {
                dispatched_units: start + listed.take(k as int),
                ..old(ems)@
            }),
        decreases parts.len() - k,
    {
        let (a, b) = parts[k];
        assert(range_holds(v@, parts@[k as int], split(v@, sep@)[k as int]));
        let tok = sub_chars(&v, a, b);
        let unit = dispatched_unit(tok, sub_string(&v, a, b));
        let ghost before = ems.dispatched_units@;
        ems.dispatched_units.push(unit);
        k += 1;
        assert(ems.dispatched_units@.map_values(|x: Either<RadioIdentifier, String>| x@)
            =~= before.map_values(|x: Either<RadioIdentifier, String>| x@).push(unit@));
        assert(listed.take(k as int) =~= listed.take(k - 1).push(listed[k - 1]));
    }
    assert(listed.take(k as int) =~= listed);
}

/// Applies a one-value property; `false` when `s[a..b]` names none.
fn apply_field(s: &Vec<char>, a: usize, b: usize, c: usize, d: usize, ems: &mut Emergency) -> (r:
    bool)
    requires
        a <= b <= s.len(),
        c <= d <= s.len(),
    ensures
        match field_step(
            s@.subrange(a as int, b as int),
            s@.subrange(c as int, d as int),
            old(ems)@,
        ) {
            Some(e) => r && final(ems)@ == e,
            None => !r && final(ems)@ == old(ems)@,
        },
{
    let ghost v = s@.subrange(c as int, d as int);
    if range_is(s, a, b, "Ort") {
        ems.town = sub_string(s, c, d);
    } else if range_is(s, a, b, "Ortsteil") {
        ems.district = sub_string(s, c, d);
    } else if range_is(s, a, b, "Ortslage") {
        ems.location = sub_string(s, c, d);
    } else if range_is(s, a, b, "Strasse") {
        ems.street = sub_string(s, c, d);
    } else if range_is(s, a, b, "Hausnummer") {
        ems.house_number = sub_string(s, c, d);
    } else if range_is(s, a, b, "Objekt") {
        ems.object = optional_string(s, c, d);
    } else if range_is(s, a, b, "FWPlan") {
        ems.fire_department_plan = optional_string(s, c, d);
    } else if range_is(s, a, b, "Objektteil") {
        ems.object_part = optional_string(s, c, d);
    } else if range_is(s, a, b, "Objektnummer") {
        match parse_signed(s, c, d) {
            Some(n) => {
                if n != -1 {
                    ems.object_number = Some(n);
                }
            },
            None => {},
        }
    } else if range_is(s, a, b, "Einsatzart") {
        ems.emergency_type = sub_string(s, c, d);
    } else if range_is(s, a, b, "Alarmgrund") {
        ems.keyword = sub_string(s, c, d);
    } else if range_is(s, a, b, "Sondersignal") {
        ems.code3 = sub_string(s, c, d);
    } else if range_is(s, a, b, "Einsatznummer") {
        ems.emergency_number = match parse_unsigned(s, c, d, u64::MAX) {
            Some(n) => n,
            None => 0,
        };
    } else if range_is(s, a, b, "Besonderheiten") {
        ems.note = optional_string(s, c, d);
    } else if range_is(s, a, b, "Name") {
        if c < d && !range_is(s, c, d, ",") {
            ems.patient_name = Some(sub_string(s, c, d));
        }
    } else if range_is(s, a, b, "EMListe") {
        push_listed_units(s, c, d, ems);
    } else if range_is(s, a, b, "WGS84_X") || range_is(s, a, b, "WGS84_Y") {
    } else if range_is(s, a, b, "Einsatzortzusatz") {
        ems.location_addition = optional_string(s, c, d);
    } else if range_is(s, a, b, "Alarmzeit") {
        let text = sub_string(s, c, d);
        match parse_date_time(text.as_str(), "%d.%m.%y&%H:%M") {
            Some(t) => {
                ems.alarm_time = t;
            },
            None => {},
        }
    } else {
        return false;
    }
    true
}

/// `s[lo..hi]`, or `None` when it is empty.
fn optional_string(s: &Vec<char>, lo: usize, hi: usize) -> (r: Option<String>)
    requires
        lo <= hi <= s.len(),
    ensures
        match r {
            Some(t) => optional_text(s@.subrange(lo as int, hi as int)) == Some(t@),
            None => optional_text(s@.subrange(lo as int, hi as int)) is None,
        },
{
    if lo < hi {
        Some(sub_string(s, lo, hi))
    } else {
        None
    }
}

fn property_step_exec(
    s: &Vec<char>,
    a: usize,
    b: usize,
    c: usize,
    ems: &mut Emergency,
    header: &mut Option<AlarmTableIndices>,
) -> (r: usize)
    requires
        a <= b <= c <= s.len(),
    ensures
        (ParseState { ems: final(ems)@, header: *final(header) }, r as int) == property_step(
            s@,
            c as int,
            s@.subrange(a as int, b as int),
            ParseState { ems: old(ems)@, header: *old(header) },
        ),
        c <= r <= s.len(),
{
    let d = value_end_exec(s, c);
    if range_is(s, a, b, "Status") {
        let (h, k) = header_columns_exec(s, c);
        *header = Some(h);
        k
    } else if range_is(s, a, b, "ALARM") {
        match *header {
            None => c,
            Some(h) => alarm_step_exec(s, c, h, ems),
        }
    } else if range_is(s, a, b, "Koord_EPSG_25833") || range_is(s, a, b, "Koord_EPSG_4326") {
        let (ok, k) = expect_delim_exec(s, d);
        if ok {
            let e = value_end_exec(s, k);
            close_record_exec(s, e)
        } else {
            scan_to_char(s, '\n', k)
        }
    } else {
        let (ok, k) = expect_delim_exec(s, d);
        if ok && apply_field(s, a, b, c, d, ems) {
            k
        } else {
            proof {
                if !ok {
                    lemma_field_step_some_any(
                        s@.subrange(a as int, b as int),
                        s@.subrange(c as int, d as int),
                        old(ems)@,
                    );
                }
            }
            scan_to_char(s, '\n', c)
        }
    }
}

fn record_step_exec(
    s: &Vec<char>,
    i: usize,
    ems: &mut Emergency,
    header: &mut Option<AlarmTableIndices>,
) -> (r: usize)
    requires
        i < s.len(),
        !is_blank(s@[i as int]),
    ensures
        (ParseState { ems: final(ems)@, header: *final(header) }, r as int) == record_step(
            s@,
            i as int,
            ParseState { ems: old(ems)@, header: *old(header) },
        ),
        i < r <= s.len(),
{
    let (ok1, a) = expect_delim_exec(s, i);
    if !ok1 {
        return scan_to_char(s, '\n', a);
    }
    let b = value_end_exec(s, a);
    let (ok2, c) = expect_delim_exec(s, b);
    if !ok2 {
        return scan_to_char(s, '\n', c);
    }
    property_step_exec(s, a, b, c, ems, header)
}

impl Emergency {
    /// Parses a decoded dispatch message. Records that cannot be read are
    /// skipped with the rest of their line; unknown properties are ignored.
    pub fn parse(text: &str) -> (r: Emergency)
        ensures
            r@ == dispatch_record(text@),
    {
        let s = chars_of(text);
        let mut ems = Emergency::default();
        let mut header: Option<AlarmTableIndices> = None;
        let ghost init = ParseState { ems: ems@, header: header };
        let mut i: usize = 0;
        while i < s.len()
            invariant
                i <= s.len(),
                init == (ParseState { ems: empty_record(), header: None }),
                parse_records(s@, 0, init) == parse_records(
                    s@,
                    i as int,
                    ParseState { ems: ems@, header: header },
                ),
            decreases s.len() - i,
        {
            let j = skip_blank_from(&s, i);
            if j >= s.len() {
                i = j;
            } else {
                let k = record_step_exec(&s, j, &mut ems, &mut header);
                i = k;
            }
        }
        ems
    }

    /// Decodes the gateway's escaping of a mail body, then parses it.
    pub fn from_mail(body: &str) -> (r: Emergency)
        ensures
            r@ == dispatch_record(crate::message::decoded(body@)),
    {
        let text = crate::message::mail_str_decode_unicode(body);
        Emergency::parse(text.as_str())
    }
}

impl std::str::FromStr for Emergency {
    type Err = String;

    fn from_str(s: &str) -> Result<Emergency, String> {
        Ok(Emergency::parse(s))
    }
}

/// The padded width of a row read through `h`.
pub open spec fn row_width(cells: Seq<Seq<char>>, h: AlarmTableIndices) -> int {
    if cells.len() >= h.header_count {
        cells.len() as int
    } else {
        h.header_count as int
    }
}

/// Whether `h` marks three distinct columns that a row of `cells` reaches.
pub open spec fn marks_distinct_columns(cells: Seq<Seq<char>>, h: AlarmTableIndices) -> bool {
    &&& h.unit != h.station
    &&& h.unit != h.alarm_time
    &&& h.station != h.alarm_time
    &&& max3(h.unit as int, h.station as int, h.alarm_time as int) < row_width(cells, h)
}

/// The entry of an alarm table row depends only on the cells that the header
/// marks as unit, station and alarm time, not on where they stand: two rows
/// whose marked cells agree give the same entry, whatever the order of the
/// columns.
pub proof fn lemma_alarm_row_column_order(
    c1: Seq<Seq<char>>,
    h1: AlarmTableIndices,
    c2: Seq<Seq<char>>,
    h2: AlarmTableIndices,
)
    requires
        marks_distinct_columns(c1, h1),
        marks_distinct_columns(c2, h2),
        cell(c1, h1.unit as int) == cell(c2, h2.unit as int),
        cell(c1, h1.station as int) == cell(c2, h2.station as int),
        cell(c1, h1.alarm_time as int) == cell(c2, h2.alarm_time as int),
    ensures
        alarm_row(c1, h1) == alarm_row(c2, h2),
        alarm_row(c1, h1) == (if trim_non_ascii_end(cell(c1, h1.station as int)).len() == 0
            && cell(c1, h1.alarm_time as int).len() == 0 {
            RowOutcome::Placeholder
        } else {
            RowOutcome::Entry(
                UnitAlarmTimeView {
                    unit_id: unit_of(cell(c1, h1.unit as int)),
                    station: trim_non_ascii_end(cell(c1, h1.station as int)),
                    alarm_time: cell(c1, h1.alarm_time as int),
                },
            )
        }),
{
}

proof fn lemma_skip_blank_from(t: Seq<char>, i: int)
    requires
        0 <= i <= t.len(),
    ensures
        i <= skip_blank(t, i) <= t.len(),
    decreases t.len() - i,
{
    if i < t.len() {
        lemma_skip_blank_from(t, i + 1);
    }
}

/// Errors are confined to their line: when the record that starts a line
/// (after blanks, at `j`) has a broken `~~` before or after its property
/// name, nothing is taken from it, the rest of the line is dropped, and
/// parsing goes on after it exactly as if the line had not been there.
pub proof fn lemma_broken_record_skips_line(s: Seq<char>, i: int, st: ParseState)
    requires
        0 <= i < s.len(),
        skip_blank(s, i) < s.len(),
        ({
            let j = skip_blank(s, i);
            let (ok1, a) = expect_delim(s, j);
            !ok1 || !expect_delim(s, value_end(s, a)).0
        }),
    ensures
        ({
            let j = skip_blank(s, i);
            let (ok1, a) = expect_delim(s, j);
            let k = if !ok1 {
                line_end(s, a)
            } else {
                line_end(s, expect_delim(s, value_end(s, a)).1)
            };
            parse_records(s, i, st) == parse_records(s, k, st)
        }),
{
    let j = skip_blank(s, i);
    lemma_skip_blank_from(s, i);
    let (ok1, a) = expect_delim(s, j);
    if !ok1 {
        crate::text::lemma_scan_to_within(s, '\n', a);
    } else {
        let b = value_end(s, a);
        lemma_value_end_within(s, a);
        let c = expect_delim(s, b).1;
        crate::text::lemma_scan_to_within(s, '\n', c);
    }
}

/// The indices that the column labels `labels` give, read in order from `h`.
pub open spec fn labelled(labels: Seq<Seq<char>>, h: AlarmTableIndices) -> AlarmTableIndices
    decreases labels.len(),
{
    if labels.len() == 0 {
        h
    } else {
        labelled(labels.drop_first(), label_column(h, labels[0]))
    }
}

/// A header written from `labels`: each label followed by `~~`.
pub open spec fn header_line(labels: Seq<Seq<char>>) -> Seq<char>
    decreases labels.len(),
{
    if labels.len() == 0 {
        seq![]
    } else {
        labels[0] + "~~"@ + header_line(labels.drop_first())
    }
}

/// A label that can stand in a header: no `~`, and no line break first.
pub open spec fn plain_label(l: Seq<char>) -> bool {
    &&& forall|j: int| 0 <= j < l.len() ==> l[j] != '~'
    &&& forall|j: int| 0 <= j < l.len() ==> !is_line_break(l[j])
}

/// A header line written from plain labels reads back as those labels.
pub proof fn lemma_header_line_reads_labels(
    s: Seq<char>,
    i: int,
    labels: Seq<Seq<char>>,
    h: AlarmTableIndices,
)
    requires
        0 <= i,
        i + header_line(labels).len() <= s.len(),
        s.subrange(i, i + header_line(labels).len()) == header_line(labels),
        i + header_line(labels).len() == s.len() || is_line_break(
            s[i + header_line(labels).len()],
        ),
        forall|k: int| 0 <= k < labels.len() ==> plain_label(#[trigger] labels[k]),
    ensures
        header_columns(s, i, h) == (labelled(labels, h), i + header_line(labels).len()),
    decreases labels.len(),
{
    reveal_strlit("~~");
    if labels.len() > 0 {
        let l = labels[0];
        let line = header_line(labels);
        let rest = labels.drop_first();
        assert(line == l + "~~"@ + header_line(rest));
        assert(plain_label(l));
        let j = i + l.len();
        assert forall|m: int| i <= m < j implies s[m] != '~' && !is_line_break(s[m]) by {
            assert(s[m] == line[m - i]);
            assert(line[m - i] == l[m - i]);
        }
        assert(s[j] == line[l.len() as int]);
        assert("~~"@.len() == 2 && "~~"@[0] == '~' && "~~"@[1] == '~');
        assert(s[j + 1] == line[l.len() + 1 as int]);
        assert(s[j] == '~');
        assert(s[j + 1] == '~');
        lemma_value_end_stops(s, i, j);
        assert(s.subrange(i, j) =~= l);
        if l.len() > 0 {
            assert(s[i] == l[0]);
        } else {
            assert(s[i] == '~');
        }
        assert(forall|k: int| 0 <= k < rest.len() ==> rest[k] == labels[k + 1]);
        assert(s.subrange(j + 2, j + 2 + header_line(rest).len()) =~= header_line(rest)) by {
            assert forall|m: int| 0 <= m < header_line(rest).len() implies s.subrange(
                j + 2,
                j + 2 + header_line(rest).len(),
            )[m] == header_line(rest)[m] by {
                assert(s[j + 2 + m] == line[l.len() + 2 + m]);
            }
        }
        lemma_header_line_reads_labels(s, j + 2, rest, label_column(h, l));
    } else {
        assert(header_line(labels).len() == 0);
    }
}

proof fn lemma_role_labels_differ()
    ensures
        forall|l: Seq<char>| is_unit_label(l) ==> !is_station_label(l) && !is_time_label(l),
        forall|l: Seq<char>| is_station_label(l) ==> !is_time_label(l),
{
    reveal_strlit("Fahrzeug");
    reveal_strlit("Zuget");
    reveal_strlit("Wache");
    reveal_strlit("Alarm");
    reveal_strlit("Alarmiert");
    assert("Fahrzeug"@.len() == 8);
    assert("Zuget"@.len() == 5 && "Zuget"@[0] == 'Z');
    assert("Wache"@.len() == 5 && "Wache"@[0] == 'W');
    assert("Alarm"@.len() == 5 && "Alarm"@[0] == 'A');
    assert("Alarmiert"@.len() == 9);
}

pub open spec fn is_unit_label(l: Seq<char>) -> bool {
    l == "Fahrzeug"@ || l == "Zuget"@
}

pub open spec fn is_station_label(l: Seq<char>) -> bool {
    l == "Wache"@
}

pub open spec fn is_time_label(l: Seq<char>) -> bool {
    l == "Alarm"@ || l == "Alarmiert"@
}

/// Whether `labels` names each of unit, station and alarm time exactly once,
/// at `u`, `st` and `at`.
pub open spec fn roles_at(labels: Seq<Seq<char>>, u: int, st: int, at: int) -> bool {
    &&& 0 <= u < labels.len() && 0 <= st < labels.len() && 0 <= at < labels.len()
    &&& forall|k: int| 0 <= k < labels.len() ==> (is_unit_label(#[trigger] labels[k]) <==> k == u)
    &&& forall|k: int| 0 <= k < labels.len() ==> (is_station_label(#[trigger] labels[k]) <==> k == st)
    &&& forall|k: int| 0 <= k < labels.len() ==> (is_time_label(#[trigger] labels[k]) <==> k == at)
}

proof fn lemma_labelled_roles(labels: Seq<Seq<char>>, h: AlarmTableIndices)
    requires
        h.header_count + labels.len() <= usize::MAX,
    ensures
        ({
            let r = labelled(labels, h);
            &&& r.header_count == h.header_count + labels.len()
            &&& (exists|k: int| 0 <= k < labels.len() && is_unit_label(#[trigger] labels[k]))
                ==> (exists|k: int|
                0 <= k < labels.len() && is_unit_label(#[trigger] labels[k]) && r.unit
                    == h.header_count + k && forall|m: int|
                    k < m < labels.len() ==> !is_unit_label(#[trigger] labels[m]))
            &&& !(exists|k: int| 0 <= k < labels.len() && is_unit_label(#[trigger] labels[k]))
                ==> r.unit == h.unit
            &&& (exists|k: int| 0 <= k < labels.len() && is_station_label(#[trigger] labels[k]))
                ==> (exists|k: int|
                0 <= k < labels.len() && is_station_label(#[trigger] labels[k]) && r.station
                    == h.header_count + k && forall|m: int|
                    k < m < labels.len() ==> !is_station_label(#[trigger] labels[m]))
            &&& !(exists|k: int| 0 <= k < labels.len() && is_station_label(#[trigger] labels[k]))
                ==> r.station == h.station
            &&& (exists|k: int| 0 <= k < labels.len() && is_time_label(#[trigger] labels[k]))
                ==> (exists|k: int|
                0 <= k < labels.len() && is_time_label(#[trigger] labels[k]) && r.alarm_time
                    == h.header_count + k && forall|m: int|
                    k < m < labels.len() ==> !is_time_label(#[trigger] labels[m]))
            &&& !(exists|k: int| 0 <= k < labels.len() && is_time_label(#[trigger] labels[k]))
                ==> r.alarm_time == h.alarm_time
        }),
    decreases labels.len(),
{
    reveal_strlit("Fahrzeug");
    reveal_strlit("Zuget");
    reveal_strlit("Wache");
    reveal_strlit("Alarm");
    reveal_strlit("Alarmiert");
    if labels.len() > 0 {
        let l = labels[0];
        let rest = labels.drop_first();
        let h2 = label_column(h, l);
        lemma_role_labels_differ();
        lemma_labelled_roles(rest, h2);
        assert(forall|k: int| 0 <= k < rest.len() ==> rest[k] == labels[k + 1]);
        let r = labelled(labels, h);
        assert(r == labelled(rest, h2));
        if exists|k: int| 0 <= k < rest.len() && is_unit_label(#[trigger] rest[k]) {
            let k = choose|k: int|
                0 <= k < rest.len() && is_unit_label(#[trigger] rest[k]) && r.unit
                    == h2.header_count + k && forall|m: int|
                    k < m < rest.len() ==> !is_unit_label(#[trigger] rest[m]);
            assert(is_unit_label(labels[k + 1]));
            assert forall|m: int| k + 1 < m < labels.len() implies !is_unit_label(
                #[trigger] labels[m],
            ) by {
                assert(labels[m] == rest[m - 1]);
            }
        } else if is_unit_label(l) {
            assert forall|m: int| 0 < m < labels.len() implies !is_unit_label(
                #[trigger] labels[m],
            ) by {
                assert(labels[m] == rest[m - 1]);
            }
        } else {
            assert forall|m: int| 0 <= m < labels.len() implies !is_unit_label(
                #[trigger] labels[m],
            ) by {
                if m > 0 {
                    assert(labels[m] == rest[m - 1]);
                }
            }
        }
        if exists|k: int| 0 <= k < rest.len() && is_station_label(#[trigger] rest[k]) {
            let k = choose|k: int|
                0 <= k < rest.len() && is_station_label(#[trigger] rest[k]) && r.station
                    == h2.header_count + k && forall|m: int|
                    k < m < rest.len() ==> !is_station_label(#[trigger] rest[m]);
            assert(is_station_label(labels[k + 1]));
            assert forall|m: int| k + 1 < m < labels.len() implies !is_station_label(
                #[trigger] labels[m],
            ) by {
                assert(labels[m] == rest[m - 1]);
            }
        } else if is_station_label(l) {
            assert forall|m: int| 0 < m < labels.len() implies !is_station_label(
                #[trigger] labels[m],
            ) by {
                assert(labels[m] == rest[m - 1]);
            }
        } else {
            assert forall|m: int| 0 <= m < labels.len() implies !is_station_label(
                #[trigger] labels[m],
            ) by {
                if m > 0 {
                    assert(labels[m] == rest[m - 1]);
                }
            }
        }
        if exists|k: int| 0 <= k < rest.len() && is_time_label(#[trigger] rest[k]) {
            let k = choose|k: int|
                0 <= k < rest.len() && is_time_label(#[trigger] rest[k]) && r.alarm_time
                    == h2.header_count + k && forall|m: int|
                    k < m < rest.len() ==> !is_time_label(#[trigger] rest[m]);
            assert(is_time_label(labels[k + 1]));
            assert forall|m: int| k + 1 < m < labels.len() implies !is_time_label(
                #[trigger] labels[m],
            ) by {
                assert(labels[m] == rest[m - 1]);
            }
        } else if is_time_label(l) {
            assert forall|m: int| 0 < m < labels.len() implies !is_time_label(
                #[trigger] labels[m],
            ) by {
                assert(labels[m] == rest[m - 1]);
            }
        } else {
            assert forall|m: int| 0 <= m < labels.len() implies !is_time_label(
                #[trigger] labels[m],
            ) by {
                if m > 0 {
                    assert(labels[m] == rest[m - 1]);
                }
            }
        }
    }
}

/// The alarm table does not depend on the order of its columns: a header
/// that names unit, station and alarm time once each, in any order, read
/// together with a row whose cells follow that order, gives the same entry
/// as any other such header and row with the same three cells.
pub proof fn lemma_alarm_table_column_order(
    labels1: Seq<Seq<char>>,
    cells1: Seq<Seq<char>>,
    labels2: Seq<Seq<char>>,
    cells2: Seq<Seq<char>>,
    u1: int,
    s1: int,
    t1: int,
    u2: int,
    s2: int,
    t2: int,
)
    requires
        roles_at(labels1, u1, s1, t1),
        roles_at(labels2, u2, s2, t2),
        labels1.len() <= usize::MAX,
        labels2.len() <= usize::MAX,
        cell(cells1, u1) == cell(cells2, u2),
        cell(cells1, s1) == cell(cells2, s2),
        cell(cells1, t1) == cell(cells2, t2),
    ensures
        alarm_row(cells1, labelled(labels1, no_columns())) == alarm_row(
            cells2,
            labelled(labels2, no_columns()),
        ),
{
    reveal_strlit("Fahrzeug");
    reveal_strlit("Zuget");
    reveal_strlit("Wache");
    reveal_strlit("Alarm");
    reveal_strlit("Alarmiert");
    lemma_role_labels_differ();
    lemma_labelled_roles(labels1, no_columns());
    lemma_labelled_roles(labels2, no_columns());
    let h1 = labelled(labels1, no_columns());
    let h2 = labelled(labels2, no_columns());
    assert(is_unit_label(labels1[u1]));
    assert(is_station_label(labels1[s1]));
    assert(is_time_label(labels1[t1]));
    assert(is_unit_label(labels2[u2]));
    assert(is_station_label(labels2[s2]));
    assert(is_time_label(labels2[t2]));
    assert(h1.unit == u1 && h1.station == s1 && h1.alarm_time == t1);
    assert(h2.unit == u2 && h2.station == s2 && h2.alarm_time == t2);
    lemma_alarm_row_column_order(cells1, h1, cells2, h2);
}

proof fn lemma_expect_delim_bounds(s: Seq<char>, i: int)
    requires
        0 <= i <= s.len(),
    ensures
        i <= expect_delim(s, i).1 <= s.len(),
        i < s.len() && !is_line_break(s[i]) ==> i < expect_delim(s, i).1,
{
}

proof fn lemma_close_record_bounds(s: Seq<char>, i: int)
    requires
        0 <= i <= s.len(),
    ensures
        i <= close_record(s, i) <= s.len(),
{
    lemma_expect_delim_bounds(s, i);
    crate::text::lemma_scan_to_within(s, '\n', expect_delim(s, i).1);
}

proof fn lemma_header_columns_bounds(s: Seq<char>, i: int, h: AlarmTableIndices)
    requires
        0 <= i <= s.len(),
    ensures
        i <= header_columns(s, i, h).1 <= s.len(),
    decreases s.len() - i,
{
    if i < s.len() && !is_line_break(s[i]) {
        let j = value_end(s, i);
        lemma_value_end_within(s, i);
        lemma_expect_delim_bounds(s, j);
        let k = expect_delim(s, j).1;
        if i < k <= s.len() {
            lemma_header_columns_bounds(s, k, label_column(h, s.subrange(i, j)));
        }
    }
}

proof fn lemma_row_cells_bounds(s: Seq<char>, i: int, acc: Seq<Seq<char>>)
    requires
        0 <= i <= s.len(),
    ensures
        i <= row_cells(s, i, acc).1 <= s.len(),
    decreases s.len() - i,
{
    if i < s.len() && !is_line_break(s[i]) {
        let j = value_end(s, i);
        lemma_value_end_within(s, i);
        lemma_expect_delim_bounds(s, j);
        let (ok, k) = expect_delim(s, j);
        crate::text::lemma_scan_to_within(s, '\n', k);
        if ok && i < k <= s.len() {
            lemma_row_cells_bounds(s, k, acc.push(s.subrange(i, j)));
        }
    }
}

/// Reading a record always moves forward, and stays within the text.
proof fn lemma_record_step_progress(s: Seq<char>, j: int, st: ParseState)
    requires
        0 <= j < s.len(),
        !is_line_break(s[j]),
    ensures
        j < record_step(s, j, st).1 <= s.len(),
{
    let (ok1, a) = expect_delim(s, j);
    lemma_expect_delim_bounds(s, j);
    crate::text::lemma_scan_to_within(s, '\n', a);
    if ok1 {
        let b = value_end(s, a);
        lemma_value_end_within(s, a);
        lemma_expect_delim_bounds(s, b);
        let c = expect_delim(s, b).1;
        crate::text::lemma_scan_to_within(s, '\n', c);
        let d = value_end(s, c);
        lemma_value_end_within(s, c);
        lemma_header_columns_bounds(s, c, no_columns());
        lemma_row_cells_bounds(s, c, seq![]);
        let k2 = row_cells(s, c, seq![]).1;
        crate::text::lemma_scan_to_within(s, '\n', k2);
        lemma_expect_delim_bounds(s, d);
        let k = expect_delim(s, d).1;
        crate::text::lemma_scan_to_within(s, '\n', k);
        lemma_value_end_within(s, k);
        lemma_close_record_bounds(s, value_end(s, k));
        lemma_close_record_bounds(s, d);
    }
}

/// A line of a message.
pub enum MessageLine {
    /// A well-formed record `~~key~~value~~`.
    Field(Seq<char>, Seq<char>),
    /// A record `~~key~~value` whose closing `~~` is missing or broken
    /// (the third part is what follows the value).
    BrokenClose(Seq<char>, Seq<char>, Seq<char>),
    /// A record of a property this parser does not know, `~~key~~rest`.
    Unknown(Seq<char>, Seq<char>),
    /// A record whose key is closed by a single `~`: `~~key~rest`.
    BrokenDelimiter(Seq<char>, Seq<char>),
    /// A line that opens no record.
    Broken(Seq<char>),
}

pub open spec fn line_text(l: MessageLine) -> Seq<char> {
    match l {
        MessageLine::Field(k, v) => seq!['~', '~'] + k + seq!['~', '~'] + v + seq!['~', '~', '\n'],
        MessageLine::BrokenClose(k, v, t) => seq!['~', '~'] + k + seq!['~', '~'] + v + t + seq![
            '\n',
        ],
        MessageLine::Unknown(k, r) => seq!['~', '~'] + k + seq!['~', '~'] + r + seq!['\n'],
        MessageLine::BrokenDelimiter(k, r) => seq!['~', '~'] + k + seq!['~'] + r + seq!['\n'],
        MessageLine::Broken(b) => b + seq!['\n'],
    }
}

pub open spec fn message_text(lines: Seq<MessageLine>) -> Seq<char>
    decreases lines.len(),
{
    if lines.len() == 0 {
        seq![]
    } else {
        line_text(lines[0]) + message_text(lines.drop_first())
    }
}

pub open spec fn no_tilde(t: Seq<char>) -> bool {
    forall|j: int| 0 <= j < t.len() ==> t[j] != '~'
}

pub open spec fn no_break(t: Seq<char>) -> bool {
    forall|j: int| 0 <= j < t.len() ==> !is_line_break(t[j])
}

pub open spec fn no_newline(t: Seq<char>) -> bool {
    forall|j: int| 0 <= j < t.len() ==> t[j] != '\n'
}

/// A key of a record that is read as one value (or skipped): none of the
/// table or coordinate records, without `~` or line breaks.
pub open spec fn is_plain_key(k: Seq<char>) -> bool {
    &&& k != "Status"@
    &&& k != "ALARM"@
    &&& k != "Koord_EPSG_25833"@
    &&& k != "Koord_EPSG_4326"@
    &&& no_tilde(k)
    &&& no_break(k)
}

pub open spec fn knows_field(k: Seq<char>) -> bool {
    field_step(k, seq![], empty_record()) is Some
}

pub open spec fn line_ok(l: MessageLine) -> bool {
    match l {
        MessageLine::Field(k, v) => is_plain_key(k) && knows_field(k) && no_tilde(v) && no_break(
            v,
        ),
        MessageLine::BrokenClose(k, v, t) => is_plain_key(k) && no_tilde(v) && no_break(v)
            && no_newline(t) && (t.len() == 0 || (t[0] == '~' && (t.len() == 1 || t[1] != '~'))),
        MessageLine::Unknown(k, r) => is_plain_key(k) && !knows_field(k) && no_newline(r),
        MessageLine::BrokenDelimiter(k, r) => no_tilde(k) && no_break(k) && r.len() > 0 && r[0]
            != '~' && no_newline(r),
        MessageLine::Broken(b) => b.len() > 0 && b[0] != '~' && !is_blank(b[0]) && no_newline(b),
    }
}

/// The record after one line: a well-formed record of a known property sets
/// its field; every other line changes nothing.
pub open spec fn apply_line(l: MessageLine, e: EmergencyView) -> EmergencyView {
    match l {
        MessageLine::Field(k, v) => match field_step(k, v, e) {
            Some(e2) => e2,
            None => e,
        },
        _ => e,
    }
}

pub open spec fn apply_lines(lines: Seq<MessageLine>, e: EmergencyView) -> EmergencyView
    decreases lines.len(),
{
    if lines.len() == 0 {
        e
    } else {
        apply_lines(lines.drop_first(), apply_line(lines[0], e))
    }
}

proof fn lemma_line_chars(s: Seq<char>, i: int, lt: Seq<char>)
    requires
        0 <= i,
        i + lt.len() <= s.len(),
        s.subrange(i, i + lt.len()) == lt,
    ensures
        forall|m: int| 0 <= m < lt.len() ==> #[trigger] s[i + m] == lt[m],
{
    assert forall|m: int| 0 <= m < lt.len() implies #[trigger] s[i + m] == lt[m] by {
        assert(s.subrange(i, i + lt.len())[m] == s[i + m]);
    }
}

/// Reading a record of a plain key: the key is read whole, and reading
/// goes on after its `~~`.
proof fn lemma_plain_key_read(s: Seq<char>, i: int, k: Seq<char>)
    requires
        0 <= i,
        i + k.len() + 4 <= s.len(),
        s[i] == '~' && s[i + 1] == '~',
        forall|m: int| 0 <= m < k.len() ==> #[trigger] s[i + 2 + m] == k[m],
        s[i + 2 + k.len()] == '~' && s[i + 3 + k.len()] == '~',
        no_tilde(k),
        no_break(k),
    ensures
        expect_delim(s, i) == (true, i + 2),
        value_end(s, i + 2) == i + 2 + k.len(),
        s.subrange(i + 2, i + 2 + k.len()) == k,
        expect_delim(s, i + 2 + k.len()) == (true, i + 4 + k.len()),
{
    assert forall|j: int| i + 2 <= j < i + 2 + k.len() implies s[j] != '~' && !is_line_break(
        s[j],
    ) by {
        assert(s[i + 2 + (j - i - 2)] == k[j - i - 2]);
    }
    lemma_value_end_stops(s, i + 2, i + 2 + k.len());
    assert(s.subrange(i + 2, i + 2 + k.len()) =~= k) by {
        assert forall|m: int| 0 <= m < k.len() implies s.subrange(i + 2, i + 2 + k.len())[m]
            == k[m] by {
            assert(s[i + 2 + m] == k[m]);
        }
    }
}

/// Each kind of line is read to its line break: a well-formed record of a
/// known property sets its field, and every other line changes nothing.
proof fn lemma_line_step(s: Seq<char>, i: int, l: MessageLine, st: ParseState)
    requires
        0 <= i,
        i + line_text(l).len() <= s.len(),
        s.subrange(i, i + line_text(l).len()) == line_text(l),
        line_ok(l),
    ensures
        record_step(s, i, st) == (
            ParseState { ems: apply_line(l, st.ems), header: st.header },
            i + line_text(l).len() - 1,
        ),
        skip_blank(s, i) == i,
        i < i + line_text(l).len() - 1,
        s[i + line_text(l).len() - 1] == '\n',
{
    let lt = line_text(l);
    let n = i + lt.len();
    lemma_line_chars(s, i, lt);
    assert(s[n - 1] == lt[lt.len() - 1]);
    match l {
        MessageLine::Field(k, v) => {
            assert(s[i] == lt[0] && s[i + 1] == lt[1]);
            assert forall|m: int| 0 <= m < k.len() implies #[trigger] s[i + 2 + m] == k[m] by {
                assert(s[i + (2 + m)] == lt[2 + m]);
            }
            assert(s[i + 2 + k.len()] == lt[2 + k.len() as int]);
            assert(s[i + 3 + k.len()] == lt[3 + k.len() as int]);
            lemma_plain_key_read(s, i, k);
            let c = i + 4 + k.len();
            let d = c + v.len();
            assert forall|j: int| c <= j < d implies s[j] != '~' && !is_line_break(s[j]) by {
                assert(s[i + (j - i)] == lt[j - i]);
                assert(lt[j - i] == v[j - c]);
            }
            assert(s[d] == lt[d - i] && s[d + 1] == lt[d + 1 - i]);
            lemma_value_end_stops(s, c, d);
            assert(s.subrange(c, d) =~= v) by {
                assert forall|m: int| 0 <= m < v.len() implies s.subrange(c, d)[m] == v[m] by {
                    assert(s[i + (c - i + m)] == lt[c - i + m]);
                }
            }
            lemma_field_step_some_any(k, v, st.ems);
        },
        MessageLine::BrokenClose(k, v, t) => {
            assert(s[i] == lt[0] && s[i + 1] == lt[1]);
            assert forall|m: int| 0 <= m < k.len() implies #[trigger] s[i + 2 + m] == k[m] by {
                assert(s[i + (2 + m)] == lt[2 + m]);
            }
            assert(s[i + 2 + k.len()] == lt[2 + k.len() as int]);
            assert(s[i + 3 + k.len()] == lt[3 + k.len() as int]);
            lemma_plain_key_read(s, i, k);
            let c = i + 4 + k.len();
            let d = c + v.len();
            assert forall|j: int| c <= j < d implies s[j] != '~' && !is_line_break(s[j]) by {
                assert(s[i + (j - i)] == lt[j - i]);
                assert(lt[j - i] == v[j - c]);
            }
            assert(s[d] == lt[d - i]);
            lemma_value_end_stops(s, c, d);
            assert forall|j: int| c <= j < n - 1 implies s[j] != '\n' by {
                assert(s[i + (j - i)] == lt[j - i]);
                if j >= d {
                    assert(lt[j - i] == t[j - d]);
                }
            }
            crate::text::lemma_scan_to_stops(s, '\n', c, n - 1);
            if t.len() >= 1 {
                assert(s[d + 1] == lt[d + 1 - i]);
            }
            if t.len() >= 2 {
                assert(lt[d + 1 - i] == t[1]);
            }
            assert(!expect_delim(s, d).0);
        },
        MessageLine::Unknown(k, r) => {
            assert(s[i] == lt[0] && s[i + 1] == lt[1]);
            assert forall|m: int| 0 <= m < k.len() implies #[trigger] s[i + 2 + m] == k[m] by {
                assert(s[i + (2 + m)] == lt[2 + m]);
            }
            assert(s[i + 2 + k.len()] == lt[2 + k.len() as int]);
            assert(s[i + 3 + k.len()] == lt[3 + k.len() as int]);
            lemma_plain_key_read(s, i, k);
            let c = i + 4 + k.len();
            assert forall|j: int| c <= j < n - 1 implies s[j] != '\n' by {
                assert(s[i + (j - i)] == lt[j - i]);
                assert(lt[j - i] == r[j - c]);
            }
            crate::text::lemma_scan_to_stops(s, '\n', c, n - 1);
            lemma_field_step_some_any(k, s.subrange(c, value_end(s, c)), st.ems);
        },
        MessageLine::BrokenDelimiter(k, r) => {
            assert(s[i] == lt[0] && s[i + 1] == lt[1]);
            let b = i + 2 + k.len();
            assert forall|j: int| i + 2 <= j < b implies s[j] != '~' && !is_line_break(s[j]) by {
                assert(s[i + (j - i)] == lt[j - i]);
                assert(lt[j - i] == k[j - i - 2]);
            }
            assert(s[b] == lt[b - i]);
            assert(s[b + 1] == lt[b + 1 - i] && lt[b + 1 - i] == r[0]);
            lemma_value_end_stops(s, i + 2, b);
            assert forall|j: int| b + 1 <= j < n - 1 implies s[j] != '\n' by {
                assert(s[i + (j - i)] == lt[j - i]);
                assert(lt[j - i] == r[j - b - 1]);
            }
            crate::text::lemma_scan_to_stops(s, '\n', b + 1, n - 1);
            if !is_line_break(r[0]) {
                crate::text::lemma_scan_to_stops(s, '\n', b + 2, n - 1);
            }
        },
        MessageLine::Broken(b) => {
            assert(s[i] == lt[0] && lt[0] == b[0]);
            assert forall|j: int| i + 1 <= j < n - 1 implies s[j] != '\n' by {
                assert(s[i + (j - i)] == lt[j - i]);
                assert(lt[j - i] == b[j - i]);
            }
            crate::text::lemma_scan_to_stops(s, '\n', i + 1, n - 1);
        },
    }
}

/// Parsing from a line start, once the previous line's break is behind.
proof fn lemma_resume_after_break(s: Seq<char>, i: int, st: ParseState)
    requires
        0 <= i < s.len(),
        is_blank(s[i]),
        i + 1 == s.len() || !is_blank(s[i + 1]),
    ensures
        parse_records(s, i, st) == parse_records(s, i + 1, st),
{
    if i + 1 < s.len() {
        assert(skip_blank(s, i + 1) == i + 1);
        lemma_record_step_progress(s, i + 1, st);
    } else {
        assert(skip_blank(s, i + 1) == i + 1);
    }
}

proof fn lemma_lines_parse(s: Seq<char>, i: int, lines: Seq<MessageLine>, st: ParseState)
    requires
        0 <= i,
        i + message_text(lines).len() == s.len(),
        s.subrange(i, s.len() as int) == message_text(lines),
        forall|k: int| 0 <= k < lines.len() ==> line_ok(#[trigger] lines[k]),
    ensures
        parse_records(s, i, st) == (ParseState { ems: apply_lines(lines, st.ems), header: st.header }),
    decreases lines.len(),
{
    if lines.len() == 0 {
        return;
    }
    let l = lines[0];
    let rest = lines.drop_first();
    let t = message_text(lines);
    let lt = line_text(l);
    assert(t == lt + message_text(rest));
    assert(line_ok(l));
    let n = i + lt.len();
    assert(s.subrange(i, n) =~= lt) by {
        assert forall|m: int| 0 <= m < lt.len() implies s.subrange(i, n)[m] == lt[m] by {
            assert(s.subrange(i, s.len() as int)[m] == t[m]);
        }
    }
    assert(s.subrange(n, s.len() as int) =~= message_text(rest)) by {
        assert forall|m: int| 0 <= m < message_text(rest).len() implies s.subrange(
            n,
            s.len() as int,
        )[m] == message_text(rest)[m] by {
            assert(s.subrange(i, s.len() as int)[lt.len() + m] == t[lt.len() + m]);
        }
    }
    assert(forall|k: int| 0 <= k < rest.len() ==> rest[k] == lines[k + 1]);
    assert(n < s.len() ==> !is_blank(s[n])) by {
        if n < s.len() {
            assert(rest.len() > 0);
            assert(line_ok(rest[0]));
            assert(s[n] == message_text(rest)[0]);
            assert(message_text(rest) == line_text(rest[0]) + message_text(rest.drop_first()));
            match rest[0] {
                MessageLine::Broken(b2) => {
                    assert(line_text(rest[0])[0] == b2[0]);
                },
                _ => {
                    assert(line_text(rest[0])[0] == '~');
                },
            }
        }
    }
    lemma_line_step(s, i, l, st);
    let st2 = ParseState { ems: apply_line(l, st.ems), header: st.header };
    assert(parse_records(s, i, st) == parse_records(s, n - 1, st2));
    lemma_resume_after_break(s, n - 1, st2);
    lemma_lines_parse(s, n, rest, st2);
}

/// Parser resilience over a whole message: a message made of well-formed
/// records of one-value properties, records whose closing `~~` is missing
/// or broken, records of unknown properties, records with a broken `~~`
/// after the key, and lines that open no record, in any mix, reads as the
/// well-formed records alone, in order. Every other line is left out with
/// its own field and spoils nothing else.
pub proof fn lemma_message_lines(lines: Seq<MessageLine>)
    requires
        forall|k: int| 0 <= k < lines.len() ==> line_ok(#[trigger] lines[k]),
    ensures
        dispatch_record(message_text(lines)) == apply_lines(lines, empty_record()),
{
    let s = message_text(lines);
    assert(s.subrange(0, s.len() as int) =~= s);
    lemma_lines_parse(s, 0, lines, ParseState { ems: empty_record(), header: None });
}

proof fn lemma_apply_lines_skip_unknown(
    before: Seq<MessageLine>,
    u: MessageLine,
    after: Seq<MessageLine>,
    e: EmergencyView,
)
    requires
        !(u is Field),
    ensures
        apply_lines(before + seq![u] + after, e) == apply_lines(before + after, e),
    decreases before.len(),
{
    if before.len() == 0 {
        assert(before + seq![u] + after =~= seq![u] + after);
        assert((seq![u] + after).drop_first() =~= after);
        assert(before + after =~= after);
    } else {
        assert((before + seq![u] + after).drop_first() =~= before.drop_first() + seq![u] + after);
        assert((before + after).drop_first() =~= before.drop_first() + after);
        lemma_apply_lines_skip_unknown(before.drop_first(), u, after, apply_line(before[0], e));
    }
}

/// A line of an unknown property, or any broken line, inserted between the
/// lines of a message changes nothing in the record read from it.
pub proof fn lemma_inserted_line_changes_nothing(
    before: Seq<MessageLine>,
    u: MessageLine,
    after: Seq<MessageLine>,
)
    requires
        forall|k: int| 0 <= k < before.len() ==> line_ok(#[trigger] before[k]),
        forall|k: int| 0 <= k < after.len() ==> line_ok(#[trigger] after[k]),
        line_ok(u),
        !(u is Field),
    ensures
        dispatch_record(message_text(before + seq![u] + after)) == dispatch_record(
            message_text(before + after),
        ),
{
    let with = before + seq![u] + after;
    let without = before + after;
    assert forall|k: int| 0 <= k < with.len() implies line_ok(#[trigger] with[k]) by {
        if k < before.len() {
            assert(with[k] == before[k]);
        } else if k == before.len() {
            assert(with[k] == u);
        } else {
            assert(with[k] == after[k - before.len() - 1]);
        }
    }
    assert forall|k: int| 0 <= k < without.len() implies line_ok(#[trigger] without[k]) by {
        if k < before.len() {
            assert(without[k] == before[k]);
        } else {
            assert(without[k] == after[k - before.len()]);
        }
    }
    lemma_message_lines(with);
    lemma_message_lines(without);
    lemma_apply_lines_skip_unknown(before, u, after, empty_record());
}

/// A row written from `cells` reads back as those cells.
proof fn lemma_row_line_reads_cells(s: Seq<char>, i: int, cells: Seq<Seq<char>>, acc: Seq<Seq<char>>)
    requires
        0 <= i,
        i + header_line(cells).len() <= s.len(),
        s.subrange(i, i + header_line(cells).len()) == header_line(cells),
        i + header_line(cells).len() == s.len() || is_line_break(
            s[i + header_line(cells).len()],
        ),
        forall|k: int| 0 <= k < cells.len() ==> plain_label(#[trigger] cells[k]),
    ensures
        row_cells(s, i, acc) == (acc + cells, i + header_line(cells).len(), true),
    decreases cells.len(),
{
    reveal_strlit("~~");
    if cells.len() > 0 {
        let l = cells[0];
        let line = header_line(cells);
        let rest = cells.drop_first();
        assert(line == l + "~~"@ + header_line(rest));
        assert(plain_label(l));
        let j = i + l.len();
        assert forall|m: int| i <= m < j implies s[m] != '~' && !is_line_break(s[m]) by {
            assert(s[m] == line[m - i]);
            assert(line[m - i] == l[m - i]);
        }
        assert(s[j] == line[l.len() as int]);
        assert("~~"@.len() == 2 && "~~"@[0] == '~' && "~~"@[1] == '~');
        assert(s[j + 1] == line[l.len() + 1 as int]);
        lemma_value_end_stops(s, i, j);
        assert(s.subrange(i, j) =~= l);
        if l.len() > 0 {
            assert(s[i] == l[0]);
        } else {
            assert(s[i] == '~');
        }
        assert(forall|k: int| 0 <= k < rest.len() ==> rest[k] == cells[k + 1]);
        assert(s.subrange(j + 2, j + 2 + header_line(rest).len()) =~= header_line(rest)) by {
            assert forall|m: int| 0 <= m < header_line(rest).len() implies s.subrange(
                j + 2,
                j + 2 + header_line(rest).len(),
            )[m] == header_line(rest)[m] by {
                assert(s[j + 2 + m] == line[l.len() + 2 + m]);
            }
        }
        lemma_row_line_reads_cells(s, j + 2, rest, acc.push(l));
        assert(acc.push(l) + rest =~= acc + cells);
    } else {
        assert(acc + cells =~= acc);
    }
}

pub open spec fn status_line(labels: Seq<Seq<char>>) -> Seq<char> {
    "~~Status~~"@ + header_line(labels) + seq!['\n']
}

pub open spec fn alarm_line(cells: Seq<Seq<char>>) -> Seq<char> {
    "~~ALARM~~"@ + header_line(cells) + seq!['\n']
}

pub open spec fn rows_text(rows: Seq<Seq<Seq<char>>>) -> Seq<char>
    decreases rows.len(),
{
    if rows.len() == 0 {
        seq![]
    } else {
        alarm_line(rows[0]) + rows_text(rows.drop_first())
    }
}

/// An alarm table: the header line, then one line per row.
pub open spec fn table_text(labels: Seq<Seq<char>>, rows: Seq<Seq<Seq<char>>>) -> Seq<char> {
    status_line(labels) + rows_text(rows)
}

/// The entries that the rows give through `h`, in order.
pub open spec fn table_entries(rows: Seq<Seq<Seq<char>>>, h: AlarmTableIndices) -> Seq<
    UnitAlarmTimeView,
>
    decreases rows.len(),
{
    if rows.len() == 0 {
        seq![]
    } else {
        let rest = table_entries(rows.drop_first(), h);
        match alarm_row(rows[0], h) {
            RowOutcome::Entry(u) => seq![u] + rest,
            _ => rest,
        }
    }
}

pub open spec fn plain_cells(rows: Seq<Seq<Seq<char>>>) -> bool {
    forall|r: int, k: int|
        0 <= r < rows.len() && 0 <= k < rows[r].len() ==> plain_label(#[trigger] rows[r][k])
}

proof fn lemma_rows_parse(
    s: Seq<char>,
    i: int,
    rows: Seq<Seq<Seq<char>>>,
    h: AlarmTableIndices,
    st: ParseState,
)
    requires
        0 <= i,
        i + rows_text(rows).len() == s.len(),
        s.subrange(i, s.len() as int) == rows_text(rows),
        plain_cells(rows),
        st.header == Some(h),
    ensures
        parse_records(s, i, st) == (ParseState {
            ems: EmergencyView {
                unit_alarm_times: st.ems.unit_alarm_times + table_entries(rows, h),
                ..st.ems
            },
            header: st.header,
        }),
    decreases rows.len(),
{
    reveal_strlit("~~ALARM~~");
    reveal_strlit("ALARM");
    reveal_strlit("Status");
    reveal_strlit("Koord_EPSG_25833");
    if rows.len() == 0 {
        assert(st.ems.unit_alarm_times + table_entries(rows, h) =~= st.ems.unit_alarm_times);
        return;
    }
    let cells = rows[0];
    let rest = rows.drop_first();
    let t = rows_text(rows);
    let lt = alarm_line(cells);
    let hl = header_line(cells);
    assert(t == lt + rows_text(rest));
    assert forall|m: int| 0 <= m < lt.len() implies s[i + m] == lt[m] by {
        assert(s.subrange(i, s.len() as int)[m] == t[m]);
    }
    let n = i + lt.len();
    assert(s.subrange(n, s.len() as int) =~= rows_text(rest)) by {
        assert forall|m: int| 0 <= m < rows_text(rest).len() implies s.subrange(
            n,
            s.len() as int,
        )[m] == rows_text(rest)[m] by {
            assert(s.subrange(i, s.len() as int)[lt.len() + m] == t[lt.len() + m]);
        }
    }
    assert("~~ALARM~~"@ =~= seq!['~', '~', 'A', 'L', 'A', 'R', 'M', '~', '~']);
    assert("ALARM"@ =~= seq!['A', 'L', 'A', 'R', 'M']);
    assert(lt.len() == 10 + hl.len());
    assert forall|m: int| 0 <= m < 9 implies s[i + m] == "~~ALARM~~"@[m] by {
        assert(lt[m] == "~~ALARM~~"@[m]);
    }
    assert(s[i] == '~' && s[i + 1] == '~');
    assert(skip_blank(s, i) == i);
    assert forall|m: int| i + 2 <= m < i + 7 implies s[m] != '~' by {
        assert(s[m] == "~~ALARM~~"@[m - i]);
    }
    assert(s[i + 7] == '~' && s[i + 8] == '~');
    lemma_value_end_stops(s, i + 2, i + 7);
    assert(s.subrange(i + 2, i + 7) =~= "ALARM"@);
    assert("Status"@.len() == 6);
    assert("ALARM"@ != "Status"@);
    let c = i + 9;
    assert(s.subrange(c, c + hl.len()) =~= hl) by {
        assert forall|m: int| 0 <= m < hl.len() implies s.subrange(c, c + hl.len())[m] == hl[m] by {
            assert(s[c + m] == lt[9 + m]);
        }
    }
    assert(s[c + hl.len()] == lt[9 + hl.len() as int]);
    assert(s[c + hl.len()] == '\n');
    assert forall|k: int| 0 <= k < cells.len() implies plain_label(#[trigger] cells[k]) by {
        assert(plain_label(rows[0][k]));
    }
    lemma_row_line_reads_cells(s, c, cells, seq![]);
    assert(seq![] + cells =~= cells);
    let k = c + hl.len();
    assert(line_end(s, k) == k);
    let st2 = alarm_step(s, c, h, st).0;
    assert(record_step(s, i, st) == (st2, k));
    assert(parse_records(s, i, st) == parse_records(s, k, st2));
    assert(n < s.len() ==> s[n] == '~') by {
        if n < s.len() {
            assert(rest.len() > 0);
            assert(s[n] == rows_text(rest)[0]);
            assert(rows_text(rest) == alarm_line(rest[0]) + rows_text(rest.drop_first()));
            assert(alarm_line(rest[0])[0] == "~~ALARM~~"@[0]);
        }
    }
    lemma_resume_after_break(s, k, st2);
    assert(forall|r: int| 0 <= r < rest.len() ==> rest[r] == rows[r + 1]);
    assert(plain_cells(rest)) by {
        assert forall|r: int, q: int| 0 <= r < rest.len() && 0 <= q < rest[r].len() implies plain_label(
            #[trigger] rest[r][q],
        ) by {
            assert(rest[r] == rows[r + 1]);
        }
    }
    lemma_rows_parse(s, n, rest, h, st2);
    match alarm_row(cells, h) {
        RowOutcome::Entry(u) => {
            assert(st.ems.unit_alarm_times.push(u) + table_entries(rest, h)
                =~= st.ems.unit_alarm_times + table_entries(rows, h));
        },
        _ => {},
    }
}

/// A whole alarm table parses into the entries of its rows, in order, read
/// through the indices that its header's labels give.
pub proof fn lemma_table_parse(labels: Seq<Seq<char>>, rows: Seq<Seq<Seq<char>>>)
    requires
        forall|k: int| 0 <= k < labels.len() ==> plain_label(#[trigger] labels[k]),
        plain_cells(rows),
    ensures
        dispatch_record(table_text(labels, rows)).unit_alarm_times == table_entries(
            rows,
            labelled(labels, no_columns()),
        ),
{
    reveal_strlit("~~Status~~");
    reveal_strlit("Status");
    let s = table_text(labels, rows);
    let hl = header_line(labels);
    let w: int = hl.len() as int;
    let sl = status_line(labels);
    assert(s == sl + rows_text(rows));
    assert("~~Status~~"@ =~= seq!['~', '~', 'S', 't', 'a', 't', 'u', 's', '~', '~']);
    assert("Status"@ =~= seq!['S', 't', 'a', 't', 'u', 's']);
    assert(sl.len() == 11 + hl.len());
    assert forall|m: int| 0 <= m < sl.len() implies s[m] == sl[m] by {}
    assert forall|m: int| 0 <= m < 10 implies s[m] == "~~Status~~"@[m] by {
        assert(sl[m] == "~~Status~~"@[m]);
    }
    assert(skip_blank(s, 0) == 0);
    assert forall|m: int| 2 <= m < 8 implies s[m] != '~' by {
        assert(s[m] == "~~Status~~"@[m]);
    }
    lemma_value_end_stops(s, 2, 8);
    assert(s.subrange(2, 8) =~= "Status"@);
    assert(s.subrange(10, 10 + w) =~= hl) by {
        assert forall|m: int| 0 <= m < hl.len() implies s.subrange(10, 10 + w)[m] == hl[m] by {
            assert(s[10 + m] == sl[10 + m]);
        }
    }
    assert(s[10 + w] == sl[10 + w]);
    lemma_header_line_reads_labels(s, 10, labels, no_columns());
    let h = labelled(labels, no_columns());
    let k: int = 10 + w;
    let st0 = ParseState { ems: empty_record(), header: None };
    let st1 = ParseState { ems: empty_record(), header: Some(h) };
    assert(record_step(s, 0, st0) == (st1, k));
    assert(parse_records(s, 0, st0) == parse_records(s, k, st1));
    let n: int = k + 1;
    assert(n < s.len() ==> s[n] == '~') by {
        if n < s.len() {
            assert(rows.len() > 0);
            assert(s[n] == rows_text(rows)[0]);
            assert(rows_text(rows) == alarm_line(rows[0]) + rows_text(rows.drop_first()));
            reveal_strlit("~~ALARM~~");
            assert(alarm_line(rows[0])[0] == "~~ALARM~~"@[0]);
        }
    }
    lemma_resume_after_break(s, k, st1);
    assert(s.subrange(n, s.len() as int) =~= rows_text(rows)) by {
        assert forall|m: int| 0 <= m < rows_text(rows).len() implies s.subrange(
            n,
            s.len() as int,
        )[m] == rows_text(rows)[m] by {
            assert(s[n + m] == rows_text(rows)[m]);
        }
    }
    lemma_rows_parse(s, n, rows, h, st1);
    assert(Seq::<UnitAlarmTimeView>::empty() + table_entries(rows, h) =~= table_entries(rows, h));
}

/// Whether each row of `rows2` holds the unit, station and alarm-time cells
/// of the same row of `rows1`, moved from columns `u1`, `s1`, `t1` to `u2`,
/// `s2`, `t2`.
pub open spec fn rows_reordered(
    rows1: Seq<Seq<Seq<char>>>,
    rows2: Seq<Seq<Seq<char>>>,
    u1: int,
    s1: int,
    t1: int,
    u2: int,
    s2: int,
    t2: int,
) -> bool {
    &&& rows1.len() == rows2.len()
    &&& forall|r: int|
        0 <= r < rows1.len() ==> {
            &&& cell(#[trigger] rows1[r], u1) == cell(rows2[r], u2)
            &&& cell(rows1[r], s1) == cell(rows2[r], s2)
            &&& cell(rows1[r], t1) == cell(rows2[r], t2)
        }
}

proof fn lemma_table_entries_reordered(
    labels1: Seq<Seq<char>>,
    rows1: Seq<Seq<Seq<char>>>,
    labels2: Seq<Seq<char>>,
    rows2: Seq<Seq<Seq<char>>>,
    u1: int,
    s1: int,
    t1: int,
    u2: int,
    s2: int,
    t2: int,
)
    requires
        roles_at(labels1, u1, s1, t1),
        roles_at(labels2, u2, s2, t2),
        labels1.len() <= usize::MAX,
        labels2.len() <= usize::MAX,
        rows_reordered(rows1, rows2, u1, s1, t1, u2, s2, t2),
    ensures
        table_entries(rows1, labelled(labels1, no_columns())) == table_entries(
            rows2,
            labelled(labels2, no_columns()),
        ),
    decreases rows1.len(),
{
    if rows1.len() > 0 {
        let r1 = rows1.drop_first();
        let r2 = rows2.drop_first();
        assert(rows_reordered(r1, r2, u1, s1, t1, u2, s2, t2)) by {
            assert forall|r: int| 0 <= r < r1.len() implies {
                &&& cell(#[trigger] r1[r], u1) == cell(r2[r], u2)
                &&& cell(r1[r], s1) == cell(r2[r], s2)
                &&& cell(r1[r], t1) == cell(r2[r], t2)
            } by {
                assert(r1[r] == rows1[r + 1]);
                assert(r2[r] == rows2[r + 1]);
            }
        }
        lemma_table_entries_reordered(labels1, r1, labels2, r2, u1, s1, t1, u2, s2, t2);
        assert(cell(rows1[0], u1) == cell(rows2[0], u2));
        lemma_alarm_table_column_order(
            labels1,
            rows1[0],
            labels2,
            rows2[0],
            u1,
            s1,
            t1,
            u2,
            s2,
            t2,
        );
    }
}

/// The alarm table does not depend on the order of its columns, over the
/// whole message: two tables whose headers name unit, station and alarm time
/// once each, in any order, and whose rows hold the same three cells in the
/// matching columns, parse into the same alarm times.
pub proof fn lemma_alarm_table_any_column_order(
    labels1: Seq<Seq<char>>,
    rows1: Seq<Seq<Seq<char>>>,
    labels2: Seq<Seq<char>>,
    rows2: Seq<Seq<Seq<char>>>,
    u1: int,
    s1: int,
    t1: int,
    u2: int,
    s2: int,
    t2: int,
)
    requires
        roles_at(labels1, u1, s1, t1),
        roles_at(labels2, u2, s2, t2),
        labels1.len() <= usize::MAX,
        labels2.len() <= usize::MAX,
        forall|k: int| 0 <= k < labels1.len() ==> plain_label(#[trigger] labels1[k]),
        forall|k: int| 0 <= k < labels2.len() ==> plain_label(#[trigger] labels2[k]),
        plain_cells(rows1),
        plain_cells(rows2),
        rows_reordered(rows1, rows2, u1, s1, t1, u2, s2, t2),
    ensures
        dispatch_record(table_text(labels1, rows1)).unit_alarm_times == dispatch_record(
            table_text(labels2, rows2),
        ).unit_alarm_times,
{
    lemma_table_parse(labels1, rows1);
    lemma_table_parse(labels2, rows2);
    lemma_table_entries_reordered(labels1, rows1, labels2, rows2, u1, s1, t1, u2, s2, t2);
}

} // verus!
