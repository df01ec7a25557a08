//! GPS time of civil timestamps, and the records of RINEX navigation files.
use vstd::prelude::*;
use crate::lexical::{
    i32_or_zero, numeral_of, parse_float, parse_i32_or_zero, parse_u8_or_zero, split_words, trim,
    u8_or_zero, window, words, zero_literal,
};

verus! {

/// Smallest year that a civil timestamp may carry.
pub const MIN_YEAR: i32 = -262143;

/// Largest year that a civil timestamp may carry.
pub const MAX_YEAR: i32 = 262142;

/// Seconds from 1970-01-01T00:00:00 UTC to the GPS epoch, 1980-01-06T00:00:00 UTC.
pub const GPS_EPOCH_UNIX_SECONDS: i64 = 315964800;

/// Leap-second offset between GPS time and UTC (fixed, valid through 2024).
pub const LEAP_SECONDS: i64 = 18;

/// Microseconds in one second.
pub const MICROS_PER_SECOND: i64 = 1000000;

pub open spec fn is_leap_year(y: int) -> bool {
    (y % 4 == 0 && y % 100 != 0) || y % 400 == 0
}

pub open spec fn days_in_month(y: int, m: int) -> int {
    if m == 2 {
        if is_leap_year(y) { 29 } else { 28 }
    } else if m == 4 || m == 6 || m == 9 || m == 11 {
        30
    } else {
        31
    }
}

/// Days from 1970-01-01 to the given date of the proleptic Gregorian calendar.
pub open spec fn days_from_civil(y: int, m: int, d: int) -> int {
    let y1 = if m <= 2 { y - 1 } else { y };
    let era = y1 / 400;
    let yoe = y1 - era * 400;
    let mp = if m > 2 { m - 3 } else { m + 9 };
    let doy = (153 * mp + 2) / 5 + d - 1;
    let doe = yoe * 365 + yoe / 4 - yoe / 100 + doy;
    era * 146097 + doe - 719468
}

/// A civil UTC timestamp: calendar date and time of day, whole seconds.
#[derive(Clone, Copy, Debug, PartialEq, Eq, Structural)]
pub struct Epoch {
    pub year: i32,
    pub month: i32,
    pub day: i32,
    pub hour: i32,
    pub minute: i32,
    pub second: i32,
}

impl Epoch {
    /// The timestamp names an existing date and time of day (no leap second).
    pub open spec fn is_valid(self) -> bool {
        valid_civil(
            self.year as int,
            self.month as int,
            self.day as int,
            self.hour as int,
            self.minute as int,
            self.second as int,
        )
    }

    /// Seconds since 1970-01-01T00:00:00 UTC, leap seconds not counted.
    pub open spec fn unix_seconds(self) -> int {
        civil_seconds(
            self.year as int,
            self.month as int,
            self.day as int,
            self.hour as int,
            self.minute as int,
            self.second as int,
        )
    }

    /// GPS time of this timestamp in microseconds.
    pub open spec fn gps_micros(self) -> int {
        gps_micros_of_unix(self.unix_seconds() * MICROS_PER_SECOND)
    }
}

pub open spec fn valid_civil(y: int, mo: int, d: int, h: int, mi: int, s: int) -> bool {
    MIN_YEAR <= y <= MAX_YEAR && 1 <= mo <= 12 && 1 <= d <= days_in_month(y, mo) && 0 <= h < 24
        && 0 <= mi < 60 && 0 <= s < 60
}

pub open spec fn civil_seconds(y: int, mo: int, d: int, h: int, mi: int, s: int) -> int {
    days_from_civil(y, mo, d) * 86400 + h * 3600 + mi * 60 + s
}

/// GPS time in microseconds of the instant `unix_micros` microseconds after
/// 1970-01-01T00:00:00 UTC.
pub open spec fn gps_micros_of_unix(unix_micros: int) -> int {
    unix_micros - GPS_EPOCH_UNIX_SECONDS * MICROS_PER_SECOND + LEAP_SECONDS * MICROS_PER_SECOND
}

/// Relies on chrono's `TimeZone::with_ymd_and_hms` on `Utc`: it gives an instant
/// exactly when the date exists in the proleptic Gregorian calendar, the year is in
/// chrono's range and the time of day has no leap second; and on
/// `DateTime::timestamp`: whole seconds since the Unix epoch.
#[verifier::external_body]
fn utc_timestamp(year: i32, month: u32, day: u32, hour: u32, minute: u32, second: u32) -> (r:
    Option<i64>)
    ensures
        r is Some <==> valid_civil(
            year as int,
            month as int,
            day as int,
            hour as int,
            minute as int,
            second as int,
        ),
        r matches Some(t) ==> t == civil_seconds(
            year as int,
            month as int,
            day as int,
            hour as int,
            minute as int,
            second as int,
        ),
{
    chrono::TimeZone::with_ymd_and_hms(&chrono::Utc, year, month, day, hour, minute, second).single().map(
        |dt| dt.timestamp(),
    )
}

proof fn lemma_civil_seconds_bounds(e: Epoch)
    requires
        e.is_valid(),
    ensures
        -8400000000000 <= e.unix_seconds() <= 8300000000000,
{
    let y = e.year as int;
    let m = e.month as int;
    let y1 = if m <= 2 { y - 1 } else { y };
    let era = y1 / 400;
    let yoe = y1 - era * 400;
    assert(-656 <= era <= 655) by (nonlinear_arith)
        requires
            era == y1 / 400,
            -262144 <= y1 <= 262142,
    ;
    assert(0 <= yoe < 400);
    let mp = if m > 2 { m - 3 } else { m + 9 };
    let doy = (153 * mp + 2) / 5 + e.day as int - 1;
    assert(0 <= doy <= 400) by (nonlinear_arith)
        requires
            doy == (153 * mp + 2) / 5 + e.day as int - 1,
            0 <= mp <= 11,
            1 <= e.day as int <= 31,
    ;
    let doe = yoe * 365 + yoe / 4 - yoe / 100 + doy;
    assert(0 <= doe <= 146500) by (nonlinear_arith)
        requires
            doe == yoe * 365 + yoe / 4 - yoe / 100 + doy,
            0 <= yoe < 400,
            0 <= doy <= 400,
    ;
    assert(-656 * 146097 <= era * 146097 <= 655 * 146097) by (nonlinear_arith)
        requires
            -656 <= era <= 655,
    ;
    let days = days_from_civil(y, m, e.day as int);
    assert(days == era * 146097 + doe - 719468);
    assert(-96600000 <= days <= 95200000);
    assert(-96600000 * 86400 <= days * 86400 <= 95200000 * 86400) by (nonlinear_arith)
        requires
            -96600000 <= days <= 95200000,
    ;
}

/// GPS time, in microseconds since the GPS epoch, of the instant `unix_micros`
/// microseconds after the Unix epoch: the elapsed time since 1980-01-06T00:00:00 UTC
/// plus the fixed leap-second offset. No week rollover is applied.
pub fn calculate_gps_time(unix_micros: i64) -> (r: i64)
    requires
        unix_micros >= i64::MIN + GPS_EPOCH_UNIX_SECONDS * MICROS_PER_SECOND,
    ensures
        r == gps_micros_of_unix(unix_micros as int),
{
    unix_micros - GPS_EPOCH_UNIX_SECONDS * MICROS_PER_SECOND + LEAP_SECONDS * MICROS_PER_SECOND
}

/// GPS time in microseconds of a civil UTC timestamp, or `None` where the
/// timestamp names no existing instant.
pub fn epoch_to_gps_micros(epoch: &Epoch) -> (r: Option<i64>)
    ensures
        r is Some <==> epoch.is_valid(),
        r matches Some(t) ==> t == epoch.gps_micros(),
{
    if epoch.month < 0 || epoch.day < 0 || epoch.hour < 0 || epoch.minute < 0 || epoch.second < 0 {
        return None;
    }
    match utc_timestamp(
        epoch.year,
        epoch.month as u32,
        epoch.day as u32,
        epoch.hour as u32,
        epoch.minute as u32,
        epoch.second as u32,
    ) {
        None => None,
        Some(t) => {
            proof {
                lemma_civil_seconds_bounds(*epoch);
            }
            Some(calculate_gps_time(t * MICROS_PER_SECOND))
        },
    }
}

/// Number of numeric fields of a navigation record.
pub const FIELD_COUNT: usize = 29;

// Positions of the numeric fields in `NavRecord::values`: three clock terms from
// the record's first line, then four fields per data line (two on the last).
pub const SV_CLOCK_BIAS: usize = 0;
pub const SV_CLOCK_DRIFT: usize = 1;
pub const SV_CLOCK_DRIFT_RATE: usize = 2;
pub const IODE: usize = 3;
pub const CRS: usize = 4;
pub const DELTA_N: usize = 5;
pub const M0: usize = 6;
pub const CUC: usize = 7;
pub const ECCENTRICITY: usize = 8;
pub const CUS: usize = 9;
pub const SQRT_A: usize = 10;
pub const TOE: usize = 11;
pub const CIC: usize = 12;
pub const OMEGA0: usize = 13;
pub const CIS: usize = 14;
pub const I0: usize = 15;
pub const CRC: usize = 16;
pub const OMEGA: usize = 17;
pub const OMEGA_DOT: usize = 18;
pub const IDOT: usize = 19;
pub const CODES_ON_L2_CHANNEL: usize = 20;
pub const GPS_WEEK: usize = 21;
pub const L2_P_DATA_FLAG: usize = 22;
pub const SV_ACCURACY: usize = 23;
pub const SV_HEALTH: usize = 24;
pub const TGD: usize = 25;
pub const IODC: usize = 26;
pub const TRANSMISSION_TIME: usize = 27;
pub const FIT_INTERVAL: usize = 28;

/// Minimum length of a record's first line.
pub const MIN_RECORD_LINE: usize = 79;

/// Number of data lines that follow a record's first line.
pub const DATA_LINES: usize = 7;

/// Why a navigation file could not be read into records.
#[derive(Clone, Copy, Debug, PartialEq, Eq, Structural)]
pub enum NavError {
    /// The epoch columns of the record line at this index hold fewer than six words.
    MalformedEpoch(usize),
    /// The epoch of the record line at this index names no existing instant.
    InvalidEpoch(usize),
}

/// One broadcast navigation message. Each numeric field is kept as the
/// floating-point literal that the file gives for it (`0` for a field that is
/// malformed or missing), at the positions named by the constants above.
#[derive(Clone, Debug)]
pub struct NavRecord {
    pub sat_id: u8,
    pub epoch: Epoch,
    /// Reference time: GPS time of `epoch` in microseconds.
    pub gps_micros: i64,
    pub values: Vec<Vec<u8>>,
}

/// What a navigation record holds, as mathematical values.
pub struct RecordModel {
    pub sat_id: u8,
    pub epoch: Epoch,
    pub gps_micros: int,
    pub values: Seq<Seq<u8>>,
}

impl View for NavRecord {
    type V = RecordModel;

    open spec fn view(&self) -> RecordModel {
        RecordModel {
            sat_id: self.sat_id,
            epoch: self.epoch,
            gps_micros: self.gps_micros as int,
            values: self.values@.map_values(|v: Vec<u8>| v@),
        }
    }
}

impl NavRecord {
    /// The numeric text of the field at position `f`.
    pub fn value(&self, f: usize) -> (r: &Vec<u8>)
        requires
            f < self.values.len(),
        ensures
            r@ == self@.values[f as int],
    {
        &self.values[f]
    }
}

/// The records of a navigation file, in file order.
pub struct RinexNav {
    pub records: Vec<NavRecord>,
}

pub open spec fn header_marker() -> Seq<u8> {
    // END OF HEADER
    seq![69u8, 78, 68, 32, 79, 70, 32, 72, 69, 65, 68, 69, 82]
}

pub open spec fn has_header_marker(line: Seq<u8>) -> bool {
    exists|p: int|
        0 <= p && p + 13 <= line.len() && #[trigger] line.subrange(p, p + 13) == header_marker()
}

/// Index of the first line after the header: the line after the first one that
/// holds the end-of-header marker, or the number of lines where none does.
pub open spec fn header_end(lines: Seq<Seq<u8>>, i: int) -> int
    decreases lines.len() - i,
{
    if i < 0 || i >= lines.len() {
        lines.len() as int
    } else if has_header_marker(lines[i]) {
        i + 1
    } else {
        header_end(lines, i + 1)
    }
}

/// The epoch of a record line: the first six words of its columns 4 to 23.
pub open spec fn epoch_of(line: Seq<u8>) -> Option<Epoch> {
    let w = words(window(line, 3, 23));
    if w.len() < 6 {
        None
    } else {
        Some(
            Epoch {
                year: i32_or_zero(w[0]) as i32,
                month: i32_or_zero(w[1]) as i32,
                day: i32_or_zero(w[2]) as i32,
                hour: i32_or_zero(w[3]) as i32,
                minute: i32_or_zero(w[4]) as i32,
                second: i32_or_zero(w[5]) as i32,
            },
        )
    }
}

/// Field `k` (0 to 3) of a data line: 19 columns each, after 4 leading ones.
pub open spec fn data_field(line: Seq<u8>, k: int) -> Seq<u8> {
    numeral_of(window(line, 4 + 19 * k, 23 + 19 * k))
}

/// Clock field `f` (0 to 2) of a record line.
pub open spec fn clock_field(line: Seq<u8>, f: int) -> Seq<u8> {
    numeral_of(window(line, 23 + 19 * f, 42 + 19 * f))
}

/// The data line (0 to 6) that fills field position `f`, or -1 for a clock field.
pub open spec fn line_of_field(f: int) -> int {
    if f < 3 {
        -1
    } else {
        (f - 3) / 4
    }
}

/// Numeric fields of the record that starts at line `i`, after its first `c`
/// data lines were read.
pub open spec fn record_values(lines: Seq<Seq<u8>>, i: int, c: int) -> Seq<Seq<u8>> {
    Seq::new(
        FIELD_COUNT as nat,
        |f: int|
            if f < 3 {
                clock_field(lines[i], f)
            } else if line_of_field(f) < c {
                data_field(lines[i + 1 + line_of_field(f)], (f - 3) % 4)
            } else {
                zero_literal()
            },
    )
}

/// Number of data lines present after the record line `i`.
pub open spec fn data_count(lines: Seq<Seq<u8>>, i: int) -> int {
    if lines.len() - (i + 1) < DATA_LINES {
        lines.len() - (i + 1)
    } else {
        DATA_LINES as int
    }
}

/// The record that starts at line `i`.
pub open spec fn record_at(lines: Seq<Seq<u8>>, i: int) -> Result<RecordModel, NavError> {
    match epoch_of(lines[i]) {
        None => Err(NavError::MalformedEpoch(i as usize)),
        Some(e) => if !e.is_valid() {
            Err(NavError::InvalidEpoch(i as usize))
        } else {
            Ok(
                RecordModel {
                    sat_id: u8_or_zero(trim(window(lines[i], 1, 3))) as u8,
                    epoch: e,
                    gps_micros: e.gps_micros(),
                    values: record_values(lines, i, data_count(lines, i)),
                },
            )
        },
    }
}

/// The records from line `i` on: a line shorter than a record line is passed
/// over; a record line is read with the data lines after it; the first record
/// whose epoch cannot be read ends it all with an error.
pub open spec fn records_from(lines: Seq<Seq<u8>>, i: int) -> Result<Seq<RecordModel>, NavError>
    decreases lines.len() - i,
{
    if i < 0 || i >= lines.len() {
        Ok(Seq::empty())
    } else if lines[i].len() < MIN_RECORD_LINE {
        records_from(lines, i + 1)
    } else {
        match record_at(lines, i) {
            Err(e) => Err(e),
            Ok(r) => match records_from(lines, i + 1 + data_count(lines, i)) {
                Err(e) => Err(e),
                Ok(rest) => Ok(seq![r] + rest),
            },
        }
    }
}

/// The records of a navigation file given as its lines.
pub open spec fn parse_model(lines: Seq<Seq<u8>>) -> Result<Seq<RecordModel>, NavError> {
    records_from(lines, header_end(lines, 0))
}

pub open spec fn lines_view(lines: Seq<Vec<u8>>) -> Seq<Seq<u8>> {
    lines.map_values(|l: Vec<u8>| l@)
}

fn has_marker_exec(line: &Vec<u8>) -> (r: bool)
    ensures
        r == has_header_marker(line@),
{
    let marker: Vec<u8> = vec![69u8, 78, 68, 32, 79, 70, 32, 72, 69, 65, 68, 69, 82];
    assert(marker@ =~= header_marker());
    if line.len() < 13 {
        return false;
    }
    let mut p: usize = 0;
    while p <= line.len() - 13
        invariant
            marker@ == header_marker(),
            line.len() >= 13,
            p <= line.len() - 12,
            forall|q: int|
                0 <= q < p ==> #[trigger] line@.subrange(q, q + 13) != header_marker(),
        decreases line.len() - p,
    {
        let mut k: usize = 0;
        let mut same = true;
        while k < 13
            invariant
                p + 13 <= line.len(),
                0 <= k <= 13,
                marker@.len() == 13,
                same <==> forall|q: int| 0 <= q < k ==> line@[p + q] == marker@[q],
            decreases 13 - k,
        {
            if line[p + k] != marker[k] {
                same = false;
            }
            k += 1;
        }
        if same {
            assert(line@.subrange(p as int, p + 13) =~= header_marker());
            return true;
        }
        assert(line@.subrange(p as int, p + 13) != header_marker()) by {
            let q = choose|q: int| 0 <= q < 13 && line@[p + q] != marker@[q];
            assert(line@.subrange(p as int, p + 13)[q] == line@[p + q]);
        }
        p += 1;
    }
    false
}

/// Index of the first line after the header.
fn skip_header(lines: &Vec<Vec<u8>>) -> (r: usize)
    ensures
        r as int == header_end(lines_view(lines@), 0),
        r <= lines.len(),
{
    let ghost ls = lines_view(lines@);
    let mut i: usize = 0;
    while i < lines.len()
        invariant
            0 <= i <= lines.len(),
            ls == lines_view(lines@),
            header_end(ls, 0) == header_end(ls, i as int),
        decreases lines.len() - i,
    {
        assert(ls[i as int] == lines@[i as int]@);
        if has_marker_exec(&lines[i]) {
            return i + 1;
        }
        i += 1;
    }
    i
}

/// The epoch of a record line, or `None` where its epoch columns hold fewer
/// than six words. Each word reads as an `i32`, or zero where it is none.
fn parse_epoch(line: &Vec<u8>) -> (r: Option<Epoch>)
    ensures
        r == epoch_of(line@),
{
    let t = crate::lexical::window_copy(line, 3, 23);
    let w = split_words(&t);
    proof {
        assert(w@.map_values(|v: Vec<u8>| v@).len() == w@.len());
    }
    if w.len() < 6 {
        return None;
    }
    let ghost ws = w@.map_values(|v: Vec<u8>| v@);
    assert(ws[0] == w@[0]@ && ws[1] == w@[1]@ && ws[2] == w@[2]@ && ws[3] == w@[3]@ && ws[4]
        == w@[4]@ && ws[5] == w@[5]@);
    Some(
        Epoch {
            year: parse_i32_or_zero(&w[0]),
            month: parse_i32_or_zero(&w[1]),
            day: parse_i32_or_zero(&w[2]),
            hour: parse_i32_or_zero(&w[3]),
            minute: parse_i32_or_zero(&w[4]),
            second: parse_i32_or_zero(&w[5]),
        },
    )
}

impl NavRecord {
    /// Reads data line `line_number` (0 to 6) of a record into the fields that it
    /// carries; fields of other lines are kept. Line 6 carries two fields; other
    /// line numbers change nothing.
    pub fn parse_data_line(&mut self, line: &Vec<u8>, line_number: usize)
        requires
            old(self).values.len() == FIELD_COUNT,
        ensures
            final(self).sat_id == old(self).sat_id,
            final(self).epoch == old(self).epoch,
            final(self).gps_micros == old(self).gps_micros,
            final(self)@.values == Seq::new(
                FIELD_COUNT as nat,
                |f: int|
                    if line_of_field(f) == line_number as int {
                        data_field(line@, (f - 3) % 4)
                    } else {
                        old(self)@.values[f]
                    },
            ),
    {
        let ghost start = self@.values;
        let mut k: usize = 0;
        while k < 4
            invariant
                0 <= k <= 4,
                self.sat_id == old(self).sat_id,
                self.epoch == old(self).epoch,
                self.gps_micros == old(self).gps_micros,
                start == old(self)@.values,
                self.values.len() == FIELD_COUNT,
                forall|f: int|
                    0 <= f < FIELD_COUNT ==> #[trigger] self@.values[f] == if line_of_field(f)
                        == line_number as int && (f - 3) % 4 < k {
                        data_field(line@, (f - 3) % 4)
                    } else {
                        start[f]
                    },
            decreases 4 - k,
        {
            if line_number < DATA_LINES && 3 + 4 * line_number + k < FIELD_COUNT {
                let f = 3 + 4 * line_number + k;
                let v = parse_float(line, 4 + 19 * k, 23 + 19 * k);
                let ghost prev = self@.values;
                let ghost vv = v@;
                self.values.set(f, v);
                assert(self@.values =~= prev.update(f as int, vv));
                assert forall|g: int| 0 <= g < FIELD_COUNT implies #[trigger] self@.values[g] == if line_of_field(g)
                    == line_number as int && (g - 3) % 4 < k + 1 {
                    data_field(line@, (g - 3) % 4)
                } else {
                    start[g]
                } by {
                    if g == f {
                        assert(line_of_field(g) == line_number as int);
                        assert((g - 3) % 4 == k);
                    } else {
                        if line_of_field(g) == line_number as int && (g - 3) % 4 == k {
                            assert(g == f);
                        }
                    }
                }
            } else {
                assert forall|g: int| 0 <= g < FIELD_COUNT implies !(line_of_field(g)
                    == line_number as int && (g - 3) % 4 == k) by {
                    if line_of_field(g) == line_number as int && (g - 3) % 4 == k {
                        assert(g == 3 + 4 * line_number + k);
                    }
                }
            }
            k += 1;
        }
        assert(self@.values =~= Seq::new(
            FIELD_COUNT as nat,
            |f: int|
                if line_of_field(f) == line_number as int {
                    data_field(line@, (f - 3) % 4)
                } else {
                    old(self)@.values[f]
                },
        ));
    }
}

/// The record whose first line is line `i`.
fn parse_record(lines: &Vec<Vec<u8>>, i: usize) -> (r: Result<NavRecord, NavError>)
    requires
        i < lines.len(),
    ensures
        match (r, record_at(lines_view(lines@), i as int)) {
            (Ok(a), Ok(b)) => a@ == b,
            (Err(a), Err(b)) => a == b,
            _ => false,
        },
{
    let ghost ls = lines_view(lines@);
    let line = &lines[i];
    assert(ls[i as int] == line@);
    let epoch = match parse_epoch(line) {
        None => {
            return Err(NavError::MalformedEpoch(i));
        },
        Some(e) => e,
    };
    let gps_micros = match epoch_to_gps_micros(&epoch) {
        None => {
            return Err(NavError::InvalidEpoch(i));
        },
        Some(t) => t,
    };
    let sat_id = parse_u8_or_zero(line, 1, 3);
    let mut values: Vec<Vec<u8>> = Vec::new();
    let mut f: usize = 0;
    while f < FIELD_COUNT
        invariant
            0 <= f <= FIELD_COUNT,
            ls[i as int] == line@,
            values@.map_values(|v: Vec<u8>| v@) == record_values(ls, i as int, 0).subrange(
                0,
                f as int,
            ),
        decreases FIELD_COUNT - f,
    {
        let ghost prev = values@.map_values(|v: Vec<u8>| v@);
        if f < 3 {
            let v = parse_float(line, 23 + 19 * f, 42 + 19 * f);
            let ghost vv = v@;
            values.push(v);
            assert(values@.map_values(|v: Vec<u8>| v@) =~= prev.push(vv));
        } else {
            let z: Vec<u8> = vec![48u8];
            assert(z@ =~= zero_literal());
            let ghost vv = z@;
            values.push(z);
            assert(values@.map_values(|v: Vec<u8>| v@) =~= prev.push(vv));
        }
        assert(values@.map_values(|v: Vec<u8>| v@) =~= record_values(ls, i as int, 0).subrange(
            0,
            f + 1,
        ));
        f += 1;
    }
    assert(record_values(ls, i as int, 0).subrange(0, FIELD_COUNT as int) =~= record_values(
        ls,
        i as int,
        0,
    ));
    let mut record = NavRecord { sat_id, epoch, gps_micros, values };
    let count = if lines.len() - (i + 1) < DATA_LINES {
        lines.len() - (i + 1)
    } else {
        DATA_LINES
    };
    let mut n: usize = 0;
    while n < count
        invariant
            0 <= n <= count,
            count as int == data_count(ls, i as int),
            i + 1 + count <= lines.len(),
            ls == lines_view(lines@),
            record.sat_id == sat_id,
            record.epoch == epoch,
            record.gps_micros == gps_micros,
            record.values.len() == FIELD_COUNT,
            record@.values == record_values(ls, i as int, n as int),
        decreases count - n,
    {
        assert(ls[i + 1 + n] == lines@[i + 1 + n]@);
        record.parse_data_line(&lines[i + 1 + n], n);
        assert(record@.values =~= record_values(ls, i as int, n + 1));
        n += 1;
    }
    Ok(record)
}

impl View for RinexNav {
    type V = Seq<RecordModel>;

    open spec fn view(&self) -> Seq<RecordModel> {
        self.records@.map_values(|r: NavRecord| r@)
    }
}

impl RinexNav {
    /// Reads the records of a navigation file given as its lines: the header,
    /// up to the line that holds `END OF HEADER`, is passed over; then each
    /// line of record length opens a record whose next seven lines (those that
    /// exist) are its data lines, and shorter lines are passed over. Fails on
    /// the first record whose epoch cannot be read.
    pub fn parse(lines: &Vec<Vec<u8>>) -> (r: Result<RinexNav, NavError>)
        ensures
            match (r, parse_model(lines_view(lines@))) {
                (Ok(nav), Ok(m)) => nav@ == m,
                (Err(a), Err(b)) => a == b,
                _ => false,
            },
    {
        let ghost ls = lines_view(lines@);
        let mut records: Vec<NavRecord> = Vec::new();
        let mut i = skip_header(lines);
        while i < lines.len()
            invariant
                0 <= i <= lines.len(),
                ls == lines_view(lines@),
                parse_model(ls) == match records_from(ls, i as int) {
                    Ok(rest) => Ok(records@.map_values(|r: NavRecord| r@) + rest),
                    Err(e) => Err(e),
                },
            decreases lines.len() - i,
        {
            assert(ls[i as int] == lines@[i as int]@);
            if lines[i].len() < MIN_RECORD_LINE {
                i += 1;
            } else {
                let rec = parse_record(lines, i);
                match rec {
                    Err(e) => {
                        return Err(e);
                    },
                    Ok(rec) => {
                        let count = if lines.len() - (i + 1) < DATA_LINES {
                            lines.len() - (i + 1)
                        } else {
                            DATA_LINES
                        };
                        let ghost before = records@.map_values(|r: NavRecord| r@);
                        let ghost rv = rec@;
                        records.push(rec);
                        assert(records@.map_values(|r: NavRecord| r@) =~= before.push(rv));
                        let next = i + 1 + count;
                        proof {
                            match records_from(ls, next as int) {
                                Ok(rest) => {
                                    assert(before.push(rv) + rest =~= before + (seq![rv] + rest));
                                },
                                Err(e) => {},
                            }
                        }
                        i = next;
                    },
                }
            }
        }
        assert(records@.map_values(|r: NavRecord| r@) + Seq::<RecordModel>::empty()
            =~= records@.map_values(|r: NavRecord| r@));
        Ok(RinexNav { records })
    }
}

} // verus!



