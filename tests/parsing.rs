use pnt_rust::gnss::{
    calculate_gps_time, epoch_to_gps_micros, Epoch, NavError, RinexNav, ECCENTRICITY, FIELD_COUNT,
    FIT_INTERVAL, IODE, M0, SQRT_A, SV_CLOCK_BIAS, SV_CLOCK_DRIFT_RATE, TOE, TRANSMISSION_TIME,
};
use pnt_rust::lexical::{parse_float, parse_i32_or_zero, parse_u8_or_zero, split_words};

fn epoch(year: i32, month: i32, day: i32, hour: i32, minute: i32, second: i32) -> Epoch {
    Epoch { year, month, day, hour, minute, second }
}

fn bytes(s: &str) -> Vec<u8> {
    s.as_bytes().to_vec()
}

fn data_line(fields: [&str; 4]) -> String {
    format!("    {:>19}{:>19}{:>19}{:>19}", fields[0], fields[1], fields[2], fields[3])
}

fn record_line(sat: &str, epoch: &str) -> String {
    format!("{}{}{:>19}{:>19}{:>19}", sat, epoch, "-4.656612873077D-10", "1.000000000000D+00", "0.000000000000D+00")
}

fn record_lines(sat: &str, epoch: &str) -> Vec<String> {
    vec![
        record_line(sat, epoch),
        data_line(["7.500000000000D+01", "-1.225000000000D+01", "4.500000000000D-09", "1.200000000000D+00"]),
        data_line(["-6.500000000000D-07", "1.000000000000D-02", "   ", "5.153700000000D+03"]),
        data_line(["8.640000000000D+04", "1.000000000000D-08", "2.000000000000D+00", "3.000000000000D-08"]),
        data_line(["9.600000000000D-01", "2.000000000000D+02", "1.000000000000D+00", "-8.000000000000D-09"]),
        data_line(["1.000000000000D-10", "1.000000000000D+00", "2.266000000000D+03", "0.000000000000D+00"]),
        data_line(["2.000000000000D+00", "0.000000000000D+00", "-1.000000000000D-08", "7.500000000000D+01"]),
        data_line(["8.000000000000D+04", "4.000000000000D+00", "", ""]),
    ]
}

fn header() -> Vec<String> {
    vec![
        "     3.04           N: GNSS NAV DATA    G: GPS              RINEX VERSION / TYPE".to_string(),
        "                                                            END OF HEADER".to_string(),
    ]
}

fn to_lines(text: &[String]) -> Vec<Vec<u8>> {
    text.iter().map(|l| bytes(l)).collect()
}

#[test]
fn gps_time_of_known_instant() {
    // 2024-01-01T00:00:00Z is 1704067200 s after the Unix epoch.
    assert_eq!(calculate_gps_time(1_704_067_200_000_000), 1_388_102_418_000_000);
    assert_eq!(calculate_gps_time(315_964_800_000_000), 18_000_000);
    assert_eq!(calculate_gps_time(1_704_067_200_000_001), 1_388_102_418_000_001);
}

#[test]
fn gps_time_of_civil_epoch() {
    assert_eq!(epoch_to_gps_micros(&epoch(2024, 1, 1, 0, 0, 0)), Some(1_388_102_418_000_000));
    assert_eq!(epoch_to_gps_micros(&epoch(1980, 1, 6, 0, 0, 0)), Some(18_000_000));
    assert_eq!(epoch_to_gps_micros(&epoch(2023, 6, 12, 0, 0, 0)), Some(1_370_563_218_000_000));
    assert_eq!(epoch_to_gps_micros(&epoch(1970, 1, 1, 0, 0, 0)), Some(-315_964_782_000_000));
}

#[test]
fn invalid_civil_epochs() {
    assert_eq!(epoch_to_gps_micros(&epoch(2023, 2, 29, 0, 0, 0)), None);
    assert_eq!(epoch_to_gps_micros(&epoch(2024, 2, 29, 0, 0, 0)).is_some(), true);
    assert_eq!(epoch_to_gps_micros(&epoch(2023, 13, 1, 0, 0, 0)), None);
    assert_eq!(epoch_to_gps_micros(&epoch(2023, 0, 1, 0, 0, 0)), None);
    assert_eq!(epoch_to_gps_micros(&epoch(2023, 1, 1, 24, 0, 0)), None);
    assert_eq!(epoch_to_gps_micros(&epoch(2023, 1, 1, 0, 0, 60)), None);
    assert_eq!(epoch_to_gps_micros(&epoch(2023, 1, 1, -1, 0, 0)), None);
    assert_eq!(epoch_to_gps_micros(&epoch(300000, 1, 1, 0, 0, 0)), None);
}

#[test]
fn float_fields_read_fortran_exponent() {
    let line = bytes(" -4.656612873077D-10 ");
    assert_eq!(parse_float(&line, 0, 21), bytes("-4.656612873077E-10"));
    assert_eq!(parse_float(&bytes("1.5E3"), 0, 5), bytes("1.5E3"));
    assert_eq!(parse_float(&bytes("  .5"), 0, 4), bytes(".5"));
    assert_eq!(parse_float(&bytes("7."), 0, 2), bytes("7."));
    assert_eq!(parse_float(&bytes("-inf"), 0, 4), bytes("-inf"));
    assert_eq!(parse_float(&bytes("NaN"), 0, 3), bytes("NaN"));
    assert_eq!(parse_float(&bytes("Infinity"), 0, 8), bytes("Infinity"));
}

#[test]
fn malformed_float_fields_read_zero() {
    assert_eq!(parse_float(&bytes("                   "), 0, 19), bytes("0"));
    assert_eq!(parse_float(&bytes(""), 0, 19), bytes("0"));
    assert_eq!(parse_float(&bytes("abc"), 0, 3), bytes("0"));
    assert_eq!(parse_float(&bytes("1.5d3"), 0, 5), bytes("0"));
    assert_eq!(parse_float(&bytes("1.5E"), 0, 4), bytes("0"));
    assert_eq!(parse_float(&bytes("."), 0, 1), bytes("0"));
    assert_eq!(parse_float(&bytes("1.2.3"), 0, 5), bytes("0"));
    assert_eq!(parse_float(&bytes("+"), 0, 1), bytes("0"));
    assert_eq!(parse_float(&bytes("1 2"), 0, 3), bytes("0"));
    assert_eq!(parse_float(&bytes("1.0D+05D"), 0, 8), bytes("0"));
}

#[test]
fn float_field_windows_are_cut_at_line_end() {
    let line = bytes("xx12.5");
    assert_eq!(parse_float(&line, 2, 21), bytes("12.5"));
    assert_eq!(parse_float(&line, 10, 29), bytes("0"));
}

#[test]
fn integer_fields() {
    assert_eq!(parse_u8_or_zero(&bytes("G17"), 1, 3), 17);
    assert_eq!(parse_u8_or_zero(&bytes("G 5"), 1, 3), 5);
    assert_eq!(parse_u8_or_zero(&bytes("GXX"), 1, 3), 0);
    assert_eq!(parse_u8_or_zero(&bytes("300"), 0, 3), 0);
    assert_eq!(parse_u8_or_zero(&bytes("255"), 0, 3), 255);
    assert_eq!(parse_u8_or_zero(&bytes("-1"), 0, 2), 0);
    assert_eq!(parse_i32_or_zero(&bytes("-42")), -42);
    assert_eq!(parse_i32_or_zero(&bytes("+7")), 7);
    assert_eq!(parse_i32_or_zero(&bytes("2147483648")), 0);
    assert_eq!(parse_i32_or_zero(&bytes("-2147483648")), i32::MIN);
    assert_eq!(parse_i32_or_zero(&bytes("99999999999999999999")), 0);
    assert_eq!(parse_i32_or_zero(&bytes("1x")), 0);
}

#[test]
fn words_split_on_whitespace() {
    let w = split_words(&bytes("  2023 06\t12  0 "));
    assert_eq!(w, vec![bytes("2023"), bytes("06"), bytes("12"), bytes("0")]);
    assert_eq!(split_words(&bytes("   ")).len(), 0);
}

#[test]
fn parses_single_record() {
    let mut text = header();
    text.extend(record_lines("G17", " 2023 06 12 00 00 00"));
    let nav = RinexNav::parse(&to_lines(&text)).unwrap();
    assert_eq!(nav.records.len(), 1);
    let r = &nav.records[0];
    assert_eq!(r.sat_id, 17);
    assert_eq!(r.epoch, epoch(2023, 6, 12, 0, 0, 0));
    assert_eq!(r.gps_micros, 1_370_563_218_000_000);
    assert_eq!(r.values.len(), FIELD_COUNT);
    assert_eq!(r.value(SV_CLOCK_BIAS), &bytes("-4.656612873077E-10"));
    assert_eq!(r.value(SV_CLOCK_DRIFT_RATE), &bytes("0.000000000000E+00"));
    assert_eq!(r.value(IODE), &bytes("7.500000000000E+01"));
    assert_eq!(r.value(M0), &bytes("1.200000000000E+00"));
    assert_eq!(r.value(ECCENTRICITY), &bytes("1.000000000000E-02"));
    assert_eq!(r.value(SQRT_A), &bytes("5.153700000000E+03"));
    assert_eq!(r.value(TOE), &bytes("8.640000000000E+04"));
    assert_eq!(r.value(TRANSMISSION_TIME), &bytes("8.000000000000E+04"));
    assert_eq!(r.value(FIT_INTERVAL), &bytes("4.000000000000E+00"));
}

#[test]
fn blank_data_field_reads_zero_and_keeps_record() {
    let mut text = header();
    text.extend(record_lines("G17", " 2023 06 12 00 00 00"));
    let nav = RinexNav::parse(&to_lines(&text)).unwrap();
    let r = &nav.records[0];
    // The third field of the second data line (Cus) is blank.
    assert_eq!(r.value(pnt_rust::gnss::CUS), &bytes("0"));
    assert_eq!(r.value(SQRT_A), &bytes("5.153700000000E+03"));
}

#[test]
fn short_lines_are_passed_over() {
    let mut text = header();
    text.push("short line".to_string());
    text.extend(record_lines("G01", " 2023 06 12 02 00 00"));
    text.push(String::new());
    text.extend(record_lines("G02", " 2023 06 12 04 00 00"));
    let nav = RinexNav::parse(&to_lines(&text)).unwrap();
    assert_eq!(nav.records.len(), 2);
    assert_eq!(nav.records[0].sat_id, 1);
    assert_eq!(nav.records[1].sat_id, 2);
    assert_eq!(nav.records[1].gps_micros - nav.records[0].gps_micros, 7_200_000_000);
}

#[test]
fn header_is_skipped_and_missing_header_gives_nothing() {
    let mut text = header();
    text.extend(record_lines("G17", " 2023 06 12 00 00 00"));
    // Without an end-of-header marker every line counts as header.
    let no_marker: Vec<String> = text.iter().filter(|l| !l.contains("END OF HEADER")).cloned().collect();
    assert_eq!(RinexNav::parse(&to_lines(&no_marker)).unwrap().records.len(), 0);
    assert_eq!(RinexNav::parse(&Vec::new()).unwrap().records.len(), 0);
}

#[test]
fn truncated_record_keeps_zero_defaults() {
    let mut text = header();
    let full = record_lines("G17", " 2023 06 12 00 00 00");
    text.extend(full[0..3].iter().cloned());
    let nav = RinexNav::parse(&to_lines(&text)).unwrap();
    assert_eq!(nav.records.len(), 1);
    let r = &nav.records[0];
    assert_eq!(r.value(SQRT_A), &bytes("5.153700000000E+03"));
    assert_eq!(r.value(TOE), &bytes("0"));
    assert_eq!(r.value(FIT_INTERVAL), &bytes("0"));
}

#[test]
fn malformed_epoch_is_an_error() {
    let mut text = header();
    text.extend(record_lines("G17", " 2023 06 12 00 00   "));
    assert_eq!(RinexNav::parse(&to_lines(&text)).err(), Some(NavError::MalformedEpoch(2)));
}

#[test]
fn invalid_epoch_is_an_error() {
    let mut text = header();
    text.extend(record_lines("G17", " 2023 02 30 00 00 00"));
    assert_eq!(RinexNav::parse(&to_lines(&text)).err(), Some(NavError::InvalidEpoch(2)));
    let mut text = header();
    text.extend(record_lines("G17", " 2023 xx 10 00 00 00"));
    assert_eq!(RinexNav::parse(&to_lines(&text)).err(), Some(NavError::InvalidEpoch(2)));
}

#[test]
fn data_line_sets_only_its_fields() {
    let mut text = header();
    text.extend(record_lines("G17", " 2023 06 12 00 00 00"));
    let mut r = RinexNav::parse(&to_lines(&text)).unwrap().records.remove(0);
    let before = r.values.clone();
    r.parse_data_line(&bytes(&data_line(["1.0", "2.0", "3.0", "4.0"])), 2);
    assert_eq!(r.value(TOE), &bytes("1.0"));
    assert_eq!(r.value(pnt_rust::gnss::CIS), &bytes("4.0"));
    for f in 0..FIELD_COUNT {
        if !(11..15).contains(&f) {
            assert_eq!(r.values[f], before[f]);
        }
    }
    r.parse_data_line(&bytes(&data_line(["1.0", "2.0", "3.0", "4.0"])), 7);
    assert_eq!(r.value(TOE), &bytes("1.0"));
    r.parse_data_line(&bytes("ab"), 0);
    assert_eq!(r.value(IODE), &bytes("0"));
}
