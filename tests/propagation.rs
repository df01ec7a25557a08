use pnt_rust::gnss::{Epoch, NavRecord, FIELD_COUNT};
use pnt_rust::satellite::{
    nearest_record, propagation_samples, sample_count, time_from_ephemeris, Sample, Satellite, State,
    HALF_WEEK_MICROS, WEEK_MICROS,
};

const S: i64 = 1_000_000;

fn record_at(gps_seconds: i64) -> NavRecord {
    NavRecord {
        sat_id: 17,
        epoch: Epoch { year: 2023, month: 6, day: 12, hour: 0, minute: 0, second: 0 },
        gps_micros: gps_seconds * S,
        values: vec![b"0".to_vec(); FIELD_COUNT],
    }
}

#[test]
fn three_records() {
    let recs = vec![record_at(0), record_at(1000), record_at(2000)];
    assert_eq!(nearest_record(&recs, 900 * S), 1);
    assert_eq!(nearest_record(&recs, 500 * S), 0);
    assert_eq!(nearest_record(&recs, 1500 * S), 1);
    assert_eq!(nearest_record(&recs, 5000 * S), 2);
    assert_eq!(nearest_record(&recs, -5000 * S), 0);
}

#[test]
fn nearest_record_ties_go_to_first_in_input_order() {
    let recs = vec![record_at(1000), record_at(0), record_at(2000)];
    assert_eq!(nearest_record(&recs, 500 * S), 0);
    let recs = vec![record_at(0), record_at(0)];
    assert_eq!(nearest_record(&recs, 10 * S), 0);
    let recs = vec![record_at(7)];
    assert_eq!(nearest_record(&recs, i64::MIN), 0);
}

#[test]
fn rollover_keeps_half_week() {
    assert_eq!(time_from_ephemeris(0, 0), 0);
    assert_eq!(time_from_ephemeris(100 * S, 40 * S), 60 * S);
    assert_eq!(time_from_ephemeris(302_399 * S, 0), 302_399 * S);
    assert_eq!(time_from_ephemeris(302_400 * S, 0), -302_400 * S);
    assert_eq!(time_from_ephemeris(-302_400 * S, 0), -302_400 * S);
    assert_eq!(time_from_ephemeris(-302_401 * S, 0), 302_399 * S);
    assert_eq!(time_from_ephemeris(10 * S, 10 * S + WEEK_MICROS), 0);
    assert_eq!(time_from_ephemeris(0, 604_000 * S), 800 * S);
}

#[test]
fn rollover_range_on_extremes() {
    for (t, toe) in [(i64::MAX, i64::MIN), (i64::MIN, i64::MAX), (i64::MAX, 0), (0, i64::MAX), (-1, 0)] {
        let r = time_from_ephemeris(t, toe);
        assert!(-HALF_WEEK_MICROS <= r && r < HALF_WEEK_MICROS);
        let diff = t as i128 - toe as i128;
        assert_eq!((diff - r as i128).rem_euclid(WEEK_MICROS as i128), 0);
    }
}

#[test]
fn sample_count_rounds_down() {
    assert_eq!(sample_count(1000, 1), 1000);
    assert_eq!(sample_count(1000, 300), 3);
    assert_eq!(sample_count(0, 5), 0);
    assert_eq!(sample_count(4, 5), 0);
}

#[test]
fn samples_follow_time_grid() {
    let start = 1_704_067_200_000_000; // 2024-01-01T00:00:00Z
    let gps0 = 1_388_102_418_000_000;
    let recs = vec![record_at(1_388_102_418), record_at(1_388_102_418 + 2)];
    let toes = vec![gps0 - 10 * S, gps0];
    let samples = propagation_samples(start, 5000, 1000, &recs, &toes);
    assert_eq!(samples.len(), 5);
    for (k, s) in samples.iter().enumerate() {
        assert_eq!(s.time_micros, gps0 + k as i64 * S);
    }
    assert_eq!(samples[0], Sample { time_micros: gps0, record: 0, tk_micros: 10 * S });
    assert_eq!(samples[1].record, 0);
    assert_eq!(samples[2].record, 1);
    assert_eq!(samples[4], Sample { time_micros: gps0 + 4 * S, record: 1, tk_micros: 4 * S });
}

#[test]
fn propagate_replaces_states() {
    let mut sat: Satellite<(i64, usize)> = Satellite::new(17, String::from("ISS"));
    assert_eq!(sat.id, 17);
    assert_eq!(sat.name, "ISS");
    assert!(sat.states.is_empty());
    let recs = vec![record_at(18)];
    let toes = vec![18 * S];
    let start = 315_964_800_000_000; // GPS epoch in Unix microseconds
    let n = sat.propagate(start, 3000, 1000, &recs, &toes, |s: Sample| (s.tk_micros, s.record));
    assert_eq!(n, 3);
    assert_eq!(sat.states.len(), 3);
    assert_eq!(sat.states[2].time_micros, 20 * S);
    assert_eq!(sat.states[2].position, (2 * S, 0));
    let n = sat.propagate(start, 1000, 1000, &recs, &toes, |s: Sample| (s.time_micros, 9));
    assert_eq!(n, 1);
    assert_eq!(sat.states.len(), 1);
    assert_eq!(sat.states[0].position, (18 * S, 9));
}

#[test]
fn state_holds_time_and_position() {
    let st = State::new(5, (1.0f64, 2.0f64, 3.0f64));
    assert_eq!(st.time_micros, 5);
    assert_eq!(st.position, (1.0, 2.0, 3.0));
}
