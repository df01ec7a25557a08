//! Propagation runs of a satellite: the time grid of requested epochs, the
//! ephemeris record chosen for each epoch, and the time from that record's time
//! of ephemeris, folded into half a GPS week. The orbit model itself is a
//! floating-point computation that the caller supplies for each sample.
use vstd::prelude::*;
use vstd::arithmetic::div_mod::{lemma_fundamental_div_mod, lemma_fundamental_div_mod_converse};
use crate::gnss::{gps_micros_of_unix, calculate_gps_time, NavRecord, GPS_EPOCH_UNIX_SECONDS, MICROS_PER_SECOND};

verus! {

/// Half a GPS week in microseconds.
pub const HALF_WEEK_MICROS: i64 = 302400000000;

/// One GPS week in microseconds.
pub const WEEK_MICROS: i64 = 604800000000;

/// `tk` shifted by whole weeks into `[-HALF_WEEK_MICROS, HALF_WEEK_MICROS)`.
pub open spec fn rollover(tk: int) -> int {
    (tk + HALF_WEEK_MICROS) % (WEEK_MICROS as int) - HALF_WEEK_MICROS
}

/// Time from the time of ephemeris `toe_micros` to `t_micros`, folded into half a
/// week on either side so that a week boundary between the two is crossed.
pub fn time_from_ephemeris(t_micros: i64, toe_micros: i64) -> (r: i64)
    ensures
        r == rollover(t_micros - toe_micros),
        -HALF_WEEK_MICROS <= r < HALF_WEEK_MICROS,
{
    let w = WEEK_MICROS as i128;
    let x: i128 = t_micros as i128 - toe_micros as i128 + HALF_WEEK_MICROS as i128;
    let m: i128 = if x >= 0 {
        let m = x % w;
        proof {
            lemma_fundamental_div_mod_converse(x as int, w as int, x / w, m as int);
        }
        m
    } else {
        let y: i128 = -x - 1;
        let q = y / w;
        let rem = y % w;
        proof {
            assert(y == q * w + rem);
            lemma_fundamental_div_mod_converse(x as int, w as int, -q - 1, w - 1 - rem);
        }
        w - 1 - rem
    };
    (m - HALF_WEEK_MICROS as i128) as i64
}

/// The fold into half a week always lands in `[-HALF_WEEK_MICROS, HALF_WEEK_MICROS)`,
/// and leaves a time that already lies there unchanged.
pub proof fn lemma_rollover_half_week(tk: int)
    ensures
        -HALF_WEEK_MICROS <= rollover(tk) < HALF_WEEK_MICROS,
        -HALF_WEEK_MICROS <= tk < HALF_WEEK_MICROS ==> rollover(tk) == tk,
{
    if -HALF_WEEK_MICROS <= tk < HALF_WEEK_MICROS {
        lemma_fundamental_div_mod_converse(
            tk + HALF_WEEK_MICROS,
            WEEK_MICROS as int,
            0,
            tk + HALF_WEEK_MICROS,
        );
    }
}

/// Moving the time of ephemeris by whole weeks leaves the folded time unchanged:
/// a time of ephemeris one week ahead gives the same result as one in the same week.
pub proof fn lemma_rollover_whole_weeks(tk: int, weeks: int)
    ensures
        rollover(tk + weeks * WEEK_MICROS) == rollover(tk),
{
    let w = WEEK_MICROS as int;
    let x = tk + HALF_WEEK_MICROS;
    lemma_fundamental_div_mod(x, w);
    let q = x / w;
    let r = x % w;
    assert(x + weeks * w == (q + weeks) * w + r) by (nonlinear_arith)
        requires
            x == w * q + r,
    ;
    lemma_fundamental_div_mod_converse(x + weeks * w, w, q + weeks, r);
}

/// Distance between two instants.
pub open spec fn distance(a: int, b: int) -> int {
    if a >= b {
        a - b
    } else {
        b - a
    }
}

/// `k` is the first of the records whose reference time lies nearest to `t`.
pub open spec fn is_nearest(refs: Seq<i64>, t: int, k: int) -> bool {
    0 <= k < refs.len() && (forall|j: int|
        0 <= j < refs.len() ==> distance(refs[k] as int, t) <= distance(#[trigger] refs[j] as int, t))
        && (forall|j: int| 0 <= j < k ==> distance(#[trigger] refs[j] as int, t) > distance(refs[k] as int, t))
}

/// Reference times of the records, in microseconds of GPS time.
pub open spec fn reference_times(records: Seq<NavRecord>) -> Seq<i64> {
    records.map_values(|r: NavRecord| r.gps_micros)
}

/// Index of the record whose reference time lies nearest to `t_micros`; among
/// equally near records, the first.
pub fn nearest_record(records: &Vec<NavRecord>, t_micros: i64) -> (r: usize)
    requires
        records.len() > 0,
    ensures
        is_nearest(reference_times(records@), t_micros as int, r as int),
{
    let ghost refs = reference_times(records@);
    let mut best: usize = 0;
    let mut best_d: i128 = records[0].gps_micros as i128 - t_micros as i128;
    if best_d < 0 {
        best_d = -best_d;
    }
    let mut j: usize = 1;
    while j < records.len()
        invariant
            refs == reference_times(records@),
            refs.len() == records.len(),
            0 <= best < j <= records.len(),
            best_d == distance(refs[best as int] as int, t_micros as int),
            forall|q: int| 0 <= q < j ==> distance(refs[best as int] as int, t_micros as int) <= distance(#[trigger] refs[q] as int, t_micros as int),
            forall|q: int| 0 <= q < best ==> distance(#[trigger] refs[q] as int, t_micros as int) > distance(refs[best as int] as int, t_micros as int),
        decreases records.len() - j,
    {
        let mut d: i128 = records[j].gps_micros as i128 - t_micros as i128;
        if d < 0 {
            d = -d;
        }
        assert(refs[j as int] == records@[j as int].gps_micros);
        if d < best_d {
            best = j;
            best_d = d;
        }
        j += 1;
    }
    best
}

/// GPS time of sample `k` of a run that starts at `start_unix_micros` with a step
/// of `step_millis`.
pub open spec fn sample_time(start_unix_micros: int, step_millis: int, k: int) -> int {
    gps_micros_of_unix(start_unix_micros + k * step_millis * 1000)
}

/// Number of samples of a run: the duration divided by the step, rounded down.
pub fn sample_count(duration_millis: u64, step_millis: u64) -> (r: u64)
    requires
        step_millis > 0,
    ensures
        r == duration_millis / step_millis,
{
    duration_millis / step_millis
}

/// One requested epoch of a propagation run.
#[derive(Clone, Copy, Debug, PartialEq, Eq, Structural)]
pub struct Sample {
    /// GPS time of the epoch, in microseconds.
    pub time_micros: i64,
    /// Index of the ephemeris record chosen for the epoch.
    pub record: usize,
    /// Time from the record's time of ephemeris, folded into half a week.
    pub tk_micros: i64,
}

/// What sample `k` of a run is, given the records' reference times and times
/// of ephemeris.
pub open spec fn is_sample(
    s: Sample,
    start_unix_micros: int,
    step_millis: int,
    k: int,
    refs: Seq<i64>,
    toes: Seq<i64>,
) -> bool {
    s.time_micros == sample_time(start_unix_micros, step_millis, k) && is_nearest(
        refs,
        s.time_micros as int,
        s.record as int,
    ) && s.tk_micros == rollover(s.time_micros - toes[s.record as int])
}

/// The run's start and duration keep every requested instant representable.
pub open spec fn run_in_range(start_unix_micros: int, duration_millis: int) -> bool {
    start_unix_micros >= i64::MIN + GPS_EPOCH_UNIX_SECONDS * MICROS_PER_SECOND
        && start_unix_micros + duration_millis * 1000 <= i64::MAX
}

/// The samples of a run: one per step from the start, `duration / step` of
/// them, each with the nearest record and its folded time from ephemeris.
/// `toe_micros[j]` is the time of ephemeris of `ephemeris_data[j]`.
pub fn propagation_samples(
    start_unix_micros: i64,
    duration_millis: u64,
    step_millis: u64,
    ephemeris_data: &Vec<NavRecord>,
    toe_micros: &Vec<i64>,
) -> (r: Vec<Sample>)
    requires
        step_millis > 0,
        ephemeris_data.len() > 0,
        toe_micros.len() == ephemeris_data.len(),
        run_in_range(start_unix_micros as int, duration_millis as int),
    ensures
        r.len() == duration_millis / step_millis,
        forall|k: int|
            0 <= k < r.len() ==> is_sample(
                #[trigger] r@[k],
                start_unix_micros as int,
                step_millis as int,
                k,
                reference_times(ephemeris_data@),
                toe_micros@,
            ),
{
    let n = sample_count(duration_millis, step_millis);
    let mut out: Vec<Sample> = Vec::new();
    let mut k: u64 = 0;
    while k < n
        invariant
            0 <= k <= n,
            n == duration_millis / step_millis,
            step_millis > 0,
            ephemeris_data.len() > 0,
            toe_micros.len() == ephemeris_data.len(),
            run_in_range(start_unix_micros as int, duration_millis as int),
            out.len() == k,
            forall|q: int|
                0 <= q < k ==> is_sample(
                    #[trigger] out@[q],
                    start_unix_micros as int,
                    step_millis as int,
                    q,
                    reference_times(ephemeris_data@),
                    toe_micros@,
                ),
        decreases n - k,
    {
        assert(k * step_millis <= duration_millis) by (nonlinear_arith)
            requires
                k < duration_millis / step_millis,
                step_millis > 0,
        ;
        let unix: i128 = start_unix_micros as i128 + (k as i128) * (step_millis as i128) * 1000;
        assert(k * step_millis * 1000 <= duration_millis * 1000) by (nonlinear_arith)
            requires
                k * step_millis <= duration_millis,
        ;
        let t = calculate_gps_time(unix as i64);
        let j = nearest_record(ephemeris_data, t);
        let tk = time_from_ephemeris(t, toe_micros[j]);
        out.push(Sample { time_micros: t, record: j, tk_micros: tk });
        k += 1;
    }
    out
}

/// `st` is the state of sample `k` of a run, its position given by `f`.
pub open spec fn is_state_of<P, F: Fn(Sample) -> P>(
    st: State<P>,
    f: F,
    start_unix_micros: int,
    step_millis: int,
    k: int,
    refs: Seq<i64>,
    toes: Seq<i64>,
) -> bool {
    exists|s: Sample|
        #[trigger] is_sample(s, start_unix_micros, step_millis, k, refs, toes) && st.time_micros
            == s.time_micros && f.ensures((s,), st.position)
}

/// One computed result: a GPS time in microseconds and a position.
#[derive(Clone, Copy, Debug)]
pub struct State<P> {
    pub time_micros: i64,
    pub position: P,
}

impl<P> State<P> {
    pub fn new(time_micros: i64, position: P) -> (r: State<P>)
        ensures
            r.time_micros == time_micros,
            r.position == position,
    {
        State { time_micros, position }
    }
}

/// A satellite and the states of its last propagation run.
pub struct Satellite<P> {
    pub id: u8,
    pub name: String,
    pub states: Vec<State<P>>,
}

impl<P> Satellite<P> {
    pub fn new(id: u8, name: String) -> (r: Satellite<P>)
        ensures
            r.id == id,
            r.name == name,
            r.states.len() == 0,
    {
        Satellite { id, name, states: Vec::new() }
    }

    /// Propagates over the samples of a run (see `propagation_samples`):
    /// `position_of` gives the position of each sample, and the states, one per
    /// sample in order, replace those of any earlier run. Returns their number.
    pub fn propagate<F: Fn(Sample) -> P>(
        &mut self,
        start_unix_micros: i64,
        duration_millis: u64,
        step_millis: u64,
        ephemeris_data: &Vec<NavRecord>,
        toe_micros: &Vec<i64>,
        position_of: F,
    ) -> (r: usize)
        requires
            step_millis > 0,
            ephemeris_data.len() > 0,
            toe_micros.len() == ephemeris_data.len(),
            run_in_range(start_unix_micros as int, duration_millis as int),
            forall|s: Sample| #[trigger] position_of.requires((s,)),
        ensures
            final(self).id == old(self).id,
            final(self).name == old(self).name,
            r == final(self).states.len(),
            r == duration_millis / step_millis,
            forall|k: int|
                0 <= k < r ==> is_state_of(
                    #[trigger] final(self).states@[k],
                    position_of,
                    start_unix_micros as int,
                    step_millis as int,
                    k,
                    reference_times(ephemeris_data@),
                    toe_micros@,
                ),
    {
        let samples = propagation_samples(
            start_unix_micros,
            duration_millis,
            step_millis,
            ephemeris_data,
            toe_micros,
        );
        let mut states: Vec<State<P>> = Vec::new();
        let mut k: usize = 0;
        while k < samples.len()
            invariant
                0 <= k <= samples.len(),
                states.len() == k,
                forall|s: Sample| #[trigger] position_of.requires((s,)),
                forall|q: int|
                    0 <= q < k ==> (#[trigger] states@[q]).time_micros == samples@[q].time_micros
                        && position_of.ensures((samples@[q],), states@[q].position),
            decreases samples.len() - k,
        {
            let s = samples[k];
            let p = position_of(s);
            assert(position_of.ensures((samples@[k as int],), p));
            states.push(State { time_micros: s.time_micros, position: p });
            assert(states@[k as int].position == p);
            k += 1;
        }
        self.states = states;
        assert forall|q: int| 0 <= q < k implies is_state_of(
            #[trigger] self.states@[q],
            position_of,
            start_unix_micros as int,
            step_millis as int,
            q,
            reference_times(ephemeris_data@),
            toe_micros@,
        ) by {
            assert(self.states@[q] == states@[q]);
            assert(is_sample(
                samples@[q],
                start_unix_micros as int,
                step_millis as int,
                q,
                reference_times(ephemeris_data@),
                toe_micros@,
            ));
        }
        k
    }
}

} // verus!
