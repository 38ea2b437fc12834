//! The indicators, on double-precision numbers.
use chrono::{DateTime, TimeZone, Utc};
use std::collections::VecDeque;
use ta::errors::TaError;
use ta::indicators::window_aggregate::{DrawdownAgg, DrawupAgg, MonoidWindow, WindowAggregate};
use ta::indicators::{BollingerBands, BollingerBandsOutput, MaxDrawdown, Maximum, RelativeStrengthIndex};
use ta::lanes::Lanes;
use ta::number::Number;
use ta::time::{BucketDetector, Duration, TimeBuckets, Timestamp};
use ta::{Indicator, Next, NextBatch, Outputs, Reset, Series};
use wide::{f64x4, CmpEq, CmpLt};

/// Double-precision numbers.
#[derive(Clone, Copy, Debug, PartialEq)]
struct F64(f64);

impl Number for F64 {
    fn spec_of_usize(n: usize) -> Self {
        Self::of_usize(n)
    }
    fn spec_lowest() -> Self {
        Self::lowest()
    }
    fn spec_plus(self, other: Self) -> Self {
        self.plus(other)
    }
    fn spec_minus(self, other: Self) -> Self {
        self.minus(other)
    }
    fn spec_times(self, other: Self) -> Self {
        self.times(other)
    }
    fn spec_over(self, other: Self) -> Self {
        self.over(other)
    }
    fn spec_root(self) -> Self {
        self.root()
    }
    fn spec_greater(self, other: Self) -> Self {
        self.greater(other)
    }
    fn spec_lesser(self, other: Self) -> Self {
        self.lesser(other)
    }
    fn spec_below(self, other: Self) -> bool {
        self.below(other)
    }
    fn spec_at_most(self, other: Self) -> bool {
        self.at_most(other)
    }
    fn spec_is_zero(self) -> bool {
        self.is_zero()
    }
    fn of_usize(n: usize) -> Self {
        F64(n as f64)
    }
    fn lowest() -> Self {
        F64(f64::NEG_INFINITY)
    }
    fn plus(self, other: Self) -> Self {
        F64(self.0 + other.0)
    }
    fn minus(self, other: Self) -> Self {
        F64(self.0 - other.0)
    }
    fn times(self, other: Self) -> Self {
        F64(self.0 * other.0)
    }
    fn over(self, other: Self) -> Self {
        F64(self.0 / other.0)
    }
    fn root(self) -> Self {
        F64(self.0.sqrt())
    }
    fn greater(self, other: Self) -> Self {
        F64(self.0.max(other.0))
    }
    fn lesser(self, other: Self) -> Self {
        F64(self.0.min(other.0))
    }
    fn below(self, other: Self) -> bool {
        self.0 < other.0
    }
    fn at_most(self, other: Self) -> bool {
        self.0 <= other.0
    }
    fn is_zero(self) -> bool {
        self.0 == 0.0
    }
}

/// Four of them in a vector register.
#[derive(Clone, Copy, Debug)]
struct Wide(f64x4);

impl Lanes<F64> for Wide {
    fn spec_lane(self, i: usize) -> F64 {
        F64(self.0.to_array()[i])
    }
    fn new(values: [F64; 4]) -> Self {
        Wide(f64x4::new([values[0].0, values[1].0, values[2].0, values[3].0]))
    }
    fn splat(value: F64) -> Self {
        Wide(f64x4::splat(value.0))
    }
    fn to_array(self) -> [F64; 4] {
        self.0.to_array().map(F64)
    }
    fn plus(self, other: Self) -> Self {
        Wide(self.0 + other.0)
    }
    fn minus(self, other: Self) -> Self {
        Wide(self.0 - other.0)
    }
    fn times(self, other: Self) -> Self {
        Wide(self.0 * other.0)
    }
    fn over(self, other: Self) -> Self {
        Wide(self.0 / other.0)
    }
    fn zero_or(self, other: Self) -> Self {
        Wide(self.0.cmp_eq(f64x4::ZERO).blend(f64x4::ZERO, other.0))
    }
    fn from_lane(self, first: usize) -> Self {
        let lane = f64x4::new([0.0, 1.0, 2.0, 3.0]);
        Wide(lane.cmp_lt(f64x4::splat(first as f64)).blend(f64x4::ZERO, self.0))
    }
}

const DAY: u64 = 86_400;

fn round(x: F64) -> f64 {
    (x.0 * 1000.0).round() / 1000.0
}

fn at(time: DateTime<Utc>) -> Timestamp {
    Timestamp { secs: time.timestamp(), subsec_nanos: time.timestamp_subsec_nanos() }
}

fn start_of(year: i32, month: u32) -> DateTime<Utc> {
    Utc.with_ymd_and_hms(year, month, 1, 0, 0, 0).unwrap()
}

/// Buckets of `secs` seconds.
fn buckets(secs: u64) -> TimeBuckets {
    TimeBuckets::new(Duration::from_secs(secs))
}

fn maximum(secs: u64) -> Maximum<F64, TimeBuckets> {
    Maximum::new(Duration::from_secs(secs), buckets(1)).unwrap()
}

fn drawdown(secs: u64) -> MaxDrawdown<F64, TimeBuckets> {
    MaxDrawdown::new(Duration::from_secs(secs), buckets(1)).unwrap()
}

/// An exponential moving average; the first value counts in full.
#[derive(Clone, Debug)]
struct Average {
    k: F64,
    current: Option<F64>,
}

impl Average {
    fn over(duration: Duration) -> Self {
        let days = duration.secs as f64 / DAY as f64;
        Average { k: F64(2.0 / (days + 1.0)), current: None }
    }
}

impl Indicator for Average {
    type Model = ();
    fn wf(&self) -> bool {
        true
    }
    fn model(&self) {}
}

impl Reset for Average {
    fn cleared(_: ()) {}
    fn reset(&mut self) {
        self.current = None;
    }
}

impl Next<F64> for Average {
    type Output = F64;
    fn step(_: (), _: (Timestamp, F64)) -> ((), F64) {
        unreachable!()
    }
    fn next(&mut self, (_, value): (Timestamp, F64)) -> F64 {
        let next = match self.current {
            Some(s) => self.k.times(value).plus(F64(1.0).minus(self.k).times(s)),
            None => value,
        };
        self.current = Some(next);
        next
    }
}

impl NextBatch<F64> for Average {
    fn batch(_: (), _: Series<F64>) -> ((), Outputs<F64>) {
        unreachable!()
    }
    fn next_batch(&mut self, inputs: &[(Timestamp, F64)]) -> Vec<F64> {
        let values: Vec<F64> = inputs.iter().map(|&(_, x)| x).collect();
        let mut out = vec![F64(0.0); values.len()];
        match self.current {
            Some(s) => {
                ta::simd::ema_continuation_into::<F64, Wide>(&values, self.k, s, &mut out)
            }
            None => ta::simd::ema_into::<F64, Wide>(&values, self.k, &mut out),
        }
        if let Some(&last) = out.last() {
            self.current = Some(last);
        }
        out
    }
}

/// A population standard deviation over the last values.
#[derive(Clone, Debug)]
struct Deviation {
    duration: Duration,
    points: Vec<(Timestamp, F64)>,
}

impl Deviation {
    fn over(duration: Duration) -> Self {
        Deviation { duration, points: Vec::new() }
    }
}

impl Indicator for Deviation {
    type Model = ();
    fn wf(&self) -> bool {
        true
    }
    fn model(&self) {}
}

impl Reset for Deviation {
    fn cleared(_: ()) {}
    fn reset(&mut self) {
        self.points.clear();
    }
}

impl Next<F64> for Deviation {
    type Output = F64;
    fn step(_: (), _: (Timestamp, F64)) -> ((), F64) {
        unreachable!()
    }
    fn next(&mut self, (time, value): (Timestamp, F64)) -> F64 {
        let cutoff = time.nanos() as i128 - self.duration.as_nanos() as i128;
        self.points.retain(|&(t, _)| t.nanos() as i128 > cutoff);
        self.points.push((time, value));
        let values: Vec<F64> = self.points.iter().map(|&(_, x)| x).collect();
        F64(ta::simd::variance::<F64, Wide>(&values).0.max(0.0).sqrt())
    }
}

fn bands(secs: u64, multiplier: f64) -> Result<BollingerBands<F64, TimeBuckets, Deviation>, TaError> {
    let duration = Duration::from_secs(secs);
    BollingerBands::new(duration, F64(multiplier), Deviation::over(duration), buckets(DAY))
}

fn rsi(secs: u64, bucket: u64) -> Result<RelativeStrengthIndex<F64, TimeBuckets, Average>, TaError> {
    let duration = Duration::from_secs(secs);
    RelativeStrengthIndex::new(
        duration,
        Average::over(duration),
        Average::over(duration),
        buckets(bucket),
    )
}

// Bollinger bands

#[test]
fn bollinger_bands_test_new() {
    assert!(bands(0, 2_f64).is_err());
    assert!(bands(86400, 2_f64).is_ok()); // 1 day
    assert!(bands(172800, 2_f64).is_ok()); // 2 days
}

#[test]
fn bollinger_bands_test_next() {
    let mut bb = bands(3 * 86400, 2.0).unwrap(); // 3 days
    let now = Utc::now();

    let a = bb.next((at(now), F64(2.0)));
    let b = bb.next((at(now + chrono::Duration::days(1)), F64(5.0)));
    let c = bb.next((at(now + chrono::Duration::days(2)), F64(1.0)));
    let d = bb.next((at(now + chrono::Duration::days(3)), F64(6.25)));

    assert_eq!(round(a), 2.0);
    assert_eq!(round(b), 6.5);
    assert_eq!(round(c), 6.066);
    assert_eq!(round(d), 8.562);
}

#[test]
fn bollinger_bands_test_reset() {
    let mut bb = bands(5 * 86400, 2.0_f64).unwrap(); // 5 days
    let now = Utc::now();

    let out = bb.next((at(now), F64(3.0)));

    assert_eq!(out.0, 3.0);

    bb.next((at(now + chrono::Duration::days(1)), F64(2.5)));
    bb.next((at(now + chrono::Duration::days(2)), F64(3.5)));
    bb.next((at(now + chrono::Duration::days(3)), F64(4.0)));

    let out = bb.next((at(now + chrono::Duration::days(4)), F64(2.0)));

    assert_eq!(round(out), 4.414);

    bb.reset();
    let out = bb.next((at(now), F64(3.0)));
    assert_eq!(out.0, 3.0);
}

#[test]
fn bollinger_bands_test_default() {
    let duration = Duration::from_secs(14 * 86400);
    let bb = BollingerBands::with_default_duration(Deviation::over(duration), buckets(DAY));
    assert_eq!(bb.multiplier(), F64(2.0));
    assert_eq!(bb.label("2"), "BB(1209600s, 2)");
}

#[test]
fn bollinger_bands_test_display() {
    let bb = bands(10 * 86400, 3.0_f64).unwrap(); // 10 days
    let multiplier = format!("{}", bb.multiplier().0);
    assert_eq!(bb.label(&multiplier), format!("BB({}s, 3)", 10 * 86400));
}

#[test]
fn bollinger_bands_reject_an_empty_span() {
    assert!(matches!(bands(0, 2.0), Err(TaError::InvalidParameter)));
    let instant = Duration { secs: 0, subsec_nanos: 1 };
    assert!(BollingerBands::new(instant, F64(2.0), Deviation::over(instant), buckets(1)).is_ok());
}

#[test]
fn bollinger_bands_replace_and_evict() {
    let mut bb = bands(2 * DAY, 0.0).unwrap();
    let start = start_of(2022, 3);
    bb.next((at(start), F64(4.0)));
    // Same day: the average is over the replacement alone.
    assert_eq!(bb.next((at(start + chrono::Duration::hours(3)), F64(6.0))).0, 6.0);
    assert_eq!(bb.get_window().len(), 1);
    assert_eq!(bb.next((at(start + chrono::Duration::days(1)), F64(8.0))).0, 7.0);
    // A point leaves when it is as old as the span is long.
    let out = bb.next((at(start + chrono::Duration::hours(51)), F64(2.0)));
    assert_eq!(out.0, 5.0);
    let values: Vec<f64> = bb.get_window().iter().map(|&(_, x)| x.0).collect();
    assert_eq!(values, vec![8.0, 2.0]);
}

#[test]
fn bollinger_bands_survive_storing() {
    let start = start_of(2022, 3);
    let mut bb = bands(3 * DAY, 2.0).unwrap();
    bb.next((at(start), F64(4.0)));
    bb.next((at(start + chrono::Duration::days(1)), F64(6.0)));
    let (duration, multiplier, sd, window, detector) = bb.clone().into_parts();
    let mut again = BollingerBands::restore(duration, multiplier, sd, window, detector);
    let next = (at(start + chrono::Duration::days(2)), F64(9.0));
    assert_eq!(again.next(next), bb.next(next));
    assert_eq!(again.get_window(), bb.get_window());
}

#[test]
fn bollinger_bands_output_compares_by_fields() {
    let a = BollingerBandsOutput { average: F64(1.0), upper: F64(2.0), lower: F64(0.0) };
    let b = BollingerBandsOutput { average: F64(1.0), upper: F64(2.5), lower: F64(0.0) };
    assert_eq!(a.clone(), a);
    assert_ne!(a, b);
}

// Maximum drawdown

#[test]
fn max_drawdown_test_new() {
    assert!(MaxDrawdown::<F64, _>::new(Duration::from_secs(0), buckets(1)).is_err());
    assert!(MaxDrawdown::<F64, _>::new(Duration::from_secs(1), buckets(1)).is_ok());
}

#[test]
fn max_drawdown_test_next() {
    let mut max = drawdown(2);
    let start_time = start_of(2020, 1);
    let second = |n: i64| at(start_time + chrono::Duration::seconds(n));

    assert_eq!(max.next((at(start_time), F64(4.0))).0, 0.0);
    assert_eq!(max.next((second(1), F64(2.0))).0, 50.0);
    assert_eq!(max.next((second(2), F64(1.0))).0, 75.0);
    assert_eq!(max.next((second(3), F64(3.0))).0, 50.0);
    assert_eq!(max.next((second(4), F64(4.0))).0, 0.0);
    assert_eq!(max.next((second(5), F64(0.0))).0, 100.0);
    assert_eq!(max.next((second(6), F64(2.0))).0, 100.0);
    assert_eq!(max.next((second(7), F64(3.0))).0, 0.0);
    assert_eq!(max.next((second(8), F64(1.5))).0, 50.0);
}

#[test]
fn max_drawdown_test_reset() {
    let mut max = drawdown(100);
    let start_time = start_of(2020, 1);

    assert_eq!(max.next((at(start_time), F64(4.0))).0, 0.0);
    assert_eq!(max.next((at(start_time + chrono::Duration::seconds(50)), F64(10.0))).0, 0.0);
    assert_eq!(max.next((at(start_time + chrono::Duration::seconds(100)), F64(2.0))).0, 80.0);
    max.reset();
    assert_eq!(max.next((at(start_time + chrono::Duration::seconds(150)), F64(4.0))).0, 0.0);
}

#[test]
fn max_drawdown_test_display() {
    let indicator = drawdown(7);
    assert_eq!(indicator.label(), "MaxDrawdown(7s)");
}

/// The drawdown by a scan of the whole window.
fn naive(window: &VecDeque<(Timestamp, F64)>) -> f64 {
    let mut peak = f64::MIN;
    let mut max_drawdown = 0.0;
    for &(_, F64(value)) in window {
        if value > peak {
            peak = value;
        }
        let drawdown = (peak - value) / peak;
        if drawdown > max_drawdown {
            max_drawdown = drawdown;
        }
    }
    100.0 * max_drawdown
}

#[test]
fn equivalence_with_naive_under_appends_replaces_and_evictions() {
    let mut state: u64 = 0x9e3779b97f4a7c15;
    let mut rng = || {
        state ^= state << 13;
        state ^= state >> 7;
        state ^= state << 17;
        state
    };
    let start_time = start_of(2021, 6);

    for _ in 0..300 {
        let secs = 1 + rng() % 30;
        let mut indicator = drawdown(secs);
        let mut offset_ms: i64 = 0;
        for _ in 0..400 {
            // Mix sub-second steps (same bucket: replace) with larger jumps (eviction).
            offset_ms += (rng() % 1500) as i64;
            let ts = start_time + chrono::Duration::milliseconds(offset_ms);
            // Strictly positive values across a wide range.
            let value = 1.0 + (rng() % 1_000_000) as f64 / 1000.0;
            let got = indicator.next((at(ts), F64(value))).0;
            let expected = naive(&indicator.get_window());
            assert_eq!(
                got, expected,
                "incremental {got} != naive {expected} (dur={secs:?})"
            );
        }
    }
}

#[test]
fn max_drawdown_rejects_an_empty_span() {
    let none = MaxDrawdown::<F64, _>::new(Duration::from_secs(0), buckets(1));
    assert!(matches!(none, Err(TaError::InvalidParameter)));
}

#[test]
fn max_drawdown_default_looks_back_two_weeks() {
    let indicator = MaxDrawdown::<F64, _>::with_default_duration(buckets(1));
    assert_eq!(indicator.label(), "MaxDrawdown(1209600s)");
    assert_eq!(indicator.get_window().len(), 0);
}

#[test]
fn max_drawdown_keeps_a_point_at_the_edge() {
    // A point leaves only when it is older than the span is long.
    let mut max = drawdown(2);
    let start = start_of(2020, 1);
    max.next((at(start), F64(4.0)));
    assert_eq!(max.next((at(start + chrono::Duration::seconds(2)), F64(3.0))).0, 25.0);
    assert_eq!(max.get_window().len(), 2);
    let later = start + chrono::Duration::milliseconds(4_001);
    assert_eq!(max.next((at(later), F64(3.0))).0, 0.0);
    assert_eq!(max.get_window().len(), 1);
}

#[test]
fn max_drawdown_is_a_percentage() {
    let start = start_of(2021, 6);
    let mut max = drawdown(60);
    let outputs: Vec<f64> = [2.0, 3.0, 3.0, 1.0, 6.0]
        .into_iter()
        .enumerate()
        .map(|(i, x)| max.next((at(start + chrono::Duration::seconds(i as i64)), F64(x))).0)
        .collect();
    // Zero until the window falls, and at most a hundred.
    assert_eq!(outputs[..3], [0.0, 0.0, 0.0]);
    assert!(outputs[3..].iter().all(|&x| 0.0 < x && x <= 100.0));
}

#[test]
fn max_drawdown_survives_storing() {
    let start = start_of(2021, 6);
    let mut kept = drawdown(60);
    for (i, x) in [8.0, 10.0, 7.0, 9.0, 5.0, 6.0].into_iter().enumerate() {
        kept.next((at(start + chrono::Duration::seconds(i as i64)), F64(x)));
    }
    let (duration, window, detector) = kept.clone().into_parts();
    let mut again = MaxDrawdown::restore(duration, window, detector);
    for (i, x) in [11.0, 4.0, 12.0, 3.0].into_iter().enumerate() {
        let point = (at(start + chrono::Duration::seconds(20 + 17 * i as i64)), F64(x));
        assert_eq!(again.next(point), kept.next(point));
        assert_eq!(again.get_window(), kept.get_window());
    }
}

#[test]
fn max_drawdown_takes_batches() {
    let start = start_of(2021, 6);
    let inputs: Vec<(Timestamp, F64)> = [6.0, 8.0, 4.0, 5.0, 10.0]
        .into_iter()
        .enumerate()
        .map(|(i, x)| (at(start + chrono::Duration::seconds(i as i64)), F64(x)))
        .collect();
    let mut whole = drawdown(60);
    let mut cut = drawdown(60);
    let out = whole.next_batch(&inputs);
    assert_eq!(out, vec![F64(0.0), F64(0.0), F64(50.0), F64(50.0), F64(50.0)]);
    let mut joined = cut.next_batch(&inputs[..2]);
    joined.extend(cut.next_batch(&inputs[2..]));
    assert_eq!(joined, out);
}

// Aggregates

#[test]
fn monoid_window_is_a_queue_with_an_aggregate() {
    let mut w: MonoidWindow<F64, DrawdownAgg<F64>> = MonoidWindow::default();
    assert!(w.aggregate().is_none());
    assert!(w.pop_front().is_none());
    for x in [10.0, 8.0, 12.0, 6.0] {
        w.push_back(F64(x));
    }
    assert_eq!(w.aggregate().unwrap().ratio(), F64(0.5));
    assert_eq!(w.pop_front(), Some(F64(10.0)));
    assert_eq!(w.pop_front(), Some(F64(8.0)));
    w.push_back(F64(3.0));
    let all = w.aggregate().unwrap();
    assert_eq!((all.min, all.max, all.ratio), (F64(3.0), F64(12.0), F64(0.75)));
    assert_eq!(w.pop_front(), Some(F64(12.0)));
    assert_eq!(w.aggregate().unwrap().ratio(), F64(0.5));
    w.clear();
    assert!(w.aggregate().is_none());
}

#[test]
fn drawup_is_the_largest_climb() {
    let mut w: MonoidWindow<F64, DrawupAgg<F64>> = MonoidWindow::default();
    for x in [10.0, 5.0, 8.0, 4.0, 6.0, 2.0] {
        w.push_back(F64(x));
    }
    // From 5 to 8.
    let all = w.aggregate().unwrap();
    assert_eq!((all.min, all.max, all.ratio()), (F64(2.0), F64(10.0), F64(0.6)));
    w.pop_front();
    w.pop_front();
    // From 4 to 6.
    assert_eq!(w.aggregate().unwrap().ratio(), F64(0.5));
}

#[test]
fn aggregates_over_segments_combine() {
    let over = |values: &[f64]| {
        let mut w: MonoidWindow<F64, DrawdownAgg<F64>> = MonoidWindow::default();
        for &x in values {
            w.push_back(F64(x));
        }
        w.aggregate().unwrap()
    };
    let values = [7.0, 9.0, 6.0, 8.0, 11.0, 5.0];
    for cut in 1..values.len() {
        let joined = over(&values[..cut]).combine(&over(&values[cut..]));
        let whole = over(&values);
        assert_eq!((joined.min, joined.max, joined.ratio), (whole.min, whole.max, whole.ratio));
    }
    assert_eq!(DrawdownAgg::leaf(F64(7.0)).ratio(), F64(0.0));
    assert_eq!(DrawupAgg::leaf(F64(7.0)).ratio(), F64(0.0));
}

#[test]
fn aggregates_depend_on_order_and_not_on_brackets() {
    let down = |x: f64| DrawdownAgg::leaf(F64(x));
    assert_eq!(down(4.0).combine(&down(1.0)).ratio(), F64(0.75));
    assert_eq!(down(1.0).combine(&down(4.0)).ratio(), F64(0.0));
    let left = down(4.0).combine(&down(6.0)).combine(&down(3.0));
    let right = down(4.0).combine(&down(6.0).combine(&down(3.0)));
    assert_eq!((left.min, left.max, left.ratio), (right.min, right.max, right.ratio));
    let up = |x: f64| DrawupAgg::leaf(F64(x));
    assert_eq!(up(2.0).combine(&up(3.0)).ratio(), F64(0.5));
    assert_eq!(up(3.0).combine(&up(2.0)).ratio(), F64(0.0));
}

// Maximum

#[test]
fn maximum_test_new() {
    assert!(Maximum::<F64, _>::new(Duration::from_secs(0), buckets(1)).is_err());
    assert!(Maximum::<F64, _>::new(Duration::from_secs(1), buckets(1)).is_ok());
}

#[test]
fn maximum_test_next() {
    let mut max = maximum(2);
    let start_time = start_of(2020, 1);
    let second = |n: i64| at(start_time + chrono::Duration::seconds(n));

    assert_eq!(max.next((at(start_time), F64(4.0))).0, 4.0);
    assert_eq!(max.next((second(1), F64(1.2))).0, 4.0);
    assert_eq!(max.next((second(2), F64(5.0))).0, 5.0);
    assert_eq!(max.next((second(3), F64(3.0))).0, 5.0);
    assert_eq!(max.next((second(4), F64(4.0))).0, 4.0);
    assert_eq!(max.next((second(5), F64(0.0))).0, 4.0);
    assert_eq!(max.next((second(6), F64(-1.0))).0, 0.0);
    assert_eq!(max.next((second(7), F64(-2.0))).0, -1.0);
    assert_eq!(max.next((second(8), F64(-1.5))).0, -1.5);
}

#[test]
fn maximum_test_reset() {
    let mut max = maximum(100);
    let start_time = start_of(2020, 1);

    assert_eq!(max.next((at(start_time), F64(4.0))).0, 4.0);
    assert_eq!(max.next((at(start_time + chrono::Duration::seconds(50)), F64(10.0))).0, 10.0);
    assert_eq!(max.next((at(start_time + chrono::Duration::seconds(100)), F64(4.0))).0, 10.0);

    max.reset();
    assert_eq!(max.next((at(start_time + chrono::Duration::seconds(150)), F64(4.0))).0, 4.0);
}

#[test]
fn maximum_test_default() {
    let max = Maximum::<F64, _>::with_default_duration(buckets(1));
    assert_eq!(max.label(), "MAX(1209600s)");
}

#[test]
fn maximum_test_display() {
    let indicator = maximum(7);
    assert_eq!(indicator.label(), "MAX(7s)");
}

fn lcg(state: &mut u64) -> u64 {
    *state = state
        .wrapping_mul(6364136223846793005)
        .wrapping_add(1442695040888963407);
    *state >> 33
}

/// The maximum that is kept up to date equals the scan of the window after every point:
/// across eviction, replacement, thinning, equal values, and runs up and down.
#[test]
fn monotonic_matches_scan_over_random_sequences() {
    let mut state: u64 = 0x9E37_79B9_7F4A_7C15;
    for &(secs, bucket) in &[(2u64, 1u64), (3600, 60), (86_400, 300), (7 * 86_400, 86_400)] {
        let mut max: Maximum<F64, TimeBuckets> =
            Maximum::new(Duration::from_secs(secs), buckets(bucket)).unwrap();
        let mut t = start_of(2020, 1);
        for _ in 0..1500 {
            let step = (lcg(&mut state) % (secs * 2 + 1)) as i64;
            t = t + chrono::Duration::seconds(step);
            let v = (lcg(&mut state) % 20_000) as f64 / 100.0 - 100.0; // [-100,100)
            let got = max.next((at(t), F64(v)));
            assert_eq!(got, max.find_max_value());
        }
    }
}

/// Force >500 in-window points (huge window, no eviction) so that the window is thinned
/// again and again.
#[test]
fn monotonic_matches_scan_across_thinning() {
    let mut max = maximum(1_000_000 * 86_400);
    let start = start_of(2000, 1);
    let mut true_running_max = f64::NEG_INFINITY;
    for i in 0..900i64 {
        // Scattered values so the max can land on interior points thinning drops.
        let v = ((i.wrapping_mul(2_654_435_761)) % 1000) as f64;
        true_running_max = true_running_max.max(v);
        let got = max.next((at(start + chrono::Duration::seconds(i)), F64(v)));
        assert_eq!(got, max.find_max_value());
        assert!(got.0.is_finite());
        assert!(got.0 <= true_running_max, "thinned max exceeded true max");
    }
}

#[test]
fn maximum_rejects_an_empty_span() {
    let none = Maximum::<F64, _>::new(Duration::from_secs(0), buckets(1));
    assert!(matches!(none, Err(TaError::InvalidParameter)));
    let instant = Duration { secs: 0, subsec_nanos: 1 };
    assert!(Maximum::<F64, _>::new(instant, buckets(1)).is_ok());
}

#[test]
fn maximum_thins_a_long_window() {
    let mut max = maximum(1_000_000 * 86_400);
    let start = start_of(2000, 1);
    for i in 0..501i64 {
        max.next((at(start + chrono::Duration::seconds(i)), F64(i as f64)));
    }
    // The oldest 10 and the most recent 100 stay, and every other point between them.
    let values: Vec<f64> = max.get_window().iter().map(|&(_, x)| x.0).collect();
    assert_eq!(values.len(), 10 + 196 + 100);
    assert_eq!(values[..12], [0.0, 1.0, 2.0, 3.0, 4.0, 5.0, 6.0, 7.0, 8.0, 9.0, 10.0, 12.0]);
    assert_eq!(values[205..208], [400.0, 401.0, 402.0]);
    assert_eq!(values[305], 500.0);
    for i in 501..2000i64 {
        max.next((at(start + chrono::Duration::seconds(i)), F64(i as f64)));
        assert!(max.get_window().len() <= 500);
    }
}

#[test]
fn maximum_survives_storing() {
    let start = start_of(2021, 6);
    let mut kept = maximum(60);
    for (i, x) in [8.0, 10.0, 7.0, 9.0, 5.0, 6.0].into_iter().enumerate() {
        kept.next((at(start + chrono::Duration::seconds(i as i64)), F64(x)));
    }
    let (duration, window, detector) = kept.clone().into_parts();
    let mut again = Maximum::restore(duration, window, detector);
    for (i, x) in [1.0, 4.0, 2.0, 3.0].into_iter().enumerate() {
        let point = (at(start + chrono::Duration::seconds(20 + 17 * i as i64)), F64(x));
        assert_eq!(again.next(point), kept.next(point));
        assert_eq!(again.get_window(), kept.get_window());
    }
}

#[test]
fn maximum_of_nothing_is_the_lowest_value() {
    assert_eq!(maximum(1).find_max_value(), F64(f64::NEG_INFINITY));
}

#[test]
fn maximum_replaces_within_a_bucket() {
    let mut max = maximum(60);
    let start = start_of(2021, 6);
    assert_eq!(max.next((at(start), F64(9.0))), F64(9.0));
    let half = start + chrono::Duration::milliseconds(500);
    assert_eq!(max.next((at(half), F64(4.0))), F64(4.0));
    assert_eq!(max.get_window().into_iter().collect::<Vec<_>>(), vec![(at(half), F64(4.0))]);
}

// Relative strength index

#[test]
fn relative_strength_index_test_new() {
    assert!(rsi(0, DAY).is_err());
    assert!(rsi(86400, DAY).is_ok()); // 1 day
}

#[test]
fn relative_strength_index_test_next() {
    let mut rsi = rsi(3 * 86400, DAY).unwrap(); // 3 days
    let timestamp = start_of(2020, 1);

    // First value: 10.0 (no previous value, so RSI = 50)
    assert_eq!(rsi.next((at(timestamp), F64(10.0))).0, 50.0);

    // Second value: 10.5 (gain of 0.5, no loss)
    assert_eq!(rsi.next((at(timestamp + chrono::Duration::days(1)), F64(10.5))).0.round(), 100.0);

    // Third value: 10.0 (loss of 0.5 from 10.5)
    // With EMA k=0.5: avg_up=0.125, avg_down=0.25, RS=0.5, RSI=33.33
    assert_eq!(rsi.next((at(timestamp + chrono::Duration::days(2)), F64(10.0))).0.round(), 33.0);

    // Fourth value: 9.5 (loss of 0.5 from 10.0)
    // avg_up = 0.0625, avg_down = 0.375, RS = 0.1667, RSI = 14.3
    assert_eq!(rsi.next((at(timestamp + chrono::Duration::days(3)), F64(9.5))).0.round(), 14.0);
}

#[test]
fn relative_strength_index_test_reset() {
    let mut rsi = rsi(3 * 86400, DAY).unwrap(); // 3 days
    let timestamp = start_of(2020, 1);
    assert_eq!(rsi.next((at(timestamp), F64(10.0))).0, 50.0);
    assert_eq!(rsi.next((at(timestamp + chrono::Duration::days(1)), F64(10.5))).0.round(), 100.0);

    rsi.reset();
    assert_eq!(rsi.next((at(timestamp), F64(10.0))).0.round(), 50.0);
    assert_eq!(rsi.next((at(timestamp + chrono::Duration::days(1)), F64(10.5))).0.round(), 100.0);
}

#[test]
fn relative_strength_index_test_default() {
    let duration = Duration::from_secs(14 * DAY);
    let rsi: RelativeStrengthIndex<F64, _, _> = RelativeStrengthIndex::with_default_duration(
        Average::over(duration),
        Average::over(duration),
        buckets(DAY),
    );
    assert_eq!(rsi.label(), "RSI(14 days)");
}

#[test]
fn relative_strength_index_test_display() {
    let rsi = rsi(16 * 86400, DAY).unwrap(); // 16 days
    assert_eq!(rsi.label(), "RSI(16 days)");
}

#[test]
fn test_next_batch_matches_next_loop() {
    for n in [0usize, 1, 2, 4, 5, 16, 17, 100, 1000] {
        for period_days in [1u64, 7, 14, 30, 90] {
            let mut a = rsi(period_days * 86400, DAY).unwrap();
            let mut b = rsi(period_days * 86400, DAY).unwrap();

            let start = Utc::now();
            let inputs: Vec<(Timestamp, F64)> = (0..n)
                .map(|i| {
                    (
                        at(start + chrono::Duration::days(i as i64)),
                        F64(100.0 + ((i as f64) * 0.13).sin() * 10.0),
                    )
                })
                .collect();

            let scalar: Vec<f64> = inputs.iter().map(|&i| a.next(i).0).collect();
            let batch: Vec<f64> = b.next_batch(&inputs).into_iter().map(|x| x.0).collect();

            assert_eq!(scalar.len(), batch.len());
            for (i, (s, v)) in scalar.iter().zip(batch.iter()).enumerate() {
                let diff = (s - v).abs();
                let tol = 1e-9 * s.abs().max(v.abs()).max(1.0);
                assert!(
                    diff <= tol,
                    "n={} period={}d idx={} scalar={} batch={} diff={}",
                    n, period_days, i, s, v, diff
                );
            }

            // Both go on from the same state.
            let extra: Vec<(Timestamp, F64)> = (n..n + 5)
                .map(|i| {
                    (
                        at(start + chrono::Duration::days(i as i64)),
                        F64(42.0 + (i as f64).cos()),
                    )
                })
                .collect();
            for &inp in &extra {
                let s = a.next(inp).0;
                let v = b.next(inp).0;
                let diff = (s - v).abs();
                let tol = 1e-9 * s.abs().max(v.abs()).max(1.0);
                assert!(
                    diff <= tol,
                    "post-batch state diverged: scalar={} batch={}",
                    s, v
                );
            }
        }
    }
}

#[test]
fn test_next_batch_falls_back_on_replacement() {
    let mut a = rsi(60 * 60, 60).unwrap(); // 1-hour RSI
    let mut b = rsi(60 * 60, 60).unwrap();

    let start = Utc::now();
    let inputs = vec![
        (at(start), F64(100.0)),
        (at(start + chrono::Duration::minutes(1)), F64(101.0)),
        (at(start + chrono::Duration::minutes(1)), F64(102.0)), // same bucket: replace
        (at(start + chrono::Duration::minutes(2)), F64(103.0)),
    ];

    let scalar: Vec<f64> = inputs.iter().map(|&i| a.next(i).0).collect();
    let batch: Vec<f64> = b.next_batch(&inputs).into_iter().map(|x| x.0).collect();

    assert_eq!(scalar.len(), batch.len());
    for (s, v) in scalar.iter().zip(batch.iter()) {
        assert!(
            (s - v).abs() < 1e-12,
            "scalar={} batch={}",
            s, v
        );
    }
}

#[test]
fn relative_strength_index_rejects_an_empty_span() {
    assert!(matches!(rsi(0, DAY), Err(TaError::InvalidParameter)));
}

#[test]
fn replacements_are_measured_from_the_last_close() {
    let mut rsi = rsi(DAY, DAY).unwrap(); // k = 1: the averages are the last movement
    let start = start_of(2020, 1);
    rsi.next((at(start), F64(10.0)));
    let next = start + chrono::Duration::days(1);
    assert_eq!(rsi.next((at(next), F64(12.0))).0, 100.0);
    // More points of the same day are measured against 10, not against each other.
    assert_eq!(rsi.next((at(next + chrono::Duration::hours(1)), F64(8.0))).0, 0.0);
    assert_eq!(rsi.next((at(next + chrono::Duration::hours(2)), F64(11.0))).0, 100.0);
    let (_, _, _, prev_close, last, _) = rsi.clone().into_parts();
    assert_eq!((prev_close, last), (Some(F64(10.0)), Some(F64(11.0))));
    // The next day is measured against 11, the close of this one.
    assert_eq!(rsi.next((at(start + chrono::Duration::days(2)), F64(11.5))).0, 100.0);
    let (_, _, _, prev_close, last, _) = rsi.into_parts();
    assert_eq!((prev_close, last), (Some(F64(11.0)), Some(F64(11.5))));
}

#[test]
fn a_replacement_above_the_last_close_is_no_loss() {
    let mut rsi = rsi(3 * DAY, DAY).unwrap();
    let start = start_of(2020, 1);
    let next = at(start + chrono::Duration::days(1));
    rsi.next((at(start), F64(10.0)));
    rsi.next((next, F64(11.0)));
    assert_eq!(rsi.next((next, F64(10.5))).0, 100.0);
}

#[test]
fn rising_and_falling_series_are_full_and_empty() {
    let start = start_of(2020, 1);
    let day = |i: i64| at(start + chrono::Duration::days(i));
    let mut up = rsi(3 * DAY, DAY).unwrap();
    let mut down = rsi(3 * DAY, DAY).unwrap();
    for i in 0..6 {
        let (rising, falling) = if i == 0 { (50.0, 50.0) } else { (100.0, 0.0) };
        assert_eq!(up.next((day(i), F64(10.0 + i as f64))).0, rising);
        assert_eq!(down.next((day(i), F64(10.0 - i as f64))).0, falling);
    }
}

#[test]
fn mirroring_the_price_leaves_the_rest_of_a_hundred() {
    let start = start_of(2020, 1);
    let mut a = rsi(3 * DAY, DAY).unwrap();
    let mut b = rsi(3 * DAY, DAY).unwrap();
    for (i, x) in [10.0, 12.0, 11.0, 11.0, 14.0, 9.0].into_iter().enumerate() {
        let time = at(start + chrono::Duration::hours(17 * i as i64));
        let (up, down) = (a.next((time, F64(x))).0, b.next((time, F64(-x))).0);
        assert!((100.0 - up - down).abs() < 1e-9, "{} and {}", up, down);
        assert!(0.0 <= up && up <= 100.0);
    }
}

#[test]
fn relative_strength_index_survives_storing() {
    let start = start_of(2020, 1);
    let mut kept = rsi(3 * DAY, DAY).unwrap();
    for (i, x) in [10.0, 12.0, 11.0].into_iter().enumerate() {
        kept.next((at(start + chrono::Duration::days(i as i64)), F64(x)));
    }
    let (duration, up, down, prev_close, last, detector) = kept.clone().into_parts();
    let mut again = RelativeStrengthIndex::restore(duration, up, down, prev_close, last, detector);
    let point = (at(start + chrono::Duration::days(3)), F64(13.0));
    assert_eq!(again.next(point), kept.next(point));
}

#[test]
fn no_movement_is_neutral() {
    let mut rsi = rsi(3 * DAY, DAY).unwrap();
    let start = start_of(2020, 1);
    for i in 0..5 {
        assert_eq!(rsi.next((at(start + chrono::Duration::days(i)), F64(10.0))).0, 50.0);
    }
}

// Time

#[test]
fn timestamps_are_the_nanoseconds_of_the_calendar() {
    let time = Utc.with_ymd_and_hms(2024, 2, 29, 12, 34, 56).unwrap()
        + chrono::Duration::nanoseconds(789);
    assert_eq!(at(time).nanos(), time.timestamp_nanos_opt().unwrap());
    assert_eq!(at(time).nanos(), 1_709_210_096_000_000_789);
    let early = Utc.with_ymd_and_hms(1969, 12, 31, 23, 59, 59).unwrap()
        + chrono::Duration::nanoseconds(1);
    assert_eq!(at(early).nanos(), -999_999_999);
    // In a leap second the nanoseconds run on.
    assert_eq!(Timestamp { secs: 59, subsec_nanos: 1_500_000_000 }.nanos(), 60_500_000_000);
}

#[test]
fn timestamps_out_of_range_come_first() {
    assert_eq!(Timestamp { secs: i64::MAX, subsec_nanos: 0 }.nanos(), i64::MIN);
    assert_eq!(Timestamp { secs: 9_223_372_037, subsec_nanos: 0 }.nanos(), i64::MIN);
    assert_eq!(Timestamp { secs: 9_223_372_036, subsec_nanos: 854_775_807 }.nanos(), i64::MAX);
    assert_eq!(Timestamp { secs: -9_223_372_037, subsec_nanos: 145_224_192 }.nanos(), i64::MIN);
    assert_eq!(Timestamp { secs: -9_223_372_037, subsec_nanos: 145_224_193 }.nanos(), i64::MIN + 1);
    assert_eq!(Timestamp { secs: 58, subsec_nanos: 1_500_000_000 }.nanos(), i64::MIN);
    assert_eq!(Timestamp { secs: 59, subsec_nanos: 2_000_000_000 }.nanos(), i64::MIN);
}

#[test]
fn durations_count_nanoseconds() {
    assert_eq!(Duration { secs: 2, subsec_nanos: 5 }.as_nanos(), 2_000_000_005);
    assert!(Duration::from_secs(0).is_zero());
    assert!(!Duration { secs: 0, subsec_nanos: 1 }.is_zero());
    assert_eq!(Duration::from_secs(u64::MAX).as_nanos(), u64::MAX as u128 * 1_000_000_000);
}

#[test]
fn buckets_tell_neighbours_apart() {
    let mut d = buckets(60);
    let time = |secs: i64| Timestamp { secs, subsec_nanos: 0 };
    assert!(!d.should_replace(time(0)));
    assert!(d.should_replace(time(59)));
    assert!(!d.should_replace(time(60)));
    let mut probe = d.probe();
    assert!(probe.should_replace(time(61)));
    assert!(!d.should_replace(time(-1)));
    assert!(d.should_replace(time(-60)));
    d.reset();
    assert!(!d.should_replace(time(-60)));
    // Buckets of width zero hold a single instant.
    let mut instant = buckets(0);
    assert!(!instant.should_replace(time(5)));
    assert!(instant.should_replace(time(5)));
    assert!(!instant.should_replace(Timestamp { secs: 5, subsec_nanos: 1 }));
}
