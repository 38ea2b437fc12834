//! The statistics over whole slices, on double-precision numbers in vector registers.
use chrono::{DateTime, TimeZone, Utc};
use ta::lanes::{Lanes, Quad};
use ta::number::Number;
use ta::simd::ema::ema_scalar;
use ta::simd::rate_of_change::rate_of_change_scalar;
use ta::simd::reductions::{sum_scalar, sum_squares_scalar, variance_scalar};
use ta::simd::rolling::{rolling_mean_scalar, rolling_std_scalar};
use wide::{f64x4, CmpEq, CmpLt};

/// Double-precision numbers.
#[derive(Clone, Copy, Debug, PartialEq)]
struct F64(f64);

impl Number for F64 {
    fn spec_of_usize(n: usize) -> Self {
        Self::of_usize(n)
    }
    fn spec_lowest() -> Self {
        Self::lowest()
    }
    fn spec_plus(self, other: Self) -> Self {
        self.plus(other)
    }
    fn spec_minus(self, other: Self) -> Self {
        self.minus(other)
    }
    fn spec_times(self, other: Self) -> Self {
        self.times(other)
    }
    fn spec_over(self, other: Self) -> Self {
        self.over(other)
    }
    fn spec_root(self) -> Self {
        self.root()
    }
    fn spec_greater(self, other: Self) -> Self {
        self.greater(other)
    }
    fn spec_lesser(self, other: Self) -> Self {
        self.lesser(other)
    }
    fn spec_below(self, other: Self) -> bool {
        self.below(other)
    }
    fn spec_at_most(self, other: Self) -> bool {
        self.at_most(other)
    }
    fn spec_is_zero(self) -> bool {
        self.is_zero()
    }
    fn of_usize(n: usize) -> Self {
        F64(n as f64)
    }
    fn lowest() -> Self {
        F64(f64::NEG_INFINITY)
    }
    fn plus(self, other: Self) -> Self {
        F64(self.0 + other.0)
    }
    fn minus(self, other: Self) -> Self {
        F64(self.0 - other.0)
    }
    fn times(self, other: Self) -> Self {
        F64(self.0 * other.0)
    }
    fn over(self, other: Self) -> Self {
        F64(self.0 / other.0)
    }
    fn root(self) -> Self {
        F64(self.0.sqrt())
    }
    fn greater(self, other: Self) -> Self {
        F64(self.0.max(other.0))
    }
    fn lesser(self, other: Self) -> Self {
        F64(self.0.min(other.0))
    }
    fn below(self, other: Self) -> bool {
        self.0 < other.0
    }
    fn at_most(self, other: Self) -> bool {
        self.0 <= other.0
    }
    fn is_zero(self) -> bool {
        self.0 == 0.0
    }
}

/// Four of them in a vector register.
#[derive(Clone, Copy, Debug)]
struct Wide(f64x4);

impl Lanes<F64> for Wide {
    fn spec_lane(self, i: usize) -> F64 {
        F64(self.0.to_array()[i])
    }
    fn new(values: [F64; 4]) -> Self {
        Wide(f64x4::new([values[0].0, values[1].0, values[2].0, values[3].0]))
    }
    fn splat(value: F64) -> Self {
        Wide(f64x4::splat(value.0))
    }
    fn to_array(self) -> [F64; 4] {
        self.0.to_array().map(F64)
    }
    fn plus(self, other: Self) -> Self {
        Wide(self.0 + other.0)
    }
    fn minus(self, other: Self) -> Self {
        Wide(self.0 - other.0)
    }
    fn times(self, other: Self) -> Self {
        Wide(self.0 * other.0)
    }
    fn over(self, other: Self) -> Self {
        Wide(self.0 / other.0)
    }
    fn zero_or(self, other: Self) -> Self {
        Wide(self.0.cmp_eq(f64x4::ZERO).blend(f64x4::ZERO, other.0))
    }
    fn from_lane(self, first: usize) -> Self {
        let lane = f64x4::new([0.0, 1.0, 2.0, 3.0]);
        Wide(lane.cmp_lt(f64x4::splat(first as f64)).blend(f64x4::ZERO, self.0))
    }
}

fn wrapped(values: &[f64]) -> Vec<F64> {
    values.iter().map(|&x| F64(x)).collect()
}

fn plain(values: Vec<F64>) -> Vec<f64> {
    values.into_iter().map(|x| x.0).collect()
}

fn sum(values: &[f64]) -> f64 {
    ta::simd::sum::<F64, Wide>(&wrapped(values)).0
}

fn sum_squares(values: &[f64]) -> f64 {
    ta::simd::sum_squares::<F64, Wide>(&wrapped(values)).0
}

fn mean(values: &[f64]) -> f64 {
    ta::simd::mean::<F64, Wide>(&wrapped(values)).0
}

fn variance(values: &[f64]) -> f64 {
    ta::simd::variance::<F64, Wide>(&wrapped(values)).0
}

fn std_dev(values: &[f64]) -> f64 {
    ta::simd::std_dev::<F64, Wide>(&wrapped(values)).0
}

fn ema(values: &[f64], k: f64) -> Vec<f64> {
    plain(ta::simd::ema::<F64, Wide>(&wrapped(values), F64(k)))
}

fn ema_continuation_into(values: &[f64], k: f64, s_prev: f64, out: &mut [f64]) {
    let mut written = wrapped(out);
    ta::simd::ema_continuation_into::<F64, Wide>(
        &wrapped(values),
        F64(k),
        F64(s_prev),
        &mut written,
    );
    for (slot, x) in out.iter_mut().zip(written) {
        *slot = x.0;
    }
}

fn rate_of_change(values: &[f64], lag: usize) -> Vec<f64> {
    plain(ta::simd::rate_of_change::<F64, Wide>(&wrapped(values), lag))
}

fn rolling_mean(values: &[f64], window: usize) -> Vec<f64> {
    plain(ta::simd::rolling_mean::<F64, Wide>(&wrapped(values), window))
}

fn rolling_std(values: &[f64], window: usize) -> Vec<f64> {
    plain(ta::simd::rolling_std::<F64, Wide>(&wrapped(values), window))
}

fn approx_eq(a: f64, b: f64, rel: f64, abs: f64) -> bool {
    let diff = (a - b).abs();
    diff <= abs || diff <= rel * a.abs().max(b.abs())
}

fn approx_slice_eq(a: &[f64], b: &[f64], rel: f64, abs: f64) {
    assert_eq!(a.len(), b.len(), "length mismatch");
    for (i, (&x, &y)) in a.iter().zip(b.iter()).enumerate() {
        let diff = (x - y).abs();
        let tol = abs.max(rel * x.abs().max(y.abs()));
        assert!(
            diff <= tol,
            "mismatch at index {}: simd={} scalar={} diff={}",
            i,
            x,
            y,
            diff
        );
    }
}

// Exponential moving average

#[test]
fn ema_known_values() {
    // k=0.5: s_0=2, s_1=0.5*5+0.5*2=3.5, s_2=0.5*1+0.5*3.5=2.25, s_3=0.5*6.25+0.5*2.25=4.25
    let v = [2.0, 5.0, 1.0, 6.25];
    let out = ema(&v, 0.5);
    let expected = [2.0, 3.5, 2.25, 4.25];
    assert_eq!(out.len(), expected.len());
    for (a, b) in out.iter().zip(expected.iter()) {
        assert!((a - b).abs() < 1e-12, "got {} expected {}", a, b);
    }
}

#[test]
fn empty_and_single() {
    assert_eq!(ema(&[], 0.5), Vec::<f64>::new());
    assert_eq!(ema(&[3.14], 0.5), vec![3.14]);
}

#[test]
fn parity_random() {
    for n in [0, 1, 2, 3, 4, 5, 7, 8, 16, 17, 31, 100, 1000, 10_000] {
        let values: Vec<f64> = (0..n)
            .map(|i| 100.0 + ((i as f64) * 0.07).sin() * 10.0)
            .collect();
        for k in [0.01, 0.1, 0.0645, 0.5, 0.9] {
            let s = plain(ema_scalar(&wrapped(&values), F64(k)));
            let v = ema(&values, k);
            approx_slice_eq(&v, &s, 1e-10, 1e-12);
        }
    }
}

/// A moving average that takes in one value at a time; the first one counts in full.
struct StreamingAverage {
    k: f64,
    current: Option<f64>,
}

impl StreamingAverage {
    fn over_days(days: u64) -> Self {
        StreamingAverage { k: 2.0 / (days as f64 + 1.0), current: None }
    }

    fn next(&mut self, (_, value): (DateTime<Utc>, f64)) -> f64 {
        let next = match self.current {
            Some(s) => self.k * value + (1.0 - self.k) * s,
            None => value,
        };
        self.current = Some(next);
        next
    }
}

#[test]
fn matches_streaming_indicator() {
    // 30-period EMA: k = 2/(30+1) = 0.06451612...
    let mut streaming = StreamingAverage::over_days(30 * 86400 / 86400);
    let start = Utc.with_ymd_and_hms(2024, 1, 1, 0, 0, 0).unwrap();
    let values: Vec<f64> = (0..200).map(|i| 50.0 + (i as f64) * 0.3).collect();

    let streaming_out: Vec<f64> = values
        .iter()
        .enumerate()
        .map(|(i, &v)| streaming.next((start + chrono::Duration::days(i as i64), v)))
        .collect();

    let k = 2.0 / 31.0;
    let batch_out = ema(&values, k);

    assert_eq!(streaming_out.len(), batch_out.len());
    for (i, (s, b)) in streaming_out.iter().zip(batch_out.iter()).enumerate() {
        let diff = (s - b).abs();
        assert!(
            diff <= 1e-10 * s.abs().max(b.abs()).max(1e-12),
            "index {}: streaming={} batch={}",
            i,
            s,
            b
        );
    }
}

#[test]
fn continuation_resumes_correctly() {
    // Splitting an EMA into prefix + continuation must give the same result as one batch
    // call.
    let values: Vec<f64> = (0..50).map(|i| 10.0 + (i as f64).sin()).collect();
    let k = 0.2;

    let full = ema(&values, k);

    let split = 7;
    let prefix = ema(&values[..split], k);
    let s_prev = *prefix.last().unwrap();
    let mut cont = vec![0.0; values.len() - split];
    ema_continuation_into(&values[split..], k, s_prev, &mut cont);

    let mut joined = prefix;
    joined.extend(cont);

    assert_eq!(full.len(), joined.len());
    for (i, (a, b)) in full.iter().zip(joined.iter()).enumerate() {
        assert!((a - b).abs() < 1e-12, "index {}: full={} joined={}", i, a, b);
    }
}

#[test]
fn ema_does_not_look_ahead() {
    let values = [1.0, 1.0, 3.0, f64::INFINITY, 1.0];
    let expected = vec![1.0, 1.0, 2.0, f64::INFINITY, f64::INFINITY];
    assert_eq!(ema(&values, 0.5), expected);
    assert_eq!(plain(ema_scalar(&wrapped(&values), F64(0.5))), expected);
}

#[test]
fn ema_of_whole_numbers() {
    // k=1 keeps the newest value, k=0 the first one, and k=2 overshoots.
    let v: [i64; 6] = [3, 8, -2, 7, 7, 1];
    assert_eq!(ta::simd::ema::<i64, Quad<i64>>(&v, 1), v.to_vec());
    assert_eq!(ta::simd::ema::<i64, Quad<i64>>(&v, 0), vec![3, 3, 3, 3, 3, 3]);
    assert_eq!(ta::simd::ema::<i64, Quad<i64>>(&v, 2), vec![3, 13, -17, 31, -17, 19]);
    assert_eq!(ema_scalar::<i64>(&v, 2), vec![3, 13, -17, 31, -17, 19]);
}

#[test]
fn ema_written_in_place() {
    let v: [i64; 6] = [3, 8, -2, 7, 7, 1];
    let mut out = [0i64; 6];
    ta::simd::ema_into::<i64, Quad<i64>>(&v, 2, &mut out);
    assert_eq!(out, [3, 13, -17, 31, -17, 19]);
    let mut tail = [0i64; 3];
    ta::simd::ema_continuation_into::<i64, Quad<i64>>(&v[3..], 2, -17, &mut tail);
    assert_eq!(tail, [31, -17, 19]);
}

// Rate of change

#[test]
fn rate_of_change_known_values() {
    // values: 100, 110, 121, 133.1: 10% growth each step
    let v = vec![100.0, 110.0, 121.0, 133.1];
    let out = rate_of_change(&v, 1);
    assert_eq!(out[0], 0.0);
    for i in 1..v.len() {
        assert!((out[i] - 10.0).abs() < 1e-9, "out[{}] = {}", i, out[i]);
    }
}

#[test]
fn lag_larger_than_input() {
    let v = vec![1.0, 2.0, 3.0];
    assert_eq!(rate_of_change(&v, 5), vec![0.0, 0.0, 0.0]);
    assert_eq!(rate_of_change(&v, 3), vec![0.0, 0.0, 0.0]);
}

#[test]
fn zero_predecessor_yields_zero() {
    let v = vec![0.0, 10.0, 0.0, 5.0, 0.0, 7.0];
    let out = rate_of_change(&v, 2);
    // i=2: the value before is 0
    // i=3: (5-10)/10 * 100 = -50
    // i=4: the value before is 0
    // i=5: (7-5)/5 * 100 = 40
    assert_eq!(out[0], 0.0);
    assert_eq!(out[1], 0.0);
    assert_eq!(out[2], 0.0);
    assert!((out[3] - -50.0).abs() < 1e-9);
    assert_eq!(out[4], 0.0);
    assert!((out[5] - 40.0).abs() < 1e-9);
}

#[test]
fn parity_random_sizes_and_lags() {
    for n in [0, 1, 4, 5, 7, 8, 16, 31, 100, 1000, 5000] {
        let values: Vec<f64> = (0..n)
            .map(|i| 100.0 + ((i as f64) * 0.13).sin() * 5.0)
            .collect();
        for lag in [1, 2, 3, 4, 5, 7, 16, 32] {
            let s = plain(rate_of_change_scalar(&wrapped(&values), lag));
            let v = rate_of_change(&values, lag);
            approx_slice_eq(&v, &s, 1e-12, 1e-12);
        }
    }
}

#[test]
fn rate_of_change_lanes_are_scalar_bit_for_bit() {
    let values: Vec<f64> = (0..61).map(|i| ((i * 37 % 11) as f64) * 0.1).collect();
    for lag in [0, 1, 4, 7] {
        let s = plain(rate_of_change_scalar(&wrapped(&values), lag));
        assert_eq!(rate_of_change(&values, lag), s);
    }
}

#[test]
fn rates_do_not_depend_on_the_unit() {
    let values: Vec<f64> = (0..41).map(|i| ((i * 37 % 11) as f64) * 0.3 - 1.0).collect();
    for c in [4.0, -0.5, -1.0] {
        let scaled: Vec<f64> = values.iter().map(|x| c * x).collect();
        assert_eq!(rate_of_change(&scaled, 3), rate_of_change(&values, 3));
    }
    let whole: [i64; 6] = [10, 15, 7, 0, 6, -9];
    let tripled: Vec<i64> = whole.iter().map(|x| 3 * x).collect();
    assert_eq!(
        ta::simd::rate_of_change::<i64, Quad<i64>>(&tripled, 1),
        ta::simd::rate_of_change::<i64, Quad<i64>>(&whole, 1)
    );
}

#[test]
fn rate_of_change_written_in_place() {
    let v: [i64; 7] = [10, 15, 30, 0, 6, 9, 18];
    let mut out = [7i64; 7];
    ta::simd::rate_of_change_into::<i64, Quad<i64>>(&v, 1, &mut out);
    assert_eq!(out, [0, 0, 100, -100, 0, 0, 100]);
}

// Reductions

#[test]
fn empty_slice() {
    assert_eq!(sum(&[]), 0.0);
    assert_eq!(sum_squares(&[]), 0.0);
    assert_eq!(mean(&[]), 0.0);
    assert_eq!(variance(&[]), 0.0);
    assert_eq!(std_dev(&[]), 0.0);
}

#[test]
fn reductions_known_values() {
    let v = [1.0, 2.0, 3.0, 4.0];
    assert_eq!(sum(&v), 10.0);
    assert_eq!(sum_squares(&v), 30.0);
    assert_eq!(mean(&v), 2.5);
    // population variance of [1,2,3,4] = 1.25
    assert!(approx_eq(variance(&v), 1.25, 1e-12, 1e-12));
}

#[test]
fn parity_sum_random() {
    // pseudo-random deterministic input across non-multiple-of-4 sizes
    for n in [0, 1, 2, 3, 4, 5, 7, 8, 16, 17, 31, 64, 100, 1000, 10_000] {
        let values: Vec<f64> = (0..n)
            .map(|i| ((i as f64) * 0.37182).sin() * 1e3)
            .collect();
        let s = sum(&values);
        let r = sum_scalar(&wrapped(&values)).0;
        assert!(
            approx_eq(s, r, 1e-12, 1e-9),
            "sum mismatch at n={}: simd={} scalar={}",
            n,
            s,
            r
        );

        let sq = sum_squares(&values);
        let rq = sum_squares_scalar(&wrapped(&values)).0;
        assert!(
            approx_eq(sq, rq, 1e-12, 1e-9),
            "sum_squares mismatch at n={}: simd={} scalar={}",
            n,
            sq,
            rq
        );

        let v = variance(&values);
        let rv = variance_scalar(&wrapped(&values)).0;
        assert!(
            approx_eq(v, rv, 1e-10, 1e-9),
            "variance mismatch at n={}: simd={} scalar={}",
            n,
            v,
            rv
        );
    }
}

/// A standard deviation over the last values that takes in one value at a time.
struct StreamingDeviation {
    window: chrono::Duration,
    points: Vec<(DateTime<Utc>, f64)>,
}

impl StreamingDeviation {
    fn next(&mut self, (time, value): (DateTime<Utc>, f64)) -> f64 {
        let cutoff = time - self.window;
        self.points.retain(|&(t, _)| t > cutoff);
        self.points.push((time, value));
        let n = self.points.len() as f64;
        let s: f64 = self.points.iter().map(|&(_, x)| x).sum();
        let q: f64 = self.points.iter().map(|&(_, x)| x * x).sum();
        ((q - s * (s / n)) / n).max(0.0).sqrt()
    }
}

#[test]
fn matches_standard_deviation_indicator() {
    let values = [10.0, 20.0, 30.0, 20.0, 10.0];
    let mut sd = StreamingDeviation {
        window: chrono::Duration::seconds(60 * 60 * 24 * 365),
        points: Vec::new(),
    };
    let start = Utc.with_ymd_and_hms(2024, 1, 1, 0, 0, 0).unwrap();
    let mut last = 0.0;
    for (i, &v) in values.iter().enumerate() {
        last = sd.next((start + chrono::Duration::days(i as i64), v));
    }
    let batch = std_dev(&values);
    assert!(
        approx_eq(last, batch, 1e-10, 1e-9),
        "streaming={} batch={}",
        last,
        batch
    );
}

#[test]
fn deviation_of_a_constant_is_zero() {
    // The variance rounds below zero here.
    let result = std_dev(&[0.1, 0.1, 0.1]);
    assert!(variance(&[0.1, 0.1, 0.1]) < 0.0);
    assert!(!result.is_nan());
    assert!(result.abs() < 1e-6);
    // What is no number stays none.
    assert!(std_dev(&[1.0, f64::NAN]).is_nan());
    assert!(std_dev(&[1.0, f64::INFINITY, 2.0]).is_nan());
}

#[test]
fn variance_is_the_mean_square_deviation() {
    let v: [i64; 5] = [1, 5, 8, 4, 12];
    assert_eq!(ta::simd::mean::<i64, Quad<i64>>(&v), 6);
    assert_eq!(ta::simd::variance::<i64, Quad<i64>>(&v), (25 + 1 + 4 + 4 + 36) / 5);
}

#[test]
fn sums_do_not_depend_on_order_or_cuts() {
    let a: Vec<f64> = (0..11).map(|i| (i * 31 % 17) as f64).collect();
    let b: Vec<f64> = (0..6).map(|i| (i * 13 % 7) as f64 - 3.0).collect();
    let mut both = a.clone();
    both.extend(&b);
    assert_eq!(sum(&both), sum(&a) + sum(&b));
    both.reverse();
    assert_eq!(sum(&both), sum(&a) + sum(&b));
}

#[test]
fn sums_of_whole_numbers() {
    let v: Vec<i64> = (1..=11).collect();
    assert_eq!(ta::simd::sum::<i64, Quad<i64>>(&v), 66);
    assert_eq!(ta::simd::sum_squares::<i64, Quad<i64>>(&v), 506);
    assert_eq!(ta::simd::mean::<i64, Quad<i64>>(&v), 6);
    assert_eq!(ta::simd::variance::<i64, Quad<i64>>(&v), 10);
    assert_eq!(ta::simd::std_dev::<i64, Quad<i64>>(&v), 3);
    assert_eq!(sum_scalar::<i64>(&v), 66);
    assert_eq!(sum_squares_scalar::<i64>(&v), 506);
    assert_eq!(variance_scalar::<i64>(&v), 10);
}

#[test]
fn lanes_add_up_in_their_own_order() {
    // Lane by lane: (1e16 - 1e16) + (1 + 1) + 0 + 0, where a sum left to right would lose
    // both ones.
    let v = [1e16, 1.0, 0.0, 0.0, -1e16, 1.0, 0.0, 0.0];
    assert_eq!(sum(&v), 2.0);
    assert_eq!(sum_scalar(&wrapped(&v)).0, 1.0);
}

#[test]
fn registers_agree_with_the_portable_lanes() {
    let values: Vec<F64> = (0..103).map(|i| F64((i as f64 * 0.7).sin())).collect();
    assert_eq!(
        ta::simd::sum::<F64, Wide>(&values),
        ta::simd::sum::<F64, Quad<F64>>(&values)
    );
    assert_eq!(
        ta::simd::variance::<F64, Wide>(&values),
        ta::simd::variance::<F64, Quad<F64>>(&values)
    );
    assert_eq!(
        ta::simd::ema::<F64, Wide>(&values, F64(0.3)),
        ta::simd::ema::<F64, Quad<F64>>(&values, F64(0.3))
    );
    assert_eq!(
        ta::simd::rate_of_change::<F64, Wide>(&values, 3),
        ta::simd::rate_of_change::<F64, Quad<F64>>(&values, 3)
    );
}

// Rolling statistics

#[test]
fn rolling_mean_known() {
    let v = [1.0, 2.0, 3.0, 4.0, 5.0];
    // window=3:
    // i=0: mean(1) = 1
    // i=1: mean(1,2) = 1.5
    // i=2: mean(1,2,3) = 2
    // i=3: mean(2,3,4) = 3
    // i=4: mean(3,4,5) = 4
    let out = rolling_mean(&v, 3);
    let expected = [1.0, 1.5, 2.0, 3.0, 4.0];
    assert_eq!(out.len(), expected.len());
    for (a, b) in out.iter().zip(expected.iter()) {
        assert!((a - b).abs() < 1e-12);
    }
}

#[test]
fn rolling_mean_parity() {
    for n in [0, 1, 3, 4, 5, 8, 16, 100, 1000, 5000] {
        let values: Vec<f64> = (0..n)
            .map(|i| ((i as f64) * 0.7).sin() * 100.0 + 50.0)
            .collect();
        for w in [1, 2, 3, 4, 5, 8, 32] {
            let s = plain(rolling_mean_scalar(&wrapped(&values), w));
            let v = rolling_mean(&values, w);
            approx_slice_eq(&v, &s, 1e-10, 1e-9);
        }
    }
}

#[test]
fn rolling_std_parity() {
    for n in [0, 1, 3, 4, 5, 8, 16, 100, 1000, 5000] {
        let values: Vec<f64> = (0..n)
            .map(|i| ((i as f64) * 0.31).cos() * 20.0 + 100.0)
            .collect();
        for w in [1, 2, 3, 4, 5, 8, 32] {
            let s = plain(rolling_std_scalar(&wrapped(&values), w));
            let v = rolling_std(&values, w);
            approx_slice_eq(&v, &s, 1e-8, 1e-8);
        }
    }
}

#[test]
fn rolling_std_window_one_is_zero() {
    let v = [5.0, 9.0, 1.0, 100.0];
    let out = rolling_std(&v, 1);
    assert_eq!(out.len(), v.len());
    for x in out {
        assert!(x.abs() < 1e-12);
    }
}

#[test]
fn rolling_std_known() {
    // Windows [2], [2,4], [2,4,4], [4,4,4], [4,4,10]
    let out = rolling_std(&[2.0, 4.0, 4.0, 4.0, 10.0], 3);
    let expected = [0.0, 1.0, (8.0f64 / 9.0).sqrt(), 0.0, 8.0f64.sqrt()];
    approx_slice_eq(&out, &expected, 1e-9, 1e-7);
}

#[test]
fn rolling_window_wider_than_input() {
    assert_eq!(rolling_mean(&[2.0, 4.0, 9.0], 5), vec![2.0, 3.0, 5.0]);
    assert_eq!(rolling_std(&[2.0, 4.0], 5), vec![0.0, 1.0]);
    assert_eq!(rolling_mean(&[], 1), Vec::<f64>::new());
}

#[test]
fn rolling_written_in_place() {
    let v: [i64; 5] = [2, 4, 9, 1, 5];
    let mut out = [0i64; 5];
    ta::simd::rolling_mean_into::<i64, Quad<i64>>(&v, 1, &mut out);
    assert_eq!(out, v);
    ta::simd::rolling_std_into::<i64, Quad<i64>>(&v, 2, &mut out);
    // Whole numbers round the mean of a window down before it is squared.
    assert_eq!(out.to_vec(), rolling_std_scalar::<i64>(&v, 2));
    assert_eq!(rolling_mean_scalar::<i64>(&v, 1), v.to_vec());
}
