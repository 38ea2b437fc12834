//! The library on whole numbers, where its arithmetic is exact.
use ta::indicators::window_aggregate::{DrawupAgg, MonoidWindow, WindowAggregate};
use ta::indicators::{BollingerBands, MaxDrawdown, Maximum, RelativeStrengthIndex};
use ta::lanes::{Lanes, Quad};
use ta::number::Number;
use ta::simd::ema::ema_scalar;
use ta::simd::reductions::sum_scalar;
use ta::simd::rolling::{rolling_mean_scalar, rolling_std_scalar};
use ta::time::{Duration, TimeBuckets, Timestamp};
use ta::{Next, NextBatch, Reset};

fn second(secs: i64) -> Timestamp {
    Timestamp { secs, subsec_nanos: 0 }
}

fn buckets() -> TimeBuckets {
    TimeBuckets::new(Duration::from_secs(1))
}

fn maximum(secs: u64) -> Maximum<i64, TimeBuckets> {
    Maximum::new(Duration::from_secs(secs), buckets()).unwrap()
}

fn strength() -> RelativeStrengthIndex<i64, TimeBuckets, Maximum<i64, TimeBuckets>> {
    RelativeStrengthIndex::new(Duration::from_secs(5), maximum(3), maximum(3), buckets()).unwrap()
}

fn series(values: &[i64]) -> Vec<(Timestamp, i64)> {
    values.iter().enumerate().map(|(i, &x)| (second(i as i64), x)).collect()
}

#[test]
fn arithmetic_wraps() {
    assert_eq!(Number::plus(i64::MAX, 1), i64::MIN);
    assert_eq!(Number::minus(i64::MIN, 1), i64::MAX);
    assert_eq!(Number::times(i64::MAX, 2), -2);
    assert_eq!(<i64 as Number>::of_usize(7), 7);
    assert_eq!(<i64 as Number>::lowest(), i64::MIN);
}

#[test]
fn quotients_round_down() {
    assert_eq!(Number::over(7i64, 2), 3);
    assert_eq!(Number::over(-7i64, 2), -4);
    assert_eq!(Number::over(7i64, 0), 0);
    assert_eq!(Number::over(i64::MIN, -1), i64::MAX);
}

#[test]
fn roots_round_down() {
    for (x, r) in [(0, 0), (1, 1), (3, 1), (4, 2), (8, 2), (9, 3), (99, 9), (100, 10)] {
        assert_eq!(Number::root(x as i64), r);
    }
    assert_eq!(Number::root(i64::MAX), 3_037_000_499);
    assert_eq!(Number::root(-5i64), 0);
}

#[test]
fn order_of_whole_numbers() {
    assert_eq!(Number::greater(3i64, 5), 5);
    assert_eq!(Number::lesser(3i64, 5), 3);
    assert!(Number::below(3i64, 5) && !Number::below(5i64, 5));
    assert!(Number::at_most(5i64, 5) && !Number::at_most(6i64, 5));
    assert!(Number::is_zero(0i64) && !Number::is_zero(1i64));
}

#[test]
fn lanes_work_side_by_side() {
    let a: Quad<i64> = Lanes::new([8, 0, -6, 5]);
    let b: Quad<i64> = Lanes::splat(2);
    assert_eq!(a.plus(b).to_array(), [10, 2, -4, 7]);
    assert_eq!(a.minus(b).to_array(), [6, -2, -8, 3]);
    assert_eq!(a.times(b).to_array(), [16, 0, -12, 10]);
    assert_eq!(a.over(b).to_array(), [4, 0, -3, 2]);
    assert_eq!(a.zero_or(b).to_array(), [2, 0, 2, 2]);
    assert_eq!(a.from_lane(0).to_array(), [8, 0, -6, 5]);
    assert_eq!(a.from_lane(2).to_array(), [0, 0, -6, 5]);
}

#[test]
fn lanes_agree_with_one_by_one() {
    let v: Vec<i64> = (0..53).map(|i| (i * 7919) % 257 - 100).collect();
    assert_eq!(ta::simd::sum::<i64, Quad<i64>>(&v), sum_scalar(&v));
    for k in [-3, 0, 1, 2, 17] {
        assert_eq!(ta::simd::ema::<i64, Quad<i64>>(&v, k), ema_scalar(&v, k));
    }
    for w in [1, 2, 5, 53, 60] {
        assert_eq!(ta::simd::rolling_mean::<i64, Quad<i64>>(&v, w), rolling_mean_scalar(&v, w));
        assert_eq!(ta::simd::rolling_std::<i64, Quad<i64>>(&v, w), rolling_std_scalar(&v, w));
    }
}

#[test]
fn averages_resume_where_they_stopped() {
    let v: Vec<i64> = (0..23).map(|i| (i * 31) % 17).collect();
    let full = ta::simd::ema::<i64, Quad<i64>>(&v, 3);
    for cut in 1..v.len() {
        let mut rest = vec![0i64; v.len() - cut];
        ta::simd::ema_continuation_into::<i64, Quad<i64>>(&v[cut..], 3, full[cut - 1], &mut rest);
        assert_eq!(rest, full[cut..]);
    }
}

#[test]
fn rolling_deviation_of_one_is_zero() {
    assert_eq!(ta::simd::rolling_std::<i64, Quad<i64>>(&[5, -9, 1, 100, 7], 1), vec![0; 5]);
}

#[test]
fn drawups_of_whole_numbers() {
    let mut w: MonoidWindow<i64, DrawupAgg<i64>> = MonoidWindow::default();
    for x in [9, 2, 5, 1, 4, 3] {
        w.push_back(x);
    }
    // From 1 to 4: three times itself on top.
    assert_eq!(w.aggregate().unwrap().ratio(), 3);
}

#[test]
fn drawdown_follows_the_window() {
    let mut m: MaxDrawdown<i64, TimeBuckets> =
        MaxDrawdown::new(Duration::from_secs(2), buckets()).unwrap();
    // Declines are shares rounded down, so only a fall to zero or below counts.
    assert_eq!(m.next_batch(&series(&[4, 2, 0, 3, 1])), vec![0, 0, 100, 100, 0]);
}

#[test]
fn maximum_follows_the_window() {
    let mut m = maximum(3);
    assert_eq!(m.next_batch(&series(&[5, 3, 4, 1, 2, 0])), vec![5, 5, 5, 4, 4, 2]);
    m.reset();
    assert_eq!(m.next((second(1), -7)), -7);
}

#[test]
fn batches_may_be_cut_anywhere() {
    let inputs = series(&[10, 12, 11, 15, 9, 9, 14, 8]);
    let whole = strength().next_batch(&inputs);
    for cut in 0..=inputs.len() {
        let mut index = strength();
        let mut joined = index.next_batch(&inputs[..cut]);
        joined.extend(index.next_batch(&inputs[cut..]));
        assert_eq!(joined, whole);
    }
    let mut one_by_one = strength();
    let outputs: Vec<i64> = inputs.iter().map(|&p| one_by_one.next(p)).collect();
    assert_eq!(outputs, whole);
}

#[test]
fn the_index_is_a_percentage() {
    // The largest gain and the largest loss of three seconds, 4 and 6 at the end:
    // 100 - 100 / (1 + 4 / 6).
    let out = strength().next_batch(&series(&[10, 12, 11, 15, 9]));
    assert_eq!(out, vec![50, 100, 67, 80, 0]);
    assert!(out.iter().all(|&x| 0 <= x && x <= 100));
}

#[test]
fn a_reset_leaves_no_trace() {
    let inputs = series(&[10, 12, 11, 15, 9]);
    let fresh = strength().next_batch(&inputs);
    let mut used = strength();
    used.next_batch(&series(&[3, 99, 1]));
    used.reset();
    assert_eq!(used.next_batch(&inputs), fresh);
}

#[test]
fn points_of_one_bucket_replace_each_other_in_a_batch() {
    let inputs = [(second(0), 10), (second(1), 14), (second(1), 8), (second(2), 9)];
    let mut one_by_one = strength();
    let outputs: Vec<i64> = inputs.iter().map(|&p| one_by_one.next(p)).collect();
    assert_eq!(strength().next_batch(&inputs), outputs);
}

#[test]
fn bands_lie_above_the_average() {
    let mut bb = BollingerBands::new(Duration::from_secs(2), 3, maximum(2), buckets()).unwrap();
    // The average of the last two plus three times the larger of them.
    assert_eq!(bb.next_batch(&series(&[4, 8, 2])), vec![4 + 12, 6 + 24, 5 + 24]);
    bb.reset();
    assert_eq!(bb.next((second(0), 4)), 16);
}
