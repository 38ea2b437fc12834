//! What the batch statistics are.
//!
//! The laws here say what sums, means, variances, deviations and averages have to do with the
//! values that they are taken over, wherever the arithmetic is exact.
use crate::integers::{floor_root_exists, is_floor_root};
use crate::number::{
    minus_undoes_plus, running, running_is_left_fold, squares,
    times_distributes_over_minus, zero, ExactNumber, Number, TotalOrder,
};
use crate::simd::ema::{
    block, block_mix, block_output, blocks_are_recurrence, continued, continued_len, ema_of,
    ema_scalar_of, recurrence, recurrence_len,
};
use crate::simd::reductions::{
    lane_sum, mean_of, squared_differences, std_dev_of, sum_is_exact, sum_of,
    variance_is_mean_square, variance_of, variance_scalar_of,
};
use crate::simd::rolling::{
    deviation_is_root_mean_square, rolling_mean_is_exact, rolling_means,
    rolling_means_scalar, rolling_std_is_exact, rolling_stds, rolling_stds_scalar, trailing,
};
use vstd::prelude::*;

verus! {

/// The sum of the values, first to last.
pub open spec fn total<N: Number>(s: Seq<N>) -> N {
    s.fold_left(N::spec_of_usize(0), |sum: N, x: N| sum.spec_plus(x))
}

/// The sum of the squares of the values, first to last.
pub open spec fn square_total<N: Number>(s: Seq<N>) -> N {
    s.fold_left(N::spec_of_usize(0), |sum: N, x: N| sum.spec_plus(x.spec_times(x)))
}

/// The sum of the squared differences of the values from `c`, first to last.
pub open spec fn spread<N: Number>(s: Seq<N>, c: N) -> N {
    s.fold_left(
        N::spec_of_usize(0),
        |sum: N, x: N| sum.spec_plus(x.spec_minus(c).spec_times(x.spec_minus(c))),
    )
}

proof fn squares_add_up<N: Number>(s: Seq<N>)
    ensures
        running(zero::<N>(), squares(s)) == square_total(s),
    decreases s.len(),
{
    if s.len() > 0 {
        squares_add_up(s.drop_last());
        assert(squares(s).drop_last() =~= squares(s.drop_last()));
    }
}

proof fn differences_add_up<N: Number>(s: Seq<N>, c: N)
    ensures
        running(zero::<N>(), squared_differences(s, c)) == spread(s, c),
    decreases s.len(),
{
    if s.len() > 0 {
        differences_add_up(s.drop_last(), c);
        assert(squared_differences(s, c).drop_last() =~= squared_differences(s.drop_last(), c));
    }
}

/// The sums that are taken left to right are the sums of all values and of all their squares,
/// whatever the format.
pub proof fn scalar_sums_are_totals<N: Number>(v: Seq<N>)
    ensures
        running(zero::<N>(), v) == total(v),
        running(zero::<N>(), squares(v)) == square_total(v),
{
    running_is_left_fold(zero::<N>(), v);
    squares_add_up(v);
}

/// The sums that are taken in lanes are the sums of all values and of all their squares, where
/// the arithmetic is exact.
pub proof fn sums_are_totals<N: ExactNumber>(v: Seq<N>)
    ensures
        sum_of(v) == total(v),
        sum_of(squares(v)) == square_total(v),
{
    sum_is_exact(v);
    scalar_sums_are_totals(v);
}

/// Every fourth of the first `4 * blocks` values, from `lane` on.
pub open spec fn every_fourth<N>(v: Seq<N>, lane: int, blocks: nat) -> Seq<N> {
    Seq::new(blocks, |b: int| v[4 * b + lane])
}

proof fn lane_adds_every_fourth<N: Number>(v: Seq<N>, lane: int, blocks: nat)
    ensures
        lane_sum(v, lane, blocks) == total(every_fourth(v, lane, blocks)),
    decreases blocks,
{
    if blocks > 0 {
        let before = (blocks - 1) as nat;
        lane_adds_every_fourth(v, lane, before);
        assert(every_fourth(v, lane, blocks).drop_last() =~= every_fourth(v, lane, before));
    }
}

/// How a sum is taken in lanes, whatever the format: over whole blocks of four it is the sum of
/// four sums over every fourth value, and a value that does not fill a block is added last.
pub proof fn lanes_add_every_fourth<N: Number>(v: Seq<N>, x: N)
    ensures
        v.len() % 4 == 0 ==> sum_of(v) == total(every_fourth(v, 0, v.len() / 4)).spec_plus(
            total(every_fourth(v, 1, v.len() / 4)),
        ).spec_plus(total(every_fourth(v, 2, v.len() / 4))).spec_plus(
            total(every_fourth(v, 3, v.len() / 4)),
        ),
        v.len() % 4 != 3 ==> sum_of(v.push(x)) == sum_of(v).spec_plus(x),
{
    let blocks = v.len() / 4;
    let at = 4 * blocks as int;
    if v.len() % 4 == 0 {
        lane_adds_every_fourth(v, 0, blocks);
        lane_adds_every_fourth(v, 1, blocks);
        lane_adds_every_fourth(v, 2, blocks);
        lane_adds_every_fourth(v, 3, blocks);
        assert(v.skip(at) =~= Seq::empty());
    }
    if v.len() % 4 != 3 {
        let w = v.push(x);
        assert(w.len() / 4 == blocks);
        lane_ignores_rest(v, x, 0, blocks);
        lane_ignores_rest(v, x, 1, blocks);
        lane_ignores_rest(v, x, 2, blocks);
        lane_ignores_rest(v, x, 3, blocks);
        assert(w.skip(at).drop_last() =~= v.skip(at));
    }
}

proof fn lane_ignores_rest<N: Number>(v: Seq<N>, x: N, lane: int, blocks: nat)
    requires
        4 * blocks <= v.len(),
        0 <= lane < 4,
    ensures
        lane_sum(v.push(x), lane, blocks) == lane_sum(v, lane, blocks),
    decreases blocks,
{
    if blocks > 0 {
        lane_ignores_rest(v, x, lane, (blocks - 1) as nat);
    }
}

/// The mean times the number of values is their sum, where the arithmetic is exact and the mean
/// is not rounded.  The mean of nothing is zero.
pub proof fn mean_balances<N: ExactNumber>(v: Seq<N>)
    ensures
        v.len() == 0 ==> mean_of(v) == N::spec_of_usize(0),
        ({
            let count = N::spec_of_usize(v.len() as usize);
            v.len() > 0 && total(v).spec_over(count).spec_times(count) == total(v) ==> mean_of(
                v,
            ).spec_times(count) == total(v)
        }),
{
    sums_are_totals(v);
}

/// The variance times the number of values is the sum of their squared differences from the
/// mean, where the arithmetic is exact and neither quotient is rounded.  The variance of nothing
/// is zero.  Both ways to work it out agree.
pub proof fn variance_balances<N: ExactNumber>(v: Seq<N>)
    requires
        v.len() <= isize::MAX,
    ensures
        v.len() == 0 ==> variance_of(v) == N::spec_of_usize(0),
        variance_scalar_of(v) == variance_of(v),
        ({
            let count = N::spec_of_usize(v.len() as usize);
            let mean = total(v).spec_over(count);
            v.len() > 0 && mean.spec_times(count) == total(v) && spread(v, mean).spec_over(
                count,
            ).spec_times(count) == spread(v, mean) ==> variance_of(v).spec_times(count) == spread(
                v,
                mean,
            )
        }),
{
    sums_are_totals(v);
    sum_is_exact(v);
    let count = N::spec_of_usize(v.len() as usize);
    let mean = total(v).spec_over(count);
    if v.len() > 0 && mean.spec_times(count) == total(v) {
        variance_is_mean_square(v);
        differences_add_up(v, mean);
    }
}

/// The standard deviation times itself is the variance, where the root is not rounded.  A
/// variance below zero counts as zero.
pub proof fn deviation_squares_to_variance<N: ExactNumber>(v: Seq<N>)
    ensures
        ({
            let (variance, deviation) = (variance_of(v), std_dev_of(v));
            let below = variance.spec_below(N::spec_of_usize(0));
            &&& below ==> deviation == N::spec_of_usize(0)
            &&& !below && variance.spec_root().spec_times(variance.spec_root()) == variance
                ==> deviation.spec_times(deviation) == variance
        }),
{
    N::root_zero();
}

/// With whole numbers the standard deviation is the largest whose square does not exceed the
/// variance.
pub proof fn deviation_in_whole_numbers(v: Seq<i64>)
    ensures
        ({
            let (variance, deviation) = (variance_of(v), std_dev_of(v));
            &&& 0 <= deviation
            &&& variance < 0 ==> deviation == 0
            &&& variance >= 0 ==> deviation * deviation <= variance < (deviation + 1) * (deviation
                + 1)
        }),
{
    let variance = variance_of(v);
    let x = if variance < 0 {
        0
    } else {
        variance
    };
    floor_root_exists(x);
    let r = std_dev_of(v);
    assert(is_floor_root(x, r));
    if x == 0 {
        assert(r == 0) by (nonlinear_arith)
            requires
                0 <= r,
                r * r <= 0,
        ;
    }
}

/// A combination of `x` and `s` lies `k` of the way from `s` to `x`.
proof fn mix_moves_towards<N: ExactNumber>(x: N, k: N, s: N)
    ensures
        k.spec_times(x).spec_plus(N::spec_of_usize(1).spec_minus(k).spec_times(s)).spec_minus(s)
            == k.spec_times(x.spec_minus(s)),
{
    let one = N::spec_of_usize(1);
    let a = one.spec_minus(k);
    let (kx, ks) = (k.spec_times(x), k.spec_times(s));
    let rest = a.spec_times(s);
    // rest + ks == s
    N::minus_then_plus(one, k);
    N::times_commutes(s, a);
    N::times_commutes(s, k);
    N::times_distributes(s, a, k);
    N::times_one(s);
    assert(rest.spec_plus(ks) == s);
    // (kx - ks) + s == (kx - ks) + (ks + rest) == kx + rest
    times_distributes_over_minus(k, x, s);
    let d = kx.spec_minus(ks);
    N::minus_then_plus(kx, ks);
    N::plus_commutes(rest, ks);
    N::plus_associates(d, ks, rest);
    minus_undoes_plus(d, s);
}

proof fn recurrence_moves_towards<N: ExactNumber>(v: Seq<N>, k: N, s: N, i: int)
    requires
        0 <= i < v.len(),
    ensures
        ({
            let out = recurrence(v, k, s);
            let before = if i == 0 {
                s
            } else {
                out[i - 1]
            };
            out[i].spec_minus(before) == k.spec_times(v[i].spec_minus(before))
        }),
    decreases v.len(),
{
    let rest = v.drop_first();
    let first = recurrence(v, k, s)[0];
    mix_moves_towards(v[0], k, s);
    recurrence_len(v, k, s);
    recurrence_len(rest, k, first);
    if i > 0 {
        recurrence_moves_towards(rest, k, first, i - 1);
    }
}

/// An average that stands at `s` moves on from output to output by `k` of what the next value
/// lies away from it, where the arithmetic is exact.
pub proof fn continuation_moves_towards_values<N: ExactNumber>(v: Seq<N>, k: N, s: N, i: int)
    requires
        0 <= i < v.len(),
    ensures
        continued(v, k, s).len() == v.len(),
        ({
            let out = continued(v, k, s);
            let before = if i == 0 {
                s
            } else {
                out[i - 1]
            };
            out[i].spec_minus(before) == k.spec_times(v[i].spec_minus(before))
        }),
{
    blocks_are_recurrence(v, k, s);
    continued_len(v, k, s);
    recurrence_moves_towards(v, k, s, i);
}

/// The exponential moving average begins with the first value and moves on by `k` of what the
/// next value lies away from it, where the arithmetic is exact.
pub proof fn average_moves_towards_values<N: ExactNumber>(v: Seq<N>, k: N, i: int)
    requires
        0 <= i < v.len(),
    ensures
        ema_of(v, k).len() == v.len(),
        ema_scalar_of(v, k) == ema_of(v, k),
        i == 0 ==> ema_of(v, k)[i] == v[i],
        i > 0 ==> ema_of(v, k)[i].spec_minus(ema_of(v, k)[i - 1]) == k.spec_times(
            v[i].spec_minus(ema_of(v, k)[i - 1]),
        ),
{
    let rest = v.skip(1);
    blocks_are_recurrence(rest, k, v[0]);
    continued_len(rest, k, v[0]);
    if i > 0 {
        continuation_moves_towards_values(rest, k, v[0], i - 1);
    }
}

/// The average of nothing is nothing.
pub proof fn average_of_nothing<N: Number>(k: N, s: N)
    ensures
        ema_of(Seq::<N>::empty(), k).len() == 0,
        ema_scalar_of(Seq::<N>::empty(), k).len() == 0,
        continued(Seq::<N>::empty(), k, s).len() == 0,
{
    continued_len(Seq::<N>::empty(), k, s);
}

proof fn recurrence_does_not_look_ahead<N: Number>(v: Seq<N>, w: Seq<N>, k: N, s: N, i: int)
    requires
        0 <= i < v.len(),
        v.len() == w.len(),
        v.take(i + 1) == w.take(i + 1),
    ensures
        recurrence(v, k, s)[i] == recurrence(w, k, s)[i],
    decreases i,
{
    assert(v[0] == v.take(i + 1)[0] && w[0] == w.take(i + 1)[0]);
    recurrence_len(v.drop_first(), k, recurrence(v, k, s)[0]);
    recurrence_len(w.drop_first(), k, recurrence(w, k, s)[0]);
    if i > 0 {
        assert(v.drop_first().take(i) =~= v.take(i + 1).drop_first());
        assert(w.drop_first().take(i) =~= w.take(i + 1).drop_first());
        recurrence_does_not_look_ahead(
            v.drop_first(),
            w.drop_first(),
            k,
            recurrence(v, k, s)[0],
            i - 1,
        );
    }
}

/// An output does not depend on values that come after it, whatever the format.
pub proof fn average_does_not_look_ahead<N: Number>(v: Seq<N>, w: Seq<N>, k: N, s: N, i: int)
    requires
        0 <= i < v.len(),
        v.len() == w.len(),
        v.take(i + 1) == w.take(i + 1),
    ensures
        continued(v, k, s)[i] == continued(w, k, s)[i],
    decreases v.len(),
{
    let (x, y) = (v.take(4), w.take(4));
    continued_len(v, k, s);
    continued_len(w, k, s);
    assert forall|j: int| 0 <= j <= i implies #[trigger] v[j] == w[j] by {
        assert(v[j] == v.take(i + 1)[j] && w[j] == w.take(i + 1)[j]);
    }
    if v.len() < 4 {
        recurrence_does_not_look_ahead(v, w, k, s, i);
    } else if i < 4 {
        assert(forall|j: int| 0 <= j <= i ==> #[trigger] x[j] == y[j]);
        assert(block_mix(x, k, i) == block_mix(y, k, i));
        assert(block_output(x, k, s, i) == block_output(y, k, s, i));
        assert(block(x, k, s)[i] == block(y, k, s)[i]);
        continued_len(v.skip(4), k, block(x, k, s)[3]);
        continued_len(w.skip(4), k, block(y, k, s)[3]);
        assert(continued(v, k, s)[i] == block(x, k, s)[i]);
        assert(continued(w, k, s)[i] == block(y, k, s)[i]);
    } else {
        assert(x =~= y);
        assert(v.skip(4).take(i - 3) =~= v.take(i + 1).skip(4));
        assert(w.skip(4).take(i - 3) =~= w.take(i + 1).skip(4));
        average_does_not_look_ahead(v.skip(4), w.skip(4), k, block(x, k, s)[3], i - 4);
    }
}

/// The values that a rolling statistic at `i` is taken over: the last `window` of them up to
/// there, or all of them while there are fewer.
pub open spec fn window_at<N>(v: Seq<N>, window: int, i: int) -> Seq<N> {
    if i + 1 < window {
        v.subrange(0, i + 1)
    } else {
        v.subrange(i + 1 - window, i + 1)
    }
}

/// A rolling mean times the number of values in its window is their sum, where the arithmetic
/// is exact and the quotient is not rounded: the sum over the number of values while the window
/// has not filled, and from there on one over the length of the window.  Both ways to work it
/// out agree.
pub proof fn rolling_mean_balances<N: ExactNumber>(v: Seq<N>, window: int, i: int)
    requires
        1 <= window <= isize::MAX,
        0 <= i < v.len() <= isize::MAX,
    ensures
        rolling_means(v, window).len() == v.len(),
        rolling_means_scalar(v, window) == rolling_means(v, window),
        ({
            let w = window_at(v, window, i);
            let count = N::spec_of_usize(w.len() as usize);
            let one = N::spec_of_usize(1);
            let exact = if i + 1 < window {
                total(w).spec_over(count).spec_times(count) == total(w)
            } else {
                one.spec_over(count).spec_times(count) == one
            };
            exact ==> rolling_means(v, window)[i].spec_times(count) == total(w)
        }),
{
    assert forall|j: int| 0 <= j < v.len() implies rolling_means_scalar(v, window)[j]
        == rolling_means(v, window)[j] by {
        rolling_mean_is_exact(v, window, j);
    }
    assert(rolling_means_scalar(v, window) =~= rolling_means(v, window));
    rolling_mean_is_exact(v, window, i);
    let w = window_at(v, window, i);
    scalar_sums_are_totals(w);
    let count = N::spec_of_usize(w.len() as usize);
    if i + 1 < window {
        assert(v.take(i + 1) =~= w);
        N::counts_add(i as usize, 1);
    } else {
        let share = N::spec_of_usize(1).spec_over(count);
        N::times_associates(total(w), share, count);
        N::times_one(total(w));
    }
}

/// A rolling standard deviation squared, times the number of values in its window, is the sum of
/// their squared differences from the mean of the window, where the arithmetic is exact and
/// neither a quotient nor the root is rounded.  A variance below zero counts as zero.  Both ways
/// to work it out agree.
pub proof fn rolling_std_balances<N: ExactNumber + TotalOrder>(v: Seq<N>, window: int, i: int)
    requires
        1 <= window <= isize::MAX,
        0 <= i < v.len() <= isize::MAX,
    ensures
        rolling_stds(v, window).len() == v.len(),
        rolling_stds_scalar(v, window) == rolling_stds(v, window),
        ({
            let w = window_at(v, window, i);
            let count = N::spec_of_usize(w.len() as usize);
            let mean = total(w).spec_over(count);
            let variance = spread(w, mean).spec_over(count);
            let root = variance.spec_root();
            let out = rolling_stds(v, window)[i];
            let below = variance.spec_below(N::spec_of_usize(0));
            mean.spec_times(count) == total(w) ==> {
                &&& below ==> out == N::spec_of_usize(0)
                &&& !below && variance.spec_times(count) == spread(w, mean) && root.spec_times(root)
                    == variance ==> out.spec_times(out).spec_times(count) == spread(w, mean)
            }
        }),
{
    assert forall|j: int| 0 <= j < v.len() implies rolling_stds_scalar(v, window)[j]
        == rolling_stds(v, window)[j] by {
        rolling_std_is_exact(v, window, j);
    }
    assert(rolling_stds_scalar(v, window) =~= rolling_stds(v, window));
    rolling_std_is_exact(v, window, i);
    let w = window_at(v, window, i);
    assert(w =~= trailing(v, window, i));
    let count = N::spec_of_usize(w.len() as usize);
    let mean = total(w).spec_over(count);
    if mean.spec_times(count) == total(w) {
        sums_are_totals(w);
        deviation_is_root_mean_square(w);
        differences_add_up(w, mean);
        N::order_laws();
        N::root_zero();
    }
}

/// The average by the recurrence alone, whatever the format: each output is `k` times the value
/// and `1 - k` times the output before.
pub proof fn average_follows_recurrence<N: Number>(v: Seq<N>, k: N, i: int)
    requires
        0 <= i < v.len(),
    ensures
        ema_scalar_of(v, k).len() == v.len(),
        i == 0 ==> ema_scalar_of(v, k)[i] == v[i],
        i > 0 ==> ema_scalar_of(v, k)[i] == k.spec_times(v[i]).spec_plus(
            N::spec_of_usize(1).spec_minus(k).spec_times(ema_scalar_of(v, k)[i - 1]),
        ),
{
    recurrence_len(v.skip(1), k, v[0]);
    if i > 0 {
        recurrence_step_by_step(v.skip(1), k, v[0], i - 1);
    }
}

proof fn recurrence_step_by_step<N: Number>(v: Seq<N>, k: N, s: N, i: int)
    requires
        0 <= i < v.len(),
    ensures
        ({
            let out = recurrence(v, k, s);
            let before = if i == 0 {
                s
            } else {
                out[i - 1]
            };
            out[i] == k.spec_times(v[i]).spec_plus(
                N::spec_of_usize(1).spec_minus(k).spec_times(before),
            )
        }),
    decreases v.len(),
{
    let rest = v.drop_first();
    let first = recurrence(v, k, s)[0];
    recurrence_len(v, k, s);
    recurrence_len(rest, k, first);
    if i > 0 {
        recurrence_step_by_step(rest, k, first, i - 1);
    }
}

} // verus!
