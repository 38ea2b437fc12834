//! What the relative strength index measures.
//!
//! The laws here say what the gains and the losses of a series are, in terms of its values, and
//! what share of them the index gives.
use crate::indicators::held::{having_seen, same_bucket_at};
use crate::indicators::relative_strength_index::{
    closes_after, detector_after, gains, losses, outputs_by_averages, reference,
    replaces, series_by_averages, strength, RelativeStrengthIndex, RelativeStrengthIndexModel,
};
use crate::number::{
    minus_undoes_plus, plus_cancels, plus_exchange, times_distributes_over_minus, ExactNumber,
    Number, TotalOrder,
};
use crate::text::{decimal, decimal_reads_back, reads_as};
use crate::time::{BucketDetector, Duration, Timestamp};
use crate::traits::{outputs, state_after, Next, Reset};
use vstd::prelude::*;

verus! {

/// Whether the bucket of point `i` of a series begins with its point `b`, or before the series
/// where `b` is -1.
pub open spec fn bucket_begins<N, D: BucketDetector>(
    d: D,
    inputs: Seq<(Timestamp, N)>,
    i: int,
    b: int,
) -> bool {
    &&& -1 <= b <= i < inputs.len()
    &&& b >= 0 ==> !same_bucket_at(d, inputs, b)
    &&& forall|k: int| b < k <= i ==> #[trigger] same_bucket_at(d, inputs, k)
}

/// The close before a bucket that begins with point `b`: the value of the point before it.
/// Before the series, `start` holds the close before the bucket then current and the newest
/// value in it.
pub open spec fn close_before<N>(
    start: (Option<N>, Option<N>),
    inputs: Seq<(Timestamp, N)>,
    b: int,
) -> Option<N> {
    if b < 0 {
        start.0
    } else if b == 0 {
        start.1
    } else {
        Some(inputs[b - 1].1)
    }
}

/// The two ways to run a detector over a series agree.
proof fn detectors_agree<N, D: BucketDetector>(d: D, inputs: Seq<(Timestamp, N)>)
    ensures
        detector_after(d, inputs) == having_seen(d, inputs),
    decreases inputs.len(),
{
    if inputs.len() > 0 {
        detectors_agree(d, inputs.drop_last());
    }
}

/// All points of a bucket are measured against the close before it.
pub proof fn bucket_has_one_close<N, D: BucketDetector>(
    d: D,
    start: (Option<N>, Option<N>),
    inputs: Seq<(Timestamp, N)>,
    i: int,
    b: int,
)
    requires
        0 <= i,
        bucket_begins(d, inputs, i, b),
    ensures
        reference(d, start, inputs, i) == close_before(start, inputs, b),
    decreases i,
{
    reveal_with_fuel(closes_after, 2);
    let front = inputs.take(i + 1);
    assert(front.drop_last() =~= inputs.take(i));
    assert(front.take(i) =~= inputs.take(i));
    detectors_agree(d, inputs.take(i));
    assert(replaces(d, front, i) == same_bucket_at(d, inputs, i));
    if b < i {
        assert(same_bucket_at(d, inputs, i));
        if i > 0 {
            bucket_has_one_close(d, start, inputs, i - 1, b);
        }
    } else if i > 0 {
        assert(inputs.take(i).last() == inputs[i - 1]);
    }
}

/// The gain of a point above the close before its bucket is what it lies above it, and its loss
/// is zero.  The loss of any other point is what it lies below the close, and its gain is zero.
/// Without a close there is neither gain nor loss.  The averages get both at the time of the
/// point.
pub proof fn gains_and_losses<N: Number, D: BucketDetector>(
    d: D,
    start: (Option<N>, Option<N>),
    inputs: Seq<(Timestamp, N)>,
    i: int,
    b: int,
)
    requires
        0 <= i,
        bucket_begins(d, inputs, i, b),
    ensures
        ({
            let (gain, loss) = (gains(d, start, inputs)[i], losses(d, start, inputs)[i]);
            let value = inputs[i].1;
            let none = N::spec_of_usize(0);
            &&& gain.0 == inputs[i].0
            &&& loss.0 == inputs[i].0
            &&& match close_before(start, inputs, b) {
                Some(close) => {
                    &&& close.spec_below(value) ==> gain.1 == value.spec_minus(close) && loss.1
                        == none
                    &&& !close.spec_below(value) ==> gain.1 == none && loss.1 == close.spec_minus(
                        value,
                    )
                },
                None => gain.1 == none && loss.1 == none,
            }
        }),
        gains(d, start, inputs).len() == inputs.len(),
        losses(d, start, inputs).len() == inputs.len(),
{
    bucket_has_one_close(d, start, inputs, i, b);
}

/// Nothing less a difference is the difference the other way round.
proof fn difference_turns<N: ExactNumber>(a: N, b: N)
    ensures
        N::spec_of_usize(0).spec_minus(a.spec_minus(b)) == b.spec_minus(a),
{
    let z = N::spec_of_usize(0);
    let (down, up) = (a.spec_minus(b), b.spec_minus(a));
    N::minus_then_plus(a, b);
    N::minus_then_plus(b, a);
    // (up + down) + b == up + a == b
    N::plus_associates(up, down, b);
    N::plus_zero(b);
    N::plus_commutes(z, b);
    plus_cancels(up.spec_plus(down), z, b);
    minus_undoes_plus(up, down);
}

/// A number less nothing is the number.
proof fn minus_nothing<N: ExactNumber>(a: N)
    ensures
        a.spec_minus(N::spec_of_usize(0)) == a,
{
    N::plus_zero(a);
    minus_undoes_plus(a, N::spec_of_usize(0));
}

/// The gain of a point less its loss is its value less the close before its bucket, where the
/// arithmetic is exact.
pub proof fn gain_less_loss_is_change<N: ExactNumber, D: BucketDetector>(
    d: D,
    start: (Option<N>, Option<N>),
    inputs: Seq<(Timestamp, N)>,
    i: int,
    b: int,
)
    requires
        0 <= i,
        bucket_begins(d, inputs, i, b),
        close_before(start, inputs, b) is Some,
    ensures
        gains(d, start, inputs)[i].1.spec_minus(losses(d, start, inputs)[i].1)
            == inputs[i].1.spec_minus(close_before(start, inputs, b)->0),
{
    gains_and_losses(d, start, inputs, i, b);
    let (value, close) = (inputs[i].1, close_before(start, inputs, b)->0);
    minus_nothing(value.spec_minus(close));
    difference_turns(close, value);
}

/// The sum of the values of a series, first to last.
pub open spec fn added_up<N: Number>(s: Seq<(Timestamp, N)>) -> N {
    s.fold_left(N::spec_of_usize(0), |sum: N, p: (Timestamp, N)| sum.spec_plus(p.1))
}

/// `(b - a) + (c - b) == c - a`
proof fn differences_join<N: ExactNumber>(a: N, b: N, c: N)
    ensures
        b.spec_minus(a).spec_plus(c.spec_minus(b)) == c.spec_minus(a),
{
    let (p, q) = (b.spec_minus(a), c.spec_minus(b));
    N::minus_then_plus(b, a);
    N::minus_then_plus(c, b);
    N::minus_then_plus(c, a);
    N::plus_commutes(p, q);
    N::plus_associates(q, p, a);
    plus_cancels(q.spec_plus(p), c.spec_minus(a), a);
}

/// `(a - b) + (c - d) == (a + c) - (b + d)`
proof fn differences_add<N: ExactNumber>(a: N, b: N, c: N, d: N)
    ensures
        a.spec_minus(b).spec_plus(c.spec_minus(d)) == a.spec_plus(c).spec_minus(b.spec_plus(d)),
{
    let (p, q) = (a.spec_minus(b), c.spec_minus(d));
    N::minus_then_plus(a, b);
    N::minus_then_plus(c, d);
    plus_exchange(p, b, q, d);
    minus_undoes_plus(p.spec_plus(q), b.spec_plus(d));
}

/// Over points in buckets of their own, the gains less the losses add up to the newest value
/// less the one that the series started from, where the arithmetic is exact.
pub proof fn movements_add_up<N: ExactNumber, D: BucketDetector>(
    d: D,
    start: (Option<N>, Option<N>),
    inputs: Seq<(Timestamp, N)>,
)
    requires
        inputs.len() > 0,
        forall|k: int| 0 <= k < inputs.len() ==> !#[trigger] same_bucket_at(d, inputs, k),
    ensures
        added_up(gains(d, start, inputs)).spec_minus(added_up(losses(d, start, inputs)))
            == inputs.last().1.spec_minus(
            match start.1 {
                Some(close) => close,
                None => inputs[0].1,
            },
        ),
    decreases inputs.len(),
{
    let (up, down) = (gains(d, start, inputs), losses(d, start, inputs));
    let before = inputs.drop_last();
    let n = before.len() as int;
    let (up_before, down_before) = (gains(d, start, before), losses(d, start, before));
    assert forall|i: int| 0 <= i < n implies #[trigger] reference(d, start, inputs, i)
        == reference(d, start, before, i) by {
        assert(before.take(i + 1) =~= inputs.take(i + 1));
    }
    assert(up.drop_last() =~= up_before);
    assert(down.drop_last() =~= down_before);
    assert(!same_bucket_at(d, inputs, n));
    gains_and_losses(d, start, inputs, n, n);
    let first = match start.1 {
        Some(close) => close,
        None => inputs[0].1,
    };
    let z = N::spec_of_usize(0);
    let (gain, loss) = (up[n].1, down[n].1);
    let (g, l) = (added_up(up_before), added_up(down_before));
    assert(added_up(up) == g.spec_plus(gain));
    assert(added_up(down) == l.spec_plus(loss));
    differences_add(g, l, gain, loss);
    if n == 0 {
        assert(g == z && l == z);
        minus_nothing(z);
        if start.1 is Some {
            gain_less_loss_is_change(d, start, inputs, n, n);
        } else {
            minus_nothing(z);
            N::minus_then_plus(first, first);
            N::plus_zero(first);
            N::plus_commutes(z, first);
            plus_cancels(first.spec_minus(first), z, first);
        }
        let c = gain.spec_minus(loss);
        N::plus_zero(c);
        N::plus_commutes(z, c);
    } else {
        assert forall|k: int| 0 <= k < before.len() implies !#[trigger] same_bucket_at(
            d,
            before,
            k,
        ) by {
            assert(before.take(k) =~= inputs.take(k));
            assert(!same_bucket_at(d, inputs, k));
        }
        movements_add_up(d, start, before);
        gain_less_loss_is_change(d, start, inputs, n, n);
        differences_join(first, inputs[n - 1].1, inputs[n].1);
    }
}

/// The index of two averages: 50 if neither has moved, 100 if nothing was lost, and else the
/// share of the average gain in both averages, in percent, where the arithmetic is exact and
/// neither quotient is rounded.
pub proof fn strength_is_share<N: ExactNumber + TotalOrder>(avg_up: N, avg_down: N)
    requires
        avg_down != N::spec_of_usize(0) ==> {
            let ratio = avg_up.spec_over(avg_down);
            let base = N::spec_of_usize(1).spec_plus(ratio);
            &&& ratio.spec_times(avg_down) == avg_up
            &&& N::spec_of_usize(100).spec_over(base).spec_times(base) == N::spec_of_usize(100)
        },
    ensures
        avg_down == N::spec_of_usize(0) && avg_up == N::spec_of_usize(0) ==> strength(
            avg_up,
            avg_down,
        ) == N::spec_of_usize(50),
        avg_down == N::spec_of_usize(0) && avg_up != N::spec_of_usize(0) ==> strength(
            avg_up,
            avg_down,
        ) == N::spec_of_usize(100),
        avg_down != N::spec_of_usize(0) ==> strength(avg_up, avg_down).spec_times(
            avg_up.spec_plus(avg_down),
        ) == N::spec_of_usize(100).spec_times(avg_up),
{
    N::order_laws();
    let (u, d, h, one) = (avg_up, avg_down, N::spec_of_usize(100), N::spec_of_usize(1));
    if d != N::spec_of_usize(0) {
        let r = u.spec_over(d);
        let base = one.spec_plus(r);
        let q = h.spec_over(base);
        let s = h.spec_minus(q);
        // base * d == u + d
        N::times_commutes(base, d);
        N::times_distributes(d, one, r);
        N::times_one(d);
        N::times_commutes(d, r);
        N::plus_commutes(d, u);
        assert(base.spec_times(d) == u.spec_plus(d));
        // s * base == h * base - h == h * r
        N::times_commutes(s, base);
        times_distributes_over_minus(base, h, q);
        N::times_commutes(base, h);
        N::times_commutes(base, q);
        N::times_distributes(h, one, r);
        N::times_one(h);
        N::plus_commutes(h, h.spec_times(r));
        minus_undoes_plus(h.spec_times(r), h);
        assert(s.spec_times(base) == h.spec_times(r));
        // s * (base * d) == (h * r) * d == h * u
        N::times_associates(s, base, d);
        N::times_associates(h, r, d);
    }
}

/// With whole numbers the index is what a hundred over one and the ratio of the averages,
/// rounded down, leaves of a hundred.
pub proof fn strength_in_whole_numbers(avg_up: i64, avg_down: i64) -> (r: (int, int))
    requires
        0 <= avg_up < i64::MAX,
        0 < avg_down,
    ensures
        r.0 * avg_down <= avg_up < (r.0 + 1) * avg_down,
        r.1 * (1 + r.0) <= 100 < (r.1 + 1) * (1 + r.0),
        strength(avg_up, avg_down) == 100 - r.1,
{
    let (u, d) = (avg_up as int, avg_down as int);
    let ratio = u / d;
    assert(ratio * d <= u < (ratio + 1) * d && 0 <= ratio <= u) by (nonlinear_arith)
        requires
            ratio == u / d,
            0 <= u,
            0 < d,
    ;
    let base = 1 + ratio;
    let part = 100int / base;
    assert(part * base <= 100 < (part + 1) * base && 0 <= part <= 100) by (nonlinear_arith)
        requires
            part == 100int / base,
            1 <= base,
    ;
    (ratio, part)
}

/// Every output is worked out from the averages that the two inner indicators give of the gains
/// and of the losses: their share in percent, 50 without movement, and 100 without losses.
pub proof fn outputs_are_shares<
    N: ExactNumber + TotalOrder,
    D: BucketDetector,
    E: Next<N, Output = N> + Reset,
>(m: RelativeStrengthIndexModel<N, D, E::Model>, inputs: Seq<(Timestamp, N)>, i: int)
    requires
        0 <= i < inputs.len(),
        ({
            let start = (m.prev_close, m.last);
            let avg_up = outputs::<E, N>(m.up, gains(m.detector, start, inputs))[i];
            let avg_down = outputs::<E, N>(m.down, losses(m.detector, start, inputs))[i];
            let ratio = avg_up.spec_over(avg_down);
            let base = N::spec_of_usize(1).spec_plus(ratio);
            avg_down != N::spec_of_usize(0) ==> ratio.spec_times(avg_down) == avg_up
                && N::spec_of_usize(100).spec_over(base).spec_times(base) == N::spec_of_usize(100)
        }),
    ensures
        ({
            let start = (m.prev_close, m.last);
            let avg_up = outputs::<E, N>(m.up, gains(m.detector, start, inputs))[i];
            let avg_down = outputs::<E, N>(m.down, losses(m.detector, start, inputs))[i];
            let output = outputs::<RelativeStrengthIndex<N, D, E>, N>(m, inputs)[i];
            &&& avg_down == N::spec_of_usize(0) && avg_up == N::spec_of_usize(0) ==> output
                == N::spec_of_usize(50)
            &&& avg_down == N::spec_of_usize(0) && avg_up != N::spec_of_usize(0) ==> output
                == N::spec_of_usize(100)
            &&& avg_down != N::spec_of_usize(0) ==> output.spec_times(avg_up.spec_plus(avg_down))
                == N::spec_of_usize(100).spec_times(avg_up)
        }),
{
    outputs_by_averages::<N, D, E>(m, inputs);
    let start = (m.prev_close, m.last);
    strength_is_share(
        outputs::<E, N>(m.up, gains(m.detector, start, inputs))[i],
        outputs::<E, N>(m.down, losses(m.detector, start, inputs))[i],
    );
}

/// What the index keeps of a series: the newest value, the close before its bucket, and the two
/// averages with the gains and the losses taken in.
pub proof fn series_leaves_closes<N: Number, D: BucketDetector, E: Next<N, Output = N> + Reset>(
    m: RelativeStrengthIndexModel<N, D, E::Model>,
    inputs: Seq<(Timestamp, N)>,
    b: int,
)
    requires
        inputs.len() > 0,
        bucket_begins(m.detector, inputs, inputs.len() - 1, b),
    ensures
        ({
            let start = (m.prev_close, m.last);
            let after = state_after::<RelativeStrengthIndex<N, D, E>, N>(m, inputs);
            &&& after.last == Some(inputs.last().1)
            &&& after.prev_close == close_before(start, inputs, b)
            &&& after.up == state_after::<E, N>(m.up, gains(m.detector, start, inputs))
            &&& after.down == state_after::<E, N>(m.down, losses(m.detector, start, inputs))
            &&& after.detector == having_seen(m.detector, inputs)
            &&& after.duration == m.duration
        }),
{
    let start = (m.prev_close, m.last);
    series_by_averages::<N, D, E>(m, inputs);
    detectors_agree(m.detector, inputs);
    bucket_has_one_close(m.detector, start, inputs, inputs.len() - 1, b);
    assert(inputs.take(inputs.len() as int) =~= inputs);
}

/// An index starts, and starts again after a reset, without closes, with the span that it was
/// made for.
pub proof fn starts_without_closes<N: Number, D: BucketDetector, E: Next<N, Output = N> + Reset>(
    duration: Duration,
    up: E::Model,
    down: E::Model,
    detector: D,
    m: RelativeStrengthIndexModel<N, D, E::Model>,
)
    ensures
        ({
            let start = RelativeStrengthIndex::<N, D, E>::initial(duration, up, down, detector);
            let again = RelativeStrengthIndex::<N, D, E>::cleared(m);
            &&& start.prev_close is None
            &&& start.last is None
            &&& start.duration == duration
            &&& start.up == up
            &&& start.down == down
            &&& start.detector == detector
            &&& again.prev_close is None
            &&& again.last is None
            &&& again.duration == m.duration
            &&& again.up == E::cleared(m.up)
            &&& again.down == E::cleared(m.down)
            &&& again.detector == m.detector.spec_fresh()
        }),
{
}

/// The label gives the span in whole days.
pub proof fn label_tells_days<N: Number, D: BucketDetector, E: Next<N, Output = N> + Reset>(
    duration: Duration,
) -> (digits: Seq<char>)
    ensures
        RelativeStrengthIndex::<N, D, E>::label_of(duration) == "RSI("@ + digits + " days)"@,
        reads_as(digits) * 86_400 <= duration.secs < (reads_as(digits) + 1) * 86_400,
{
    let days = (duration.secs / 86_400) as nat;
    decimal_reads_back(days);
    decimal(days)
}

/// The index of two averages, whatever the format: what a hundred over one and their ratio
/// leaves of a hundred, unless nothing was lost.
pub proof fn strength_in_percent<N: Number>(avg_up: N, avg_down: N)
    ensures
        avg_down.spec_is_zero() && avg_up.spec_is_zero() ==> strength(avg_up, avg_down)
            == N::spec_of_usize(50),
        avg_down.spec_is_zero() && !avg_up.spec_is_zero() ==> strength(avg_up, avg_down)
            == N::spec_of_usize(100),
        !avg_down.spec_is_zero() ==> strength(avg_up, avg_down) == N::spec_of_usize(
            100,
        ).spec_minus(
            N::spec_of_usize(100).spec_over(
                N::spec_of_usize(1).spec_plus(avg_up.spec_over(avg_down)),
            ),
        ),
{
}

} // verus!
