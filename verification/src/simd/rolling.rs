//! The rolling mean and standard deviation over a slice.
//!
//! The output at `i` is the statistic over the trailing window
//! `values[i + 1 - w ..= i]`, and over `values[..= i]` while the window of `w`
//! values has not filled.  A running sum takes in one value and lets go of one at
//! every step, so that the work does not grow with the window.
use crate::lanes::Lanes;
use crate::number::{
    exact_division, one, plus_cancels, running, running_over_parts, running_shifts, squares, zero, zeros,
    ExactNumber, Number, TotalOrder,
};
use crate::simd::reductions::{
    mean_of, squared_differences, sum, sum_is_exact, sum_of, sum_scalar, sum_squares,
    sum_squares_scalar, variance_from, variance_is_mean_square,
};
use vstd::prelude::*;

verus! {

/// The running sum at `i`: `first` at the end of the first full window, and from there on
/// the value that enters less the value that leaves is added.
pub open spec fn sliding<N: Number>(first: N, v: Seq<N>, window: int, i: int) -> N
    decreases i,
{
    if i < window || i <= 0 {
        first
    } else {
        sliding(first, v, window, i - 1).spec_plus(v[i].spec_minus(v[i - window]))
    }
}

/// The mean at `i` while the window has not filled.
pub open spec fn partial_mean_at<N: Number>(v: Seq<N>, i: int) -> N {
    running(zero(), v.take(i + 1)).spec_over(N::spec_of_usize(i as usize).spec_plus(one()))
}

/// The mean at `i`, where the first full window adds up to `first`.
pub open spec fn rolling_mean_at<N: Number>(first: N, v: Seq<N>, window: int, i: int) -> N {
    if i < window - 1 {
        partial_mean_at(v, i)
    } else {
        sliding(first, v, window, i).spec_times(
            one::<N>().spec_over(N::spec_of_usize(window as usize)),
        )
    }
}

/// The standard deviation that belongs to the sum `s` and the sum of squares `q` of `n`
/// values.  A variance that rounding has driven below zero counts as zero.
pub open spec fn deviation<N: Number>(s: N, q: N, n: N) -> N {
    variance_from(s, q, n).spec_greater(zero()).spec_root()
}

/// The standard deviation at `i` while the window has not filled.
pub open spec fn partial_std_at<N: Number>(v: Seq<N>, i: int) -> N {
    deviation(
        running(zero(), v.take(i + 1)),
        running(zero(), squares(v).take(i + 1)),
        N::spec_of_usize((i + 1) as usize),
    )
}

/// The standard deviation at `i`, where the first full window adds up to `first` and its
/// squares to `first_square`.
pub open spec fn rolling_std_at<N: Number>(
    first: N,
    first_square: N,
    v: Seq<N>,
    window: int,
    i: int,
) -> N {
    if i < window - 1 {
        partial_std_at(v, i)
    } else {
        deviation(
            sliding(first, v, window, i),
            sliding(first_square, squares(v), window, i),
            N::spec_of_usize(window as usize),
        )
    }
}

/// The rolling means of a series, as [`rolling_mean`] computes them.
pub open spec fn rolling_means<N: Number>(v: Seq<N>, window: int) -> Seq<N> {
    Seq::new(v.len(), |i: int| rolling_mean_at(sum_of(v.take(window)), v, window, i))
}

/// The rolling standard deviations of a series, as [`rolling_std`] computes them.
pub open spec fn rolling_stds<N: Number>(v: Seq<N>, window: int) -> Seq<N> {
    Seq::new(
        v.len(),
        |i: int|
            rolling_std_at(
                sum_of(v.take(window)),
                sum_of(squares(v.take(window))),
                v,
                window,
                i,
            ),
    )
}

/// The rolling means with every sum taken left to right.
pub open spec fn rolling_means_scalar<N: Number>(v: Seq<N>, window: int) -> Seq<N> {
    Seq::new(v.len(), |i: int| rolling_mean_at(running(zero(), v.take(window)), v, window, i))
}

/// The rolling standard deviations with every sum taken left to right.
pub open spec fn rolling_stds_scalar<N: Number>(v: Seq<N>, window: int) -> Seq<N> {
    Seq::new(
        v.len(),
        |i: int|
            rolling_std_at(
                running(zero(), v.take(window)),
                running(zero(), squares(v.take(window))),
                v,
                window,
                i,
            ),
    )
}

/// The rolling mean of `values` over `window` positions.
pub fn rolling_mean<N: Number, L: Lanes<N>>(values: &[N], window: usize) -> (r: Vec<N>)
    requires
        window >= 1,
    ensures
        r@ == rolling_means(values@, window as int),
{
    let mut out = zeros(values.len());
    rolling_mean_into::<N, L>(values, window, out.as_mut_slice());
    out
}

/// Writes the means over the part of `values` before the first full window.
fn partial_means_into<N: Number>(values: &[N], end: usize, out: &mut [N])
    requires
        values@.len() == old(out)@.len(),
        end <= values@.len(),
    ensures
        final(out)@.len() == values@.len(),
        forall|j: int| 0 <= j < end ==> final(out)@[j] == partial_mean_at(values@, j),
{
    let mut total = N::of_usize(0);
    let mut i: usize = 0;
    proof {
        assert(values@.take(0) =~= Seq::empty());
    }
    while i < end
        invariant
            i <= end <= values@.len(),
            values@.len() == out@.len(),
            total == running(zero(), values@.take(i as int)),
            forall|j: int| 0 <= j < i ==> out@[j] == partial_mean_at(values@, j),
        decreases end - i,
    {
        total = total.plus(values[i]);
        proof {
            assert(values@.take(i + 1).drop_last() =~= values@.take(i as int));
        }
        out[i] = total.over(N::of_usize(i).plus(N::of_usize(1)));
        i = i + 1;
    }
}

/// Writes the means from the first full window on, which adds up to `first`.
fn full_means_into<N: Number>(values: &[N], window: usize, first: N, out: &mut [N])
    requires
        values@.len() == old(out)@.len(),
        1 <= window <= values@.len(),
        forall|j: int|
            0 <= j < window - 1 ==> old(out)@[j] == rolling_mean_at(
                first,
                values@,
                window as int,
                j,
            ),
    ensures
        final(out)@ == Seq::new(
            values@.len(),
            |j: int| rolling_mean_at(first, values@, window as int, j),
        ),
{
    let n = values.len();
    let share = N::of_usize(1).over(N::of_usize(window));
    out[window - 1] = first.times(share);
    let mut s = first;
    let mut i: usize = window;
    while i < n
        invariant
            1 <= window <= i <= n,
            n == values@.len(),
            n == out@.len(),
            share == one::<N>().spec_over(N::spec_of_usize(window)),
            s == sliding(first, values@, window as int, i - 1),
            forall|j: int|
                0 <= j < i ==> out@[j] == rolling_mean_at(first, values@, window as int, j),
        decreases n - i,
    {
        s = s.plus(values[i].minus(values[i - window]));
        out[i] = s.times(share);
        i = i + 1;
    }
    proof {
        assert(out@ =~= Seq::new(
            values@.len(),
            |j: int| rolling_mean_at(first, values@, window as int, j),
        ));
    }
}

/// Writes the rolling mean of `values` over `window` positions into `out`, which is as
/// long.
pub fn rolling_mean_into<N: Number, L: Lanes<N>>(values: &[N], window: usize, out: &mut [N])
    requires
        values@.len() == old(out)@.len(),
        window >= 1,
    ensures
        final(out)@ == rolling_means(values@, window as int),
{
    let n = values.len();
    if n < window {
        partial_means_into(values, n, out);
        proof {
            assert(out@ =~= rolling_means(values@, window as int));
        }
        return;
    }
    partial_means_into(values, window - 1, out);
    let (head, _) = values.split_at(window);
    proof {
        assert(head@ =~= values@.take(window as int));
    }
    let first_sum = sum::<N, L>(head);
    full_means_into(values, window, first_sum, out);
    proof {
        assert(out@ =~= rolling_means(values@, window as int));
    }
}

/// The rolling population standard deviation of `values` over `window` positions.
pub fn rolling_std<N: Number, L: Lanes<N>>(values: &[N], window: usize) -> (r: Vec<N>)
    requires
        window >= 1,
    ensures
        r@ == rolling_stds(values@, window as int),
{
    let mut out = zeros(values.len());
    rolling_std_into::<N, L>(values, window, out.as_mut_slice());
    out
}

/// The standard deviation that belongs to a sum and a sum of squares.
fn deviation_from<N: Number>(s: N, q: N, n: N) -> (r: N)
    ensures
        r == deviation(s, q, n),
{
    let mean = s.over(n);
    let var = q.minus(s.times(mean)).over(n);
    var.greater(N::of_usize(0)).root()
}

/// Writes the standard deviations over the part of `values` before the first full window.
fn partial_stds_into<N: Number>(values: &[N], end: usize, out: &mut [N])
    requires
        values@.len() == old(out)@.len(),
        end <= values@.len(),
    ensures
        final(out)@.len() == values@.len(),
        forall|j: int| 0 <= j < end ==> final(out)@[j] == partial_std_at(values@, j),
{
    let ghost sq = squares(values@);
    let mut s = N::of_usize(0);
    let mut q = N::of_usize(0);
    let mut i: usize = 0;
    proof {
        assert(values@.take(0) =~= Seq::empty());
        assert(sq.take(0) =~= Seq::empty());
    }
    while i < end
        invariant
            i <= end <= values@.len(),
            values@.len() == out@.len(),
            sq == squares(values@),
            s == running(zero(), values@.take(i as int)),
            q == running(zero(), sq.take(i as int)),
            forall|j: int| 0 <= j < i ==> out@[j] == partial_std_at(values@, j),
        decreases end - i,
    {
        let v = values[i];
        s = s.plus(v);
        q = q.plus(v.times(v));
        proof {
            assert(values@.take(i + 1).drop_last() =~= values@.take(i as int));
            assert(sq.take(i + 1).drop_last() =~= sq.take(i as int));
        }
        out[i] = deviation_from(s, q, N::of_usize(i + 1));
        i = i + 1;
    }
}

/// Writes the standard deviations from the first full window on, which adds up to `first`
/// and whose squares add up to `first_square`.
fn full_stds_into<N: Number>(
    values: &[N],
    window: usize,
    first: N,
    first_square: N,
    out: &mut [N],
)
    requires
        values@.len() == old(out)@.len(),
        1 <= window <= values@.len(),
        forall|j: int|
            0 <= j < window - 1 ==> old(out)@[j] == rolling_std_at(
                first,
                first_square,
                values@,
                window as int,
                j,
            ),
    ensures
        final(out)@ == Seq::new(
            values@.len(),
            |j: int| rolling_std_at(first, first_square, values@, window as int, j),
        ),
{
    let n = values.len();
    let count = N::of_usize(window);
    out[window - 1] = deviation_from(first, first_square, count);
    let mut s = first;
    let mut q = first_square;
    let mut i: usize = window;
    while i < n
        invariant
            1 <= window <= i <= n,
            n == values@.len(),
            n == out@.len(),
            count == N::spec_of_usize(window),
            s == sliding(first, values@, window as int, i - 1),
            q == sliding(first_square, squares(values@), window as int, i - 1),
            forall|j: int|
                0 <= j < i ==> out@[j] == rolling_std_at(
                    first,
                    first_square,
                    values@,
                    window as int,
                    j,
                ),
        decreases n - i,
    {
        let inc = values[i];
        let dec = values[i - window];
        s = s.plus(inc.minus(dec));
        q = q.plus(inc.times(inc).minus(dec.times(dec)));
        out[i] = deviation_from(s, q, count);
        i = i + 1;
    }
    proof {
        assert(out@ =~= Seq::new(
            values@.len(),
            |j: int| rolling_std_at(first, first_square, values@, window as int, j),
        ));
    }
}

/// Writes the rolling population standard deviation of `values` over `window` positions
/// into `out`, which is as long.
pub fn rolling_std_into<N: Number, L: Lanes<N>>(values: &[N], window: usize, out: &mut [N])
    requires
        values@.len() == old(out)@.len(),
        window >= 1,
    ensures
        final(out)@ == rolling_stds(values@, window as int),
{
    let n = values.len();
    if n < window {
        partial_stds_into(values, n, out);
        proof {
            assert(out@ =~= rolling_stds(values@, window as int));
        }
        return;
    }
    partial_stds_into(values, window - 1, out);
    let (head, _) = values.split_at(window);
    proof {
        assert(head@ =~= values@.take(window as int));
    }
    let first_sum = sum::<N, L>(head);
    let first_sq = sum_squares::<N, L>(head);
    full_stds_into(values, window, first_sum, first_sq, out);
    proof {
        assert(out@ =~= rolling_stds(values@, window as int));
    }
}

/// The rolling mean with every sum taken left to right.
pub fn rolling_mean_scalar<N: Number>(values: &[N], window: usize) -> (r: Vec<N>)
    requires
        window >= 1,
    ensures
        r@ == rolling_means_scalar(values@, window as int),
{
    let n = values.len();
    let mut out: Vec<N> = zeros(n);
    if n < window {
        partial_means_into(values, n, out.as_mut_slice());
        proof {
            assert(out@ =~= rolling_means_scalar(values@, window as int));
        }
        return out;
    }
    partial_means_into(values, window - 1, out.as_mut_slice());
    let (head, _) = values.split_at(window);
    proof {
        assert(head@ =~= values@.take(window as int));
    }
    let first_sum = sum_scalar(head);
    full_means_into(values, window, first_sum, out.as_mut_slice());
    proof {
        assert(out@ =~= rolling_means_scalar(values@, window as int));
    }
    out
}

/// The rolling population standard deviation with every sum taken left to right.
pub fn rolling_std_scalar<N: Number>(values: &[N], window: usize) -> (r: Vec<N>)
    requires
        window >= 1,
    ensures
        r@ == rolling_stds_scalar(values@, window as int),
{
    let n = values.len();
    let mut out: Vec<N> = zeros(n);
    if n < window {
        partial_stds_into(values, n, out.as_mut_slice());
        proof {
            assert(out@ =~= rolling_stds_scalar(values@, window as int));
        }
        return out;
    }
    partial_stds_into(values, window - 1, out.as_mut_slice());
    let (head, _) = values.split_at(window);
    proof {
        assert(head@ =~= values@.take(window as int));
    }
    let first_sum = sum_scalar(head);
    let first_sq = sum_squares_scalar(head);
    full_stds_into(values, window, first_sum, first_sq, out.as_mut_slice());
    proof {
        assert(out@ =~= rolling_stds_scalar(values@, window as int));
    }
    out
}

/// Where the arithmetic is exact, the running sum at `i` is the sum over the trailing
/// window.
proof fn sliding_is_window_sum<N: ExactNumber>(v: Seq<N>, window: int, i: int)
    requires
        1 <= window,
        window - 1 <= i < v.len(),
    ensures
        sliding(running(zero::<N>(), v.take(window)), v, window, i) == running(
            zero::<N>(),
            v.subrange(i + 1 - window, i + 1),
        ),
    decreases i,
{
    let z = zero::<N>();
    if i < window {
        assert(v.subrange(0, window) =~= v.take(window));
    } else {
        sliding_is_window_sum(v, window, i - 1);
        let before = v.subrange(i - window, i);
        let after = v.subrange(i + 1 - window, i + 1);
        let kept = v.subrange(i + 1 - window, i);
        let leaving = v[i - window];
        let entering = v[i];
        let middle = running(z, kept);
        // The old window is the leaving value and what is kept.
        assert(before =~= seq![leaving] + kept);
        running_over_parts(z, seq![leaving], kept);
        assert(seq![leaving].drop_last() =~= Seq::empty());
        assert(running(z, Seq::<N>::empty()) == z);
        assert(running(z, seq![leaving]) == z.spec_plus(leaving));
        N::plus_commutes(z, leaving);
        N::plus_zero(leaving);
        running_shifts(leaving, kept);
        assert(running(z, before) == leaving.spec_plus(middle));
        // The new window is what is kept and the entering value.
        assert(after.drop_last() =~= kept);
        assert(running(z, after) == middle.spec_plus(entering));
        // (leaving + middle) + (entering - leaving) == middle + entering
        let step = entering.spec_minus(leaving);
        N::minus_then_plus(entering, leaving);
        N::plus_commutes(leaving, middle);
        N::plus_associates(middle, leaving, step);
        N::plus_commutes(leaving, step);
    }
}

/// Where the arithmetic is exact, every rolling mean is a mean over the trailing window:
/// the sum of the last `window` values times one over `window`, and while fewer values
/// have come in, the sum of all of them over their number.
pub proof fn rolling_mean_is_exact<N: ExactNumber>(v: Seq<N>, window: int, i: int)
    requires
        1 <= window,
        0 <= i < v.len(),
    ensures
        rolling_means(v, window)[i] == rolling_means_scalar(v, window)[i],
        i >= window - 1 ==> rolling_means(v, window)[i] == running(
            zero::<N>(),
            v.subrange(i + 1 - window, i + 1),
        ).spec_times(one::<N>().spec_over(N::spec_of_usize(window as usize))),
        i < window - 1 ==> rolling_means(v, window)[i] == running(
            zero::<N>(),
            v.take(i + 1),
        ).spec_over(N::spec_of_usize(i as usize).spec_plus(one())),
{
    sum_is_exact(v.take(window));
    if i >= window - 1 {
        sliding_is_window_sum(v, window, i);
    }
}

/// Where the arithmetic is exact, every rolling standard deviation is the one that belongs
/// to the sum and the sum of squares over the trailing window, or over all values while
/// fewer than `window` have come in.
pub proof fn rolling_std_is_exact<N: ExactNumber>(v: Seq<N>, window: int, i: int)
    requires
        1 <= window,
        0 <= i < v.len(),
    ensures
        rolling_stds(v, window)[i] == rolling_stds_scalar(v, window)[i],
        i >= window - 1 ==> rolling_stds(v, window)[i] == deviation(
            running(zero::<N>(), v.subrange(i + 1 - window, i + 1)),
            running(zero::<N>(), squares(v.subrange(i + 1 - window, i + 1))),
            N::spec_of_usize(window as usize),
        ),
        i < window - 1 ==> rolling_stds(v, window)[i] == deviation(
            running(zero::<N>(), v.take(i + 1)),
            running(zero::<N>(), squares(v.take(i + 1))),
            N::spec_of_usize((i + 1) as usize),
        ),
{
    sum_is_exact(v.take(window));
    if i >= window - 1 {
        sliding_is_window_sum(v, window, i);
        sliding_is_window_sum(squares(v), window, i);
        assert(squares(v).take(window) =~= squares(v.take(window)));
        assert(squares(v).subrange(i + 1 - window, i + 1) =~= squares(
            v.subrange(i + 1 - window, i + 1),
        ));
    } else {
        assert(squares(v).take(i + 1) =~= squares(v.take(i + 1)));
    }
}

/// Where no quotient is rounded, every rolling mean is the mean of its window: times the count
/// it is the sum of the trailing window, or of all values while fewer than `window` have come
/// in.
pub proof fn rolling_mean_is_mean<N: ExactNumber>(v: Seq<N>, window: int, i: int)
    requires
        exact_division::<N>(),
        1 <= window <= isize::MAX,
        0 <= i < v.len() <= isize::MAX,
        i >= window - 1 ==> !N::spec_of_usize(window as usize).spec_is_zero(),
        i < window - 1 ==> !N::spec_of_usize((i + 1) as usize).spec_is_zero(),
    ensures
        i >= window - 1 ==> rolling_means(v, window)[i].spec_times(
            N::spec_of_usize(window as usize),
        ) == running(zero::<N>(), v.subrange(i + 1 - window, i + 1)),
        i < window - 1 ==> rolling_means(v, window)[i].spec_times(
            N::spec_of_usize((i + 1) as usize),
        ) == running(zero::<N>(), v.take(i + 1)),
{
    rolling_mean_is_exact(v, window, i);
    if i >= window - 1 {
        let n = N::spec_of_usize(window as usize);
        let s = running(zero::<N>(), v.subrange(i + 1 - window, i + 1));
        let share = one::<N>().spec_over(n);
        N::times_associates(s, share, n);
        assert(share.spec_times(n) == one::<N>());
        N::times_one(s);
    } else {
        N::counts_add(i as usize, 1);
    }
}

/// A deviation is the root of the mean of the squared differences from the mean, where the
/// arithmetic is exact and the mean is not rounded.
pub proof fn deviation_is_root_mean_square<N: ExactNumber>(w: Seq<N>)
    requires
        0 < w.len() <= isize::MAX,
        mean_of(w).spec_times(N::spec_of_usize(w.len() as usize)) == sum_of(w),
    ensures
        deviation(
            running(zero::<N>(), w),
            running(zero::<N>(), squares(w)),
            N::spec_of_usize(w.len() as usize),
        ) == running(zero::<N>(), squared_differences(w, mean_of(w))).spec_over(
            N::spec_of_usize(w.len() as usize),
        ).spec_greater(zero()).spec_root(),
{
    variance_is_mean_square(w);
}

/// The values that the statistic at `i` is taken over.
pub open spec fn trailing<N>(v: Seq<N>, window: int, i: int) -> Seq<N> {
    if i < window - 1 {
        v.take(i + 1)
    } else {
        v.subrange(i + 1 - window, i + 1)
    }
}

/// Every rolling standard deviation is the root of the mean of the squared differences from
/// the mean of its window, where the arithmetic is exact and that mean is not rounded.
pub proof fn rolling_std_is_root_mean_square<N: ExactNumber>(v: Seq<N>, window: int, i: int)
    requires
        1 <= window <= isize::MAX,
        0 <= i < v.len() <= isize::MAX,
        mean_of(trailing(v, window, i)).spec_times(
            N::spec_of_usize(trailing(v, window, i).len() as usize),
        ) == sum_of(trailing(v, window, i)),
    ensures
        rolling_stds(v, window)[i] == running(
            zero::<N>(),
            squared_differences(trailing(v, window, i), mean_of(trailing(v, window, i))),
        ).spec_over(
            N::spec_of_usize(trailing(v, window, i).len() as usize),
        ).spec_greater(zero()).spec_root(),
{
    rolling_std_is_exact(v, window, i);
    deviation_is_root_mean_square(trailing(v, window, i));
}

/// A single value does not deviate: where the arithmetic is exact and ordered, the rolling
/// standard deviation over a window of one is zero throughout.
pub proof fn rolling_std_of_one_is_zero<N: ExactNumber + TotalOrder>(v: Seq<N>, i: int)
    requires
        0 <= i < v.len(),
    ensures
        rolling_stds(v, 1)[i] == zero::<N>(),
{
    let z = zero::<N>();
    let x = v[i];
    rolling_std_is_exact(v, 1, i);
    let single = v.subrange(i, i + 1);
    assert(single.drop_last() =~= Seq::empty());
    assert(squares(single).drop_last() =~= Seq::empty());
    assert(running(z, Seq::<N>::empty()) == z);
    let xx = x.spec_times(x);
    N::plus_commutes(z, x);
    N::plus_zero(x);
    N::plus_commutes(z, xx);
    N::plus_zero(xx);
    assert(running(z, single) == x);
    assert(running(z, squares(single)) == xx);
    N::over_one(x);
    let d = xx.spec_minus(xx);
    N::minus_then_plus(xx, xx);
    plus_cancels(d, z, xx);
    N::over_one(d);
    N::order_laws();
    N::root_zero();
}

} // verus!
