//! The lagged rate of change over a slice.
//!
//! The output at `i` is `(values[i] - values[i - lag]) / values[i - lag] * 100`.
//! It is zero where there is no predecessor, that is for `i < lag`, and where the
//! predecessor is zero.  Every output is independent of every other.
use crate::lanes::{load, Lanes};
use crate::number::{
    exact_division, hundred, times_distributes_over_minus, times_zero, zero, zeros, ExactNumber,
    Number, TotalOrder,
};
use vstd::prelude::*;

verus! {

/// The change from `prev` to `cur` in percent of `prev`; zero from zero.
pub open spec fn change<N: Number>(prev: N, cur: N) -> N {
    if prev.spec_is_zero() {
        zero()
    } else {
        cur.spec_minus(prev).spec_over(prev).spec_times(hundred())
    }
}

/// The rate of change at `i`.
pub open spec fn change_at<N: Number>(v: Seq<N>, lag: int, i: int) -> N {
    if lag == 0 || i < lag {
        zero()
    } else {
        change(v[i - lag], v[i])
    }
}

/// The rates of change of a whole series.
pub open spec fn changes<N: Number>(v: Seq<N>, lag: int) -> Seq<N> {
    Seq::new(v.len(), |i: int| change_at(v, lag, i))
}

/// The rates of change of `values` over `lag` positions.  A lag of zero gives zeros.
pub fn rate_of_change<N: Number, L: Lanes<N>>(values: &[N], lag: usize) -> (r: Vec<N>)
    ensures
        r@ == changes(values@, lag as int),
{
    let mut out = zeros(values.len());
    rate_of_change_into::<N, L>(values, lag, out.as_mut_slice());
    out
}

/// Writes the rates of change of `values` over `lag` positions into `out`, which is as
/// long.
pub fn rate_of_change_into<N: Number, L: Lanes<N>>(values: &[N], lag: usize, out: &mut [N])
    requires
        values@.len() == old(out)@.len(),
    ensures
        final(out)@ == changes(values@, lag as int),
{
    let n = values.len();
    let blank = N::of_usize(0);
    if lag == 0 || n <= lag {
        let mut i: usize = 0;
        while i < n
            invariant
                i <= n,
                n == values@.len(),
                n == out@.len(),
                lag == 0 || n <= lag,
                blank == zero::<N>(),
                forall|j: int| 0 <= j < i ==> out@[j] == change_at(values@, lag as int, j),
            decreases n - i,
        {
            out[i] = blank;
            i = i + 1;
        }
        proof {
            assert(out@ =~= changes(values@, lag as int));
        }
        return;
    }
    let mut i: usize = 0;
    while i < lag
        invariant
            i <= lag < n,
            n == values@.len(),
            n == out@.len(),
            blank == zero::<N>(),
            forall|j: int| 0 <= j < i ==> out@[j] == change_at(values@, lag as int, j),
        decreases lag - i,
    {
        out[i] = blank;
        i = i + 1;
    }

    let percent = L::splat(N::of_usize(100));
    while n - i >= 4
        invariant
            0 < lag <= i <= n,
            n == values@.len(),
            n == out@.len(),
            forall|r: usize| r < 4 ==> #[trigger] percent.spec_lane(r) == hundred::<N>(),
            forall|j: int| 0 <= j < i ==> out@[j] == change_at(values@, lag as int, j),
        decreases n - i,
    {
        let cur: L = load(values, i);
        let prev: L = load(values, i - lag);
        let ratio = cur.minus(prev).over(prev).times(percent);
        let safe = prev.zero_or(ratio);
        let arr = safe.to_array();
        proof {
            assert(arr[0] == safe.spec_lane(0usize));
            assert(arr[1] == safe.spec_lane(1usize));
            assert(arr[2] == safe.spec_lane(2usize));
            assert(arr[3] == safe.spec_lane(3usize));
        }
        out[i] = arr[0];
        out[i + 1] = arr[1];
        out[i + 2] = arr[2];
        out[i + 3] = arr[3];
        i = i + 4;
    }
    while i < n
        invariant
            0 < lag <= i <= n,
            n == values@.len(),
            n == out@.len(),
            blank == zero::<N>(),
            forall|j: int| 0 <= j < i ==> out@[j] == change_at(values@, lag as int, j),
        decreases n - i,
    {
        let prev = values[i - lag];
        out[i] = if prev.is_zero() {
            blank
        } else {
            values[i].minus(prev).over(prev).times(N::of_usize(100))
        };
        i = i + 1;
    }
    proof {
        assert(out@ =~= changes(values@, lag as int));
    }
}

/// The rates of change of `values` over `lag` positions, one output at a time.  It gives
/// what [`rate_of_change`] gives, whatever the arithmetic.
pub fn rate_of_change_scalar<N: Number>(values: &[N], lag: usize) -> (r: Vec<N>)
    ensures
        r@ == changes(values@, lag as int),
{
    let n = values.len();
    let mut out: Vec<N> = zeros(n);
    if lag == 0 || n <= lag {
        proof {
            assert(out@ =~= changes(values@, lag as int));
        }
        return out;
    }
    let mut i: usize = lag;
    while i < n
        invariant
            0 < lag <= i <= n,
            n == values@.len(),
            n == out@.len(),
            forall|j: int| 0 <= j < i ==> out@[j] == change_at(values@, lag as int, j),
        decreases n - i,
    {
        let prev = values[i - lag];
        out[i] = if prev.is_zero() {
            N::of_usize(0)
        } else {
            values[i].minus(prev).over(prev).times(N::of_usize(100))
        };
        i = i + 1;
    }
    proof {
        assert(out@ =~= changes(values@, lag as int));
    }
    out
}

/// Whether a factor `c` that two values share cancels in the change from one to the other.
pub open spec fn factor_cancels<N: Number>(c: N, prev: N, cur: N) -> bool {
    &&& c.spec_times(prev).spec_is_zero() <==> prev.spec_is_zero()
    &&& !prev.spec_is_zero() ==> c.spec_times(cur).spec_minus(c.spec_times(prev)).spec_over(
        c.spec_times(prev),
    ) == cur.spec_minus(prev).spec_over(prev)
}

/// The values of a series, each times `c`.
pub open spec fn scaled_by<N: Number>(c: N, v: Seq<N>) -> Seq<N> {
    Seq::new(v.len(), |i: int| c.spec_times(v[i]))
}

/// Rates do not depend on the unit: where a factor cancels in every change, scaling all
/// values by it leaves the rates as they are.
pub proof fn changes_scale<N: Number>(v: Seq<N>, lag: int, c: N)
    requires
        forall|i: int|
            0 < lag <= i < v.len() ==> factor_cancels(c, v[i - lag], #[trigger] v[i]),
        lag >= 0,
    ensures
        changes(scaled_by(c, v), lag) == changes(v, lag),
{
    let w = scaled_by(c, v);
    assert forall|i: int| 0 <= i < v.len() implies change_at(w, lag, i) == change_at(v, lag, i) by {
        if 0 < lag <= i {
            assert(factor_cancels(c, v[i - lag], v[i]));
        }
    }
    assert(changes(w, lag) =~= changes(v, lag));
}

/// Where no quotient is rounded, every factor but zero leaves the rates as they are.
pub proof fn changes_scale_exactly<N: ExactNumber + TotalOrder>(v: Seq<N>, lag: int, c: N)
    requires
        exact_division::<N>(),
        !c.spec_is_zero(),
        lag >= 0,
    ensures
        changes(scaled_by(c, v), lag) == changes(v, lag),
{
    N::order_laws();
    let z = zero::<N>();
    assert forall|i: int| 0 < lag <= i < v.len() implies factor_cancels(
        c,
        v[i - lag],
        #[trigger] v[i],
    ) by {
        let (prev, cur) = (v[i - lag], v[i]);
        let base = c.spec_times(prev);
        let step = cur.spec_minus(prev);
        times_zero(c);
        N::times_commutes(c, prev);
        N::times_commutes(c, z);
        if base.spec_is_zero() {
            // prev is (prev * c) / c, and so is zero.
            assert(prev.spec_times(c).spec_over(c) == prev);
            assert(z.spec_times(c).spec_over(c) == z);
        }
        if !prev.spec_is_zero() {
            times_distributes_over_minus(c, cur, prev);
            // The quotient q of the step has q * (c * prev) == c * step.
            let q = step.spec_over(prev);
            assert(q.spec_times(prev) == step);
            N::times_associates(q, prev, c);
            N::times_commutes(step, c);
            assert(q.spec_times(base) == c.spec_times(step));
            assert(q.spec_times(base).spec_over(base) == q);
        }
    }
    changes_scale(v, lag, c);
}

/// With whole numbers a positive factor leaves the rates as they are, as long as nothing
/// leaves the range.
pub proof fn changes_scale_in_whole_numbers(v: Seq<i64>, lag: int, c: i64)
    requires
        c > 0,
        lag >= 0,
        forall|i: int|
            0 <= i < v.len() ==> i64::MIN / 2 < c * (#[trigger] v[i]) < i64::MAX / 2,
    ensures
        changes(scaled_by(c, v), lag) == changes(v, lag),
{
    assert forall|i: int| 0 < lag <= i < v.len() implies factor_cancels(
        c,
        v[i - lag],
        #[trigger] v[i],
    ) by {
        let (f, p, x) = (c as int, v[i - lag] as int, v[i] as int);
        assert(i64::MIN / 2 < f * p < i64::MAX / 2);
        assert(i64::MIN / 2 < f * x < i64::MAX / 2);
        assert(i64::MIN / 2 < p < i64::MAX / 2) by (nonlinear_arith)
            requires
                f > 0,
                i64::MIN / 2 < f * p < i64::MAX / 2,
        ;
        assert(i64::MIN / 2 < x < i64::MAX / 2) by (nonlinear_arith)
            requires
                f > 0,
                i64::MIN / 2 < f * x < i64::MAX / 2,
        ;
        assert(f * p == 0 <==> p == 0) by (nonlinear_arith)
            requires
                f > 0,
        ;
        assert(c.spec_times(v[i - lag]) as int == f * p);
        assert(c.spec_times(v[i]) as int == f * x);
        if p != 0 {
            assert(f * x - f * p == f * (x - p)) by (nonlinear_arith);
            factor_cancels_in_quotient(f, x - p, p);
        }
    }
    changes_scale(v, lag, c);
}

proof fn factor_cancels_in_quotient(f: int, a: int, b: int)
    requires
        f > 0,
        b != 0,
    ensures
        (f * a) / (f * b) == a / b,
{
    let q = a / b;
    let r = a % b;
    assert(f * b != 0) by (nonlinear_arith)
        requires
            f > 0,
            b != 0,
    ;
    assert(a == b * q + r && 0 <= r && (r < b || r < -b)) by (nonlinear_arith)
        requires
            b != 0,
            q == a / b,
            r == a % b,
    ;
    let (big, rest) = (f * b, f * r);
    assert(f * a == big * q + rest && 0 <= rest && (rest < big || rest < -big)) by (nonlinear_arith)
        requires
            f > 0,
            a == b * q + r,
            0 <= r,
            r < b || r < -b,
            big == f * b,
            rest == f * r,
    ;
    let (q2, r2) = ((f * a) / big, (f * a) % big);
    assert(q2 == q) by (nonlinear_arith)
        requires
            big != 0,
            q2 == (f * a) / big,
            f * a == big * q + rest,
            0 <= rest,
            rest < big || rest < -big,
    ;
}

/// A rate times the value that it starts from is a hundred times the change, where the
/// arithmetic is exact and the quotient is not rounded.  There is no change where there is no
/// predecessor, and none from zero.
pub proof fn rate_times_predecessor<N: ExactNumber + TotalOrder>(v: Seq<N>, lag: int, i: int)
    requires
        0 <= lag,
        0 <= i < v.len(),
    ensures
        changes(v, lag).len() == v.len(),
        ({
            let rate = changes(v, lag)[i];
            let (from, to) = (v[i - lag], v[i]);
            let difference = to.spec_minus(from);
            let none = N::spec_of_usize(0);
            &&& lag == 0 || i < lag ==> rate == none
            &&& 0 < lag <= i && from == none ==> rate == none
            &&& 0 < lag <= i && from != none && difference.spec_over(from).spec_times(from)
                == difference ==> rate.spec_times(from) == N::spec_of_usize(100).spec_times(
                difference,
            )
        }),
{
    N::order_laws();
    if 0 < lag <= i {
        let (from, to) = (v[i - lag], v[i]);
        let h = N::spec_of_usize(100);
        let q = to.spec_minus(from).spec_over(from);
        // (q * h) * from == h * (q * from)
        N::times_commutes(q, h);
        N::times_associates(h, q, from);
    }
}

/// With whole numbers a rate is a hundred times the change over the value that it starts from,
/// rounded down, as long as nothing leaves the range.
pub proof fn rate_in_whole_numbers(v: Seq<i64>, lag: int, i: int) -> (q: int)
    requires
        0 < lag <= i < v.len(),
        v[i - lag] > 0,
        i64::MIN / 200 < v[i] < i64::MAX / 200,
        v[i - lag] < i64::MAX / 200,
    ensures
        changes(v, lag)[i] == 100 * q,
        q * v[i - lag] <= v[i] - v[i - lag] < (q + 1) * v[i - lag],
{
    let (from, to) = (v[i - lag] as int, v[i] as int);
    let d = to - from;
    let q = d / from;
    assert(q * from <= d < (q + 1) * from) by (nonlinear_arith)
        requires
            q == d / from,
            from > 0,
    ;
    assert(-(i64::MAX / 100) <= q <= i64::MAX / 100) by (nonlinear_arith)
        requires
            q * from <= d < (q + 1) * from,
            -(i64::MAX / 100) <= d <= i64::MAX / 100,
            from > 0,
    ;
    assert(v[i].spec_minus(v[i - lag]) == d);
    assert(v[i].spec_minus(v[i - lag]).spec_over(v[i - lag]) == q);
    assert(i64::MIN <= q * 100 <= i64::MAX);
    assert((q as i64).spec_times(100) == q * 100);
    q
}

/// A rate is the change in percent of the value `lag` positions before, whatever the format.  A
/// value that the format takes for zero has none.
pub proof fn rate_is_change_in_percent<N: Number>(v: Seq<N>, lag: int, i: int)
    requires
        0 < lag <= i < v.len(),
    ensures
        v[i - lag].spec_is_zero() ==> changes(v, lag)[i] == N::spec_of_usize(0),
        !v[i - lag].spec_is_zero() ==> changes(v, lag)[i] == v[i].spec_minus(
            v[i - lag],
        ).spec_over(v[i - lag]).spec_times(N::spec_of_usize(100)),
{
}

} // verus!
