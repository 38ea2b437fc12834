//! Reductions over a full slice: sum, sum of squares, mean, variance and
//! standard deviation.
//!
//! The sums are accumulated in four lanes.  Each lane takes every fourth
//! element, the four partial sums are added up at the end, and the up to three
//! elements that do not fill a block follow one by one.
use crate::lanes::{load, Lanes};
use crate::number::{
    minus_undoes_plus, one, plus_cancels, plus_exchange, running, running_of_permutation,
    running_over_parts, running_shifts, squares, times_zero, zero, ExactNumber, Number,
};
use vstd::prelude::*;

verus! {

/// What lane `lane` holds after the first `blocks` blocks of four of `v`.
pub open spec fn lane_sum<N: Number>(v: Seq<N>, lane: int, blocks: nat) -> N
    decreases blocks,
{
    if blocks == 0 {
        zero()
    } else {
        lane_sum(v, lane, (blocks - 1) as nat).spec_plus(v[4 * (blocks - 1) + lane])
    }
}

/// The four lanes added up, first to last.
pub open spec fn lanes_total<N: Number>(v: Seq<N>, blocks: nat) -> N {
    lane_sum(v, 0, blocks).spec_plus(lane_sum(v, 1, blocks)).spec_plus(
        lane_sum(v, 2, blocks),
    ).spec_plus(lane_sum(v, 3, blocks))
}

/// The sum as [`sum`] computes it.
pub open spec fn sum_of<N: Number>(v: Seq<N>) -> N {
    running(lanes_total(v, v.len() / 4), v.skip(4 * (v.len() / 4) as int))
}

/// The variance that belongs to the sum `s` and the sum of squares `q` of `n` values:
/// the mean square less the squared mean.
pub open spec fn variance_from<N: Number>(s: N, q: N, n: N) -> N {
    q.spec_minus(s.spec_times(s.spec_over(n))).spec_over(n)
}

/// The mean as [`mean`] computes it.
pub open spec fn mean_of<N: Number>(v: Seq<N>) -> N {
    if v.len() == 0 {
        zero()
    } else {
        sum_of(v).spec_over(N::spec_of_usize(v.len() as usize))
    }
}

/// The population variance as [`variance`] computes it.
pub open spec fn variance_of<N: Number>(v: Seq<N>) -> N {
    if v.len() == 0 {
        zero()
    } else {
        variance_from(sum_of(v), sum_of(squares(v)), N::spec_of_usize(v.len() as usize))
    }
}

/// The standard deviation as [`std_dev`] computes it.
pub open spec fn std_dev_of<N: Number>(v: Seq<N>) -> N {
    (if variance_of(v).spec_below(zero()) {
        zero()
    } else {
        variance_of(v)
    }).spec_root()
}

/// The population variance as [`variance_scalar`] computes it.
pub open spec fn variance_scalar_of<N: Number>(v: Seq<N>) -> N {
    if v.len() == 0 {
        zero()
    } else {
        variance_from(
            running(zero(), v),
            running(zero(), squares(v)),
            N::spec_of_usize(v.len() as usize),
        )
    }
}

/// The lanes added up, first to last.
fn add_lanes<N: Number, L: Lanes<N>>(lanes: L) -> (r: N)
    ensures
        r == lanes.spec_lane(0).spec_plus(lanes.spec_lane(1)).spec_plus(
            lanes.spec_lane(2),
        ).spec_plus(lanes.spec_lane(3)),
{
    let a = lanes.to_array();
    proof {
        assert(a[0] == lanes.spec_lane(0usize));
        assert(a[1] == lanes.spec_lane(1usize));
        assert(a[2] == lanes.spec_lane(2usize));
        assert(a[3] == lanes.spec_lane(3usize));
    }
    a[0].plus(a[1]).plus(a[2]).plus(a[3])
}

/// The sum of `values`, accumulated in four lanes.
///
/// Where addition rounds, this can differ from a sum taken left to right; see
/// [`sum_is_exact`] for where it does not.
pub fn sum<N: Number, L: Lanes<N>>(values: &[N]) -> (r: N)
    ensures
        r == sum_of(values@),
{
    let n = values.len();
    let blocks: usize = n / 4;
    let mut acc = L::splat(N::of_usize(0));
    let mut b: usize = 0;
    while b < blocks
        invariant
            b <= blocks,
            blocks == n / 4,
            n == values@.len(),
            forall|i: usize|
                i < 4 ==> #[trigger] acc.spec_lane(i) == lane_sum(values@, i as int, b as nat),
        decreases blocks - b,
    {
        let v: L = load(values, 4 * b);
        acc = acc.plus(v);
        b = b + 1;
    }
    let mut total = add_lanes::<N, L>(acc);
    let mut i: usize = 4 * blocks;
    let ghost tail = values@.skip(4 * blocks);
    proof {
        assert(tail.take(0) =~= Seq::empty());
    }
    while i < n
        invariant
            4 * blocks <= i <= n,
            n == values@.len(),
            tail == values@.skip(4 * blocks),
            total == running(lanes_total(values@, blocks as nat), tail.take(i - 4 * blocks)),
        decreases n - i,
    {
        total = total.plus(values[i]);
        i = i + 1;
        proof {
            assert(tail.take(i - 4 * blocks).drop_last() =~= tail.take(i - 1 - 4 * blocks));
        }
    }
    proof {
        assert(tail.take(n - 4 * blocks) =~= tail);
    }
    total
}

/// The sum of the squares of `values`, accumulated in four lanes.
pub fn sum_squares<N: Number, L: Lanes<N>>(values: &[N]) -> (r: N)
    ensures
        r == sum_of(squares(values@)),
{
    let n = values.len();
    let blocks: usize = n / 4;
    let ghost sq = squares(values@);
    let mut acc = L::splat(N::of_usize(0));
    let mut b: usize = 0;
    while b < blocks
        invariant
            b <= blocks,
            blocks == n / 4,
            n == values@.len(),
            sq == squares(values@),
            forall|i: usize|
                i < 4 ==> #[trigger] acc.spec_lane(i) == lane_sum(sq, i as int, b as nat),
        decreases blocks - b,
    {
        let v: L = load(values, 4 * b);
        acc = acc.plus(v.times(v));
        b = b + 1;
    }
    let mut total = add_lanes::<N, L>(acc);
    let mut i: usize = 4 * blocks;
    let ghost tail = sq.skip(4 * blocks);
    proof {
        assert(tail.take(0) =~= Seq::empty());
    }
    while i < n
        invariant
            4 * blocks <= i <= n,
            n == values@.len(),
            sq == squares(values@),
            tail == sq.skip(4 * blocks),
            total == running(lanes_total(sq, blocks as nat), tail.take(i - 4 * blocks)),
        decreases n - i,
    {
        total = total.plus(values[i].times(values[i]));
        i = i + 1;
        proof {
            assert(tail.take(i - 4 * blocks).drop_last() =~= tail.take(i - 1 - 4 * blocks));
        }
    }
    proof {
        assert(tail.take(n - 4 * blocks) =~= tail);
    }
    total
}

/// The arithmetic mean; zero for an empty slice.
pub fn mean<N: Number, L: Lanes<N>>(values: &[N]) -> (r: N)
    ensures
        r == mean_of(values@),
{
    if values.is_empty() {
        return N::of_usize(0);
    }
    sum::<N, L>(values).over(N::of_usize(values.len()))
}

/// The population variance, from the sum and the sum of squares that one pass
/// collects; zero for an empty slice.
pub fn variance<N: Number, L: Lanes<N>>(values: &[N]) -> (r: N)
    ensures
        r == variance_of(values@),
{
    let n = values.len();
    if n == 0 {
        return N::of_usize(0);
    }
    let blocks: usize = n / 4;
    let ghost sq = squares(values@);
    let mut sum_acc = L::splat(N::of_usize(0));
    let mut square_acc = L::splat(N::of_usize(0));
    let mut b: usize = 0;
    while b < blocks
        invariant
            b <= blocks,
            blocks == n / 4,
            n == values@.len(),
            sq == squares(values@),
            forall|i: usize|
                i < 4 ==> #[trigger] sum_acc.spec_lane(i) == lane_sum(
                    values@,
                    i as int,
                    b as nat,
                ),
            forall|i: usize|
                i < 4 ==> #[trigger] square_acc.spec_lane(i) == lane_sum(sq, i as int, b as nat),
        decreases blocks - b,
    {
        let v: L = load(values, 4 * b);
        sum_acc = sum_acc.plus(v);
        square_acc = square_acc.plus(v.times(v));
        b = b + 1;
    }
    let mut s = add_lanes::<N, L>(sum_acc);
    let mut q = add_lanes::<N, L>(square_acc);
    let mut i: usize = 4 * blocks;
    let ghost tail = values@.skip(4 * blocks);
    let ghost square_tail = sq.skip(4 * blocks);
    proof {
        assert(tail.take(0) =~= Seq::empty());
        assert(square_tail.take(0) =~= Seq::empty());
    }
    while i < n
        invariant
            4 * blocks <= i <= n,
            n == values@.len(),
            sq == squares(values@),
            tail == values@.skip(4 * blocks),
            square_tail == sq.skip(4 * blocks),
            s == running(lanes_total(values@, blocks as nat), tail.take(i - 4 * blocks)),
            q == running(lanes_total(sq, blocks as nat), square_tail.take(i - 4 * blocks)),
        decreases n - i,
    {
        s = s.plus(values[i]);
        q = q.plus(values[i].times(values[i]));
        i = i + 1;
        proof {
            assert(tail.take(i - 4 * blocks).drop_last() =~= tail.take(i - 1 - 4 * blocks));
            assert(square_tail.take(i - 4 * blocks).drop_last() =~= square_tail.take(
                i - 1 - 4 * blocks,
            ));
        }
    }
    proof {
        assert(tail.take(n - 4 * blocks) =~= tail);
        assert(square_tail.take(n - 4 * blocks) =~= square_tail);
    }
    let count = N::of_usize(n);
    let mean = s.over(count);
    q.minus(s.times(mean)).over(count)
}

/// The population standard deviation.  A variance that rounding has driven below zero counts
/// as zero.
pub fn std_dev<N: Number, L: Lanes<N>>(values: &[N]) -> (r: N)
    ensures
        r == (if variance_of(values@).spec_below(zero()) {
            zero()
        } else {
            variance_of(values@)
        }).spec_root(),
        r == std_dev_of(values@),
{
    let var = variance::<N, L>(values);
    if var.below(N::of_usize(0)) {
        N::of_usize(0).root()
    } else {
        var.root()
    }
}

/// The sum of `values`, left to right.
pub fn sum_scalar<N: Number>(values: &[N]) -> (r: N)
    ensures
        r == running(zero(), values@),
{
    let mut s = N::of_usize(0);
    let mut i: usize = 0;
    proof {
        assert(values@.take(0) =~= Seq::empty());
    }
    while i < values.len()
        invariant
            i <= values@.len(),
            s == running(zero(), values@.take(i as int)),
        decreases values@.len() - i,
    {
        s = s.plus(values[i]);
        i = i + 1;
        proof {
            assert(values@.take(i as int).drop_last() =~= values@.take(i - 1));
        }
    }
    proof {
        assert(values@.take(i as int) =~= values@);
    }
    s
}

/// The sum of the squares of `values`, left to right.
pub fn sum_squares_scalar<N: Number>(values: &[N]) -> (r: N)
    ensures
        r == running(zero(), squares(values@)),
{
    let ghost sq = squares(values@);
    let mut s = N::of_usize(0);
    let mut i: usize = 0;
    proof {
        assert(sq.take(0) =~= Seq::empty());
    }
    while i < values.len()
        invariant
            i <= values@.len(),
            sq == squares(values@),
            s == running(zero(), sq.take(i as int)),
        decreases values@.len() - i,
    {
        s = s.plus(values[i].times(values[i]));
        i = i + 1;
        proof {
            assert(sq.take(i as int).drop_last() =~= sq.take(i - 1));
        }
    }
    proof {
        assert(sq.take(i as int) =~= sq);
    }
    s
}

/// The population variance from sums taken left to right; zero for an empty slice.
pub fn variance_scalar<N: Number>(values: &[N]) -> (r: N)
    ensures
        r == (if values@.len() == 0 {
            zero()
        } else {
            variance_from(
                running(zero(), values@),
                running(zero(), squares(values@)),
                N::spec_of_usize(values@.len() as usize),
            )
        }),
        r == variance_scalar_of(values@),
{
    let n = values.len();
    if n == 0 {
        return N::of_usize(0);
    }
    let s = sum_scalar(values);
    let q = sum_squares_scalar(values);
    let mean = s.over(N::of_usize(n));
    q.minus(s.times(mean)).over(N::of_usize(n))
}

/// With exact arithmetic, the lanes hold together what a sum left to right holds.
proof fn lanes_total_is_exact<N: ExactNumber>(v: Seq<N>, blocks: nat)
    requires
        4 * blocks <= v.len(),
    ensures
        lanes_total(v, blocks) == running(zero::<N>(), v.take(4 * blocks as int)),
    decreases blocks,
{
    let z = zero::<N>();
    if blocks == 0 {
        N::plus_zero(z);
        assert(v.take(0) =~= Seq::empty());
    } else {
        let before = (blocks - 1) as nat;
        let at = 4 * before as int;
        lanes_total_is_exact(v, before);
        let (l0, l1, l2, l3) = (
            lane_sum(v, 0, before),
            lane_sum(v, 1, before),
            lane_sum(v, 2, before),
            lane_sum(v, 3, before),
        );
        let (x0, x1, x2, x3) = (v[at], v[at + 1], v[at + 2], v[at + 3]);
        let l01 = l0.spec_plus(l1);
        let l012 = l01.spec_plus(l2);
        let l = l012.spec_plus(l3);
        let x01 = x0.spec_plus(x1);
        let x012 = x01.spec_plus(x2);
        let x = x012.spec_plus(x3);
        plus_exchange(l0, x0, l1, x1);
        plus_exchange(l01, x01, l2, x2);
        plus_exchange(l012, x012, l3, x3);
        assert(lanes_total(v, blocks) == l.spec_plus(x));
        N::plus_associates(l, x012, x3);
        N::plus_associates(l, x01, x2);
        N::plus_associates(l, x0, x1);
        let (t1, t2, t3) = (v.take(at + 1), v.take(at + 2), v.take(at + 3));
        assert(t1.drop_last() =~= v.take(at));
        assert(t2.drop_last() =~= t1);
        assert(t3.drop_last() =~= t2);
        assert(v.take(at + 4).drop_last() =~= t3);
        assert(running(z, t1) == l.spec_plus(x0));
        assert(running(z, t2) == l.spec_plus(x0).spec_plus(x1));
        assert(running(z, t3) == l.spec_plus(x0).spec_plus(x1).spec_plus(x2));
        assert(running(z, v.take(at + 4)) == l.spec_plus(x));
    }
}

/// Summing in lanes loses nothing where the arithmetic is exact: [`sum`],
/// [`sum_squares`], [`mean`] and [`variance`] give what the same statistic taken
/// left to right gives.
pub proof fn sum_is_exact<N: ExactNumber>(v: Seq<N>)
    ensures
        sum_of(v) == running(zero::<N>(), v),
        sum_of(squares(v)) == running(zero::<N>(), squares(v)),
        v.len() != 0 ==> mean_of(v) == running(zero::<N>(), v).spec_over(
            N::spec_of_usize(v.len() as usize),
        ),
        v.len() != 0 ==> variance_of(v) == variance_from(
            running(zero::<N>(), v),
            running(zero::<N>(), squares(v)),
            N::spec_of_usize(v.len() as usize),
        ),
{
    sum_of_is_running(v);
    sum_of_is_running(squares(v));
}

proof fn sum_of_is_running<N: ExactNumber>(v: Seq<N>)
    ensures
        sum_of(v) == running(zero::<N>(), v),
{
    let blocks = v.len() / 4;
    let at = 4 * blocks as int;
    lanes_total_is_exact(v, blocks);
    running_over_parts(zero::<N>(), v.take(at), v.skip(at));
    assert(v.take(at) + v.skip(at) =~= v);
}

/// Where the arithmetic is exact, the sum of two slices in a row is the sum of their sums.
pub proof fn sum_of_parts<N: ExactNumber>(a: Seq<N>, b: Seq<N>)
    ensures
        sum_of(a + b) == sum_of(a).spec_plus(sum_of(b)),
{
    sum_of_is_running(a);
    sum_of_is_running(b);
    sum_of_is_running(a + b);
    running_over_parts(zero::<N>(), a, b);
    running_shifts(running(zero::<N>(), a), b);
}

/// Where the arithmetic is exact, the order of the values plays no part in their sum.
pub proof fn sum_of_permutation<N: ExactNumber>(a: Seq<N>, b: Seq<N>)
    requires
        a.to_multiset() == b.to_multiset(),
    ensures
        sum_of(a) == sum_of(b),
{
    sum_of_is_running(a);
    sum_of_is_running(b);
    running_of_permutation(a, b);
}

/// The squared differences of the values from `c`.
pub open spec fn squared_differences<N: Number>(v: Seq<N>, c: N) -> Seq<N> {
    Seq::new(v.len(), |i: int| v[i].spec_minus(c).spec_times(v[i].spec_minus(c)))
}

/// `(x - c)^2 + 2*c*x == x^2 + c^2`
proof fn square_of_difference<N: ExactNumber>(x: N, c: N)
    ensures
        x.spec_minus(c).spec_times(x.spec_minus(c)).spec_plus(
            c.spec_times(x).spec_plus(c.spec_times(x)),
        ) == x.spec_times(x).spec_plus(c.spec_times(c)),
{
    let d = x.spec_minus(c);
    N::minus_then_plus(x, c);
    let (r, p, q) = (d.spec_times(d), c.spec_times(d), c.spec_times(c));
    let t = p.spec_plus(q);
    // c*x == p + q, and x*x == (r + p) + (p + q)
    N::times_distributes(c, d, c);
    N::times_distributes(x, d, c);
    N::times_commutes(x, d);
    N::times_distributes(d, d, c);
    N::times_commutes(d, c);
    N::times_commutes(x, c);
    assert(c.spec_times(x) == t);
    assert(x.spec_times(x) == r.spec_plus(p).spec_plus(t));
    // r + (t + t) == ((r + p) + t) + q
    N::plus_associates(p, q, t);
    N::plus_commutes(q, t);
    N::plus_associates(r, p, t.spec_plus(q));
    N::plus_associates(r.spec_plus(p), t, q);
}

/// The squared differences from any `c` add up to what the sum and the sum of squares say.
proof fn squared_differences_add_up<N: ExactNumber>(v: Seq<N>, c: N)
    requires
        v.len() <= isize::MAX,
    ensures
        running(zero::<N>(), squared_differences(v, c)).spec_plus(
            c.spec_times(running(zero::<N>(), v)).spec_plus(
                c.spec_times(running(zero::<N>(), v)),
            ),
        ) == running(zero::<N>(), squares(v)).spec_plus(
            N::spec_of_usize(v.len() as usize).spec_times(c.spec_times(c)),
        ),
    decreases v.len(),
{
    let z = zero::<N>();
    let cc = c.spec_times(c);
    if v.len() == 0 {
        times_zero(c);
        times_zero(cc);
        N::times_commutes(z, cc);
        N::plus_zero(z);
    } else {
        let before = v.drop_last();
        let x = v.last();
        squared_differences_add_up(before, c);
        assert(squared_differences(v, c).drop_last() =~= squared_differences(before, c));
        assert(squares(v).drop_last() =~= squares(before));
        let (r, s, q) = (
            running(z, squared_differences(before, c)),
            running(z, before),
            running(z, squares(before)),
        );
        let (cs, cx, xx) = (c.spec_times(s), c.spec_times(x), x.spec_times(x));
        let dd = x.spec_minus(c).spec_times(x.spec_minus(c));
        let n = N::spec_of_usize(before.len() as usize);
        N::times_distributes(c, s, x);
        plus_exchange(cs, cx, cs, cx);
        plus_exchange(r, dd, cs.spec_plus(cs), cx.spec_plus(cx));
        square_of_difference(x, c);
        plus_exchange(q, n.spec_times(cc), xx, cc);
        // One more count takes in one more square of c.
        N::counts_add(before.len() as usize, 1);
        let m = N::spec_of_usize(v.len() as usize);
        N::times_commutes(m, cc);
        N::times_distributes(cc, n, one());
        N::times_one(cc);
        N::times_commutes(cc, n);
        assert(m.spec_times(cc) == n.spec_times(cc).spec_plus(cc));
    }
}

/// The variance is the mean of the squared differences from the mean: where the arithmetic
/// is exact and the mean of the values is not rounded, the formula over the sum and the sum
/// of squares gives the sum of the squared differences over the count.
pub proof fn variance_is_mean_square<N: ExactNumber>(v: Seq<N>)
    requires
        0 < v.len() <= isize::MAX,
        mean_of(v).spec_times(N::spec_of_usize(v.len() as usize)) == sum_of(v),
    ensures
        variance_of(v) == running(zero::<N>(), squared_differences(v, mean_of(v))).spec_over(
            N::spec_of_usize(v.len() as usize),
        ),
        variance_from(
            running(zero::<N>(), v),
            running(zero::<N>(), squares(v)),
            N::spec_of_usize(v.len() as usize),
        ) == variance_of(v),
{
    let z = zero::<N>();
    let c = mean_of(v);
    let n = N::spec_of_usize(v.len() as usize);
    let s = running(z, v);
    let q = running(z, squares(v));
    let r = running(z, squared_differences(v, c));
    sum_is_exact(v);
    squared_differences_add_up(v, c);
    // n * c^2 == s * c
    let t = s.spec_times(c);
    N::times_commutes(n, c.spec_times(c));
    N::times_associates(c, c, n);
    N::times_commutes(c, s);
    assert(n.spec_times(c.spec_times(c)) == t);
    // r + (t + t) == q + t, so r is q - t
    N::plus_associates(r, t, t);
    plus_cancels(r.spec_plus(t), q, t);
    minus_undoes_plus(r, t);
}

} // verus!
