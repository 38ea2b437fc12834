//! What the aggregates for drawdown and drawup tell.
//!
//! The laws here ask nothing of the number format as a whole.  Their premise speaks of the
//! values at hand: that these values, and the declines or climbs among them, are ordered as
//! they should be.  Positive values of a format with [`PositiveRatios`] always meet it.
use crate::indicators::window_aggregate::{
    downward, upward, DrawdownAgg, DrawupAgg, WindowAggregate, WindowParts,
};
use crate::number::{climb, decline, one, positive, zero, Number, PositiveRatios};
use vstd::prelude::*;

verus! {

/// Whether the numbers in a set are all comparable with one another, and the extrema are read
/// off their order.
pub open spec fn ordered_among<N: Number>(among: Set<N>) -> bool {
    &&& forall|a: N| among.contains(a) ==> #[trigger] a.spec_at_most(a)
    &&& forall|a: N, b: N|
        among.contains(a) && among.contains(b) && #[trigger] a.spec_at_most(b)
            && #[trigger] b.spec_at_most(a) ==> a == b
    &&& forall|a: N, b: N, c: N|
        among.contains(a) && among.contains(b) && among.contains(c) && #[trigger] a.spec_at_most(b)
            && #[trigger] b.spec_at_most(c) ==> a.spec_at_most(c)
    &&& forall|a: N, b: N|
        among.contains(a) && among.contains(b) ==> #[trigger] a.spec_at_most(b) || b.spec_at_most(a)
    &&& forall|a: N, b: N|
        among.contains(a) && among.contains(b) ==> (#[trigger] a.spec_below(b)
            <==> !b.spec_at_most(a))
    &&& forall|a: N, b: N|
        among.contains(a) && among.contains(b) ==> #[trigger] a.spec_greater(b) == (
        if a.spec_at_most(b) {
            b
        } else {
            a
        })
    &&& forall|a: N, b: N|
        among.contains(a) && among.contains(b) ==> #[trigger] a.spec_lesser(b) == (
        if a.spec_at_most(b) {
            a
        } else {
            b
        })
}

/// The values of `s`.
pub open spec fn values_in<N: Number>(s: Seq<N>) -> Set<N> {
    Set::new(|x: N| s.contains(x))
}

/// Whether all values of `s` are values of `all`.
pub open spec fn within<N: Number>(all: Seq<N>, s: Seq<N>) -> bool {
    forall|i: int| 0 <= i < s.len() ==> all.contains(#[trigger] s[i])
}

/// Whether `x` is the highest value of `s`.
pub open spec fn highest_of<N: Number>(s: Seq<N>, x: N) -> bool {
    &&& s.contains(x)
    &&& forall|i: int| 0 <= i < s.len() ==> (#[trigger] s[i]).spec_at_most(x)
}

/// Whether `x` is the lowest value of `s`.
pub open spec fn lowest_of<N: Number>(s: Seq<N>, x: N) -> bool {
    &&& s.contains(x)
    &&& forall|i: int| 0 <= i < s.len() ==> x.spec_at_most(#[trigger] s[i])
}

proof fn greater_among<N: Number>(among: Set<N>, a: N, b: N)
    requires
        ordered_among(among),
        among.contains(a),
        among.contains(b),
    ensures
        a.spec_greater(b) == a || a.spec_greater(b) == b,
        among.contains(a.spec_greater(b)),
        a.spec_at_most(a.spec_greater(b)),
        b.spec_at_most(a.spec_greater(b)),
{
    assert(a.spec_at_most(b) || b.spec_at_most(a));
    assert(a.spec_at_most(a));
    assert(b.spec_at_most(b));
}

proof fn lesser_among<N: Number>(among: Set<N>, a: N, b: N)
    requires
        ordered_among(among),
        among.contains(a),
        among.contains(b),
    ensures
        a.spec_lesser(b) == a || a.spec_lesser(b) == b,
        a.spec_lesser(b).spec_at_most(a),
        a.spec_lesser(b).spec_at_most(b),
{
    assert(a.spec_at_most(b) || b.spec_at_most(a));
    assert(a.spec_at_most(a));
    assert(b.spec_at_most(b));
}

proof fn highest_of_both<N: Number>(all: Seq<N>, s: Seq<N>, a: N, t: Seq<N>, b: N)
    requires
        ordered_among(values_in(all)),
        within(all, s),
        within(all, t),
        highest_of(s, a),
        highest_of(t, b),
    ensures
        all.contains(a),
        all.contains(b),
        highest_of(s + t, a.spec_greater(b)),
{
    let w = s + t;
    let among = values_in(all);
    let p = choose|p: int| 0 <= p < s.len() && s[p] == a;
    let q = choose|q: int| 0 <= q < t.len() && t[q] == b;
    assert(all.contains(s[p]) && all.contains(t[q]));
    assert(among.contains(a) && among.contains(b));
    greater_among(among, a, b);
    assert(w[p] == a && w[s.len() + q] == b);
    let top = a.spec_greater(b);
    assert forall|i: int| 0 <= i < w.len() implies (#[trigger] w[i]).spec_at_most(top) by {
        if i < s.len() {
            assert(w[i] == s[i]);
            assert(among.contains(s[i]));
            assert(s[i].spec_at_most(a));
        } else {
            assert(w[i] == t[i - s.len()]);
            assert(among.contains(t[i - s.len()]));
            assert(t[i - s.len()].spec_at_most(b));
        }
    }
}

proof fn lowest_of_both<N: Number>(all: Seq<N>, s: Seq<N>, a: N, t: Seq<N>, b: N)
    requires
        ordered_among(values_in(all)),
        within(all, s),
        within(all, t),
        lowest_of(s, a),
        lowest_of(t, b),
    ensures
        all.contains(a),
        all.contains(b),
        lowest_of(s + t, a.spec_lesser(b)),
{
    let w = s + t;
    let among = values_in(all);
    let p = choose|p: int| 0 <= p < s.len() && s[p] == a;
    let q = choose|q: int| 0 <= q < t.len() && t[q] == b;
    assert(all.contains(s[p]) && all.contains(t[q]));
    assert(among.contains(a) && among.contains(b));
    lesser_among(among, a, b);
    assert(w[p] == a && w[s.len() + q] == b);
    let bottom = a.spec_lesser(b);
    assert forall|i: int| 0 <= i < w.len() implies bottom.spec_at_most(#[trigger] w[i]) by {
        if i < s.len() {
            assert(w[i] == s[i]);
            assert(among.contains(s[i]));
            assert(a.spec_at_most(s[i]));
        } else {
            assert(w[i] == t[i - s.len()]);
            assert(among.contains(t[i - s.len()]));
            assert(b.spec_at_most(t[i - s.len()]));
        }
    }
}

/// There is only one lowest value and only one highest.
proof fn extremes_unique<N: Number>(s: Seq<N>, low: N, low_too: N, high: N, high_too: N)
    requires
        ordered_among(values_in(s)),
        lowest_of(s, low),
        lowest_of(s, low_too),
        highest_of(s, high),
        highest_of(s, high_too),
    ensures
        low == low_too,
        high == high_too,
{
    let among = values_in(s);
    assert(among.contains(low) && among.contains(low_too));
    assert(among.contains(high) && among.contains(high_too));
    let a = choose|i: int| 0 <= i < s.len() && s[i] == low;
    let b = choose|i: int| 0 <= i < s.len() && s[i] == low_too;
    let c = choose|i: int| 0 <= i < s.len() && s[i] == high;
    let d = choose|i: int| 0 <= i < s.len() && s[i] == high_too;
    assert(low_too.spec_at_most(s[a]) && low.spec_at_most(s[b]));
    assert(s[c].spec_at_most(high_too) && s[d].spec_at_most(high));
}

/// A way to combine values, older ones on the left.
pub enum Bracketing<N> {
    Value(N),
    Pair(Box<Bracketing<N>>, Box<Bracketing<N>>),
}

impl<N: Number> Bracketing<N> {
    /// The values, oldest first.
    pub open spec fn values(self) -> Seq<N>
        decreases self,
    {
        match self {
            Bracketing::Value(value) => seq![value],
            Bracketing::Pair(older, newer) => older.values() + newer.values(),
        }
    }

    /// What combining them this way gives.
    pub open spec fn combined<A: WindowAggregate<N>>(self) -> A
        decreases self,
    {
        match self {
            Bracketing::Value(value) => A::spec_leaf(value),
            Bracketing::Pair(older, newer) => older.combined::<A>().spec_combine(
                newer.combined::<A>(),
            ),
        }
    }
}

/// The bracketing `(((a b) c) d)`.
spec fn up_bracketing<N: Number>(s: Seq<N>) -> Bracketing<N>
    decreases s.len(),
{
    if s.len() <= 1 {
        Bracketing::Value(s[0])
    } else {
        Bracketing::Pair(
            Box::new(up_bracketing(s.drop_last())),
            Box::new(Bracketing::Value(s.last())),
        )
    }
}

/// The bracketing `(a (b (c d)))`.
spec fn down_bracketing<N: Number>(s: Seq<N>) -> Bracketing<N>
    decreases s.len(),
{
    if s.len() <= 1 {
        Bracketing::Value(s[0])
    } else {
        Bracketing::Pair(
            Box::new(Bracketing::Value(s[0])),
            Box::new(down_bracketing(s.drop_first())),
        )
    }
}

proof fn up_bracketing_fits<N: Number, A: WindowAggregate<N>>(s: Seq<N>)
    requires
        s.len() > 0,
    ensures
        up_bracketing(s).values() == s,
        up_bracketing(s).combined::<A>() == upward::<N, A>(s),
    decreases s.len(),
{
    reveal_with_fuel(Bracketing::values, 2);
    reveal_with_fuel(Bracketing::combined, 2);
    if s.len() == 1 {
        assert(up_bracketing(s).values() =~= s);
    } else {
        up_bracketing_fits::<N, A>(s.drop_last());
        assert(s.drop_last() + seq![s.last()] =~= s);
    }
}

proof fn down_bracketing_fits<N: Number, A: WindowAggregate<N>>(s: Seq<N>)
    requires
        s.len() > 0,
    ensures
        down_bracketing(s).values() == s,
        down_bracketing(s).combined::<A>() == downward::<N, A>(s),
    decreases s.len(),
{
    reveal_with_fuel(Bracketing::values, 2);
    reveal_with_fuel(Bracketing::combined, 2);
    if s.len() == 1 {
        assert(down_bracketing(s).values() =~= s);
    } else {
        down_bracketing_fits::<N, A>(s.drop_first());
        assert(seq![s[0]] + s.drop_first() =~= s);
    }
}

/// The bracketing by which a window combines its values.
spec fn window_bracketing<N: Number>(w: WindowParts<N>) -> Bracketing<N> {
    if w.older.len() > 0 && w.newer.len() > 0 {
        Bracketing::Pair(
            Box::new(down_bracketing(w.older)),
            Box::new(up_bracketing(w.newer)),
        )
    } else if w.older.len() > 0 {
        down_bracketing(w.older)
    } else {
        up_bracketing(w.newer)
    }
}

proof fn window_bracketing_fits<N: Number, A: WindowAggregate<N>>(w: WindowParts<N>)
    requires
        w.contents().len() > 0,
    ensures
        window_bracketing(w).values() == w.contents(),
        w.aggregate::<A>() == Some(window_bracketing(w).combined::<A>()),
{
    if w.older.len() > 0 {
        down_bracketing_fits::<N, A>(w.older);
    }
    if w.newer.len() > 0 {
        up_bracketing_fits::<N, A>(w.newer);
    }
    if w.older.len() == 0 {
        assert(w.contents() =~= w.newer);
    } else if w.newer.len() == 0 {
        assert(w.contents() =~= w.older);
    }
}

/// Zero and the declines from any value of `s` to any other.
pub open spec fn declines_in<N: Number>(s: Seq<N>) -> Set<N> {
    Set::new(
        |x: N|
            x == zero::<N>() || exists|i: int, j: int|
                0 <= i < s.len() && 0 <= j < s.len() && x == decline(#[trigger] s[i], #[trigger] s[j]),
    )
}

/// Whether the values of `s` and the declines among them are ordered, and the declines respect the
/// order of the values: a higher peak or a lower trough never makes a
/// decline smaller, and a value does not decline to itself.
pub open spec fn declines_in_order<N: Number>(s: Seq<N>) -> bool {
    &&& ordered_among(values_in(s))
    &&& ordered_among(declines_in(s))
    &&& forall|i: int| 0 <= i < s.len() ==> decline(#[trigger] s[i], s[i]) == zero::<N>()
    &&& forall|p: N, q: N, t: N, u: N|
        #![trigger decline(p, t), decline(q, u)]
        s.contains(p) && s.contains(q) && s.contains(t) && s.contains(u) && p.spec_at_most(q)
            && u.spec_at_most(t) ==> decline(p, t).spec_at_most(decline(q, u))
}

/// Whether `r` is the largest decline from a value of `s` to a later one, or zero where there is
/// none above it.
pub open spec fn largest_decline<N: Number>(s: Seq<N>, r: N) -> bool {
    &&& zero::<N>().spec_at_most(r)
    &&& forall|i: int, j: int|
        0 <= i <= j < s.len() ==> decline(#[trigger] s[i], #[trigger] s[j]).spec_at_most(r)
    &&& r == zero::<N>() || exists|i: int, j: int|
        0 <= i < j < s.len() && r == decline(#[trigger] s[i], #[trigger] s[j])
}

/// Whether an aggregate tells the lowest value of `s`, the highest, and the largest decline.
pub open spec fn tells_drawdown<N: Number>(s: Seq<N>, agg: DrawdownAgg<N>) -> bool {
    &&& lowest_of(s, agg.min)
    &&& highest_of(s, agg.max)
    &&& largest_decline(s, agg.ratio)
}

proof fn decline_among<N: Number>(s: Seq<N>, p: N, t: N)
    requires
        s.contains(p),
        s.contains(t),
    ensures
        declines_in(s).contains(decline(p, t)),
        declines_in(s).contains(zero()),
{
    let i = choose|i: int| 0 <= i < s.len() && s[i] == p;
    let j = choose|j: int| 0 <= j < s.len() && s[j] == t;
    assert(decline(p, t) == decline(s[i], s[j]));
}

/// What is the largest decline of values of `all` is among the declines of `all`.
pub proof fn largest_decline_among<N: Number>(all: Seq<N>, s: Seq<N>, r: N)
    requires
        within(all, s),
        largest_decline(s, r),
    ensures
        declines_in(all).contains(r),
{
    if r != zero::<N>() {
        let (i, j) = choose|i: int, j: int|
            0 <= i < j < s.len() && r == decline(#[trigger] s[i], #[trigger] s[j]);
        decline_among(all, s[i], s[j]);
    }
}

/// There is only one largest decline.
pub proof fn largest_decline_unique<N: Number>(s: Seq<N>, r: N, q: N)
    requires
        declines_in_order(s),
        largest_decline(s, r),
        largest_decline(s, q),
    ensures
        r == q,
{
    largest_decline_among(s, s, r);
    largest_decline_among(s, s, q);
    assert(r.spec_at_most(q));
    assert(q.spec_at_most(r));
}

proof fn leaf_tells_drawdown<N: Number>(all: Seq<N>, value: N)
    requires
        declines_in_order(all),
        all.contains(value),
    ensures
        tells_drawdown(seq![value], DrawdownAgg::<N>::spec_leaf(value)),
{
    let s = seq![value];
    let k = choose|k: int| 0 <= k < all.len() && all[k] == value;
    assert(decline(all[k], all[k]) == zero::<N>());
    decline_among(all, value, value);
    assert(values_in(all).contains(value));
    assert(s[0] == value);
}

/// Two aggregates that tell of adjacent segments combine to one that tells of both.
proof fn combine_tells_drawdown<N: Number>(
    all: Seq<N>,
    s: Seq<N>,
    a: DrawdownAgg<N>,
    t: Seq<N>,
    b: DrawdownAgg<N>,
)
    requires
        declines_in_order(all),
        within(all, s),
        within(all, t),
        tells_drawdown(s, a),
        tells_drawdown(t, b),
    ensures
        tells_drawdown(s + t, a.spec_combine(b)),
{
    let w = s + t;
    let g = a.spec_combine(b);
    let cross = decline(a.max, b.min);
    lowest_of_both(all, s, a.min, t, b.min);
    highest_of_both(all, s, a.max, t, b.max);
    largest_decline_among(all, s, a.ratio);
    largest_decline_among(all, t, b.ratio);
    decline_among(all, a.max, b.min);
    let among = declines_in(all);
    let inner = a.ratio.spec_greater(b.ratio);
    greater_among(among, a.ratio, b.ratio);
    greater_among(among, inner, cross);
    assert forall|i: int, j: int| 0 <= i <= j < w.len() implies decline(
        #[trigger] w[i],
        #[trigger] w[j],
    ).spec_at_most(g.ratio) by {
        decline_among(all, w[i], w[j]);
        if j < s.len() {
            assert(w[i] == s[i] && w[j] == s[j]);
            assert(decline(s[i], s[j]).spec_at_most(a.ratio));
            assert(a.ratio.spec_at_most(inner));
        } else if i >= s.len() {
            assert(w[i] == t[i - s.len()] && w[j] == t[j - s.len()]);
            assert(decline(t[i - s.len()], t[j - s.len()]).spec_at_most(b.ratio));
            assert(b.ratio.spec_at_most(inner));
        } else {
            assert(w[i] == s[i] && w[j] == t[j - s.len()]);
            assert(decline(w[i], w[j]).spec_at_most(cross));
        }
    }
    decline_among(all, a.max, a.max);
    assert(zero::<N>().spec_at_most(a.ratio));
    assert(a.ratio.spec_at_most(inner));
    assert(zero::<N>().spec_at_most(inner));
    if g.ratio == cross {
        let p = choose|p: int| 0 <= p < s.len() && s[p] == a.max;
        let q = choose|q: int| 0 <= q < t.len() && t[q] == b.min;
        assert(w[p] == s[p] && w[s.len() + q] == t[q]);
        assert(g.ratio == decline(w[p], w[s.len() + q]));
    } else if g.ratio == a.ratio {
        if a.ratio != zero::<N>() {
            let (i, j) = choose|i: int, j: int|
                0 <= i < j < s.len() && a.ratio == decline(#[trigger] s[i], #[trigger] s[j]);
            assert(w[i] == s[i] && w[j] == s[j]);
        }
    } else {
        assert(g.ratio == b.ratio);
        if b.ratio != zero::<N>() {
            let (i, j) = choose|i: int, j: int|
                0 <= i < j < t.len() && b.ratio == decline(#[trigger] t[i], #[trigger] t[j]);
            assert(w[s.len() + i] == t[i] && w[s.len() + j] == t[j]);
        }
    }
}

proof fn bracketing_tells_drawdown<N: Number>(all: Seq<N>, b: Bracketing<N>)
    requires
        declines_in_order(all),
        within(all, b.values()),
    ensures
        tells_drawdown(b.values(), b.combined::<DrawdownAgg<N>>()),
        b.values().len() > 0,
    decreases b,
{
    match b {
        Bracketing::Value(value) => {
            assert(all.contains(b.values()[0]));
            leaf_tells_drawdown(all, value);
        },
        Bracketing::Pair(older, newer) => {
            let (s, t) = (older.values(), newer.values());
            assert forall|i: int| 0 <= i < s.len() implies all.contains(#[trigger] s[i]) by {
                assert(b.values()[i] == s[i]);
            }
            assert forall|i: int| 0 <= i < t.len() implies all.contains(#[trigger] t[i]) by {
                assert(b.values()[s.len() + i] == t[i]);
            }
            bracketing_tells_drawdown(all, *older);
            bracketing_tells_drawdown(all, *newer);
            combine_tells_drawdown(
                all,
                s,
                older.combined::<DrawdownAgg<N>>(),
                t,
                newer.combined::<DrawdownAgg<N>>(),
            );
        },
    }
}

/// However the values are bracketed, older ones on the left, the aggregate for the drawdown tells
/// the lowest value, the highest, and the largest decline from a value to a later one.
pub proof fn drawdown_of_bracketing<N: Number>(b: Bracketing<N>)
    requires
        declines_in_order(b.values()),
    ensures
        tells_drawdown(b.values(), b.combined::<DrawdownAgg<N>>()),
{
    bracketing_tells_drawdown(b.values(), b);
}

/// Two bracketings of the same values have the same drawdown.
pub proof fn drawdown_of_bracketings_agree<N: Number>(a: Bracketing<N>, b: Bracketing<N>)
    requires
        a.values() == b.values(),
        declines_in_order(a.values()),
    ensures
        a.combined::<DrawdownAgg<N>>() == b.combined::<DrawdownAgg<N>>(),
{
    let s = a.values();
    drawdown_of_bracketing(a);
    drawdown_of_bracketing(b);
    let (g, h) = (a.combined::<DrawdownAgg<N>>(), b.combined::<DrawdownAgg<N>>());
    largest_decline_unique(s, g.ratio, h.ratio);
    extremes_unique(s, g.min, h.min, g.max, h.max);
}

/// The aggregate of a window tells of its contents, however they came in and left.
pub proof fn window_tells_drawdown<N: Number>(w: WindowParts<N>)
    requires
        w.contents().len() > 0,
        declines_in_order(w.contents()),
    ensures
        w.aggregate::<DrawdownAgg<N>>() is Some,
        tells_drawdown(w.contents(), w.aggregate::<DrawdownAgg<N>>()->0),
{
    let b = window_bracketing(w);
    window_bracketing_fits::<N, DrawdownAgg<N>>(w);
    drawdown_of_bracketing(b);
}

/// The aggregate of a window combined with one more value tells of both.
pub proof fn window_with_newest_tells_drawdown<N: Number>(w: WindowParts<N>, value: N)
    requires
        declines_in_order(w.contents().push(value)),
    ensures
        tells_drawdown(
            w.contents().push(value),
            (match w.aggregate::<DrawdownAgg<N>>() {
                Some(agg) => agg.spec_combine(DrawdownAgg::<N>::spec_leaf(value)),
                None => DrawdownAgg::<N>::spec_leaf(value),
            }),
        ),
{
    let all = w.contents().push(value);
    let leaf = Bracketing::Value(value);
    if w.contents().len() == 0 {
        assert(w.aggregate::<DrawdownAgg<N>>() is None);
        assert(leaf.values() =~= all);
        drawdown_of_bracketing(leaf);
    } else {
        window_bracketing_fits::<N, DrawdownAgg<N>>(w);
        let b = Bracketing::Pair(Box::new(window_bracketing(w)), Box::new(leaf));
        reveal_with_fuel(Bracketing::values, 2);
        reveal_with_fuel(Bracketing::combined, 2);
        assert(b.values() =~= all);
        drawdown_of_bracketing(b);
    }
}

/// Positive values meet the premise wherever declines between positive values respect the order.
pub proof fn positive_declines_in_order<N: PositiveRatios>(s: Seq<N>)
    requires
        forall|i: int| 0 <= i < s.len() ==> positive(#[trigger] s[i]),
    ensures
        declines_in_order(s),
{
    N::order_laws();
    assert forall|x: N| #[trigger] s.contains(x) implies positive(x) by {
        let i = choose|i: int| 0 <= i < s.len() && s[i] == x;
        assert(positive(s[i]));
    }
    assert forall|i: int| 0 <= i < s.len() implies decline(#[trigger] s[i], s[i]) == zero::<N>() by {
        N::decline_to_itself(s[i]);
    }
    assert forall|p: N, q: N, t: N, u: N|
        #![trigger decline(p, t), decline(q, u)]
        s.contains(p) && s.contains(q) && s.contains(t) && s.contains(u) && p.spec_at_most(q)
            && u.spec_at_most(t) implies decline(p, t).spec_at_most(decline(q, u)) by {
        N::decline_monotone(p, q, u, t);
    }
}

/// Zero and the climbs from any value of `s` to any other.
pub open spec fn climbs_in<N: Number>(s: Seq<N>) -> Set<N> {
    Set::new(
        |x: N|
            x == zero::<N>() || exists|i: int, j: int|
                0 <= i < s.len() && 0 <= j < s.len() && x == climb(#[trigger] s[i], #[trigger] s[j]),
    )
}

/// Whether the values of `s` and the climbs among them are ordered, and the climbs respect the
/// order of the values: a lower trough or a higher peak never makes a
/// climb smaller, and a value does not climb to itself.
pub open spec fn climbs_in_order<N: Number>(s: Seq<N>) -> bool {
    &&& ordered_among(values_in(s))
    &&& ordered_among(climbs_in(s))
    &&& forall|i: int| 0 <= i < s.len() ==> climb(#[trigger] s[i], s[i]) == zero::<N>()
    &&& forall|t: N, u: N, p: N, q: N|
        #![trigger climb(t, p), climb(u, q)]
        s.contains(p) && s.contains(q) && s.contains(t) && s.contains(u) && u.spec_at_most(t)
            && p.spec_at_most(q) ==> climb(t, p).spec_at_most(climb(u, q))
}

/// Whether `r` is the largest climb from a value of `s` to a later one, or zero where there is
/// none above it.
pub open spec fn largest_climb<N: Number>(s: Seq<N>, r: N) -> bool {
    &&& zero::<N>().spec_at_most(r)
    &&& forall|i: int, j: int|
        0 <= i <= j < s.len() ==> climb(#[trigger] s[i], #[trigger] s[j]).spec_at_most(r)
    &&& r == zero::<N>() || exists|i: int, j: int|
        0 <= i < j < s.len() && r == climb(#[trigger] s[i], #[trigger] s[j])
}

/// Whether an aggregate tells the lowest value of `s`, the highest, and the largest climb.
pub open spec fn tells_drawup<N: Number>(s: Seq<N>, agg: DrawupAgg<N>) -> bool {
    &&& lowest_of(s, agg.min)
    &&& highest_of(s, agg.max)
    &&& largest_climb(s, agg.ratio)
}

proof fn climb_among<N: Number>(s: Seq<N>, p: N, t: N)
    requires
        s.contains(p),
        s.contains(t),
    ensures
        climbs_in(s).contains(climb(p, t)),
        climbs_in(s).contains(zero()),
{
    let i = choose|i: int| 0 <= i < s.len() && s[i] == p;
    let j = choose|j: int| 0 <= j < s.len() && s[j] == t;
    assert(climb(p, t) == climb(s[i], s[j]));
}

/// What is the largest climb of values of `all` is among the climbs of `all`.
proof fn largest_climb_among<N: Number>(all: Seq<N>, s: Seq<N>, r: N)
    requires
        within(all, s),
        largest_climb(s, r),
    ensures
        climbs_in(all).contains(r),
{
    if r != zero::<N>() {
        let (i, j) = choose|i: int, j: int|
            0 <= i < j < s.len() && r == climb(#[trigger] s[i], #[trigger] s[j]);
        climb_among(all, s[i], s[j]);
    }
}

/// There is only one largest climb.
pub proof fn largest_climb_unique<N: Number>(s: Seq<N>, r: N, q: N)
    requires
        climbs_in_order(s),
        largest_climb(s, r),
        largest_climb(s, q),
    ensures
        r == q,
{
    largest_climb_among(s, s, r);
    largest_climb_among(s, s, q);
    assert(r.spec_at_most(q));
    assert(q.spec_at_most(r));
}

proof fn leaf_tells_drawup<N: Number>(all: Seq<N>, value: N)
    requires
        climbs_in_order(all),
        all.contains(value),
    ensures
        tells_drawup(seq![value], DrawupAgg::<N>::spec_leaf(value)),
{
    let s = seq![value];
    let k = choose|k: int| 0 <= k < all.len() && all[k] == value;
    assert(climb(all[k], all[k]) == zero::<N>());
    climb_among(all, value, value);
    assert(values_in(all).contains(value));
    assert(s[0] == value);
}

/// Two aggregates that tell of adjacent segments combine to one that tells of both.
proof fn combine_tells_drawup<N: Number>(
    all: Seq<N>,
    s: Seq<N>,
    a: DrawupAgg<N>,
    t: Seq<N>,
    b: DrawupAgg<N>,
)
    requires
        climbs_in_order(all),
        within(all, s),
        within(all, t),
        tells_drawup(s, a),
        tells_drawup(t, b),
    ensures
        tells_drawup(s + t, a.spec_combine(b)),
{
    let w = s + t;
    let g = a.spec_combine(b);
    let cross = climb(a.min, b.max);
    lowest_of_both(all, s, a.min, t, b.min);
    highest_of_both(all, s, a.max, t, b.max);
    largest_climb_among(all, s, a.ratio);
    largest_climb_among(all, t, b.ratio);
    climb_among(all, a.min, b.max);
    let among = climbs_in(all);
    let inner = a.ratio.spec_greater(b.ratio);
    greater_among(among, a.ratio, b.ratio);
    greater_among(among, inner, cross);
    assert forall|i: int, j: int| 0 <= i <= j < w.len() implies climb(
        #[trigger] w[i],
        #[trigger] w[j],
    ).spec_at_most(g.ratio) by {
        climb_among(all, w[i], w[j]);
        if j < s.len() {
            assert(w[i] == s[i] && w[j] == s[j]);
            assert(climb(s[i], s[j]).spec_at_most(a.ratio));
            assert(a.ratio.spec_at_most(inner));
        } else if i >= s.len() {
            assert(w[i] == t[i - s.len()] && w[j] == t[j - s.len()]);
            assert(climb(t[i - s.len()], t[j - s.len()]).spec_at_most(b.ratio));
            assert(b.ratio.spec_at_most(inner));
        } else {
            assert(w[i] == s[i] && w[j] == t[j - s.len()]);
            assert(climb(w[i], w[j]).spec_at_most(cross));
        }
    }
    climb_among(all, a.min, a.min);
    assert(zero::<N>().spec_at_most(a.ratio));
    assert(a.ratio.spec_at_most(inner));
    assert(zero::<N>().spec_at_most(inner));
    if g.ratio == cross {
        let p = choose|p: int| 0 <= p < s.len() && s[p] == a.min;
        let q = choose|q: int| 0 <= q < t.len() && t[q] == b.max;
        assert(w[p] == s[p] && w[s.len() + q] == t[q]);
        assert(g.ratio == climb(w[p], w[s.len() + q]));
    } else if g.ratio == a.ratio {
        if a.ratio != zero::<N>() {
            let (i, j) = choose|i: int, j: int|
                0 <= i < j < s.len() && a.ratio == climb(#[trigger] s[i], #[trigger] s[j]);
            assert(w[i] == s[i] && w[j] == s[j]);
        }
    } else {
        assert(g.ratio == b.ratio);
        if b.ratio != zero::<N>() {
            let (i, j) = choose|i: int, j: int|
                0 <= i < j < t.len() && b.ratio == climb(#[trigger] t[i], #[trigger] t[j]);
            assert(w[s.len() + i] == t[i] && w[s.len() + j] == t[j]);
        }
    }
}

proof fn bracketing_tells_drawup<N: Number>(all: Seq<N>, b: Bracketing<N>)
    requires
        climbs_in_order(all),
        within(all, b.values()),
    ensures
        tells_drawup(b.values(), b.combined::<DrawupAgg<N>>()),
        b.values().len() > 0,
    decreases b,
{
    match b {
        Bracketing::Value(value) => {
            assert(all.contains(b.values()[0]));
            leaf_tells_drawup(all, value);
        },
        Bracketing::Pair(older, newer) => {
            let (s, t) = (older.values(), newer.values());
            assert forall|i: int| 0 <= i < s.len() implies all.contains(#[trigger] s[i]) by {
                assert(b.values()[i] == s[i]);
            }
            assert forall|i: int| 0 <= i < t.len() implies all.contains(#[trigger] t[i]) by {
                assert(b.values()[s.len() + i] == t[i]);
            }
            bracketing_tells_drawup(all, *older);
            bracketing_tells_drawup(all, *newer);
            combine_tells_drawup(
                all,
                s,
                older.combined::<DrawupAgg<N>>(),
                t,
                newer.combined::<DrawupAgg<N>>(),
            );
        },
    }
}

/// However the values are bracketed, older ones on the left, the aggregate for the drawup tells
/// the lowest value, the highest, and the largest climb from a value to a later one.
pub proof fn drawup_of_bracketing<N: Number>(b: Bracketing<N>)
    requires
        climbs_in_order(b.values()),
    ensures
        tells_drawup(b.values(), b.combined::<DrawupAgg<N>>()),
{
    bracketing_tells_drawup(b.values(), b);
}

/// Two bracketings of the same values have the same drawup.
pub proof fn drawup_of_bracketings_agree<N: Number>(a: Bracketing<N>, b: Bracketing<N>)
    requires
        a.values() == b.values(),
        climbs_in_order(a.values()),
    ensures
        a.combined::<DrawupAgg<N>>() == b.combined::<DrawupAgg<N>>(),
{
    let s = a.values();
    drawup_of_bracketing(a);
    drawup_of_bracketing(b);
    let (g, h) = (a.combined::<DrawupAgg<N>>(), b.combined::<DrawupAgg<N>>());
    largest_climb_unique(s, g.ratio, h.ratio);
    extremes_unique(s, g.min, h.min, g.max, h.max);
}

/// The aggregate of a window tells of its contents, however they came in and left.
pub proof fn window_tells_drawup<N: Number>(w: WindowParts<N>)
    requires
        w.contents().len() > 0,
        climbs_in_order(w.contents()),
    ensures
        w.aggregate::<DrawupAgg<N>>() is Some,
        tells_drawup(w.contents(), w.aggregate::<DrawupAgg<N>>()->0),
{
    let b = window_bracketing(w);
    window_bracketing_fits::<N, DrawupAgg<N>>(w);
    drawup_of_bracketing(b);
}

/// Positive values meet the premise wherever climbs between positive values respect the order.
pub proof fn positive_climbs_in_order<N: PositiveRatios>(s: Seq<N>)
    requires
        forall|i: int| 0 <= i < s.len() ==> positive(#[trigger] s[i]),
    ensures
        climbs_in_order(s),
{
    N::order_laws();
    assert forall|x: N| #[trigger] s.contains(x) implies positive(x) by {
        let i = choose|i: int| 0 <= i < s.len() && s[i] == x;
        assert(positive(s[i]));
    }
    assert forall|i: int| 0 <= i < s.len() implies climb(#[trigger] s[i], s[i]) == zero::<N>() by {
        N::climb_to_itself(s[i]);
    }
    assert forall|t: N, u: N, p: N, q: N|
        #![trigger climb(t, p), climb(u, q)]
        s.contains(p) && s.contains(q) && s.contains(t) && s.contains(u) && u.spec_at_most(t)
            && p.spec_at_most(q) implies climb(t, p).spec_at_most(climb(u, q)) by {
        N::climb_monotone(u, t, p, q);
    }
}

/// The peak so far and the largest decline so far of a scan from the oldest value on.
pub open spec fn decline_scan<N: Number>(s: Seq<N>) -> (N, N)
    decreases s.len(),
{
    if s.len() == 0 {
        (N::spec_lowest(), zero())
    } else {
        let (peak, largest) = decline_scan(s.drop_last());
        let value = s.last();
        let peak = if peak.spec_below(value) {
            value
        } else {
            peak
        };
        let here = decline(peak, value);
        (
            peak,
            if largest.spec_below(here) {
                here
            } else {
                largest
            },
        )
    }
}

/// Whether the scan starts from below the values: no value lies below the lowest number.
pub open spec fn scan_starts_below<N: Number>(s: Seq<N>) -> bool {
    forall|i: int|
        0 <= i < s.len() ==> N::spec_lowest().spec_below(#[trigger] s[i]) || N::spec_lowest()
            == s[i]
}

/// The peak of a scan is the highest value.
proof fn scan_tells_highest<N: Number>(all: Seq<N>, s: Seq<N>)
    requires
        ordered_among(values_in(all)),
        scan_starts_below(all),
        within(all, s),
        s.len() > 0,
    ensures
        highest_of(s, decline_scan(s).0),
    decreases s.len(),
{
    let older = s.drop_last();
    let last = s.len() - 1;
    let value = s[last];
    let among = values_in(all);
    assert(all.contains(s[last]));
    assert(among.contains(value));
    assert(value.spec_at_most(value));
    let top = decline_scan(s).0;
    if s.len() == 1 {
        let at = choose|k: int| 0 <= k < all.len() && all[k] == value;
        assert(N::spec_lowest().spec_below(all[at]) || N::spec_lowest() == all[at]);
        assert(s[0] == top);
    } else {
        within_front(all, s);
        scan_tells_highest(all, older);
        let peak = decline_scan(older).0;
        let p = choose|p: int| 0 <= p < older.len() && older[p] == peak;
        assert(s[p] == peak);
        assert(all.contains(s[p]));
        assert(among.contains(peak));
        assert(peak.spec_at_most(value) || value.spec_at_most(peak));
        assert(peak.spec_at_most(top) && value.spec_at_most(top));
        assert(s.contains(top));
        assert forall|i: int| 0 <= i < s.len() implies (#[trigger] s[i]).spec_at_most(top) by {
            if i < last {
                assert(older[i] == s[i]);
                assert(all.contains(s[i]));
                assert(among.contains(s[i]));
                assert(older[i].spec_at_most(peak));
            }
        }
    }
}

proof fn within_front<N: Number>(all: Seq<N>, s: Seq<N>)
    requires
        within(all, s),
        s.len() > 0,
    ensures
        within(all, s.drop_last()),
{
    let older = s.drop_last();
    assert forall|i: int| 0 <= i < older.len() implies all.contains(#[trigger] older[i]) by {
        assert(older[i] == s[i]);
    }
}

/// The greater of the largest decline so far and the decline from the highest value to the
/// newest is the largest decline.
proof fn one_more_decline<N: Number>(all: Seq<N>, s: Seq<N>, top: N, largest: N, found: N)
    requires
        declines_in_order(all),
        within(all, s),
        s.len() > 1,
        highest_of(s, top),
        largest_decline(s.drop_last(), largest),
        found == (if largest.spec_below(decline(top, s.last())) {
            decline(top, s.last())
        } else {
            largest
        }),
    ensures
        largest_decline(s, found),
{
    let z = zero::<N>();
    let older = s.drop_last();
    let last = s.len() - 1;
    let value = s[last];
    let here = decline(top, value);
    let shares = declines_in(all);
    within_front(all, s);
    let p = choose|p: int| 0 <= p < s.len() && s[p] == top;
    assert(all.contains(s[p]) && all.contains(s[last]));
    decline_among(all, top, value);
    largest_decline_among(all, older, largest);
    greater_among(shares, largest, here);
    assert(largest.spec_below(here) <==> !here.spec_at_most(largest));
    assert(largest.spec_at_most(here) || here.spec_at_most(largest));
    assert(largest.spec_at_most(largest) && here.spec_at_most(here));
    assert(shares.contains(found));
    assert(largest.spec_at_most(found) && here.spec_at_most(found));
    assert(z.spec_at_most(found)) by {
        assert(shares.contains(z));
        assert(z.spec_at_most(largest));
    }
    assert forall|i: int, j: int| 0 <= i <= j < s.len() implies decline(
        #[trigger] s[i],
        #[trigger] s[j],
    ).spec_at_most(found) by {
        assert(all.contains(s[i]) && all.contains(s[j]));
        decline_among(all, s[i], s[j]);
        let d = decline(s[i], s[j]);
        if j < last {
            assert(older[i] == s[i] && older[j] == s[j]);
            assert(decline(older[i], older[j]).spec_at_most(largest));
            assert(d.spec_at_most(largest));
        } else {
            assert(s[i].spec_at_most(top));
            assert(values_in(all).contains(value));
            assert(value.spec_at_most(value));
            assert(d.spec_at_most(here));
        }
    }
    if found == largest {
        if largest != z {
            let (i, j) = choose|i: int, j: int|
                0 <= i < j < older.len() && largest == decline(
                    #[trigger] older[i],
                    #[trigger] older[j],
                );
            assert(older[i] == s[i] && older[j] == s[j]);
        }
    } else if p < last {
        assert(found == decline(s[p], s[last]));
    } else {
        let k = choose|k: int| 0 <= k < all.len() && all[k] == value;
        assert(decline(all[k], all[k]) == z);
        assert(found == z);
    }
}

proof fn scan_tells<N: Number>(all: Seq<N>, s: Seq<N>)
    requires
        declines_in_order(all),
        scan_starts_below(all),
        within(all, s),
        s.len() > 0,
    ensures
        highest_of(s, decline_scan(s).0),
        largest_decline(s, decline_scan(s).1),
    decreases s.len(),
{
    scan_tells_highest(all, s);
    if s.len() == 1 {
        let value = s[0];
        assert(all.contains(s[0]));
        leaf_tells_drawdown(all, value);
        assert(s =~= seq![value]);
        let at = choose|k: int| 0 <= k < all.len() && all[k] == value;
        assert(decline(all[at], all[at]) == zero::<N>());
        decline_among(all, value, value);
        assert(decline_scan(s.drop_last()) == (N::spec_lowest(), zero::<N>()));
        assert(decline_scan(s).0 == value);
        assert(decline_scan(s).1 == zero::<N>());
    } else {
        within_front(all, s);
        scan_tells(all, s.drop_last());
        one_more_decline(
            all,
            s,
            decline_scan(s).0,
            decline_scan(s.drop_last()).1,
            decline_scan(s).1,
        );
    }
}

/// A scan from the oldest value on tells the highest value and the largest decline, and so
/// tells what every bracketing tells.
pub proof fn scan_is_drawdown<N: Number>(s: Seq<N>, agg: DrawdownAgg<N>)
    requires
        s.len() > 0,
        declines_in_order(s),
        scan_starts_below(s),
        tells_drawdown(s, agg),
    ensures
        largest_decline(s, decline_scan(s).1),
        decline_scan(s).0 == agg.max,
        decline_scan(s).1 == agg.ratio,
{
    scan_tells(s, s);
    largest_decline_unique(s, decline_scan(s).1, agg.ratio);
    extremes_unique(s, agg.min, agg.min, decline_scan(s).0, agg.max);
}

/// In an ordered format a scan always starts from below.
pub proof fn ordered_scan_starts_below<N: PositiveRatios>(s: Seq<N>)
    ensures
        scan_starts_below(s),
{
    N::order_laws();
    assert forall|i: int| 0 <= i < s.len() implies N::spec_lowest().spec_below(#[trigger] s[i])
        || N::spec_lowest() == s[i] by {
        assert(N::spec_lowest().spec_at_most(s[i]));
    }
}

/// Whether no value lies below an earlier one.
pub open spec fn never_falls<N: Number>(s: Seq<N>) -> bool {
    forall|i: int, j: int|
        0 <= i <= j < s.len() ==> (#[trigger] s[i]).spec_at_most(#[trigger] s[j])
}

/// Whether every fall from a value to a later one is a share above zero: none of them is
/// rounded away.
pub open spec fn falls_show<N: Number>(s: Seq<N>) -> bool {
    forall|i: int, j: int|
        0 <= i <= j < s.len() && (#[trigger] s[j]).spec_below(#[trigger] s[i]) ==> positive(
            decline(s[i], s[j]),
        )
}

/// Without a fall there is no drawdown, and without a drawdown there is no fall, except one
/// that is rounded away.
pub proof fn drawdown_is_zero_without_falls<N: Number>(s: Seq<N>, r: N)
    requires
        s.len() > 0,
        declines_in_order(s),
        largest_decline(s, r),
    ensures
        never_falls(s) ==> r == zero::<N>(),
        falls_show(s) && r == zero::<N>() ==> never_falls(s),
{
    let z = zero::<N>();
    let shares = declines_in(s);
    let among = values_in(s);
    largest_decline_among(s, s, r);
    decline_among(s, s[0], s[0]);
    if never_falls(s) && r != z {
        let (i, j) = choose|i: int, j: int|
            0 <= i < j < s.len() && r == decline(#[trigger] s[i], #[trigger] s[j]);
        assert(s[i].spec_at_most(s[j]));
        assert(among.contains(s[i]));
        assert(s[i].spec_at_most(s[i]));
        assert(decline(s[i], s[j]).spec_at_most(decline(s[i], s[i])));
        assert(r.spec_at_most(z));
    }
    if falls_show(s) && r == z {
        assert forall|i: int, j: int| 0 <= i <= j < s.len() implies (#[trigger] s[i]).spec_at_most(
            #[trigger] s[j],
        ) by {
            assert(among.contains(s[i]) && among.contains(s[j]));
            decline_among(s, s[i], s[j]);
            assert(decline(s[i], s[j]).spec_at_most(r));
            if !s[i].spec_at_most(s[j]) {
                assert(s[j].spec_below(s[i]));
                assert(positive(decline(s[i], s[j])));
            }
        }
    }
}

/// The drawdown of positive values is a share between nothing and the whole.
pub proof fn drawdown_is_share<N: PositiveRatios>(s: Seq<N>, r: N)
    requires
        s.len() > 0,
        forall|i: int| 0 <= i < s.len() ==> positive(#[trigger] s[i]),
        largest_decline(s, r),
    ensures
        zero::<N>().spec_at_most(r),
        r.spec_at_most(one()),
{
    N::order_laws();
    N::decline_to_itself(s[0]);
    N::decline_at_most_whole(s[0], s[0]);
    if r != zero::<N>() {
        let (i, j) = choose|i: int, j: int|
            0 <= i < j < s.len() && r == decline(#[trigger] s[i], #[trigger] s[j]);
        N::decline_at_most_whole(s[i], s[j]);
    }
}

/// Whether `r` is the largest fall from a value of `s` to a later one, as a share of the former,
/// or zero where there is none.
pub open spec fn largest_fall_in<N: Number>(s: Seq<N>, r: N) -> bool {
    &&& N::spec_of_usize(0).spec_at_most(r)
    &&& forall|i: int, j: int|
        0 <= i <= j < s.len() ==> (#[trigger] s[i]).spec_minus(#[trigger] s[j]).spec_over(
            s[i],
        ).spec_at_most(r)
    &&& r == N::spec_of_usize(0) || exists|i: int, j: int|
        0 <= i < j < s.len() && r == (#[trigger] s[i]).spec_minus(#[trigger] s[j]).spec_over(s[i])
}

/// Whether `r` is the largest rise from a value of `s` to a later one, as a share of the former,
/// or zero where there is none.
pub open spec fn largest_rise_in<N: Number>(s: Seq<N>, r: N) -> bool {
    &&& N::spec_of_usize(0).spec_at_most(r)
    &&& forall|i: int, j: int|
        0 <= i <= j < s.len() ==> (#[trigger] s[j]).spec_minus(#[trigger] s[i]).spec_over(
            s[i],
        ).spec_at_most(r)
    &&& r == N::spec_of_usize(0) || exists|i: int, j: int|
        0 <= i < j < s.len() && r == (#[trigger] s[j]).spec_minus(#[trigger] s[i]).spec_over(s[i])
}

/// The aggregates of a window over positive values report the largest fall and the largest rise
/// from any of its values to a later one, however the values came in and left.
pub proof fn window_reports_swings<N: PositiveRatios>(w: WindowParts<N>)
    requires
        (w.older + w.newer).len() > 0,
        forall|i: int|
            0 <= i < (w.older + w.newer).len() ==> N::spec_of_usize(0).spec_below(
                #[trigger] (w.older + w.newer)[i],
            ),
    ensures
        w.aggregate::<DrawdownAgg<N>>() is Some,
        largest_fall_in(w.older + w.newer, w.aggregate::<DrawdownAgg<N>>()->0.spec_ratio()),
        w.aggregate::<DrawupAgg<N>>() is Some,
        largest_rise_in(w.older + w.newer, w.aggregate::<DrawupAgg<N>>()->0.spec_ratio()),
{
    let s = w.contents();
    assert forall|i: int| 0 <= i < s.len() implies positive(#[trigger] s[i]) by {
        assert(N::spec_of_usize(0).spec_below((w.older + w.newer)[i]));
    }
    positive_declines_in_order(s);
    window_tells_drawdown(w);
    let r = w.aggregate::<DrawdownAgg<N>>()->0.ratio;
    assert forall|i: int, j: int| 0 <= i <= j < s.len() implies (#[trigger] s[i]).spec_minus(
        #[trigger] s[j],
    ).spec_over(s[i]).spec_at_most(r) by {
        assert(decline(s[i], s[j]).spec_at_most(r));
    }
    positive_climbs_in_order(s);
    window_tells_drawup(w);
    let q = w.aggregate::<DrawupAgg<N>>()->0.ratio;
    assert forall|i: int, j: int| 0 <= i <= j < s.len() implies (#[trigger] s[j]).spec_minus(
        #[trigger] s[i],
    ).spec_over(s[i]).spec_at_most(q) by {
        assert(climb(s[i], s[j]).spec_at_most(q));
    }
    if q != zero::<N>() {
        let (i, j) = choose|i: int, j: int|
            0 <= i < j < s.len() && q == climb(#[trigger] s[i], #[trigger] s[j]);
        assert(q == s[j].spec_minus(s[i]).spec_over(s[i]));
    }
    if r != zero::<N>() {
        let (i, j) = choose|i: int, j: int|
            0 <= i < j < s.len() && r == decline(#[trigger] s[i], #[trigger] s[j]);
        assert(r == s[i].spec_minus(s[j]).spec_over(s[i]));
    }
}

} // verus!
