//! Sliding-window aggregation over an associative combination.
//!
//! A [`MonoidWindow`] keeps the aggregate of all values that it holds up to date while
//! values come in at one end and leave at the other.  It consists of two stacks, each
//! entry of which carries the aggregate over itself and everything below it, so that the
//! aggregate over the whole window takes one combination.
//!
//! The aggregates for drawdown and drawup assume strictly positive values.
use crate::number::{climb, decline, positive, zero, Number, PositiveRatios, TotalOrder};
use vstd::prelude::*;

verus! {

/// The aggregate over a segment of values.  In `combine`, `self` is the older segment and
/// `other` the newer one; the order matters.
pub trait WindowAggregate<N: Number>: Clone {
    spec fn spec_leaf(value: N) -> Self;

    spec fn spec_combine(self, other: Self) -> Self;

    spec fn spec_ratio(self) -> N;

    /// A clone is as good as the aggregate itself.
    proof fn clone_is_exact(a: Self, b: Self)
        requires
            cloned(a, b),
        ensures
            a == b,
    ;

    /// The aggregate over a single value.
    fn leaf(value: N) -> (r: Self)
        ensures
            r == Self::spec_leaf(value),
    ;

    /// The aggregate over two adjacent segments.
    fn combine(&self, other: &Self) -> (r: Self)
        ensures
            r == self.spec_combine(*other),
    ;

    /// What an indicator reports, as a ratio.
    fn ratio(&self) -> (r: N)
        ensures
            r == self.spec_ratio(),
    ;
}

/// Aggregates whose combination may be bracketed at will, as long as the values are
/// admitted.
pub trait AssociativeAggregate<N: Number>: WindowAggregate<N> {
    /// The values that the aggregate is made for.
    spec fn admits(value: N) -> bool;

    /// Whether an aggregate can stem from admitted values.
    spec fn sound(self) -> bool;

    proof fn leaf_sound(value: N)
        requires
            Self::admits(value),
        ensures
            Self::spec_leaf(value).sound(),
    ;

    proof fn combine_sound(a: Self, b: Self)
        requires
            a.sound(),
            b.sound(),
        ensures
            a.spec_combine(b).sound(),
    ;

    proof fn combine_associates(a: Self, b: Self, c: Self)
        requires
            a.sound(),
            b.sound(),
            c.sound(),
        ensures
            a.spec_combine(b).spec_combine(c) == a.spec_combine(b.spec_combine(c)),
    ;
}

/// The aggregate over `s` built from the oldest value up: `(((a b) c) d)`.
pub open spec fn upward<N: Number, A: WindowAggregate<N>>(s: Seq<N>) -> A
    decreases s.len(),
{
    if s.len() <= 1 {
        A::spec_leaf(s[0])
    } else {
        upward::<N, A>(s.drop_last()).spec_combine(A::spec_leaf(s.last()))
    }
}

/// The aggregate over `s` built from the newest value down: `(a (b (c d)))`.
pub open spec fn downward<N: Number, A: WindowAggregate<N>>(s: Seq<N>) -> A
    decreases s.len(),
{
    if s.len() <= 1 {
        A::spec_leaf(s[0])
    } else {
        A::spec_leaf(s[0]).spec_combine(downward::<N, A>(s.drop_first()))
    }
}

/// The values of a [`MonoidWindow`], oldest first, in the two parts that it keeps them in.
pub struct WindowParts<N> {
    pub older: Seq<N>,
    pub newer: Seq<N>,
}

impl<N: Number> WindowParts<N> {
    /// No values at all.
    pub open spec fn empty() -> Self {
        WindowParts { older: Seq::empty(), newer: Seq::empty() }
    }

    /// All values, oldest first.
    pub open spec fn contents(self) -> Seq<N> {
        self.older + self.newer
    }

    /// With one more value.
    pub open spec fn pushed(self, value: N) -> Self {
        WindowParts { older: self.older, newer: self.newer.push(value) }
    }

    /// Without the oldest value.  Where there are no older values, the newer ones become
    /// the older ones first.
    pub open spec fn popped(self) -> Self {
        if self.older.len() > 0 {
            WindowParts { older: self.older.drop_first(), newer: self.newer }
        } else if self.newer.len() > 0 {
            WindowParts { older: self.newer.drop_first(), newer: Seq::empty() }
        } else {
            self
        }
    }

    /// The aggregate over all values, if there are any.
    pub open spec fn aggregate<A: WindowAggregate<N>>(self) -> Option<A> {
        if self.older.len() > 0 && self.newer.len() > 0 {
            Some(downward::<N, A>(self.older).spec_combine(upward::<N, A>(self.newer)))
        } else if self.older.len() > 0 {
            Some(downward::<N, A>(self.older))
        } else if self.newer.len() > 0 {
            Some(upward::<N, A>(self.newer))
        } else {
            None
        }
    }
}

/// A queue of values that knows the aggregate over all of them.
#[derive(Debug, Clone)]
pub struct MonoidWindow<N, A> {
    /// The side where values leave.  The top is the oldest value, and every aggregate
    /// covers its entry and all entries below.
    front: Vec<(N, A)>,
    /// The side where values come in.  The top is the newest value, and every aggregate
    /// covers all entries below and its entry.
    back: Vec<(N, A)>,
}

/// The values of a stack from the bottom up.
spec fn stacked<N, A>(s: Seq<(N, A)>) -> Seq<N> {
    Seq::new(s.len(), |i: int| s[i].0)
}

/// The values of a stack from the top down.
spec fn unstacked<N, A>(s: Seq<(N, A)>) -> Seq<N> {
    Seq::new(s.len(), |i: int| s[s.len() - 1 - i].0)
}

/// The aggregates of the side where values leave.
spec fn front_holds<N: Number, A: WindowAggregate<N>>(s: Seq<(N, A)>) -> bool {
    forall|i: int| 0 <= i < s.len() ==> (#[trigger] s[i]).1 == downward::<N, A>(
        unstacked(s.take(i + 1)),
    )
}

/// The aggregates of the side where values come in.
spec fn back_holds<N: Number, A: WindowAggregate<N>>(s: Seq<(N, A)>) -> bool {
    forall|i: int| 0 <= i < s.len() ==> (#[trigger] s[i]).1 == upward::<N, A>(
        stacked(s.take(i + 1)),
    )
}

impl<N: Number, A: WindowAggregate<N>> Default for MonoidWindow<N, A> {
    /// A window without values.
    fn default() -> (r: Self)
        ensures
            r.wf(),
            r.parts() == WindowParts::<N>::empty(),
    {
        let r = MonoidWindow { front: Vec::new(), back: Vec::new() };
        proof {
            assert(r.parts().older =~= Seq::empty());
            assert(r.parts().newer =~= Seq::empty());
        }
        r
    }
}

impl<N: Number, A: WindowAggregate<N>> MonoidWindow<N, A> {
    /// Whether every entry carries the aggregate that it should.
    pub closed spec fn wf(&self) -> bool {
        front_holds(self.front@) && back_holds(self.back@)
    }

    /// The values.
    pub closed spec fn parts(&self) -> WindowParts<N> {
        WindowParts { older: unstacked(self.front@), newer: stacked(self.back@) }
    }

    /// Lets all values leave.
    pub fn clear(&mut self)
        ensures
            final(self).wf(),
            final(self).parts() == WindowParts::<N>::empty(),
    {
        self.front.clear();
        self.back.clear();
        proof {
            assert(self.parts().older =~= Seq::empty());
            assert(self.parts().newer =~= Seq::empty());
        }
    }

    /// Takes in a value that is newer than all others.
    pub fn push_back(&mut self, value: N)
        requires
            old(self).wf(),
        ensures
            final(self).wf(),
            final(self).parts() == old(self).parts().pushed(value),
    {
        let ghost before = self.back@;
        let leaf = A::leaf(value);
        let n = self.back.len();
        let agg = if n > 0 {
            self.back[n - 1].1.combine(&leaf)
        } else {
            leaf
        };
        self.back.push((value, agg));
        proof {
            let after = self.back@;
            assert(stacked(after) =~= stacked(before).push(value));
            assert forall|i: int| 0 <= i < after.len() implies (#[trigger] after[i]).1 == upward::<
                N,
                A,
            >(stacked(after.take(i + 1))) by {
                if i < before.len() {
                    assert(after.take(i + 1) =~= before.take(i + 1));
                    assert(before[i].1 == upward::<N, A>(stacked(before.take(i + 1))));
                } else {
                    assert(after.take(i + 1) =~= after);
                    assert(stacked(after).drop_last() =~= stacked(before));
                    assert(before.take(n as int) =~= before);
                    if n > 0 {
                        assert(before[n - 1].1 == upward::<N, A>(stacked(before.take(n as int))));
                    }
                }
            }
            assert(self.parts().older =~= old(self).parts().older);
            assert(self.parts().newer =~= old(self).parts().newer.push(value));
        }
    }

    /// Turns the newer values into older ones.
    fn rotate(&mut self)
        requires
            old(self).wf(),
            old(self).front@.len() == 0,
        ensures
            final(self).wf(),
            final(self).back@.len() == 0,
            unstacked(final(self).front@) == stacked(old(self).back@),
    {
        let ghost start = self.back@;
        while self.back.len() > 0
            invariant
                self.wf(),
                self.back@.len() <= start.len(),
                self.back@ == start.take(self.back@.len() as int),
                unstacked(self.front@) == stacked(start).skip(self.back@.len() as int),
            decreases self.back@.len(),
        {
            let ghost back_before = self.back@;
            let ghost front_before = self.front@;
            match self.back.pop() {
                Some((value, _)) => {
                    let leaf = A::leaf(value);
                    let n = self.front.len();
                    let agg = if n > 0 {
                        leaf.combine(&self.front[n - 1].1)
                    } else {
                        leaf
                    };
                    self.front.push((value, agg));
                    proof {
                        let back_after = self.back@;
                        let front_after = self.front@;
                        assert(back_after =~= back_before.drop_last());
                        assert(back_after =~= start.take(back_after.len() as int));
                        assert forall|i: int| 0 <= i < back_after.len() implies (
                        #[trigger] back_after[i]).1 == upward::<N, A>(
                            stacked(back_after.take(i + 1)),
                        ) by {
                            assert(back_after.take(i + 1) =~= back_before.take(i + 1));
                            assert(back_before[i].1 == upward::<N, A>(
                                stacked(back_before.take(i + 1)),
                            ));
                        }
                        assert(unstacked(front_after) =~= seq![value] + unstacked(front_before));
                        assert(unstacked(front_after).drop_first() =~= unstacked(front_before));
                        assert forall|i: int| 0 <= i < front_after.len() implies (
                        #[trigger] front_after[i]).1 == downward::<N, A>(
                            unstacked(front_after.take(i + 1)),
                        ) by {
                            if i < front_before.len() {
                                assert(front_after.take(i + 1) =~= front_before.take(i + 1));
                                assert(front_before[i].1 == downward::<N, A>(
                                    unstacked(front_before.take(i + 1)),
                                ));
                            } else {
                                assert(front_after.take(i + 1) =~= front_after);
                                assert(front_before.take(n as int) =~= front_before);
                                if n > 0 {
                                    assert(front_before[n - 1].1 == downward::<N, A>(
                                        unstacked(front_before.take(n as int)),
                                    ));
                                }
                            }
                        }
                        assert(unstacked(front_after) =~= stacked(start).skip(
                            back_after.len() as int,
                        ));
                    }
                },
                None => {},
            }
        }
        proof {
            assert(stacked(start).skip(0) =~= stacked(start));
        }
    }

    /// Lets the oldest value leave, if there is one.
    pub fn pop_front(&mut self) -> (r: Option<N>)
        requires
            old(self).wf(),
        ensures
            final(self).wf(),
            final(self).parts() == old(self).parts().popped(),
            r is Some <==> old(self).parts().contents().len() > 0,
            r is Some ==> r->Some_0 == old(self).parts().contents()[0],
    {
        let ghost start = self.parts();
        if self.front.len() == 0 {
            self.rotate();
            proof {
                assert(self.parts().newer =~= Seq::empty());
                assert(start.contents() =~= self.parts().older);
            }
        }
        let ghost rotated = self.parts();
        let ghost before = self.front@;
        match self.front.pop() {
            Some((value, _)) => {
                proof {
                    let after = self.front@;
                    assert(after =~= before.drop_last());
                    assert forall|i: int| 0 <= i < after.len() implies (
                    #[trigger] after[i]).1 == downward::<N, A>(unstacked(after.take(i + 1))) by {
                        assert(after.take(i + 1) =~= before.take(i + 1));
                        assert(before[i].1 == downward::<N, A>(unstacked(before.take(i + 1))));
                    }
                    assert(unstacked(after) =~= unstacked(before).drop_first());
                    assert(self.parts().older =~= start.popped().older);
                    assert(self.parts().newer =~= start.popped().newer);
                }
                Some(value)
            },
            None => {
                proof {
                    assert(self.parts().older =~= start.popped().older);
                    assert(self.parts().newer =~= start.popped().newer);
                }
                None
            },
        }
    }

    /// The aggregate over all values, if there are any.
    pub fn aggregate(&self) -> (r: Option<A>)
        requires
            self.wf(),
        ensures
            r == self.parts().aggregate::<A>(),
    {
        let f = self.front.len();
        let b = self.back.len();
        proof {
            assert(self.front@.take(f as int) =~= self.front@);
            assert(self.back@.take(b as int) =~= self.back@);
            if f > 0 {
                assert(self.front@[f - 1].1 == downward::<N, A>(
                    unstacked(self.front@.take(f as int)),
                ));
            }
            if b > 0 {
                assert(self.back@[b - 1].1 == upward::<N, A>(stacked(self.back@.take(b as int))));
            }
        }
        if f > 0 && b > 0 {
            Some(self.front[f - 1].1.combine(&self.back[b - 1].1))
        } else if f > 0 {
            let r = self.front[f - 1].1.clone();
            proof {
                A::clone_is_exact(self.front@[f - 1].1, r);
            }
            Some(r)
        } else if b > 0 {
            let r = self.back[b - 1].1.clone();
            proof {
                A::clone_is_exact(self.back@[b - 1].1, r);
            }
            Some(r)
        } else {
            None
        }
    }
}

/// The aggregate for the largest decline from a peak to a later trough.
#[derive(Copy, Debug)]
pub struct DrawdownAgg<N> {
    pub min: N,
    pub max: N,
    pub ratio: N,
}

impl<N: Copy> Clone for DrawdownAgg<N> {
    fn clone(&self) -> (r: Self)
        ensures
            r == *self,
    {
        *self
    }
}

impl<N: Number> WindowAggregate<N> for DrawdownAgg<N> {
    open spec fn spec_leaf(value: N) -> Self {
        DrawdownAgg { min: value, max: value, ratio: zero() }
    }

    open spec fn spec_combine(self, other: Self) -> Self {
        DrawdownAgg {
            min: self.min.spec_lesser(other.min),
            max: self.max.spec_greater(other.max),
            ratio: self.ratio.spec_greater(other.ratio).spec_greater(decline(self.max, other.min)),
        }
    }

    open spec fn spec_ratio(self) -> N {
        self.ratio
    }

    proof fn clone_is_exact(a: Self, b: Self) {
    }

    fn leaf(value: N) -> (r: Self) {
        DrawdownAgg { min: value, max: value, ratio: N::of_usize(0) }
    }

    fn combine(&self, other: &Self) -> (r: Self) {
        let cross = self.max.minus(other.min).over(self.max);
        DrawdownAgg {
            min: self.min.lesser(other.min),
            max: self.max.greater(other.max),
            ratio: self.ratio.greater(other.ratio).greater(cross),
        }
    }

    fn ratio(&self) -> (r: N) {
        self.ratio
    }
}

/// The aggregate for the largest climb from a trough to a later peak.
#[derive(Copy, Debug)]
pub struct DrawupAgg<N> {
    pub min: N,
    pub max: N,
    pub ratio: N,
}

impl<N: Copy> Clone for DrawupAgg<N> {
    fn clone(&self) -> (r: Self)
        ensures
            r == *self,
    {
        *self
    }
}

impl<N: Number> WindowAggregate<N> for DrawupAgg<N> {
    open spec fn spec_leaf(value: N) -> Self {
        DrawupAgg { min: value, max: value, ratio: zero() }
    }

    open spec fn spec_combine(self, other: Self) -> Self {
        DrawupAgg {
            min: self.min.spec_lesser(other.min),
            max: self.max.spec_greater(other.max),
            ratio: self.ratio.spec_greater(other.ratio).spec_greater(climb(self.min, other.max)),
        }
    }

    open spec fn spec_ratio(self) -> N {
        self.ratio
    }

    proof fn clone_is_exact(a: Self, b: Self) {
    }

    fn leaf(value: N) -> (r: Self) {
        DrawupAgg { min: value, max: value, ratio: N::of_usize(0) }
    }

    fn combine(&self, other: &Self) -> (r: Self) {
        let cross = other.max.minus(self.min).over(self.min);
        DrawupAgg {
            min: self.min.lesser(other.min),
            max: self.max.greater(other.max),
            ratio: self.ratio.greater(other.ratio).greater(cross),
        }
    }

    fn ratio(&self) -> (r: N) {
        self.ratio
    }
}

/// Taking a greater value is associative and commutative.
proof fn greater_laws<N: TotalOrder>()
    ensures
        forall|a: N, b: N| #[trigger] a.spec_greater(b) == b.spec_greater(a),
        forall|a: N, b: N, c: N| #[trigger]
            a.spec_greater(b).spec_greater(c) == a.spec_greater(b.spec_greater(c)),
        forall|a: N, b: N, c: N| #[trigger]
            a.spec_lesser(b).spec_lesser(c) == a.spec_lesser(b.spec_lesser(c)),
{
    N::order_laws();
    assert forall|a: N, b: N, c: N| #[trigger]
        a.spec_greater(b).spec_greater(c) == a.spec_greater(b.spec_greater(c)) by {
        assert(a.spec_at_most(b) || b.spec_at_most(a));
        assert(b.spec_at_most(c) || c.spec_at_most(b));
        assert(a.spec_at_most(c) || c.spec_at_most(a));
    }
    assert forall|a: N, b: N, c: N| #[trigger]
        a.spec_lesser(b).spec_lesser(c) == a.spec_lesser(b.spec_lesser(c)) by {
        assert(a.spec_at_most(b) || b.spec_at_most(a));
        assert(b.spec_at_most(c) || c.spec_at_most(b));
        assert(a.spec_at_most(c) || c.spec_at_most(a));
    }
}

/// The largest of six numbers, in two bracketings.
proof fn greatest_of_six<N: TotalOrder>(p: N, q: N, x: N, r: N, y: N, z: N)
    ensures
        p.spec_greater(q).spec_greater(x).spec_greater(r).spec_greater(y.spec_greater(z))
            == p.spec_greater(q.spec_greater(r).spec_greater(z)).spec_greater(x.spec_greater(y)),
{
    greater_laws::<N>();
    let pq = p.spec_greater(q);
    // The left side, term by term.
    assert(pq.spec_greater(x).spec_greater(r) == pq.spec_greater(r).spec_greater(x)) by {
        assert(pq.spec_greater(x).spec_greater(r) == pq.spec_greater(x.spec_greater(r)));
        assert(pq.spec_greater(r).spec_greater(x) == pq.spec_greater(r.spec_greater(x)));
        assert(x.spec_greater(r) == r.spec_greater(x));
    }
    let pqr = pq.spec_greater(r);
    let yz = y.spec_greater(z);
    let zy = z.spec_greater(y);
    assert(yz == zy);
    assert(pqr.spec_greater(x).spec_greater(zy) == pqr.spec_greater(x.spec_greater(zy)));
    assert(x.spec_greater(zy) == zy.spec_greater(x));
    assert(zy.spec_greater(x) == z.spec_greater(y.spec_greater(x)));
    assert(y.spec_greater(x) == x.spec_greater(y));
    let xy = x.spec_greater(y);
    assert(pqr.spec_greater(z.spec_greater(xy)) == pqr.spec_greater(z).spec_greater(xy));
    // The right side.
    assert(pqr == p.spec_greater(q.spec_greater(r)));
    let qr = q.spec_greater(r);
    assert(p.spec_greater(qr).spec_greater(z) == p.spec_greater(qr.spec_greater(z)));
}

impl<N: PositiveRatios> AssociativeAggregate<N> for DrawdownAgg<N> {
    open spec fn admits(value: N) -> bool {
        positive(value)
    }

    open spec fn sound(self) -> bool {
        &&& positive(self.min)
        &&& positive(self.max)
    }

    proof fn leaf_sound(value: N) {
    }

    proof fn combine_sound(a: Self, b: Self) {
        N::order_laws();
    }

    proof fn combine_associates(a: Self, b: Self, c: Self) {
        N::order_laws();
        greater_laws::<N>();
        let x = decline(a.max, b.min);
        let y = decline(a.max, c.min);
        let z = decline(b.max, c.min);
        // The decline from the higher of two peaks is the larger of two declines.
        assert(decline(a.max.spec_greater(b.max), c.min) == y.spec_greater(z)) by {
            if a.max.spec_at_most(b.max) {
                N::decline_monotone(a.max, b.max, c.min, c.min);
            } else {
                N::decline_monotone(b.max, a.max, c.min, c.min);
            }
        }
        // So is the decline to the lower of two troughs.
        assert(decline(a.max, b.min.spec_lesser(c.min)) == x.spec_greater(y)) by {
            if b.min.spec_at_most(c.min) {
                N::decline_monotone(a.max, a.max, b.min, c.min);
            } else {
                N::decline_monotone(a.max, a.max, c.min, b.min);
            }
        }
        greatest_of_six(a.ratio, b.ratio, x, c.ratio, y, z);
    }
}

impl<N: PositiveRatios> AssociativeAggregate<N> for DrawupAgg<N> {
    open spec fn admits(value: N) -> bool {
        positive(value)
    }

    open spec fn sound(self) -> bool {
        &&& positive(self.min)
        &&& positive(self.max)
    }

    proof fn leaf_sound(value: N) {
    }

    proof fn combine_sound(a: Self, b: Self) {
        N::order_laws();
    }

    proof fn combine_associates(a: Self, b: Self, c: Self) {
        N::order_laws();
        greater_laws::<N>();
        let x = climb(a.min, b.max);
        let y = climb(a.min, c.max);
        let z = climb(b.min, c.max);
        assert(climb(a.min.spec_lesser(b.min), c.max) == y.spec_greater(z)) by {
            if a.min.spec_at_most(b.min) {
                N::climb_monotone(a.min, b.min, c.max, c.max);
            } else {
                N::climb_monotone(b.min, a.min, c.max, c.max);
            }
        }
        assert(climb(a.min, b.max.spec_greater(c.max)) == x.spec_greater(y)) by {
            if b.max.spec_at_most(c.max) {
                N::climb_monotone(a.min, a.min, b.max, c.max);
            } else {
                N::climb_monotone(a.min, a.min, c.max, b.max);
            }
        }
        greatest_of_six(a.ratio, b.ratio, x, c.ratio, y, z);
    }
}

/// Whether all values are such as the aggregate is made for.
pub open spec fn all_admitted<N: Number, A: AssociativeAggregate<N>>(s: Seq<N>) -> bool {
    forall|i: int| 0 <= i < s.len() ==> A::admits(#[trigger] s[i])
}

proof fn upward_sound<N: Number, A: AssociativeAggregate<N>>(s: Seq<N>)
    requires
        s.len() > 0,
        all_admitted::<N, A>(s),
    ensures
        upward::<N, A>(s).sound(),
    decreases s.len(),
{
    A::leaf_sound(s[0]);
    if s.len() > 1 {
        let older = s.drop_last();
        assert(all_admitted::<N, A>(older)) by {
            assert forall|i: int| 0 <= i < older.len() implies A::admits(#[trigger] older[i]) by {
                assert(older[i] == s[i]);
            }
        }
        upward_sound::<N, A>(older);
        assert(A::admits(s[s.len() - 1]));
        A::leaf_sound(s.last());
        A::combine_sound(upward::<N, A>(older), A::spec_leaf(s.last()));
    }
}

/// The aggregates over two adjacent segments combine to the aggregate over both.
pub proof fn segments_combine<N: Number, A: AssociativeAggregate<N>>(a: Seq<N>, b: Seq<N>)
    requires
        a.len() > 0,
        b.len() > 0,
        all_admitted::<N, A>(a),
        all_admitted::<N, A>(b),
    ensures
        upward::<N, A>(a).spec_combine(upward::<N, A>(b)) == upward::<N, A>(a + b),
    decreases b.len(),
{
    let whole = a + b;
    assert(whole.last() == b.last());
    if b.len() == 1 {
        assert(whole.drop_last() =~= a);
    } else {
        let rest = b.drop_last();
        assert(all_admitted::<N, A>(rest)) by {
            assert forall|i: int| 0 <= i < rest.len() implies A::admits(#[trigger] rest[i]) by {
                assert(rest[i] == b[i]);
            }
        }
        assert(whole.drop_last() =~= a + rest);
        segments_combine::<N, A>(a, rest);
        upward_sound::<N, A>(a);
        upward_sound::<N, A>(rest);
        assert(A::admits(b[b.len() - 1]));
        A::leaf_sound(b.last());
        A::combine_associates(
            upward::<N, A>(a),
            upward::<N, A>(rest),
            A::spec_leaf(b.last()),
        );
    }
}

proof fn downward_is_upward<N: Number, A: AssociativeAggregate<N>>(s: Seq<N>)
    requires
        s.len() > 0,
        all_admitted::<N, A>(s),
    ensures
        downward::<N, A>(s) == upward::<N, A>(s),
    decreases s.len(),
{
    if s.len() > 1 {
        let rest = s.drop_first();
        let first = s.take(1);
        assert(all_admitted::<N, A>(rest)) by {
            assert forall|i: int| 0 <= i < rest.len() implies A::admits(#[trigger] rest[i]) by {
                assert(rest[i] == s[i + 1]);
            }
        }
        assert(all_admitted::<N, A>(first)) by {
            assert forall|i: int| 0 <= i < first.len() implies A::admits(#[trigger] first[i]) by {
                assert(first[i] == s[i]);
            }
        }
        downward_is_upward::<N, A>(rest);
        segments_combine::<N, A>(first, rest);
        assert(first + rest =~= s);
    }
}

/// The aggregate that a window keeps up to date is the aggregate over its contents from
/// the oldest to the newest, however the values came in and left.
pub proof fn window_aggregate_is_fold<N: Number, A: AssociativeAggregate<N>>(w: WindowParts<N>)
    requires
        all_admitted::<N, A>(w.contents()),
    ensures
        w.aggregate::<A>() == (if w.contents().len() == 0 {
            None
        } else {
            Some(upward::<N, A>(w.contents()))
        }),
{
    assert(all_admitted::<N, A>(w.older)) by {
        assert forall|i: int| 0 <= i < w.older.len() implies A::admits(#[trigger] w.older[i]) by {
            assert(w.contents()[i] == w.older[i]);
        }
    }
    assert(all_admitted::<N, A>(w.newer)) by {
        assert forall|i: int| 0 <= i < w.newer.len() implies A::admits(#[trigger] w.newer[i]) by {
            assert(w.contents()[w.older.len() + i] == w.newer[i]);
        }
    }
    if w.older.len() > 0 {
        downward_is_upward::<N, A>(w.older);
        if w.newer.len() > 0 {
            segments_combine::<N, A>(w.older, w.newer);
        } else {
            assert(w.contents() =~= w.older);
        }
    } else {
        assert(w.contents() =~= w.newer);
    }
}

/// A window is a queue: a value that comes in stands behind all others, and the value
/// that leaves is the one that came in first.
pub proof fn window_is_queue<N: Number>(w: WindowParts<N>, value: N)
    ensures
        w.pushed(value).contents() == w.contents().push(value),
        w.contents().len() > 0 ==> w.popped().contents() == w.contents().drop_first(),
        w.contents().len() == 0 ==> w.popped() == w,
{
    assert(w.pushed(value).contents() =~= w.contents().push(value));
    if w.contents().len() > 0 {
        assert(w.popped().contents() =~= w.contents().drop_first());
    }
}

/// The aggregate of a window takes in all of its values, each once, from the oldest to the
/// newest.
pub proof fn aggregate_takes_in_all<N: Number, A: AssociativeAggregate<N>>(w: WindowParts<N>)
    requires
        all_admitted::<N, A>(w.older + w.newer),
        (w.older + w.newer).len() > 0,
    ensures
        w.aggregate::<A>() == Some(
            (w.older + w.newer).drop_first().fold_left(
                A::spec_leaf((w.older + w.newer)[0]),
                |agg: A, value: N| agg.spec_combine(A::spec_leaf(value)),
            ),
        ),
{
    window_aggregate_is_fold::<N, A>(w);
    upward_is_left_fold::<N, A>(w.contents());
}

proof fn upward_is_left_fold<N: Number, A: WindowAggregate<N>>(s: Seq<N>)
    requires
        s.len() > 0,
    ensures
        upward::<N, A>(s) == s.drop_first().fold_left(
            A::spec_leaf(s[0]),
            |agg: A, value: N| agg.spec_combine(A::spec_leaf(value)),
        ),
    decreases s.len(),
{
    let rest = s.drop_first();
    if s.len() > 1 {
        upward_is_left_fold::<N, A>(s.drop_last());
        assert(rest.drop_last() =~= s.drop_last().drop_first());
        assert(rest.last() == s.last());
    }
}

} // verus!
