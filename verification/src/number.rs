//! The arithmetic that the indicators and the batch statistics are written in.
//!
//! Nothing in the library fixes a number format.  Every computation is stated
//! over [`Number`], whose operations are named functions of their operands and
//! satisfy no law at all: a rounding format such as binary floating point is as
//! good a `Number` as a whole number is.  Contracts over `Number` therefore say
//! exactly which operations are carried out, in which order.
//!
//! What more can be said when the arithmetic is better behaved is stated as
//! laws over the traits [`ExactNumber`], [`TotalOrder`] and [`PositiveRatios`].
use vstd::prelude::*;
use vstd::seq_lib::{commutative_foldl, lemma_fold_left_permutation};

verus! {

/// A number format: the operations that the library computes with.
///
/// Each operation comes as a pair, the function `spec_f` that contracts speak
/// of and the executable `f` that computes it.
pub trait Number: Copy {
    /// The number that stands for the count `n`.
    spec fn spec_of_usize(n: usize) -> Self;

    /// A value below every other (negative infinity, where there is one).
    spec fn spec_lowest() -> Self;

    spec fn spec_plus(self, other: Self) -> Self;

    spec fn spec_minus(self, other: Self) -> Self;

    spec fn spec_times(self, other: Self) -> Self;

    spec fn spec_over(self, other: Self) -> Self;

    /// The square root.
    spec fn spec_root(self) -> Self;

    /// The larger of two numbers.
    spec fn spec_greater(self, other: Self) -> Self;

    /// The smaller of two numbers.
    spec fn spec_lesser(self, other: Self) -> Self;

    /// `self < other`.
    spec fn spec_below(self, other: Self) -> bool;

    /// `self <= other`.
    spec fn spec_at_most(self, other: Self) -> bool;

    /// `self == 0`.
    spec fn spec_is_zero(self) -> bool;

    fn of_usize(n: usize) -> (r: Self)
        ensures
            r == Self::spec_of_usize(n),
    ;

    fn lowest() -> (r: Self)
        ensures
            r == Self::spec_lowest(),
    ;

    fn plus(self, other: Self) -> (r: Self)
        ensures
            r == self.spec_plus(other),
    ;

    fn minus(self, other: Self) -> (r: Self)
        ensures
            r == self.spec_minus(other),
    ;

    fn times(self, other: Self) -> (r: Self)
        ensures
            r == self.spec_times(other),
    ;

    fn over(self, other: Self) -> (r: Self)
        ensures
            r == self.spec_over(other),
    ;

    fn root(self) -> (r: Self)
        ensures
            r == self.spec_root(),
    ;

    fn greater(self, other: Self) -> (r: Self)
        ensures
            r == self.spec_greater(other),
    ;

    fn lesser(self, other: Self) -> (r: Self)
        ensures
            r == self.spec_lesser(other),
    ;

    fn below(self, other: Self) -> (r: bool)
        ensures
            r == self.spec_below(other),
    ;

    fn at_most(self, other: Self) -> (r: bool)
        ensures
            r == self.spec_at_most(other),
    ;

    fn is_zero(self) -> (r: bool)
        ensures
            r == self.spec_is_zero(),
    ;
}

/// Zero.
pub open spec fn zero<N: Number>() -> N {
    N::spec_of_usize(0)
}

/// One.
pub open spec fn one<N: Number>() -> N {
    N::spec_of_usize(1)
}

/// One hundred, by which a ratio becomes a percentage.
pub open spec fn hundred<N: Number>() -> N {
    N::spec_of_usize(100)
}

/// `0 < x`.
pub open spec fn positive<N: Number>(x: N) -> bool {
    zero::<N>().spec_below(x)
}

/// The number that arises when the terms of `s` are added to `start` one after
/// the other, first to last.
pub open spec fn running<N: Number>(start: N, s: Seq<N>) -> N
    decreases s.len(),
{
    if s.len() == 0 {
        start
    } else {
        running(start, s.drop_last()).spec_plus(s.last())
    }
}

/// The terms of `s`, each times itself.
pub open spec fn squares<N: Number>(s: Seq<N>) -> Seq<N> {
    Seq::new(s.len(), |i: int| s[i].spec_times(s[i]))
}

/// Arithmetic without rounding: `+`, `-` and `*` obey the laws of a commutative
/// ring in which the counts 0 and 1 are the neutral elements, and dividing by 1
/// changes nothing.
pub trait ExactNumber: Number {
    proof fn plus_commutes(a: Self, b: Self)
        ensures
            a.spec_plus(b) == b.spec_plus(a),
    ;

    proof fn plus_associates(a: Self, b: Self, c: Self)
        ensures
            a.spec_plus(b).spec_plus(c) == a.spec_plus(b.spec_plus(c)),
    ;

    proof fn plus_zero(a: Self)
        ensures
            a.spec_plus(Self::spec_of_usize(0)) == a,
    ;

    proof fn minus_then_plus(a: Self, b: Self)
        ensures
            a.spec_minus(b).spec_plus(b) == a,
    ;

    proof fn times_commutes(a: Self, b: Self)
        ensures
            a.spec_times(b) == b.spec_times(a),
    ;

    proof fn times_associates(a: Self, b: Self, c: Self)
        ensures
            a.spec_times(b).spec_times(c) == a.spec_times(b.spec_times(c)),
    ;

    proof fn times_distributes(a: Self, b: Self, c: Self)
        ensures
            a.spec_times(b.spec_plus(c)) == a.spec_times(b).spec_plus(a.spec_times(c)),
    ;

    proof fn times_one(a: Self)
        ensures
            a.spec_times(Self::spec_of_usize(1)) == a,
    ;

    proof fn over_one(a: Self)
        ensures
            a.spec_over(Self::spec_of_usize(1)) == a,
    ;

    /// Counts add up, as far as a slice can be long.
    proof fn counts_add(a: usize, b: usize)
        requires
            a + b <= isize::MAX,
        ensures
            Self::spec_of_usize(a).spec_plus(Self::spec_of_usize(b)) == Self::spec_of_usize(
                (a + b) as usize,
            ),
    ;

    proof fn root_zero()
        ensures
            Self::spec_of_usize(0).spec_root() == Self::spec_of_usize(0),
    ;
}

/// Numbers that are all comparable with one another: no value stands outside
/// the order, and the two extrema are read off it.
pub trait TotalOrder: Number {
    proof fn order_laws()
        ensures
            forall|a: Self| #[trigger] a.spec_at_most(a),
            forall|a: Self, b: Self|
                #[trigger] a.spec_at_most(b) && #[trigger] b.spec_at_most(a) ==> a == b,
            forall|a: Self, b: Self, c: Self|
                #[trigger] a.spec_at_most(b) && #[trigger] b.spec_at_most(c) ==> a.spec_at_most(c),
            forall|a: Self, b: Self| #[trigger] a.spec_at_most(b) || b.spec_at_most(a),
            forall|a: Self, b: Self| #[trigger] a.spec_below(b) <==> !b.spec_at_most(a),
            forall|a: Self, b: Self|
                #[trigger] a.spec_greater(b) == (if a.spec_at_most(b) {
                    b
                } else {
                    a
                }),
            forall|a: Self, b: Self|
                #[trigger] a.spec_lesser(b) == (if a.spec_at_most(b) {
                    a
                } else {
                    b
                }),
            forall|a: Self| #[trigger] Self::spec_lowest().spec_at_most(a),
            forall|a: Self| #[trigger] a.spec_is_zero() <==> a == Self::spec_of_usize(0),
    ;
}

/// Whether division undoes multiplication and multiplication undoes division, whatever is
/// divided by: no quotient is rounded.
pub open spec fn exact_division<N: Number>() -> bool {
    &&& forall|a: N, b: N|
        !b.spec_is_zero() ==> (#[trigger] a.spec_over(b)).spec_times(b) == a
    &&& forall|a: N, b: N|
        !b.spec_is_zero() ==> (#[trigger] a.spec_times(b)).spec_over(b) == a
}

/// The fall from `peak` to `trough` as a share of `peak`.
pub open spec fn decline<N: Number>(peak: N, trough: N) -> N {
    peak.spec_minus(trough).spec_over(peak)
}

/// The climb from `trough` to `peak` as a share of `trough`.
pub open spec fn climb<N: Number>(trough: N, peak: N) -> N {
    peak.spec_minus(trough).spec_over(trough)
}

/// Ordered numbers whose relative changes between positive values respect the
/// order.  Exact arithmetic has this property, and so has the arithmetic of `i64`, which
/// rounds every quotient down.
pub trait PositiveRatios: TotalOrder {
    /// A higher peak or a lower trough never makes a decline smaller.
    proof fn decline_monotone(low_peak: Self, high_peak: Self, low_trough: Self, high_trough: Self)
        requires
            positive(low_peak),
            positive(low_trough),
            low_peak.spec_at_most(high_peak),
            low_trough.spec_at_most(high_trough),
        ensures
            decline(low_peak, high_trough).spec_at_most(decline(high_peak, low_trough)),
    ;

    /// A value does not decline to itself.
    proof fn decline_to_itself(x: Self)
        requires
            positive(x),
        ensures
            decline(x, x) == zero::<Self>(),
    ;

    /// A lower trough or a higher peak never makes a climb smaller.
    proof fn climb_monotone(low_trough: Self, high_trough: Self, low_peak: Self, high_peak: Self)
        requires
            positive(low_trough),
            positive(low_peak),
            low_trough.spec_at_most(high_trough),
            low_peak.spec_at_most(high_peak),
        ensures
            climb(high_trough, low_peak).spec_at_most(climb(low_trough, high_peak)),
    ;

    /// A value does not climb to itself.
    proof fn climb_to_itself(x: Self)
        requires
            positive(x),
        ensures
            climb(x, x) == zero::<Self>(),
    ;

    /// A value falls by no more than all of itself.
    proof fn decline_at_most_whole(peak: Self, trough: Self)
        requires
            positive(peak),
            positive(trough),
        ensures
            decline(peak, trough).spec_at_most(one()),
    ;

    /// Nothing is at most the whole.
    proof fn zero_at_most_one()
        ensures
            zero::<Self>().spec_at_most(one()),
    ;

    /// A share between nothing and the whole is a percentage, and none but nothing is zero
    /// percent.
    proof fn share_in_percent(x: Self)
        requires
            zero::<Self>().spec_at_most(x),
            x.spec_at_most(one()),
        ensures
            zero::<Self>().spec_at_most(hundred::<Self>().spec_times(x)),
            hundred::<Self>().spec_times(x).spec_at_most(hundred()),
            hundred::<Self>().spec_times(x) == zero::<Self>() ==> x == zero::<Self>(),
            hundred::<Self>().spec_times(zero()) == zero::<Self>(),
    ;

    /// A quotient of numbers that are not negative is not negative.
    proof fn quotient_not_negative(a: Self, b: Self)
        requires
            zero::<Self>().spec_at_most(a),
            positive(b),
        ensures
            zero::<Self>().spec_at_most(a.spec_over(b)),
    ;

    /// Fifty and a hundred are percentages, and so is what a hundred over one and something
    /// leaves of a hundred.
    proof fn remainder_in_percent(x: Self)
        requires
            zero::<Self>().spec_at_most(x),
        ensures
            zero::<Self>().spec_at_most(Self::spec_of_usize(50)),
            Self::spec_of_usize(50).spec_at_most(hundred()),
            zero::<Self>().spec_at_most(hundred()),
            zero::<Self>().spec_at_most(
                hundred::<Self>().spec_minus(
                    hundred::<Self>().spec_over(one::<Self>().spec_plus(x)),
                ),
            ),
            hundred::<Self>().spec_minus(
                hundred::<Self>().spec_over(one::<Self>().spec_plus(x)),
            ).spec_at_most(hundred()),
    ;
}

/// A vector of `n` zeros.
pub(crate) fn zeros<N: Number>(n: usize) -> (r: Vec<N>)
    ensures
        r@ == Seq::new(n as nat, |i: int| zero::<N>()),
{
    let mut out: Vec<N> = Vec::with_capacity(n);
    let mut i: usize = 0;
    while i < n
        invariant
            i <= n,
            out@ == Seq::new(i as nat, |j: int| zero::<N>()),
        decreases n - i,
    {
        out.push(N::of_usize(0));
        i = i + 1;
    }
    out
}

/// Adding a sequence in two parts is adding it in one go.
pub proof fn running_over_parts<N: Number>(start: N, a: Seq<N>, b: Seq<N>)
    ensures
        running(start, a + b) == running(running(start, a), b),
    decreases b.len(),
{
    if b.len() == 0 {
        assert(a + b =~= a);
    } else {
        assert((a + b).drop_last() =~= a + b.drop_last());
        running_over_parts(start, a, b.drop_last());
    }
}

/// Exchanging the middle two of four terms.
pub proof fn plus_exchange<N: ExactNumber>(a: N, b: N, c: N, d: N)
    ensures
        a.spec_plus(b).spec_plus(c.spec_plus(d)) == a.spec_plus(c).spec_plus(b.spec_plus(d)),
{
    N::plus_associates(a, b, c.spec_plus(d));
    N::plus_associates(b, c, d);
    N::plus_commutes(b, c);
    N::plus_associates(c, b, d);
    N::plus_associates(a, c, b.spec_plus(d));
}

/// A term that is added can be taken off again on both sides.
pub proof fn plus_cancels<N: ExactNumber>(a: N, b: N, c: N)
    requires
        a.spec_plus(c) == b.spec_plus(c),
    ensures
        a == b,
{
    let opposite = zero::<N>().spec_minus(c);
    N::minus_then_plus(zero::<N>(), c);
    N::plus_commutes(opposite, c);
    N::plus_associates(a, c, opposite);
    N::plus_associates(b, c, opposite);
    N::plus_zero(a);
    N::plus_zero(b);
}

/// Zero absorbs in products.
pub proof fn times_zero<N: ExactNumber>(a: N)
    ensures
        a.spec_times(zero::<N>()) == zero::<N>(),
{
    let z = zero::<N>();
    let p = a.spec_times(z);
    N::plus_zero(z);
    N::times_distributes(a, z, z);
    N::plus_zero(p);
    N::plus_commutes(z, p);
    plus_cancels(p, z, p);
}

/// A number less itself is zero.
pub proof fn minus_itself<N: ExactNumber>(a: N)
    ensures
        a.spec_minus(a) == zero::<N>(),
{
    N::minus_then_plus(a, a);
    N::plus_zero(a);
    N::plus_commutes(zero::<N>(), a);
    plus_cancels(a.spec_minus(a), zero::<N>(), a);
}

/// What is left of a sum when one term is taken off is the other term.
pub proof fn minus_undoes_plus<N: ExactNumber>(a: N, b: N)
    ensures
        a.spec_plus(b).spec_minus(b) == a,
{
    N::minus_then_plus(a.spec_plus(b), b);
    plus_cancels(a.spec_plus(b).spec_minus(b), a, b);
}

/// A factor that two numbers share comes out of their difference.
pub proof fn times_distributes_over_minus<N: ExactNumber>(c: N, a: N, b: N)
    ensures
        c.spec_times(a).spec_minus(c.spec_times(b)) == c.spec_times(a.spec_minus(b)),
{
    N::minus_then_plus(a, b);
    N::times_distributes(c, a.spec_minus(b), b);
    minus_undoes_plus(c.spec_times(a.spec_minus(b)), c.spec_times(b));
}

/// With exact arithmetic the order of the terms of a sum plays no part.
pub proof fn running_of_permutation<N: ExactNumber>(a: Seq<N>, b: Seq<N>)
    requires
        a.to_multiset() == b.to_multiset(),
    ensures
        running(zero::<N>(), a) == running(zero::<N>(), b),
{
    let f = |acc: N, x: N| acc.spec_plus(x);
    assert forall|x: N, y: N, v: N| #[trigger] f(f(v, x), y) == f(f(v, y), x) by {
        N::plus_associates(v, x, y);
        N::plus_associates(v, y, x);
        N::plus_commutes(x, y);
    }
    assert(commutative_foldl(f));
    lemma_fold_left_permutation(a, b, f, zero::<N>());
    running_is_fold(zero::<N>(), a, f);
    running_is_fold(zero::<N>(), b, f);
}

/// Adding up is adding one term after the other, from the first on.
pub proof fn running_is_left_fold<N: Number>(start: N, s: Seq<N>)
    ensures
        running(start, s) == s.fold_left(start, |sum: N, x: N| sum.spec_plus(x)),
{
    running_is_fold(start, s, |sum: N, x: N| sum.spec_plus(x));
}

proof fn running_is_fold<N: Number>(start: N, s: Seq<N>, f: spec_fn(N, N) -> N)
    requires
        forall|acc: N, x: N| #[trigger] f(acc, x) == acc.spec_plus(x),
    ensures
        running(start, s) == s.fold_left(start, f),
    decreases s.len(),
{
    if s.len() > 0 {
        running_is_fold(start, s.drop_last(), f);
    }
}

/// With exact arithmetic, adding to `start` is adding to zero and then adding `start`.
pub proof fn running_shifts<N: ExactNumber>(start: N, s: Seq<N>)
    ensures
        running(start, s) == start.spec_plus(running(zero::<N>(), s)),
    decreases s.len(),
{
    if s.len() == 0 {
        N::plus_zero(start);
    } else {
        running_shifts(start, s.drop_last());
        N::plus_associates(start, running(zero::<N>(), s.drop_last()), s.last());
    }
}

} // verus!
