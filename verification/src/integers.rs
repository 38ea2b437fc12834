//! Whole numbers as a number format.
//!
//! `+`, `-` and `*` are exact up to wrapping at 64 bits, division rounds down
//! for a positive divisor, and the square root rounds down.
use crate::number::{ExactNumber, Number, PositiveRatios, TotalOrder};
use vstd::arithmetic::div_mod::{
    lemma_add_mod_noop, lemma_mod_bound, lemma_mod_twice, lemma_mul_mod_noop,
};
use vstd::prelude::*;
use vstd::wrapping::i64_specs;

verus! {

/// The number of 64-bit patterns.
pub open spec fn modulus() -> int {
    0x1_0000_0000_0000_0000
}

/// The largest whole number whose square is at most `x`, and 0 for a negative `x`.
pub open spec fn is_floor_root(x: i64, r: i64) -> bool {
    if x < 0 {
        r == 0
    } else {
        0 <= r && r * r <= x && x < (r + 1) * (r + 1)
    }
}

/// The quotient rounded down for a positive divisor.  Dividing by zero gives zero,
/// and the one quotient that is out of range gives the largest value.
pub open spec fn quotient(a: i64, b: i64) -> i64 {
    if b == 0 {
        0
    } else if a == i64::MIN && b == -1 {
        i64::MAX
    } else {
        (a as int / b as int) as i64
    }
}

proof fn quotient_in_range(a: int, b: int)
    requires
        i64::MIN <= a <= i64::MAX,
        i64::MIN <= b <= i64::MAX,
        b != 0,
        !(a == i64::MIN && b == -1),
    ensures
        i64::MIN <= a / b <= i64::MAX,
{
    let q = a / b;
    let r = a % b;
    assert(a == b * q + r && 0 <= r && (r < b || r < -b)) by (nonlinear_arith)
        requires
            b != 0,
            q == a / b,
            r == a % b,
    ;
    if b > 0 {
        assert(i64::MIN <= q <= i64::MAX) by (nonlinear_arith)
            requires
                b > 0,
                a == b * q + r,
                0 <= r < b,
                i64::MIN <= a <= i64::MAX,
        ;
    } else if b == -1 {
        assert(b * q == -q) by (nonlinear_arith)
            requires
                b == -1,
        ;
    } else {
        assert(i64::MIN <= q <= i64::MAX) by (nonlinear_arith)
            requires
                b <= -2,
                a == b * q + r,
                0 <= r < -b,
                i64::MIN <= a <= i64::MAX,
        ;
    }
}

/// The floor of the square root.
fn floor_root(x: i64) -> (r: i64)
    ensures
        is_floor_root(x, r),
{
    if x < 0 {
        return 0;
    }
    let target: u64 = x as u64;
    let mut low: u64 = 0;
    let mut high: u64 = 3_037_000_500;
    assert(0int * 0int <= x);
    while high - low > 1
        invariant
            low < high <= 3_037_000_500,
            target == x,
            low * low <= target,
            target < high * high,
        decreases high - low,
    {
        let middle: u64 = low + (high - low) / 2;
        assert(middle * middle <= 3_037_000_500 * 3_037_000_500) by (nonlinear_arith)
            requires
                0 <= middle <= 3_037_000_500,
        ;
        if middle * middle <= target {
            low = middle;
        } else {
            high = middle;
        }
    }
    low as i64
}

impl Number for i64 {
    open spec fn spec_of_usize(n: usize) -> Self {
        if n <= i64::MAX {
            n as i64
        } else {
            i64::MAX
        }
    }

    open spec fn spec_lowest() -> Self {
        i64::MIN
    }

    open spec fn spec_plus(self, other: Self) -> Self {
        i64_specs::wrapping_add(self, other)
    }

    open spec fn spec_minus(self, other: Self) -> Self {
        i64_specs::wrapping_sub(self, other)
    }

    open spec fn spec_times(self, other: Self) -> Self {
        i64_specs::wrapping_mul(self, other)
    }

    open spec fn spec_over(self, other: Self) -> Self {
        quotient(self, other)
    }

    open spec fn spec_root(self) -> Self {
        choose|r: i64| is_floor_root(self, r)
    }

    open spec fn spec_greater(self, other: Self) -> Self {
        if self <= other {
            other
        } else {
            self
        }
    }

    open spec fn spec_lesser(self, other: Self) -> Self {
        if self <= other {
            self
        } else {
            other
        }
    }

    open spec fn spec_below(self, other: Self) -> bool {
        self < other
    }

    open spec fn spec_at_most(self, other: Self) -> bool {
        self <= other
    }

    open spec fn spec_is_zero(self) -> bool {
        self == 0
    }

    fn of_usize(n: usize) -> (r: Self) {
        if n as u64 <= i64::MAX as u64 {
            n as i64
        } else {
            i64::MAX
        }
    }

    fn lowest() -> (r: Self) {
        i64::MIN
    }

    fn plus(self, other: Self) -> (r: Self) {
        self.wrapping_add(other)
    }

    fn minus(self, other: Self) -> (r: Self) {
        self.wrapping_sub(other)
    }

    fn times(self, other: Self) -> (r: Self) {
        self.wrapping_mul(other)
    }

    fn over(self, other: Self) -> (r: Self) {
        if other == 0 {
            return 0;
        }
        if self == i64::MIN && other == -1 {
            return i64::MAX;
        }
        proof {
            quotient_in_range(self as int, other as int);
        }
        match self.checked_div_euclid(other) {
            Some(q) => q,
            None => 0,
        }
    }

    fn root(self) -> (r: Self) {
        let r = floor_root(self);
        proof {
            floor_root_unique(self, r, self.spec_root());
        }
        r
    }

    fn greater(self, other: Self) -> (r: Self) {
        if self <= other {
            other
        } else {
            self
        }
    }

    fn lesser(self, other: Self) -> (r: Self) {
        if self <= other {
            self
        } else {
            other
        }
    }

    fn below(self, other: Self) -> (r: bool) {
        self < other
    }

    fn at_most(self, other: Self) -> (r: bool) {
        self <= other
    }

    fn is_zero(self) -> (r: bool) {
        self == 0
    }
}

/// The square root is determined by its two inequalities.
pub proof fn floor_root_unique(x: i64, r: i64, s: i64)
    requires
        is_floor_root(x, r),
        is_floor_root(x, s),
    ensures
        r == s,
{
    if x >= 0 {
        assert(r == s) by (nonlinear_arith)
            requires
                0 <= r,
                0 <= s,
                r * r <= x,
                x < (r + 1) * (r + 1),
                s * s <= x,
                x < (s + 1) * (s + 1),
        ;
    }
}

/// Every number has a square root in this sense, and it is the one that `root` gives.
pub proof fn floor_root_exists(x: i64)
    ensures
        is_floor_root(x, x.spec_root()),
{
    let r = smallest_above(x as int, 0) - 1;
    if x < 0 {
        assert(is_floor_root(x, 0));
    } else {
        smallest_above_bounds(x as int, 0);
        assert(r <= i64::MAX) by (nonlinear_arith)
            requires
                0 <= r,
                r * r <= x,
                x <= i64::MAX,
        ;
        assert(is_floor_root(x, r as i64));
    }
}

/// The smallest number from `from` on whose square is above `x`.
spec fn smallest_above(x: int, from: int) -> int
    decreases x + 1 - from,
{
    if from * from > x || from > x {
        from
    } else {
        smallest_above(x, from + 1)
    }
}

proof fn smallest_above_bounds(x: int, from: int)
    requires
        x >= 0,
        0 <= from,
        from == 0 || (from - 1) * (from - 1) <= x,
    ensures
        smallest_above(x, from) >= 1,
        (smallest_above(x, from) - 1) * (smallest_above(x, from) - 1) <= x,
        smallest_above(x, from) * smallest_above(x, from) > x,
    decreases x + 1 - from,
{
    if from * from > x || from > x {
        assert(from * from > x) by (nonlinear_arith)
            requires
                from * from > x || from > x,
                0 <= x,
                0 <= from,
        ;
        assert(from >= 1) by (nonlinear_arith)
            requires
                from * from > x,
                0 <= x,
                0 <= from,
        ;
    } else {
        smallest_above_bounds(x, from + 1);
    }
}

/// Two values in range that agree modulo 2^64 are equal.
proof fn same_residue(x: i64, y: i64)
    requires
        x as int % modulus() == y as int % modulus(),
    ensures
        x == y,
{
}

proof fn plus_residue(a: i64, b: i64)
    ensures
        a.spec_plus(b) as int % modulus() == (a + b) % modulus(),
{
}

proof fn times_residue(a: i64, b: i64)
    ensures
        a.spec_times(b) as int % modulus() == (a * b) % modulus(),
{
    let p: int = a * b;
    lemma_mod_bound(p, modulus());
    lemma_mod_twice(p, modulus());
}

impl ExactNumber for i64 {
    proof fn plus_commutes(a: Self, b: Self) {
    }

    proof fn plus_associates(a: Self, b: Self, c: Self) {
        plus_residue(a, b);
        plus_residue(b, c);
        plus_residue(a.spec_plus(b), c);
        plus_residue(a, b.spec_plus(c));
        same_residue(a.spec_plus(b).spec_plus(c), a.spec_plus(b.spec_plus(c)));
    }

    proof fn plus_zero(a: Self) {
    }

    proof fn minus_then_plus(a: Self, b: Self) {
    }

    proof fn times_commutes(a: Self, b: Self) {
        assert(a * b == b * a) by (nonlinear_arith);
    }

    proof fn times_associates(a: Self, b: Self, c: Self) {
        let m = modulus();
        let ab = a.spec_times(b);
        let bc = b.spec_times(c);
        times_residue(a, b);
        times_residue(b, c);
        times_residue(ab, c);
        times_residue(a, bc);
        lemma_mul_mod_noop(ab as int, c as int, m);
        lemma_mul_mod_noop(a * b, c as int, m);
        lemma_mul_mod_noop(a as int, bc as int, m);
        lemma_mul_mod_noop(a as int, b * c, m);
        assert((a * b) * c == a * (b * c)) by (nonlinear_arith);
        same_residue(ab.spec_times(c), a.spec_times(bc));
    }

    proof fn times_distributes(a: Self, b: Self, c: Self) {
        let m = modulus();
        let sum = b.spec_plus(c);
        plus_residue(b, c);
        times_residue(a, sum);
        times_residue(a, b);
        times_residue(a, c);
        plus_residue(a.spec_times(b), a.spec_times(c));
        lemma_mul_mod_noop(a as int, sum as int, m);
        lemma_mul_mod_noop(a as int, b + c, m);
        lemma_add_mod_noop(a.spec_times(b) as int, a.spec_times(c) as int, m);
        lemma_add_mod_noop(a * b, a * c, m);
        assert(a * (b + c) == a * b + a * c) by (nonlinear_arith);
        same_residue(a.spec_times(sum), a.spec_times(b).spec_plus(a.spec_times(c)));
    }

    proof fn times_one(a: Self) {
        times_residue(a, 1);
        same_residue(a.spec_times(1), a);
    }

    proof fn over_one(a: Self) {
    }

    proof fn counts_add(a: usize, b: usize) {
    }

    proof fn root_zero() {
        assert(is_floor_root(0, 0));
        floor_root_unique(0, 0, 0i64.spec_root());
    }
}

impl TotalOrder for i64 {
    proof fn order_laws() {
    }
}

impl PositiveRatios for i64 {
    proof fn decline_monotone(low_peak: Self, high_peak: Self, low_trough: Self, high_trough: Self) {
        let (p, q, u, t) = (low_peak as int, high_peak as int, low_trough as int, high_trough as int);
        quotient_in_range(p - t, p);
        quotient_in_range(q - u, q);
        assert((p - t) / p <= (q - u) / q) by (nonlinear_arith)
            requires
                0 < p <= q,
                0 < u <= t,
        {
            let d = (p - t) / p;
            let e = (q - u) / q;
            assert(p * d <= p - t);
            assert(q - u < q * e + q);
            assert(p * (d - 1) <= -t);
            assert(d - 1 < 0);
            assert(q * (d - 1) <= p * (d - 1));
            assert(q * (d - 1) <= -u);
            assert(q * d <= q - u);
            assert(q * d < q * (e + 1));
            assert(d < e + 1);
        }
    }

    proof fn decline_to_itself(x: Self) {
    }

    proof fn climb_monotone(low_trough: Self, high_trough: Self, low_peak: Self, high_peak: Self) {
        let (u, t, p, q) = (low_trough as int, high_trough as int, low_peak as int, high_peak as int);
        quotient_in_range(p - t, t);
        quotient_in_range(q - u, u);
        assert((p - t) / t <= (q - u) / u) by (nonlinear_arith)
            requires
                0 < u <= t,
                0 < p <= q,
        {
            let d = (p - t) / t;
            let e = (q - u) / u;
            assert(t * d <= p - t);
            assert(q - u < u * e + u);
            assert(t * (d + 1) <= p);
            assert(u * (d + 1) <= q) by {
                if d + 1 >= 0 {
                    assert(u * (d + 1) <= t * (d + 1));
                } else {
                    assert(u * (d + 1) <= 0);
                }
            }
            assert(u * d < u * (e + 1));
            assert(d < e + 1);
        }
    }

    proof fn climb_to_itself(x: Self) {
    }

    proof fn decline_at_most_whole(peak: Self, trough: Self) {
        let (p, t) = (peak as int, trough as int);
        assert((p - t) / p <= 0) by (nonlinear_arith)
            requires
                0 < p,
                0 < t,
        ;
        quotient_in_range(p - t, p);
    }

    proof fn zero_at_most_one() {
    }

    proof fn share_in_percent(x: Self) {
        assert(x == 0 || x == 1);
        assert(100i64.spec_times(0) == 0);
        assert(100i64.spec_times(1) == 100);
    }

    proof fn quotient_not_negative(a: Self, b: Self) {
        let (p, q) = (a as int, b as int);
        assert(0 <= p / q) by (nonlinear_arith)
            requires
                0 <= p,
                0 < q,
        ;
        quotient_in_range(p, q);
    }

    proof fn remainder_in_percent(x: Self) {
        let base = 1i64.spec_plus(x);
        let q = base as int;
        assert(0 <= 100int / q <= 100) by (nonlinear_arith)
            requires
                q >= 1 || q < -100,
        ;
    }
}

/// What the operations on whole numbers give.  Sums, differences and products are exact where
/// they are in range.  A quotient is rounded so that the remainder is not negative and smaller
/// than the divisor; dividing by zero gives zero, and the one quotient that is out of range gives
/// the largest number.  A root is the largest number whose square does not exceed.
pub proof fn operations_are_whole(a: i64, b: i64, n: usize)
    ensures
        i64::MIN <= a + b <= i64::MAX ==> a.spec_plus(b) == a + b,
        i64::MIN <= a - b <= i64::MAX ==> a.spec_minus(b) == a - b,
        i64::MIN <= a * b <= i64::MAX ==> a.spec_times(b) == a * b,
        b == 0 ==> a.spec_over(b) == 0,
        a == i64::MIN && b == -1 ==> a.spec_over(b) == i64::MAX,
        b > 0 ==> b * a.spec_over(b) <= a < b * a.spec_over(b) + b,
        b < 0 && !(a == i64::MIN && b == -1) ==> b * a.spec_over(b) <= a < b * a.spec_over(b) - b,
        a < 0 ==> a.spec_root() == 0,
        a >= 0 ==> 0 <= a.spec_root() && a.spec_root() * a.spec_root() <= a < (a.spec_root() + 1)
            * (a.spec_root() + 1),
        n <= i64::MAX ==> i64::spec_of_usize(n) == n,
        n > i64::MAX ==> i64::spec_of_usize(n) == i64::MAX,
        a.spec_at_most(b) <==> a <= b,
        a.spec_below(b) <==> a < b,
        a.spec_greater(b) >= a && a.spec_greater(b) >= b && (a.spec_greater(b) == a
            || a.spec_greater(b) == b),
        a.spec_lesser(b) <= a && a.spec_lesser(b) <= b && (a.spec_lesser(b) == a
            || a.spec_lesser(b) == b),
        i64::spec_lowest() <= a,
        a.spec_is_zero() <==> a == 0,
{
    floor_root_exists(a);
    if b != 0 && !(a == i64::MIN && b == -1) {
        let (x, y) = (a as int, b as int);
        quotient_in_range(x, y);
        let q = x / y;
        assert(y * q <= x && (x < y * q + y || x < y * q - y)) by (nonlinear_arith)
            requires
                y != 0,
                q == x / y,
        ;
        assert(y > 0 ==> x < y * q + y) by (nonlinear_arith)
            requires
                y != 0,
                q == x / y,
        ;
        assert(y < 0 ==> x < y * q - y) by (nonlinear_arith)
            requires
                y != 0,
                q == x / y,
        ;
    }
}

} // verus!
