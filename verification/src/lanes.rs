//! Four numbers side by side, as vector hardware holds them.
use crate::number::{zero, Number};
use vstd::prelude::*;

verus! {

/// Four numbers on which every operation works lane by lane.
///
/// [`Quad`] is the portable form.  A form that lives in a vector register
/// implements the same operations.
pub trait Lanes<N: Number>: Copy {
    /// The number in lane `i`, for `i` below four.
    spec fn spec_lane(self, i: usize) -> N;

    fn new(values: [N; 4]) -> (r: Self)
        ensures
            forall|i: usize| i < 4 ==> #[trigger] r.spec_lane(i) == values[i as int],
    ;

    fn splat(value: N) -> (r: Self)
        ensures
            forall|i: usize| i < 4 ==> #[trigger] r.spec_lane(i) == value,
    ;

    fn to_array(self) -> (r: [N; 4])
        ensures
            forall|i: usize| i < 4 ==> r[i as int] == #[trigger] self.spec_lane(i),
    ;

    fn plus(self, other: Self) -> (r: Self)
        ensures
            forall|i: usize|
                i < 4 ==> #[trigger] r.spec_lane(i) == self.spec_lane(i).spec_plus(
                    other.spec_lane(i),
                ),
    ;

    fn minus(self, other: Self) -> (r: Self)
        ensures
            forall|i: usize|
                i < 4 ==> #[trigger] r.spec_lane(i) == self.spec_lane(i).spec_minus(
                    other.spec_lane(i),
                ),
    ;

    fn times(self, other: Self) -> (r: Self)
        ensures
            forall|i: usize|
                i < 4 ==> #[trigger] r.spec_lane(i) == self.spec_lane(i).spec_times(
                    other.spec_lane(i),
                ),
    ;

    fn over(self, other: Self) -> (r: Self)
        ensures
            forall|i: usize|
                i < 4 ==> #[trigger] r.spec_lane(i) == self.spec_lane(i).spec_over(
                    other.spec_lane(i),
                ),
    ;

    /// Zero in the lanes where `self` is zero, and `other` elsewhere.
    fn zero_or(self, other: Self) -> (r: Self)
        ensures
            forall|i: usize|
                i < 4 ==> #[trigger] r.spec_lane(i) == (if self.spec_lane(i).spec_is_zero() {
                    zero::<N>()
                } else {
                    other.spec_lane(i)
                }),
    ;

    /// Zero in the lanes before `first`, and `self` from there on.
    fn from_lane(self, first: usize) -> (r: Self)
        ensures
            forall|i: usize|
                i < 4 ==> #[trigger] r.spec_lane(i) == (if i < first {
                    zero::<N>()
                } else {
                    self.spec_lane(i)
                }),
    ;
}

/// The four elements of `values` from `at` on.
pub(crate) fn load<N: Number, L: Lanes<N>>(values: &[N], at: usize) -> (r: L)
    requires
        at + 4 <= values@.len(),
    ensures
        forall|i: usize| i < 4 ==> #[trigger] r.spec_lane(i) == values@[at + i],
{
    L::new([values[at], values[at + 1], values[at + 2], values[at + 3]])
}

/// Four numbers held one by one.
#[derive(Copy, Debug)]
pub struct Quad<N> {
    pub lane0: N,
    pub lane1: N,
    pub lane2: N,
    pub lane3: N,
}

impl<N: Copy> Clone for Quad<N> {
    fn clone(&self) -> (r: Self)
        ensures
            r == *self,
    {
        *self
    }
}

impl<N: Number> Lanes<N> for Quad<N> {
    open spec fn spec_lane(self, i: usize) -> N {
        if i == 0 {
            self.lane0
        } else if i == 1 {
            self.lane1
        } else if i == 2 {
            self.lane2
        } else {
            self.lane3
        }
    }

    fn new(values: [N; 4]) -> (r: Self) {
        Quad { lane0: values[0], lane1: values[1], lane2: values[2], lane3: values[3] }
    }

    fn splat(value: N) -> (r: Self) {
        Quad { lane0: value, lane1: value, lane2: value, lane3: value }
    }

    fn to_array(self) -> (r: [N; 4]) {
        [self.lane0, self.lane1, self.lane2, self.lane3]
    }

    fn plus(self, other: Self) -> (r: Self) {
        Quad {
            lane0: self.lane0.plus(other.lane0),
            lane1: self.lane1.plus(other.lane1),
            lane2: self.lane2.plus(other.lane2),
            lane3: self.lane3.plus(other.lane3),
        }
    }

    fn minus(self, other: Self) -> (r: Self) {
        Quad {
            lane0: self.lane0.minus(other.lane0),
            lane1: self.lane1.minus(other.lane1),
            lane2: self.lane2.minus(other.lane2),
            lane3: self.lane3.minus(other.lane3),
        }
    }

    fn times(self, other: Self) -> (r: Self) {
        Quad {
            lane0: self.lane0.times(other.lane0),
            lane1: self.lane1.times(other.lane1),
            lane2: self.lane2.times(other.lane2),
            lane3: self.lane3.times(other.lane3),
        }
    }

    fn over(self, other: Self) -> (r: Self) {
        Quad {
            lane0: self.lane0.over(other.lane0),
            lane1: self.lane1.over(other.lane1),
            lane2: self.lane2.over(other.lane2),
            lane3: self.lane3.over(other.lane3),
        }
    }

    fn zero_or(self, other: Self) -> (r: Self) {
        let blank = N::of_usize(0);
        Quad {
            lane0: if self.lane0.is_zero() { blank } else { other.lane0 },
            lane1: if self.lane1.is_zero() { blank } else { other.lane1 },
            lane2: if self.lane2.is_zero() { blank } else { other.lane2 },
            lane3: if self.lane3.is_zero() { blank } else { other.lane3 },
        }
    }

    fn from_lane(self, first: usize) -> (r: Self) {
        let blank = N::of_usize(0);
        Quad {
            lane0: if 0 < first { blank } else { self.lane0 },
            lane1: if 1 < first { blank } else { self.lane1 },
            lane2: if 2 < first { blank } else { self.lane2 },
            lane3: if 3 < first { blank } else { self.lane3 },
        }
    }
}

} // verus!
