//! What indicators have in common.
use crate::number::{positive, zero, Number};
use crate::time::Timestamp;
use vstd::prelude::*;

verus! {

/// A value that carries the state of an indicator.
///
/// `Model` is that state as contracts speak of it.
pub trait Indicator {
    type Model;

    /// Whether the parts of the value fit together.
    spec fn wf(&self) -> bool;

    /// The state that the value carries.
    spec fn model(&self) -> Self::Model;
}

/// Resets an indicator to the initial state.
pub trait Reset: Indicator {
    /// The initial state of an indicator that is in state `m`.
    spec fn cleared(m: Self::Model) -> Self::Model;

    fn reset(&mut self)
        requires
            old(self).wf(),
        ensures
            final(self).wf(),
            final(self).model() == Self::cleared(old(self).model()),
    ;
}

/// Consumes a data item of type `T` with its time and returns `Output`.
pub trait Next<T>: Indicator {
    type Output;

    /// The state that follows `m` when `input` comes in, and the output for it.
    spec fn step(m: Self::Model, input: (Timestamp, T)) -> (Self::Model, Self::Output);

    fn next(&mut self, input: (Timestamp, T)) -> (r: Self::Output)
        requires
            old(self).wf(),
        ensures
            final(self).wf(),
            final(self).model() == Self::step(old(self).model(), input).0,
            r == Self::step(old(self).model(), input).1,
    ;
}

/// The state that follows `m` when `inputs` come in one after the other.
pub open spec fn state_after<I: Next<T> + ?Sized, T>(
    m: I::Model,
    inputs: Seq<(Timestamp, T)>,
) -> I::Model
    decreases inputs.len(),
{
    if inputs.len() == 0 {
        m
    } else {
        I::step(state_after::<I, T>(m, inputs.drop_last()), inputs.last()).0
    }
}

/// The outputs for `inputs` that come in one after the other, from the state `m` on.
pub open spec fn outputs<I: Next<T> + ?Sized, T>(
    m: I::Model,
    inputs: Seq<(Timestamp, T)>,
) -> Seq<I::Output> {
    Seq::new(
        inputs.len(),
        |i: int| I::step(state_after::<I, T>(m, inputs.take(i)), inputs[i]).1,
    )
}

/// Whether all values of a series are zero.
pub open spec fn all_zero<N: Number>(s: Seq<(Timestamp, N)>) -> bool {
    forall|i: int| 0 <= i < s.len() ==> (#[trigger] s[i]).1 == zero::<N>()
}

/// Whether no value of a series is negative.
pub open spec fn none_negative<N: Number>(s: Seq<(Timestamp, N)>) -> bool {
    forall|i: int| 0 <= i < s.len() ==> zero::<N>().spec_at_most((#[trigger] s[i]).1)
}

/// Whether an indicator in state `m` gives zeros for zeros.
pub open spec fn keeps_zero<I: Next<N, Output = N>, N: Number>(m: I::Model) -> bool {
    forall|s: Seq<(Timestamp, N)>, i: int|
        all_zero(s) && 0 <= i < s.len() ==> #[trigger] outputs::<I, N>(m, s)[i] == zero::<N>()
}

/// Whether an indicator in state `m` gives something positive for something positive, as
/// long as nothing negative comes in.
pub open spec fn keeps_positive<I: Next<N, Output = N>, N: Number>(m: I::Model) -> bool {
    forall|s: Seq<(Timestamp, N)>, i: int|
        none_negative(s) && 0 <= i < s.len() && positive(s[i].1) ==> positive(
            #[trigger] outputs::<I, N>(m, s)[i],
        )
}

/// Whether an indicator in state `m` gives nothing negative as long as nothing negative
/// comes in.
pub open spec fn keeps_not_negative<I: Next<N, Output = N>, N: Number>(m: I::Model) -> bool {
    forall|s: Seq<(Timestamp, N)>, i: int|
        none_negative(s) && 0 <= i < s.len() ==> zero::<N>().spec_at_most(
            #[trigger] outputs::<I, N>(m, s)[i],
        )
}

/// A series of points, as contracts speak of it.
pub type Series<T> = Seq<(Timestamp, T)>;

/// A series of outputs, as contracts speak of it.
pub type Outputs<T> = Seq<T>;

/// Where `inputs` lead to from the state `m` on when they come in one after the other.
pub open spec fn looped<I: Next<T> + ?Sized, T>(m: I::Model, inputs: Series<T>) -> (
    I::Model,
    Outputs<I::Output>,
) {
    (state_after::<I, T>(m, inputs), outputs::<I, T>(m, inputs))
}

/// Takes in a slice of inputs one after the other and returns the outputs.
pub fn next_each<I: Next<T>, T: Copy>(indicator: &mut I, inputs: &[(Timestamp, T)]) -> (r: Vec<
    I::Output,
>)
    requires
        old(indicator).wf(),
    ensures
        final(indicator).wf(),
        (final(indicator).model(), r@) == looped::<I, T>(old(indicator).model(), inputs@),
{
    let mut out: Vec<I::Output> = Vec::with_capacity(inputs.len());
    let mut i: usize = 0;
    let ghost m = indicator.model();
    proof {
        assert(inputs@.take(0) =~= Seq::empty());
    }
    while i < inputs.len()
        invariant
            i <= inputs@.len(),
            indicator.wf(),
            indicator.model() == state_after::<I, T>(m, inputs@.take(i as int)),
            out@.len() == i,
            forall|j: int|
                0 <= j < i ==> #[trigger] out@[j] == I::step(
                    state_after::<I, T>(m, inputs@.take(j)),
                    inputs@[j],
                ).1,
        decreases inputs@.len() - i,
    {
        let y = indicator.next(inputs[i]);
        out.push(y);
        i = i + 1;
        proof {
            assert(inputs@.take(i as int).drop_last() =~= inputs@.take(i - 1));
        }
    }
    proof {
        assert(inputs@.take(i as int) =~= inputs@);
        assert(out@ =~= outputs::<I, T>(m, inputs@));
    }
    out
}

/// Batched form of [`Next`]: consumes a slice of inputs and returns the outputs.
///
/// Most indicators loop over [`Next::next`] with [`next_each`], and their `batch` is
/// [`looped`].  One with a faster way says with `batch` what that way gives; where nothing is
/// rounded, it gives what the loop gives.
pub trait NextBatch<T>: Next<T> where T: Copy {
    /// The state that follows `m` when `inputs` come in as a batch, and the outputs for them.
    spec fn batch(m: Self::Model, inputs: Series<T>) -> (Self::Model, Outputs<Self::Output>);

    fn next_batch(&mut self, inputs: &[(Timestamp, T)]) -> (r: Vec<Self::Output>)
        requires
            old(self).wf(),
        ensures
            final(self).wf(),
            (final(self).model(), r@) == Self::batch(old(self).model(), inputs@),
            r@.len() == inputs@.len(),
    ;
}

/// Indicators that keep no trace of what has come in once they are reset.
pub trait Forgetful<T>: Next<T> + Reset {
    /// A reset after one more input is a reset without it.
    proof fn reset_forgets(m: Self::Model, input: (Timestamp, T))
        ensures
            Self::cleared(Self::step(m, input).0) == Self::cleared(m),
    ;
}

/// A reset undoes every series of inputs: it leads to the same state as a reset before the
/// series would have.
pub proof fn reset_undoes_series<I: Forgetful<T>, T>(m: I::Model, inputs: Seq<(Timestamp, T)>)
    ensures
        I::cleared(state_after::<I, T>(m, inputs)) == I::cleared(m),
    decreases inputs.len(),
{
    if inputs.len() > 0 {
        let before = inputs.drop_last();
        reset_undoes_series::<I, T>(m, before);
        I::reset_forgets(state_after::<I, T>(m, before), inputs.last());
    }
}

/// A series may be cut anywhere: its two parts, one after the other, lead to the same state
/// and give the same outputs.
pub proof fn series_splits<I: Next<T>, T>(
    m: I::Model,
    first: Seq<(Timestamp, T)>,
    second: Seq<(Timestamp, T)>,
)
    ensures
        state_after::<I, T>(m, first + second) == state_after::<I, T>(
            state_after::<I, T>(m, first),
            second,
        ),
        outputs::<I, T>(m, first + second) == outputs::<I, T>(m, first) + outputs::<I, T>(
            state_after::<I, T>(m, first),
            second,
        ),
{
    let whole = first + second;
    let between = state_after::<I, T>(m, first);
    state_after_joins::<I, T>(m, first, second);
    let split = outputs::<I, T>(m, first) + outputs::<I, T>(between, second);
    assert forall|i: int| 0 <= i < whole.len() implies outputs::<I, T>(m, whole)[i] == split[i] by {
        if i < first.len() {
            assert(whole.take(i) =~= first.take(i));
        } else {
            let j = i - first.len();
            assert(whole.take(i) =~= first + second.take(j));
            state_after_joins::<I, T>(m, first, second.take(j));
        }
    }
    assert(outputs::<I, T>(m, whole) =~= split);
}

proof fn state_after_joins<I: Next<T>, T>(
    m: I::Model,
    first: Seq<(Timestamp, T)>,
    second: Seq<(Timestamp, T)>,
)
    ensures
        state_after::<I, T>(m, first + second) == state_after::<I, T>(
            state_after::<I, T>(m, first),
            second,
        ),
    decreases second.len(),
{
    let whole = first + second;
    if second.len() == 0 {
        assert(whole =~= first);
    } else {
        assert(whole.drop_last() =~= first + second.drop_last());
        assert(whole.last() == second.last());
        state_after_joins::<I, T>(m, first, second.drop_last());
    }
}

/// A series of one point is one step, and one without points leaves everything as it is.
/// Together with [`series_splits`] this is what a series leads to.
pub proof fn series_of_one<I: Next<T>, T>(m: I::Model, input: (Timestamp, T))
    ensures
        state_after::<I, T>(m, seq![]) == m,
        outputs::<I, T>(m, seq![]).len() == 0,
        state_after::<I, T>(m, seq![input]) == I::step(m, input).0,
        outputs::<I, T>(m, seq![input]) == seq![I::step(m, input).1],
        looped::<I, T>(m, seq![input]) == (I::step(m, input).0, seq![I::step(m, input).1]),
{
    reveal_with_fuel(state_after, 2);
    let one = seq![input];
    assert(one.drop_last() =~= seq![]);
    assert(one.take(0) =~= seq![]);
    assert(outputs::<I, T>(m, one) =~= seq![I::step(m, input).1]);
}

/// Taking in two series one after the other is taking in both at once.
pub proof fn loops_join<I: Next<T>, T>(m: I::Model, first: Series<T>, second: Series<T>)
    ensures
        ({
            let (between, early) = looped::<I, T>(m, first);
            let (after, late) = looped::<I, T>(between, second);
            looped::<I, T>(m, first + second) == (after, early + late)
        }),
        looped::<I, T>(m, first).0 == state_after::<I, T>(m, first),
        looped::<I, T>(m, first).1 == outputs::<I, T>(m, first),
{
    series_splits::<I, T>(m, first, second);
}

} // verus!
