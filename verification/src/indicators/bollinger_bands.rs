//! The upper Bollinger band: a moving average and a multiple of the deviation above it.
use crate::errors::{Result, TaError};
use crate::indicators::held::{
    having_seen, holds_exactly, holds_step, moves_on, moving_on_keeps_recent, recent,
    room_moves_on,
};
use crate::indicators::window::{
    copy_window, cutoff, evict, evicted, expired, front_in_order, in_order, limit_at, sealed,
    values_of, window_moves_on, with_room, Points,
};
use crate::number::{minus_undoes_plus, running, running_is_left_fold, zero, ExactNumber, Number};
use crate::text::{decimal, decimal_reads_back, push_decimal, reads_as};
use crate::time::{BucketDetector, Duration, ForgetfulDetector, Timestamp, TWO_WEEKS_SECS};
use crate::traits::{
    looped, next_each, outputs, state_after, Forgetful, Indicator, Next, NextBatch, Outputs, Reset,
    Series,
};
use std::collections::VecDeque;
use vstd::prelude::*;
use vstd::string::*;

verus! {

/// The mean of the values in a window.
pub open spec fn mean_of<N: Number>(s: Points<N>) -> N {
    running(zero(), values_of(s)).spec_over(N::spec_of_usize(s.len() as usize))
}

/// The state of [`BollingerBands`].
pub struct BollingerBandsModel<N, D, M> {
    pub duration: Duration,
    pub multiplier: N,
    /// The state of the indicator for the deviation.
    pub sd: M,
    pub window: Points<N>,
    pub detector: D,
}

/// Bollinger bands over the last `duration`, with the deviation from the indicator `S`.
#[derive(Debug, Clone)]
pub struct BollingerBands<N, D, S> {
    duration: Duration,
    multiplier: N,
    sd: S,
    window: VecDeque<(Timestamp, N)>,
    detector: D,
    /// The length of `duration` in nanoseconds, once it has been needed.
    cached_window: Option<u128>,
}

/// The three bands at one moment.
#[derive(Debug, Clone, PartialEq)]
pub struct BollingerBandsOutput<N> {
    pub average: N,
    pub upper: N,
    pub lower: N,
}

impl<N: Number, D: BucketDetector, S: Next<N, Output = N> + Reset> BollingerBands<N, D, S> {
    /// The state without points.
    pub open spec fn initial(
        duration: Duration,
        multiplier: N,
        sd: S::Model,
        detector: D,
    ) -> BollingerBandsModel<N, D, S::Model> {
        BollingerBandsModel { duration, multiplier, sd, window: Seq::empty(), detector }
    }

    /// The state that the parts which are kept make up.
    pub open spec fn restored(
        duration: Duration,
        multiplier: N,
        sd: S::Model,
        window: Points<N>,
        detector: D,
    ) -> BollingerBandsModel<N, D, S::Model> {
        BollingerBandsModel { duration, multiplier, sd, window, detector }
    }

    /// A copy of the points in the window, oldest first.
    pub fn get_window(&self) -> (r: VecDeque<(Timestamp, N)>)
        requires
            self.wf(),
        ensures
            r@ == self.model().window,
    {
        copy_window(&self.window)
    }

    /// Bands over the last `duration`, which must not be empty, at `multiplier` deviations
    /// as `sd` gives them.
    pub fn new(duration: Duration, multiplier: N, sd: S, detector: D) -> (r: Result<Self>)
        requires
            sd.wf(),
        ensures
            r is Err <==> duration.spec_nanos() == 0,
            r is Ok <==> duration.secs > 0 || duration.subsec_nanos > 0,
            r is Err ==> r->Err_0 == TaError::InvalidParameter,
            r is Ok ==> r->Ok_0.wf() && r->Ok_0.model() == Self::initial(
                duration,
                multiplier,
                sd.model(),
                detector,
            ),
    {
        if duration.is_zero() {
            Err(TaError::InvalidParameter)
        } else {
            Ok(Self::restore(duration, multiplier, sd, VecDeque::new(), detector))
        }
    }

    /// Bands over the last 14 days at two deviations.
    pub fn with_default_duration(sd: S, detector: D) -> (r: Self)
        requires
            sd.wf(),
        ensures
            r.wf(),
            r.model().duration.secs == 14 * 24 * 60 * 60,
            r.model().duration.subsec_nanos == 0,
            r.model() == Self::initial(
                (Duration { secs: TWO_WEEKS_SECS, subsec_nanos: 0 }),
                N::spec_of_usize(2),
                sd.model(),
                detector,
            ),
    {
        Self::restore(
            Duration::from_secs(TWO_WEEKS_SECS),
            N::of_usize(2),
            sd,
            VecDeque::new(),
            detector,
        )
    }

    /// An indicator from the parts that are kept when one is stored.
    pub fn restore(
        duration: Duration,
        multiplier: N,
        sd: S,
        window: VecDeque<(Timestamp, N)>,
        detector: D,
    ) -> (r: Self)
        requires
            sd.wf(),
        ensures
            r.wf(),
            r.model() == (BollingerBandsModel {
                duration,
                multiplier,
                sd: sd.model(),
                window: window@,
                detector,
            }),
            r.model() == Self::restored(duration, multiplier, sd.model(), window@, detector),
    {
        BollingerBands { duration, multiplier, sd, window, detector, cached_window: None }
    }

    /// The parts to keep when an indicator is stored.
    pub fn into_parts(self) -> (r: (Duration, N, S, VecDeque<(Timestamp, N)>, D))
        requires
            self.wf(),
        ensures
            r.0 == self.model().duration,
            r.1 == self.model().multiplier,
            r.2.wf(),
            r.2.model() == self.model().sd,
            r.3@ == self.model().window,
            r.4 == self.model().detector,
            Self::restored(r.0, r.1, r.2.model(), r.3@, r.4) == self.model(),
    {
        (self.duration, self.multiplier, self.sd, self.window, self.detector)
    }

    /// The number of deviations between the average and a band.
    pub fn multiplier(&self) -> (r: N)
        requires
            self.wf(),
        ensures
            r == self.model().multiplier,
    {
        self.multiplier
    }

    /// What bands over `duration` are, in writing, where `multiplier` is the multiplier in writing.
    pub open spec fn label_of(duration: Duration, multiplier: Seq<char>) -> Seq<char> {
        "BB("@ + decimal(duration.secs as nat) + "s, "@ + multiplier + ")"@
    }

    /// What the indicator is, in writing, where `multiplier` is the multiplier in writing.
    pub fn label(&self, multiplier: &str) -> (r: String)
        requires
            self.wf(),
        ensures
            r@ == "BB("@ + decimal(self.model().duration.secs as nat) + "s, "@ + multiplier@
                + ")"@,
            r@ == Self::label_of(self.model().duration, multiplier@),
    {
        let mut text = String::new();
        text.append("BB(");
        push_decimal(&mut text, self.duration.secs);
        text.append("s, ");
        text.append(multiplier);
        text.append(")");
        proof {
            assert(text@ =~= "BB("@ + decimal(self.duration.secs as nat) + "s, "@ + multiplier@
                + ")"@);
        }
        text
    }

    /// The cached length, where there is one, is the length of the span.
    pub closed spec fn cache_holds(&self) -> bool {
        match self.cached_window {
            Some(span) => span == self.duration.spec_nanos(),
            None => true,
        }
    }

    /// Lets the points leave that are too old at time `t`.
    fn remove_old_data(&mut self, t: Timestamp)
        requires
            old(self).wf(),
        ensures
            final(self).wf(),
            final(self).duration == old(self).duration,
            final(self).multiplier == old(self).multiplier,
            final(self).sd == old(self).sd,
            final(self).detector == old(self).detector,
            final(self).window@ == evicted(old(self).window@, cutoff(t, old(self).duration)),
    {
        let span = match self.cached_window {
            Some(span) => span,
            None => self.duration.as_nanos(),
        };
        self.cached_window = Some(span);
        let limit = limit_at(t, span);
        evict(&mut self.window, limit);
    }

    /// The mean of the values in the window.
    fn mean(&self) -> (r: N)
        ensures
            r == mean_of(self.window@),
    {
        let mut total = N::of_usize(0);
        let mut i: usize = 0;
        let ghost values = values_of(self.window@);
        proof {
            assert(values.take(0) =~= Seq::empty());
        }
        while i < self.window.len()
            invariant
                i <= self.window@.len(),
                values == values_of(self.window@),
                total == running(zero(), values.take(i as int)),
            decreases self.window@.len() - i,
        {
            total = total.plus(self.window[i].1);
            i = i + 1;
            proof {
                assert(values.take(i as int).drop_last() =~= values.take(i - 1));
            }
        }
        proof {
            assert(values.take(i as int) =~= values);
        }
        total.over(N::of_usize(self.window.len()))
    }
}

impl<N: Number, D: BucketDetector, S: Next<N, Output = N> + Reset> Indicator for BollingerBands<
    N,
    D,
    S,
> {
    type Model = BollingerBandsModel<N, D, S::Model>;

    closed spec fn wf(&self) -> bool {
        &&& self.cache_holds()
        &&& self.sd.wf()
    }

    closed spec fn model(&self) -> BollingerBandsModel<N, D, S::Model> {
        BollingerBandsModel {
            duration: self.duration,
            multiplier: self.multiplier,
            sd: self.sd.model(),
            window: self.window@,
            detector: self.detector,
        }
    }
}

impl<N: Number, D: BucketDetector, S: Next<N, Output = N> + Reset> Next<N> for BollingerBands<
    N,
    D,
    S,
> {
    type Output = N;

    open spec fn step(m: BollingerBandsModel<N, D, S::Model>, input: (Timestamp, N)) -> (
        BollingerBandsModel<N, D, S::Model>,
        N,
    ) {
        let limit = cutoff(input.0, m.duration);
        let window = with_room(m.window, m.detector.spec_same_bucket(input.0), limit).push(input);
        let (sd, deviation) = S::step(m.sd, input);
        (
            BollingerBandsModel {
                duration: m.duration,
                multiplier: m.multiplier,
                sd,
                window,
                detector: m.detector.spec_seen(input.0),
            },
            mean_of(window).spec_plus(deviation.spec_times(m.multiplier)),
        )
    }

    fn next(&mut self, input: (Timestamp, N)) -> (r: N) {
        let (timestamp, value) = input;
        let should_replace = self.detector.should_replace(timestamp);
        self.remove_old_data(timestamp);
        if should_replace && self.window.len() > 0 {
            let ghost before = self.window@;
            let _ = self.window.pop_back();
            proof {
                assert(self.window@ =~= sealed(before));
            }
        }
        self.window.push_back((timestamp, value));
        let mean = self.mean();
        let sd = self.sd.next((timestamp, value));
        mean.plus(sd.times(self.multiplier))
    }
}

impl<N: Number, D: BucketDetector, S: Next<N, Output = N> + Reset> NextBatch<
    N,
> for BollingerBands<N, D, S> {
    open spec fn batch(m: BollingerBandsModel<N, D, S::Model>, inputs: Series<N>) -> (
        BollingerBandsModel<N, D, S::Model>,
        Outputs<N>,
    ) {
        looped::<Self, N>(m, inputs)
    }

    fn next_batch(&mut self, inputs: &[(Timestamp, N)]) -> (r: Vec<N>) {
        next_each(self, inputs)
    }
}

impl<N: Number, D: BucketDetector, S: Next<N, Output = N> + Reset> Reset for BollingerBands<
    N,
    D,
    S,
> {
    open spec fn cleared(m: BollingerBandsModel<N, D, S::Model>) -> BollingerBandsModel<
        N,
        D,
        S::Model,
    > {
        Self::initial(m.duration, m.multiplier, S::cleared(m.sd), m.detector.spec_fresh())
    }

    fn reset(&mut self) {
        self.sd.reset();
        self.window.clear();
        self.detector.reset();
    }
}

impl<N: Number, D: ForgetfulDetector, S: Forgetful<N> + Next<N, Output = N>> Forgetful<
    N,
> for BollingerBands<N, D, S> {
    proof fn reset_forgets(m: BollingerBandsModel<N, D, S::Model>, input: (Timestamp, N)) {
        D::fresh_forgets(m.detector, input.0);
        S::reset_forgets(m.sd, input);
    }
}

/// The average is taken over what lies within the span: where points come in the order of
/// their times, the window ends with the newest point and holds no point that is as old as
/// the span is long, and it stays in order.
pub proof fn window_spans_duration<N: Number, D: BucketDetector, S: Next<N, Output = N> + Reset>(
    m: BollingerBandsModel<N, D, S::Model>,
    input: (Timestamp, N),
)
    requires
        in_order(m.window.push(input)),
        m.duration.spec_nanos() > 0,
    ensures
        ({
            let window = BollingerBands::<N, D, S>::step(m, input).0.window;
            &&& window.len() > 0
            &&& window.last() == input
            &&& in_order(window)
            &&& forall|i: int|
                0 <= i < window.len() ==> !expired(
                    #[trigger] window[i],
                    cutoff(input.0, m.duration),
                )
        }),
{
    window_moves_on(
        m.window,
        m.detector.spec_same_bucket(input.0),
        input,
        cutoff(input.0, m.duration),
    );
}

/// The window after a point is exactly what it should be: the points held before that are
/// younger than the span is long, but for the newest of them if the point falls into its bucket,
/// and the point.  The deviation takes in the point, the indicator takes note of its bucket, and
/// span and multiplier stay.
pub proof fn window_is_exact<N: Number, D: BucketDetector, S: Next<N, Output = N> + Reset>(
    m: BollingerBandsModel<N, D, S::Model>,
    input: (Timestamp, N),
)
    ensures
        ({
            let reach = m.duration.secs * 1_000_000_000 + m.duration.subsec_nanos;
            let replace = m.detector.spec_same_bucket(input.0);
            let after = BollingerBands::<N, D, S>::step(m, input).0;
            let kept = recent(m.window, input, reach);
            &&& moves_on(m.window, replace, input, reach, after.window)
            &&& in_order(m.window) && replace && kept.len() > 0 ==> after.window
                == kept.drop_last().push(input)
            &&& in_order(m.window) && !(replace && kept.len() > 0) ==> after.window == kept.push(
                input,
            )
            &&& after.detector == m.detector.spec_seen(input.0)
            &&& after.sd == S::step(m.sd, input).0
            &&& after.duration == m.duration
            &&& after.multiplier == m.multiplier
        }),
{
    let reach = m.duration.secs * 1_000_000_000 + m.duration.subsec_nanos;
    let replace = m.detector.spec_same_bucket(input.0);
    let after = BollingerBands::<N, D, S>::step(m, input).0;
    room_moves_on(m.window, replace, input, reach);
    assert(input.0.spec_nanos() - reach == cutoff(input.0, m.duration));
    if in_order(m.window) {
        moving_on_keeps_recent(m.window, replace, input, reach, after.window);
    }
}

/// Over a series in the order of its times, the window holds exactly the points that have come
/// in within the span and have not been replaced, oldest first.
pub proof fn window_holds_exactly<N: Number, D: BucketDetector, S: Next<N, Output = N> + Reset>(
    m: BollingerBandsModel<N, D, S::Model>,
    inputs: Seq<(Timestamp, N)>,
)
    requires
        m.window.len() == 0,
        m.duration.secs > 0 || m.duration.subsec_nanos > 0,
        in_order(inputs),
        inputs.len() > 0,
    ensures
        ({
            let reach = m.duration.secs * 1_000_000_000 + m.duration.subsec_nanos;
            let after = state_after::<BollingerBands<N, D, S>, N>(m, inputs);
            &&& holds_exactly(after.window, m.detector, inputs, reach)
            &&& after.detector == having_seen(m.detector, inputs)
            &&& after.sd == state_after::<S, N>(m.sd, inputs)
            &&& after.duration == m.duration
            &&& after.multiplier == m.multiplier
        }),
    decreases inputs.len(),
{
    let reach = m.duration.secs * 1_000_000_000 + m.duration.subsec_nanos;
    let before = inputs.drop_last();
    let at = state_after::<BollingerBands<N, D, S>, N>(m, before);
    front_in_order(inputs);
    if before.len() > 0 {
        window_holds_exactly::<N, D, S>(m, before);
    } else {
        assert(having_seen(m.detector, before) == m.detector);
        assert(state_after::<S, N>(m.sd, before) == m.sd);
    }
    assert(inputs.take(inputs.len() - 1) =~= before);
    window_is_exact::<N, D, S>(at, inputs.last());
    holds_step(
        at.window,
        state_after::<BollingerBands<N, D, S>, N>(m, inputs).window,
        m.detector,
        inputs,
        reach,
    );
}

/// The sum of the values of all points of a window, oldest first.
pub open spec fn total_of<N: Number>(window: Points<N>) -> N {
    window.map_values(|p: (Timestamp, N)| p.1).fold_left(
        N::spec_of_usize(0),
        |sum: N, x: N| sum.spec_plus(x),
    )
}

/// The output is the average of all points in the window that the point leaves, and above it
/// the deviation as many times as the multiplier says.
pub proof fn output_is_average_and_deviations<
    N: Number,
    D: BucketDetector,
    S: Next<N, Output = N> + Reset,
>(m: BollingerBandsModel<N, D, S::Model>, input: (Timestamp, N))
    ensures
        ({
            let (after, output) = BollingerBands::<N, D, S>::step(m, input);
            output == total_of(after.window).spec_over(
                N::spec_of_usize(after.window.len() as usize),
            ).spec_plus(S::step(m.sd, input).1.spec_times(m.multiplier))
        }),
{
    let window = BollingerBands::<N, D, S>::step(m, input).0.window;
    running_is_left_fold(zero::<N>(), values_of(window));
    assert(window.map_values(|p: (Timestamp, N)| p.1) =~= values_of(window));
}

/// The output less the deviations, times the number of points in the window, is the sum of the
/// values of all of them, where the arithmetic is exact and that average is not rounded.
pub proof fn output_balances_window<
    N: ExactNumber,
    D: BucketDetector,
    S: Next<N, Output = N> + Reset,
>(m: BollingerBandsModel<N, D, S::Model>, input: (Timestamp, N))
    requires
        ({
            let window = BollingerBands::<N, D, S>::step(m, input).0.window;
            let count = N::spec_of_usize(window.len() as usize);
            total_of(window).spec_over(count).spec_times(count) == total_of(window)
        }),
    ensures
        ({
            let (after, output) = BollingerBands::<N, D, S>::step(m, input);
            output.spec_minus(S::step(m.sd, input).1.spec_times(m.multiplier)).spec_times(
                N::spec_of_usize(after.window.len() as usize),
            ) == total_of(after.window)
        }),
{
    output_is_average_and_deviations::<N, D, S>(m, input);
    let window = BollingerBands::<N, D, S>::step(m, input).0.window;
    let mean = total_of(window).spec_over(N::spec_of_usize(window.len() as usize));
    minus_undoes_plus(mean, S::step(m.sd, input).1.spec_times(m.multiplier));
}

/// Bands start, and start again after a reset, without points, with the span and the multiplier
/// that they were made for.
pub proof fn starts_without_points<N: Number, D: BucketDetector, S: Next<N, Output = N> + Reset>(
    duration: Duration,
    multiplier: N,
    sd: S::Model,
    detector: D,
    m: BollingerBandsModel<N, D, S::Model>,
)
    ensures
        ({
            let start = BollingerBands::<N, D, S>::initial(duration, multiplier, sd, detector);
            let again = BollingerBands::<N, D, S>::cleared(m);
            &&& start.window.len() == 0
            &&& start.duration == duration
            &&& start.multiplier == multiplier
            &&& start.sd == sd
            &&& start.detector == detector
            &&& again.window.len() == 0
            &&& again.duration == m.duration
            &&& again.multiplier == m.multiplier
            &&& again.sd == S::cleared(m.sd)
            &&& again.detector == m.detector.spec_fresh()
        }),
{
}

/// A batch gives what its points give one after the other.
pub proof fn batch_is_one_by_one<N: Number, D: BucketDetector, S: Next<N, Output = N> + Reset>(
    m: BollingerBandsModel<N, D, S::Model>,
    inputs: Series<N>,
)
    ensures
        BollingerBands::<N, D, S>::batch(m, inputs).0 == state_after::<BollingerBands<N, D, S>, N>(
            m,
            inputs,
        ),
        BollingerBands::<N, D, S>::batch(m, inputs).1 == outputs::<BollingerBands<N, D, S>, N>(
            m,
            inputs,
        ),
{
}

/// The label gives the span in whole seconds, and the multiplier as it was written.
pub proof fn label_tells_span<N: Number, D: BucketDetector, S: Next<N, Output = N> + Reset>(
    duration: Duration,
    multiplier: Seq<char>,
) -> (digits: Seq<char>)
    ensures
        BollingerBands::<N, D, S>::label_of(duration, multiplier) == "BB("@ + digits + "s, "@
            + multiplier + ")"@,
        reads_as(digits) == duration.secs,
{
    decimal_reads_back(duration.secs as nat);
    decimal(duration.secs as nat)
}

} // verus!
