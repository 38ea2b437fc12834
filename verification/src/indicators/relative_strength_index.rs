//! The relative strength index: how much of the recent movement went up.
use crate::errors::{Result, TaError};
use crate::number::{
    exact_division, hundred, minus_itself, minus_undoes_plus, one, plus_cancels, positive,
    times_zero, zero, ExactNumber, Number, PositiveRatios, TotalOrder,
};
use crate::text::{decimal, push_decimal};
use crate::time::{
    BucketDetector, Duration, ForgetfulDetector, Timestamp, SECS_PER_DAY, TWO_WEEKS_SECS,
};
use crate::traits::{
    all_zero, keeps_not_negative, keeps_positive, keeps_zero, looped, next_each, none_negative,
    outputs, reset_undoes_series, state_after, Forgetful, Indicator, Next, NextBatch, Outputs,
    Reset, Series,
};
use vstd::prelude::*;
use vstd::string::*;

verus! {

/// The gain and the loss that `value` brings after `prev`.  At least one of them is zero.
pub open spec fn movement<N: Number>(prev: Option<N>, value: N) -> (N, N) {
    match prev {
        Some(p) => if p.spec_below(value) {
            (value.spec_minus(p), zero())
        } else {
            (zero(), p.spec_minus(value))
        },
        None => (zero(), zero()),
    }
}

/// The index for an average gain and an average loss: 50 where there is no movement, 100
/// where there are only gains.
pub open spec fn strength<N: Number>(avg_up: N, avg_down: N) -> N {
    if avg_down.spec_is_zero() {
        if avg_up.spec_is_zero() {
            N::spec_of_usize(50)
        } else {
            hundred()
        }
    } else {
        hundred::<N>().spec_minus(
            hundred::<N>().spec_over(one::<N>().spec_plus(avg_up.spec_over(avg_down))),
        )
    }
}

/// The detector after all points of a series.
pub open spec fn detector_after<N, D: BucketDetector>(d: D, inputs: Seq<(Timestamp, N)>) -> D
    decreases inputs.len(),
{
    if inputs.len() == 0 {
        d
    } else {
        detector_after(d, inputs.drop_last()).spec_seen(inputs.last().0)
    }
}

/// Whether point `i` of a series falls into the bucket of the point before it.
pub open spec fn replaces<N, D: BucketDetector>(
    d: D,
    inputs: Seq<(Timestamp, N)>,
    i: int,
) -> bool {
    detector_after(d, inputs.take(i)).spec_same_bucket(inputs[i].0)
}

/// Whether no point of a series falls into the bucket of the point before it.
pub open spec fn all_new<N, D: BucketDetector>(d: D, inputs: Seq<(Timestamp, N)>) -> bool {
    forall|i: int| 0 <= i < inputs.len() ==> !#[trigger] replaces(d, inputs, i)
}

/// What a series leads to from `start` on: the close that its newest point is measured
/// against, and its newest value.
///
/// The first point of a bucket is measured against the newest value before it, which is
/// then the close of the period before.  The points that replace it are measured against the
/// same close.
pub open spec fn closes_after<N, D: BucketDetector>(
    d: D,
    start: (Option<N>, Option<N>),
    inputs: Seq<(Timestamp, N)>,
) -> (Option<N>, Option<N>)
    decreases inputs.len(),
{
    if inputs.len() == 0 {
        start
    } else {
        let (close, last) = closes_after(d, start, inputs.drop_last());
        (
            if replaces(d, inputs, inputs.len() - 1) {
                close
            } else {
                last
            },
            Some(inputs.last().1),
        )
    }
}

/// The close that point `i` of a series is measured against.
pub open spec fn reference<N, D: BucketDetector>(
    d: D,
    start: (Option<N>, Option<N>),
    inputs: Seq<(Timestamp, N)>,
    i: int,
) -> Option<N> {
    closes_after(d, start, inputs.take(i + 1)).0
}

/// The gains of a series.
pub open spec fn gains<N: Number, D: BucketDetector>(
    d: D,
    start: (Option<N>, Option<N>),
    inputs: Seq<(Timestamp, N)>,
) -> Seq<(Timestamp, N)> {
    Seq::new(
        inputs.len(),
        |i: int| (inputs[i].0, movement(reference(d, start, inputs, i), inputs[i].1).0),
    )
}

/// The losses of a series.
pub open spec fn losses<N: Number, D: BucketDetector>(
    d: D,
    start: (Option<N>, Option<N>),
    inputs: Seq<(Timestamp, N)>,
) -> Seq<(Timestamp, N)> {
    Seq::new(
        inputs.len(),
        |i: int| (inputs[i].0, movement(reference(d, start, inputs, i), inputs[i].1).1),
    )
}

/// The state of a [`RelativeStrengthIndex`].
pub struct RelativeStrengthIndexModel<N, D, M> {
    pub duration: Duration,
    /// The state of the average over the gains.
    pub up: M,
    /// The state of the average over the losses.
    pub down: M,
    /// The close of the period before the current one.
    pub prev_close: Option<N>,
    /// The newest value of the current period, which is its close once the next one begins.
    pub last: Option<N>,
    pub detector: D,
}

impl<N, D, M> RelativeStrengthIndexModel<N, D, M> {
    /// The close of the period before, and the newest value.
    pub open spec fn closes(self) -> (Option<N>, Option<N>) {
        (self.prev_close, self.last)
    }
}

/// The relative strength index over the last `duration`, with averages as the indicator `E`
/// gives them.
#[derive(Debug, Clone)]
pub struct RelativeStrengthIndex<N, D, E> {
    duration: Duration,
    up_ema_indicator: E,
    down_ema_indicator: E,
    /// The close of the period before the current one.
    prev_close: Option<N>,
    /// The newest value of the current period.
    last: Option<N>,
    detector: D,
}

/// The gain and the loss that `value` brings after `prev`.
fn gain_and_loss<N: Number>(prev: Option<N>, value: N) -> (r: (N, N))
    ensures
        r == movement(prev, value),
{
    match prev {
        Some(p) => {
            if p.below(value) {
                (value.minus(p), N::of_usize(0))
            } else {
                (N::of_usize(0), p.minus(value))
            }
        },
        None => (N::of_usize(0), N::of_usize(0)),
    }
}

/// The index for an average gain and an average loss.
fn strength_of<N: Number>(avg_up: N, avg_down: N) -> (r: N)
    ensures
        r == strength(avg_up, avg_down),
{
    if avg_down.is_zero() {
        if avg_up.is_zero() {
            N::of_usize(50)
        } else {
            N::of_usize(100)
        }
    } else {
        let rs = avg_up.over(avg_down);
        N::of_usize(100).minus(N::of_usize(100).over(N::of_usize(1).plus(rs)))
    }
}

impl<N: Number, D: BucketDetector, E: Next<N, Output = N> + Reset> RelativeStrengthIndex<N, D, E> {
    /// The state before any point.
    pub open spec fn initial(
        duration: Duration,
        up: E::Model,
        down: E::Model,
        detector: D,
    ) -> RelativeStrengthIndexModel<N, D, E::Model> {
        RelativeStrengthIndexModel {
            duration,
            up,
            down,
            prev_close: None,
            last: None,
            detector,
        }
    }

    /// The state that the parts which are kept make up.
    pub open spec fn restored(
        duration: Duration,
        up: E::Model,
        down: E::Model,
        prev_close: Option<N>,
        last: Option<N>,
        detector: D,
    ) -> RelativeStrengthIndexModel<N, D, E::Model> {
        RelativeStrengthIndexModel { duration, up, down, prev_close, last, detector }
    }

    /// The index over the last `duration`, which must not be empty, with `up` for the
    /// average over the gains and `down` for the average over the losses.
    pub fn new(duration: Duration, up: E, down: E, detector: D) -> (r: Result<Self>)
        requires
            up.wf(),
            down.wf(),
        ensures
            r is Err <==> duration.spec_nanos() == 0,
            r is Ok <==> duration.secs > 0 || duration.subsec_nanos > 0,
            r is Err ==> r->Err_0 == TaError::InvalidParameter,
            r is Ok ==> r->Ok_0.wf() && r->Ok_0.model() == Self::initial(
                duration,
                up.model(),
                down.model(),
                detector,
            ),
    {
        if duration.is_zero() {
            Err(TaError::InvalidParameter)
        } else {
            Ok(Self::restore(duration, up, down, None, None, detector))
        }
    }

    /// The index over the last 14 days.
    pub fn with_default_duration(up: E, down: E, detector: D) -> (r: Self)
        requires
            up.wf(),
            down.wf(),
        ensures
            r.wf(),
            r.model().duration.secs == 14 * 24 * 60 * 60,
            r.model().duration.subsec_nanos == 0,
            r.model() == Self::initial(
                (Duration { secs: TWO_WEEKS_SECS, subsec_nanos: 0 }),
                up.model(),
                down.model(),
                detector,
            ),
    {
        Self::restore(Duration::from_secs(TWO_WEEKS_SECS), up, down, None, None, detector)
    }

    /// An indicator from the parts that are kept when one is stored.
    pub fn restore(
        duration: Duration,
        up: E,
        down: E,
        prev_close: Option<N>,
        last: Option<N>,
        detector: D,
    ) -> (r: Self)
        requires
            up.wf(),
            down.wf(),
        ensures
            r.wf(),
            r.model() == (RelativeStrengthIndexModel {
                duration,
                up: up.model(),
                down: down.model(),
                prev_close,
                last,
                detector,
            }),
            r.model() == Self::restored(
                duration,
                up.model(),
                down.model(),
                prev_close,
                last,
                detector,
            ),
    {
        RelativeStrengthIndex {
            duration,
            up_ema_indicator: up,
            down_ema_indicator: down,
            prev_close,
            last,
            detector,
        }
    }

    /// The parts to keep when an indicator is stored.
    pub fn into_parts(self) -> (r: (Duration, E, E, Option<N>, Option<N>, D))
        requires
            self.wf(),
        ensures
            r.0 == self.model().duration,
            r.1.wf(),
            r.1.model() == self.model().up,
            r.2.wf(),
            r.2.model() == self.model().down,
            r.3 == self.model().prev_close,
            r.4 == self.model().last,
            r.5 == self.model().detector,
            Self::restored(r.0, r.1.model(), r.2.model(), r.3, r.4, r.5) == self.model(),
    {
        (
            self.duration,
            self.up_ema_indicator,
            self.down_ema_indicator,
            self.prev_close,
            self.last,
            self.detector,
        )
    }

    /// What an index over `duration` is, in writing.
    pub open spec fn label_of(duration: Duration) -> Seq<char> {
        "RSI("@ + decimal((duration.secs / SECS_PER_DAY) as nat) + " days)"@
    }

    /// What the indicator is, in writing.
    pub fn label(&self) -> (r: String)
        requires
            self.wf(),
        ensures
            r@ == "RSI("@ + decimal((self.model().duration.secs / SECS_PER_DAY) as nat)
                + " days)"@,
            r@ == Self::label_of(self.model().duration),
    {
        let days = self.duration.secs / SECS_PER_DAY;
        let mut text = String::new();
        text.append("RSI(");
        push_decimal(&mut text, days);
        text.append(" days)");
        proof {
            assert(text@ =~= "RSI("@ + decimal(days as nat) + " days)"@);
        }
        text
    }
}

impl<N: Number, D: BucketDetector, E: Next<N, Output = N> + Reset> Indicator for
    RelativeStrengthIndex<N, D, E> {
    type Model = RelativeStrengthIndexModel<N, D, E::Model>;

    closed spec fn wf(&self) -> bool {
        &&& self.up_ema_indicator.wf()
        &&& self.down_ema_indicator.wf()
    }

    closed spec fn model(&self) -> RelativeStrengthIndexModel<N, D, E::Model> {
        RelativeStrengthIndexModel {
            duration: self.duration,
            up: self.up_ema_indicator.model(),
            down: self.down_ema_indicator.model(),
            prev_close: self.prev_close,
            last: self.last,
            detector: self.detector,
        }
    }
}

impl<N: Number, D: BucketDetector, E: Next<N, Output = N> + Reset> Next<N> for
    RelativeStrengthIndex<N, D, E> {
    type Output = N;

    open spec fn step(
        m: RelativeStrengthIndexModel<N, D, E::Model>,
        input: (Timestamp, N),
    ) -> (RelativeStrengthIndexModel<N, D, E::Model>, N) {
        let close = if m.detector.spec_same_bucket(input.0) {
            m.prev_close
        } else {
            m.last
        };
        let (gain, loss) = movement(close, input.1);
        let (up, avg_up) = E::step(m.up, (input.0, gain));
        let (down, avg_down) = E::step(m.down, (input.0, loss));
        (
            RelativeStrengthIndexModel {
                duration: m.duration,
                up,
                down,
                prev_close: close,
                last: Some(input.1),
                detector: m.detector.spec_seen(input.0),
            },
            strength(avg_up, avg_down),
        )
    }

    fn next(&mut self, input: (Timestamp, N)) -> (r: N) {
        let (timestamp, value) = input;
        let should_replace = self.detector.should_replace(timestamp);
        // A point in a new bucket closes the period before it.  A replacement is measured
        // against the same close as the point that it replaces.
        if !should_replace {
            self.prev_close = self.last;
        }
        let (gain, loss) = gain_and_loss(self.prev_close, value);
        self.last = Some(value);
        let avg_up = self.up_ema_indicator.next((timestamp, gain));
        let avg_down = self.down_ema_indicator.next((timestamp, loss));
        strength_of(avg_up, avg_down)
    }
}

impl<N: Number, D: BucketDetector, E: Next<N, Output = N> + Reset> Reset for
    RelativeStrengthIndex<N, D, E> {
    open spec fn cleared(
        m: RelativeStrengthIndexModel<N, D, E::Model>,
    ) -> RelativeStrengthIndexModel<N, D, E::Model> {
        Self::initial(
            m.duration,
            E::cleared(m.up),
            E::cleared(m.down),
            m.detector.spec_fresh(),
        )
    }

    fn reset(&mut self) {
        self.prev_close = None;
        self.last = None;
        self.up_ema_indicator.reset();
        self.down_ema_indicator.reset();
        self.detector.reset();
    }
}

impl<N: Number, D: ForgetfulDetector, E: Forgetful<N> + Next<N, Output = N>> Forgetful<N> for
    RelativeStrengthIndex<N, D, E> {
    proof fn reset_forgets(
        m: RelativeStrengthIndexModel<N, D, E::Model>,
        input: (Timestamp, N),
    ) {
        let close = if m.detector.spec_same_bucket(input.0) {
            m.prev_close
        } else {
            m.last
        };
        let (gain, loss) = movement(close, input.1);
        D::fresh_forgets(m.detector, input.0);
        E::reset_forgets(m.up, (input.0, gain));
        E::reset_forgets(m.down, (input.0, loss));
    }
}

/// The gains and the losses of the front of a series are the front of its gains and losses.
proof fn movements_of_front<N: Number, D: BucketDetector>(
    d: D,
    start: (Option<N>, Option<N>),
    inputs: Seq<(Timestamp, N)>,
    n: int,
)
    requires
        0 <= n <= inputs.len(),
    ensures
        gains(d, start, inputs).take(n) == gains(d, start, inputs.take(n)),
        losses(d, start, inputs).take(n) == losses(d, start, inputs.take(n)),
{
    let front = inputs.take(n);
    assert forall|i: int| 0 <= i < n implies #[trigger] reference(d, start, inputs, i)
        == reference(d, start, front, i) by {
        assert(front.take(i + 1) =~= inputs.take(i + 1));
    }
    assert(gains(d, start, inputs).take(n) =~= gains(d, start, front));
    assert(losses(d, start, inputs).take(n) =~= losses(d, start, front));
}

/// The index is made of two averages: over any series, one of them has taken in its gains
/// and the other its losses.
pub proof fn series_by_averages<N: Number, D: BucketDetector, E: Next<N, Output = N> + Reset>(
    m: RelativeStrengthIndexModel<N, D, E::Model>,
    inputs: Seq<(Timestamp, N)>,
)
    ensures
        state_after::<RelativeStrengthIndex<N, D, E>, N>(m, inputs)
            == (RelativeStrengthIndexModel::<N, D, E::Model> {
            duration: m.duration,
            up: state_after::<E, N>(m.up, gains(m.detector, m.closes(), inputs)),
            down: state_after::<E, N>(m.down, losses(m.detector, m.closes(), inputs)),
            prev_close: closes_after(m.detector, m.closes(), inputs).0,
            last: closes_after(m.detector, m.closes(), inputs).1,
            detector: detector_after(m.detector, inputs),
        }),
    decreases inputs.len(),
{
    let up = gains(m.detector, m.closes(), inputs);
    let down = losses(m.detector, m.closes(), inputs);
    if inputs.len() == 0 {
        assert(up =~= Seq::empty());
        assert(down =~= Seq::empty());
    } else {
        let before = inputs.drop_last();
        let n = before.len() as int;
        assert(inputs.take(n) =~= before);
        assert(inputs.take(n + 1) =~= inputs);
        series_by_averages::<N, D, E>(m, before);
        movements_of_front(m.detector, m.closes(), inputs, n);
        assert(up.drop_last() =~= up.take(n));
        assert(down.drop_last() =~= down.take(n));
    }
}

/// Every output of a series is worked out from the two averages of its gains and its losses.
pub proof fn outputs_by_averages<N: Number, D: BucketDetector, E: Next<N, Output = N> + Reset>(
    m: RelativeStrengthIndexModel<N, D, E::Model>,
    inputs: Seq<(Timestamp, N)>,
)
    ensures
        forall|i: int|
            0 <= i < inputs.len() ==> #[trigger] outputs::<RelativeStrengthIndex<N, D, E>, N>(
                m,
                inputs,
            )[i] == strength(
                outputs::<E, N>(m.up, gains(m.detector, m.closes(), inputs))[i],
                outputs::<E, N>(m.down, losses(m.detector, m.closes(), inputs))[i],
            ),
{
    let up = gains(m.detector, m.closes(), inputs);
    let down = losses(m.detector, m.closes(), inputs);
    assert forall|i: int| 0 <= i < inputs.len() implies #[trigger] outputs::<
        RelativeStrengthIndex<N, D, E>,
        N,
    >(m, inputs)[i] == strength(
        outputs::<E, N>(m.up, up)[i],
        outputs::<E, N>(m.down, down)[i],
    ) by {
        let before = inputs.take(i);
        series_by_averages::<N, D, E>(m, before);
        movements_of_front(m.detector, m.closes(), inputs, i);
        assert(inputs.take(i + 1).drop_last() =~= before);
        assert(inputs.take(i + 1).take(i) =~= before);
    }
}

/// Without replacements, every point is measured against the point before it.
pub proof fn new_points_follow_each_other<N, D: BucketDetector>(
    d: D,
    start: (Option<N>, Option<N>),
    inputs: Seq<(Timestamp, N)>,
)
    requires
        all_new(d, inputs),
    ensures
        forall|i: int|
            0 <= i < inputs.len() ==> #[trigger] reference(d, start, inputs, i) == (if i == 0 {
                start.1
            } else {
                Some(inputs[i - 1].1)
            }),
{
    assert forall|i: int| 0 <= i < inputs.len() implies #[trigger] reference(d, start, inputs, i)
        == (if i == 0 {
        start.1
    } else {
        Some(inputs[i - 1].1)
    }) by {
        reveal_with_fuel(closes_after, 2);
        let front = inputs.take(i + 1);
        assert(front.take(i) =~= inputs.take(i));
        assert(front.drop_last() =~= inputs.take(i));
        assert(!replaces(d, inputs, i));
        assert(!replaces(d, front, i));
    }
}

/// All points of one bucket are measured against the close of the period before: as long as
/// points replace the one before them, the close stays.  The next period is measured against
/// the newest of them, which is the close of theirs.
pub proof fn replacements_keep_close<
    N: Number,
    D: BucketDetector,
    E: Next<N, Output = N> + Reset,
>(
    m: RelativeStrengthIndexModel<N, D, E::Model>,
    inputs: Seq<(Timestamp, N)>,
    next: (Timestamp, N),
)
    requires
        inputs.len() > 0,
        forall|i: int| 0 <= i < inputs.len() ==> #[trigger] replaces(m.detector, inputs, i),
        !detector_after(m.detector, inputs).spec_same_bucket(next.0),
    ensures
        forall|i: int|
            0 <= i < inputs.len() ==> #[trigger] reference(m.detector, m.closes(), inputs, i)
                == m.prev_close,
        state_after::<RelativeStrengthIndex<N, D, E>, N>(m, inputs).prev_close == m.prev_close,
        RelativeStrengthIndex::<N, D, E>::step(
            state_after::<RelativeStrengthIndex<N, D, E>, N>(m, inputs),
            next,
        ).0.prev_close == Some(inputs.last().1),
{
    series_by_averages::<N, D, E>(m, inputs);
    assert forall|i: int| 0 <= i < inputs.len() implies #[trigger] reference(
        m.detector,
        m.closes(),
        inputs,
        i,
    ) == m.prev_close by {
        replaced_close(m.detector, m.closes(), inputs, i + 1);
    }
    assert(inputs.take(inputs.len() as int) =~= inputs);
    replaced_close(m.detector, m.closes(), inputs, inputs.len() as int);
}

proof fn replaced_close<N, D: BucketDetector>(
    d: D,
    start: (Option<N>, Option<N>),
    inputs: Seq<(Timestamp, N)>,
    n: int,
)
    requires
        0 <= n <= inputs.len(),
        forall|i: int| 0 <= i < inputs.len() ==> #[trigger] replaces(d, inputs, i),
    ensures
        closes_after(d, start, inputs.take(n)).0 == start.0,
    decreases n,
{
    if n > 0 {
        let front = inputs.take(n);
        assert(front.drop_last() =~= inputs.take(n - 1));
        assert(front.take(n - 1) =~= inputs.take(n - 1));
        assert(replaces(d, inputs, n - 1));
        replaced_close(d, start, inputs, n - 1);
    }
}

/// The index of two averages that are not negative is a percentage.
pub proof fn strength_is_percentage<N: PositiveRatios>(avg_up: N, avg_down: N)
    requires
        zero::<N>().spec_at_most(avg_up),
        zero::<N>().spec_at_most(avg_down),
    ensures
        zero::<N>().spec_at_most(strength(avg_up, avg_down)),
        strength(avg_up, avg_down).spec_at_most(hundred()),
{
    N::order_laws();
    N::remainder_in_percent(zero());
    if !avg_down.spec_is_zero() {
        assert(positive(avg_down)) by {
            if avg_down.spec_at_most(zero()) {
                assert(avg_down == zero::<N>());
            }
        }
        N::quotient_not_negative(avg_up, avg_down);
        N::remainder_in_percent(avg_up.spec_over(avg_down));
    }
}

/// Before any point, the closes are values of the series or missing.
proof fn closes_within<N, D: BucketDetector>(d: D, inputs: Seq<(Timestamp, N)>)
    ensures
        closes_after(d, (None, None), inputs).0 is Some ==> exists|j: int|
            0 <= j < inputs.len() && (#[trigger] inputs[j]).1 == closes_after(
                d,
                (None, None),
                inputs,
            ).0->0,
        closes_after(d, (None, None), inputs).1 is Some ==> exists|j: int|
            0 <= j < inputs.len() && (#[trigger] inputs[j]).1 == closes_after(
                d,
                (None, None),
                inputs,
            ).1->0,
    decreases inputs.len(),
{
    if inputs.len() > 0 {
        let before = inputs.drop_last();
        let n = before.len() as int;
        closes_within(d, before);
        let (close, last) = closes_after(d, (None::<N>, None::<N>), before);
        assert(inputs[n].1 == closes_after(d, (None, None), inputs).1->0);
        if close is Some {
            let j = choose|j: int| 0 <= j < before.len() && (#[trigger] before[j]).1 == close->0;
            assert(inputs[j].1 == close->0);
        }
        if last is Some {
            let j = choose|j: int| 0 <= j < before.len() && (#[trigger] before[j]).1 == last->0;
            assert(inputs[j].1 == last->0);
        }
    }
}

/// The close that a point of a series is measured against comes from the series.
proof fn reference_within<N, D: BucketDetector>(d: D, inputs: Seq<(Timestamp, N)>, i: int)
    requires
        0 <= i < inputs.len(),
    ensures
        reference(d, (None, None), inputs, i) is Some ==> exists|j: int|
            0 <= j < inputs.len() && (#[trigger] inputs[j]).1 == reference(
                d,
                (None, None),
                inputs,
                i,
            )->0,
{
    let front = inputs.take(i + 1);
    closes_within(d, front);
    let close = reference(d, (None::<N>, None::<N>), inputs, i);
    if close is Some {
        let j = choose|j: int| 0 <= j < front.len() && (#[trigger] front[j]).1 == close->0;
        assert(inputs[j].1 == close->0);
    }
}

/// Whether the differences between the values of a series have the sign that the order asks
/// for: none of them leaves the range of the format.
pub open spec fn differences_in_order<N: Number>(inputs: Seq<(Timestamp, N)>) -> bool {
    forall|i: int, j: int|
        0 <= i < inputs.len() && 0 <= j < inputs.len() && (#[trigger] inputs[i]).1.spec_at_most(
            (#[trigger] inputs[j]).1,
        ) ==> zero::<N>().spec_at_most(inputs[j].1.spec_minus(inputs[i].1))
}

/// Before any point, the gains and the losses of a series are not negative.
proof fn movements_not_negative<N: TotalOrder, D: BucketDetector>(
    d: D,
    inputs: Seq<(Timestamp, N)>,
)
    requires
        differences_in_order(inputs),
    ensures
        none_negative(gains(d, (None, None), inputs)),
        none_negative(losses(d, (None, None), inputs)),
{
    N::order_laws();
    let up = gains(d, (None, None), inputs);
    let down = losses(d, (None, None), inputs);
    assert forall|i: int|
        #![trigger up[i]]
        #![trigger down[i]]
        0 <= i < inputs.len() implies zero::<N>().spec_at_most(up[i].1)
        && zero::<N>().spec_at_most(down[i].1) by {
        reference_within(d, inputs, i);
        let close = reference(d, (None::<N>, None::<N>), inputs, i);
        if close is Some {
            let j = choose|j: int| 0 <= j < inputs.len() && (#[trigger] inputs[j]).1 == close->0;
            assert(inputs[j].1.spec_at_most(inputs[i].1) || inputs[i].1.spec_at_most(inputs[j].1));
        }
    }
}

/// Every output is a percentage: from the first point on, whatever mix of new points and
/// replacements comes in, where the averages of numbers that are not negative are not
/// negative.
pub proof fn index_is_percentage<
    N: PositiveRatios,
    D: BucketDetector,
    E: Next<N, Output = N> + Reset,
>(m: RelativeStrengthIndexModel<N, D, E::Model>, inputs: Seq<(Timestamp, N)>)
    requires
        m.closes() == (None::<N>, None::<N>),
        keeps_not_negative::<E, N>(m.up),
        keeps_not_negative::<E, N>(m.down),
        differences_in_order(inputs),
    ensures
        forall|i: int|
            0 <= i < inputs.len() ==> zero::<N>().spec_at_most(
                #[trigger] outputs::<RelativeStrengthIndex<N, D, E>, N>(m, inputs)[i],
            ) && outputs::<RelativeStrengthIndex<N, D, E>, N>(m, inputs)[i].spec_at_most(hundred()),
{
    let up = gains(m.detector, m.closes(), inputs);
    let down = losses(m.detector, m.closes(), inputs);
    outputs_by_averages::<N, D, E>(m, inputs);
    movements_not_negative(m.detector, inputs);
    assert forall|i: int| 0 <= i < inputs.len() implies zero::<N>().spec_at_most(
        #[trigger] outputs::<RelativeStrengthIndex<N, D, E>, N>(m, inputs)[i],
    ) && outputs::<RelativeStrengthIndex<N, D, E>, N>(m, inputs)[i].spec_at_most(hundred()) by {
        strength_is_percentage(outputs::<E, N>(m.up, up)[i], outputs::<E, N>(m.down, down)[i]);
    }
}

/// A series that never changes is neutral throughout, whatever mix of new points and
/// replacements it is, where the averages of zeros are zero.
pub proof fn constant_series_is_neutral<
    N: ExactNumber + TotalOrder,
    D: BucketDetector,
    E: Next<N, Output = N> + Reset,
>(m: RelativeStrengthIndexModel<N, D, E::Model>, inputs: Seq<(Timestamp, N)>)
    requires
        m.closes() == (None::<N>, None::<N>),
        keeps_zero::<E, N>(m.up),
        keeps_zero::<E, N>(m.down),
        forall|i: int, j: int|
            0 <= i < inputs.len() && 0 <= j < inputs.len() ==> (#[trigger] inputs[i]).1 == (
            #[trigger] inputs[j]).1,
    ensures
        forall|i: int|
            0 <= i < inputs.len() ==> #[trigger] outputs::<RelativeStrengthIndex<N, D, E>, N>(
                m,
                inputs,
            )[i] == N::spec_of_usize(50),
{
    N::order_laws();
    let up = gains(m.detector, m.closes(), inputs);
    let down = losses(m.detector, m.closes(), inputs);
    outputs_by_averages::<N, D, E>(m, inputs);
    assert forall|i: int|
        #![trigger up[i]]
        #![trigger down[i]]
        0 <= i < inputs.len() implies up[i].1 == zero::<N>() && down[i].1 == zero::<N>() by {
        reference_within(m.detector, inputs, i);
        let close = reference(m.detector, (None::<N>, None::<N>), inputs, i);
        if close is Some {
            let j = choose|j: int| 0 <= j < inputs.len() && (#[trigger] inputs[j]).1 == close->0;
            assert(inputs[j].1 == inputs[i].1);
            minus_itself(inputs[i].1);
        }
    }
    assert(all_zero(up));
    assert(all_zero(down));
    assert forall|i: int| 0 <= i < inputs.len() implies #[trigger] outputs::<
        RelativeStrengthIndex<N, D, E>,
        N,
    >(m, inputs)[i] == N::spec_of_usize(50) by {
        assert(outputs::<E, N>(m.up, up)[i] == zero::<N>());
        assert(outputs::<E, N>(m.down, down)[i] == zero::<N>());
    }
}

/// The first output of an average that keeps zeros at zero is zero for zero.
proof fn first_average_is_zero<N: Number, E: Next<N, Output = N>>(
    m: E::Model,
    s: Seq<(Timestamp, N)>,
)
    requires
        keeps_zero::<E, N>(m),
        s.len() > 0,
        s[0].1 == zero::<N>(),
    ensures
        outputs::<E, N>(m, s)[0] == zero::<N>(),
{
    let front = s.take(1);
    assert(all_zero(front));
    assert(front.take(0) =~= s.take(0));
    assert(outputs::<E, N>(m, front)[0] == zero::<N>());
}

/// Whether every value lies above the one before it, and so does their difference above zero.
pub open spec fn rising<N: Number>(inputs: Seq<(Timestamp, N)>) -> bool {
    forall|i: int|
        0 < i < inputs.len() ==> inputs[i - 1].1.spec_below((#[trigger] inputs[i]).1) && positive(
            inputs[i].1.spec_minus(inputs[i - 1].1),
        )
}

/// Whether every value lies below the one before it, and their difference above zero.
pub open spec fn falling<N: Number>(inputs: Seq<(Timestamp, N)>) -> bool {
    forall|i: int|
        0 < i < inputs.len() ==> (#[trigger] inputs[i]).1.spec_below(inputs[i - 1].1) && positive(
            inputs[i - 1].1.spec_minus(inputs[i].1),
        )
}

/// A rising series of points in buckets of their own is neutral at first and a hundred from
/// then on, where the averages of zeros are zero and those that take in something positive
/// are positive.
pub proof fn rising_series_is_full<
    N: TotalOrder,
    D: BucketDetector,
    E: Next<N, Output = N> + Reset,
>(m: RelativeStrengthIndexModel<N, D, E::Model>, inputs: Seq<(Timestamp, N)>)
    requires
        m.closes() == (None::<N>, None::<N>),
        keeps_zero::<E, N>(m.up),
        keeps_positive::<E, N>(m.up),
        keeps_zero::<E, N>(m.down),
        all_new(m.detector, inputs),
        rising(inputs),
    ensures
        forall|i: int|
            0 <= i < inputs.len() ==> #[trigger] outputs::<RelativeStrengthIndex<N, D, E>, N>(
                m,
                inputs,
            )[i] == (if i == 0 {
                N::spec_of_usize(50)
            } else {
                hundred()
            }),
{
    N::order_laws();
    let up = gains(m.detector, m.closes(), inputs);
    let down = losses(m.detector, m.closes(), inputs);
    outputs_by_averages::<N, D, E>(m, inputs);
    new_points_follow_each_other(m.detector, m.closes(), inputs);
    assert forall|i: int| 0 <= i < inputs.len() implies (#[trigger] down[i]).1 == zero::<N>() && (
    #[trigger] up[i]).1 == (if i == 0 {
        zero::<N>()
    } else {
        inputs[i].1.spec_minus(inputs[i - 1].1)
    }) by {
        assert(reference(m.detector, m.closes(), inputs, i) == (if i == 0 {
            None
        } else {
            Some(inputs[i - 1].1)
        }));
    }
    assert(all_zero(down));
    assert forall|i: int| 0 <= i < up.len() implies zero::<N>().spec_at_most(
        (#[trigger] up[i]).1,
    ) by {
        assert(i == 0 || positive(inputs[i].1.spec_minus(inputs[i - 1].1)));
    }
    assert(none_negative(up));
    assert forall|i: int| 0 <= i < inputs.len() implies #[trigger] outputs::<
        RelativeStrengthIndex<N, D, E>,
        N,
    >(m, inputs)[i] == (if i == 0 {
        N::spec_of_usize(50)
    } else {
        hundred()
    }) by {
        assert(outputs::<E, N>(m.down, down)[i] == zero::<N>());
        if i == 0 {
            first_average_is_zero::<N, E>(m.up, up);
        } else {
            assert(positive(up[i].1)) by {
                assert(positive(inputs[i].1.spec_minus(inputs[i - 1].1)));
            }
            assert(positive(outputs::<E, N>(m.up, up)[i]));
        }
    }
}

/// A falling series of points in buckets of their own is neutral at first and zero from then
/// on, where the averages of zeros are zero and those that take in something positive are
/// positive.
pub proof fn falling_series_is_empty<
    N: ExactNumber + PositiveRatios,
    D: BucketDetector,
    E: Next<N, Output = N> + Reset,
>(m: RelativeStrengthIndexModel<N, D, E::Model>, inputs: Seq<(Timestamp, N)>)
    requires
        m.closes() == (None::<N>, None::<N>),
        keeps_zero::<E, N>(m.up),
        keeps_zero::<E, N>(m.down),
        keeps_positive::<E, N>(m.down),
        all_new(m.detector, inputs),
        falling(inputs),
    ensures
        forall|i: int|
            0 <= i < inputs.len() ==> #[trigger] outputs::<RelativeStrengthIndex<N, D, E>, N>(
                m,
                inputs,
            )[i] == (if i == 0 {
                N::spec_of_usize(50)
            } else {
                zero()
            }),
{
    N::order_laws();
    let up = gains(m.detector, m.closes(), inputs);
    let down = losses(m.detector, m.closes(), inputs);
    outputs_by_averages::<N, D, E>(m, inputs);
    new_points_follow_each_other(m.detector, m.closes(), inputs);
    assert forall|i: int| 0 <= i < inputs.len() implies (#[trigger] up[i]).1 == zero::<N>() && (
    #[trigger] down[i]).1 == (if i == 0 {
        zero::<N>()
    } else {
        inputs[i - 1].1.spec_minus(inputs[i].1)
    }) by {
        assert(reference(m.detector, m.closes(), inputs, i) == (if i == 0 {
            None
        } else {
            Some(inputs[i - 1].1)
        }));
        assert(i == 0 || inputs[i].1.spec_below(inputs[i - 1].1));
        assert(i == 0 || inputs[i].1.spec_at_most(inputs[i - 1].1)
            || inputs[i - 1].1.spec_at_most(inputs[i].1));
    }
    assert(all_zero(up));
    assert forall|i: int| 0 <= i < down.len() implies zero::<N>().spec_at_most(
        (#[trigger] down[i]).1,
    ) by {
        assert(i == 0 || positive(inputs[i - 1].1.spec_minus(inputs[i].1)));
    }
    assert(none_negative(down));
    assert forall|i: int| 0 <= i < inputs.len() implies #[trigger] outputs::<
        RelativeStrengthIndex<N, D, E>,
        N,
    >(m, inputs)[i] == (if i == 0 {
        N::spec_of_usize(50)
    } else {
        zero()
    }) by {
        assert(outputs::<E, N>(m.up, up)[i] == zero::<N>());
        if i == 0 {
            first_average_is_zero::<N, E>(m.down, down);
        } else {
            assert(positive(down[i].1)) by {
                assert(positive(inputs[i - 1].1.spec_minus(inputs[i].1)));
            }
            let avg_down = outputs::<E, N>(m.down, down)[i];
            assert(positive(avg_down));
            // 100 - 100 / (1 + 0 / avg_down)
            N::decline_to_itself(avg_down);
            minus_itself(avg_down);
            N::plus_zero(one());
            N::over_one(hundred());
            minus_itself(hundred::<N>());
        }
    }
}

/// A number with the opposite sign.
pub open spec fn opposite<N: Number>(x: N) -> N {
    zero::<N>().spec_minus(x)
}

/// A series with every value turned into its opposite.
pub open spec fn mirrored<N: Number>(inputs: Seq<(Timestamp, N)>) -> Seq<(Timestamp, N)> {
    Seq::new(inputs.len(), |i: int| (inputs[i].0, opposite(inputs[i].1)))
}

/// Whether turning the values of a series into their opposites turns their order round: none
/// of the opposites leaves the range of the format.
pub open spec fn mirrors_order<N: Number>(inputs: Seq<(Timestamp, N)>) -> bool {
    forall|i: int, j: int|
        0 <= i < inputs.len() && 0 <= j < inputs.len() ==> (opposite(
            (#[trigger] inputs[j]).1,
        ).spec_below(opposite((#[trigger] inputs[i]).1)) <==> inputs[i].1.spec_below(inputs[j].1))
}

/// The difference of two opposites is the difference the other way round.
proof fn opposites_differ<N: ExactNumber>(a: N, b: N)
    ensures
        opposite(a).spec_minus(opposite(b)) == b.spec_minus(a),
{
    let z = zero::<N>();
    let d = b.spec_minus(a);
    N::minus_then_plus(b, a);
    N::minus_then_plus(z, a);
    N::minus_then_plus(z, b);
    // d - b is -a, as both are zero once a is added.
    let e = d.spec_plus(opposite(b));
    N::plus_associates(d, opposite(b), a);
    N::plus_commutes(opposite(b), a);
    N::plus_associates(d, a, opposite(b));
    N::plus_commutes(b, opposite(b));
    assert(e.spec_plus(a) == z);
    assert(opposite(a).spec_plus(a) == z);
    plus_cancels(e, opposite(a), a);
    minus_undoes_plus(d, opposite(b));
}

/// The closes of a mirrored series are the opposites of the closes of the series.
proof fn closes_mirror<N: Number, D: BucketDetector>(d: D, inputs: Seq<(Timestamp, N)>)
    ensures
        ({
            let (close, last) = closes_after(d, (None::<N>, None::<N>), inputs);
            let (close_too, last_too) = closes_after(d, (None::<N>, None::<N>), mirrored(inputs));
            &&& close is None <==> close_too is None
            &&& close is Some ==> close_too == Some(opposite(close->0))
            &&& last is None <==> last_too is None
            &&& last is Some ==> last_too == Some(opposite(last->0))
        }),
        detector_after(d, mirrored(inputs)) == detector_after(d, inputs),
    decreases inputs.len(),
{
    if inputs.len() == 0 {
        assert(mirrored(inputs) =~= inputs);
    } else {
        let before = inputs.drop_last();
        let n = before.len() as int;
        closes_mirror(d, before);
        assert(mirrored(inputs).drop_last() =~= mirrored(before));
        assert(inputs.take(n) =~= before);
        assert(mirrored(inputs).take(n) =~= mirrored(before));
    }
}

/// A mirrored series gains where the series loses, and loses where it gains.
proof fn movements_mirror<N: ExactNumber + TotalOrder, D: BucketDetector>(
    d: D,
    inputs: Seq<(Timestamp, N)>,
)
    requires
        mirrors_order(inputs),
    ensures
        gains(d, (None, None), mirrored(inputs)) == losses(d, (None, None), inputs),
        losses(d, (None, None), mirrored(inputs)) == gains(d, (None, None), inputs),
{
    N::order_laws();
    let none = (None::<N>, None::<N>);
    let other = mirrored(inputs);
    assert forall|i: int| 0 <= i < inputs.len() implies gains(d, none, other)[i] == losses(
        d,
        none,
        inputs,
    )[i] && losses(d, none, other)[i] == gains(d, none, inputs)[i] by {
        closes_mirror(d, inputs.take(i + 1));
        assert(mirrored(inputs.take(i + 1)) =~= other.take(i + 1));
        reference_within(d, inputs, i);
        let close = reference(d, none, inputs, i);
        if close is Some {
            let j = choose|j: int| 0 <= j < inputs.len() && (#[trigger] inputs[j]).1 == close->0;
            let (p, v) = (inputs[j].1, inputs[i].1);
            opposites_differ(v, p);
            opposites_differ(p, v);
            assert(opposite(v).spec_below(opposite(p)) <==> p.spec_below(v));
            assert(opposite(p).spec_below(opposite(v)) <==> v.spec_below(p));
            assert(p.spec_at_most(v) || v.spec_at_most(p));
            if p == v {
                minus_itself(v);
            }
        }
    }
    assert(gains(d, none, other) =~= losses(d, none, inputs));
    assert(losses(d, none, other) =~= gains(d, none, inputs));
}

/// The same state with the two averages exchanged.  Before any point, where both averages
/// are alike, it is the state itself.
pub open spec fn exchanged<N, D, M>(
    m: RelativeStrengthIndexModel<N, D, M>,
) -> RelativeStrengthIndexModel<N, D, M> {
    RelativeStrengthIndexModel { up: m.down, down: m.up, ..m }
}

/// Mirroring a series exchanges the averages of its gains and its losses in every output,
/// whatever mix of new points and replacements it is.
pub proof fn mirrored_series_exchanges_averages<
    N: ExactNumber + TotalOrder,
    D: BucketDetector,
    E: Next<N, Output = N> + Reset,
>(m: RelativeStrengthIndexModel<N, D, E::Model>, inputs: Seq<(Timestamp, N)>)
    requires
        m.closes() == (None::<N>, None::<N>),
        mirrors_order(inputs),
    ensures
        forall|i: int|
            0 <= i < inputs.len() ==> #[trigger] outputs::<RelativeStrengthIndex<N, D, E>, N>(
                exchanged(m),
                mirrored(inputs),
            )[i] == strength(
                outputs::<E, N>(m.down, losses(m.detector, m.closes(), inputs))[i],
                outputs::<E, N>(m.up, gains(m.detector, m.closes(), inputs))[i],
            ),
{
    movements_mirror(m.detector, inputs);
    outputs_by_averages::<N, D, E>(exchanged(m), mirrored(inputs));
}

/// What is taken off a number and taken off the number again is left.
proof fn minus_twice<N: ExactNumber>(a: N, b: N)
    ensures
        a.spec_minus(a.spec_minus(b)) == b,
{
    let d = a.spec_minus(b);
    N::minus_then_plus(a, b);
    N::plus_commutes(d, b);
    minus_undoes_plus(b, d);
}

/// Without rounding, `c / (1 + a/b)` times `b + a` is `c` times `b`.
proof fn share_of_sum<N: ExactNumber + TotalOrder>(c: N, a: N, b: N)
    requires
        exact_division::<N>(),
        !b.spec_is_zero(),
        !a.spec_plus(b).spec_is_zero(),
    ensures
        c.spec_over(one::<N>().spec_plus(a.spec_over(b))).spec_times(a.spec_plus(b))
            == c.spec_times(b),
{
    N::order_laws();
    let r = a.spec_over(b);
    let base = one::<N>().spec_plus(r);
    // (1 + a/b) * b == a + b
    N::times_commutes(base, b);
    N::times_distributes(b, one(), r);
    N::times_one(b);
    N::times_commutes(b, r);
    assert(r.spec_times(b) == a);
    N::plus_commutes(b, a);
    assert(base.spec_times(b) == a.spec_plus(b));
    assert(!base.spec_is_zero()) by {
        if base == zero::<N>() {
            N::times_commutes(base, b);
            times_zero(b);
        }
    }
    let q = c.spec_over(base);
    assert(q.spec_times(base) == c);
    N::times_associates(q, base, b);
}

/// Exchanging the averages turns the index into what it leaves of a hundred, where no
/// quotient is rounded and the averages do not cancel each other.
pub proof fn strength_mirrors<N: ExactNumber + TotalOrder>(avg_up: N, avg_down: N)
    requires
        exact_division::<N>(),
        (avg_up.spec_is_zero() && avg_down.spec_is_zero()) || !avg_up.spec_plus(
            avg_down,
        ).spec_is_zero(),
    ensures
        strength(avg_down, avg_up) == hundred::<N>().spec_minus(strength(avg_up, avg_down)),
{
    N::order_laws();
    let (u, d, h, z) = (avg_up, avg_down, hundred::<N>(), zero::<N>());
    if u.spec_is_zero() && d.spec_is_zero() {
        N::counts_add(50, 50);
        minus_undoes_plus(N::spec_of_usize(50), N::spec_of_usize(50));
    } else if u.spec_is_zero() || d.spec_is_zero() {
        let x = if u.spec_is_zero() {
            d
        } else {
            u
        };
        // 100 - 100 / (1 + 0/x) == 100 - 100
        times_zero(x);
        N::times_commutes(z, x);
        assert(z.spec_times(x).spec_over(x) == z);
        assert(z.spec_over(x) == z);
        N::plus_zero(one());
        N::over_one(h);
        assert(strength(z, x) == h.spec_minus(h));
        assert(strength(x, z) == h);
        minus_twice(h, h);
    } else {
        let t = u.spec_plus(d);
        N::plus_commutes(u, d);
        share_of_sum(h, u, d);
        share_of_sum(h, d, u);
        let a = h.spec_over(one::<N>().spec_plus(u.spec_over(d)));
        let b = h.spec_over(one::<N>().spec_plus(d.spec_over(u)));
        // (a + b) * t == h * d + h * u == h * t, so a + b is a hundred.
        N::times_commutes(a.spec_plus(b), t);
        N::times_distributes(t, a, b);
        N::times_commutes(t, a);
        N::times_commutes(t, b);
        N::times_distributes(h, d, u);
        assert(a.spec_plus(b).spec_times(t) == h.spec_times(t));
        assert(a.spec_plus(b).spec_times(t).spec_over(t) == a.spec_plus(b));
        assert(h.spec_times(t).spec_over(t) == h);
        minus_undoes_plus(a, b);
        minus_twice(h, a);
    }
}

/// With whole numbers the same holds where there are only gains, only losses, as much of the
/// one as of the other, or neither.
pub proof fn strength_mirrors_in_whole_numbers(avg_up: i64, avg_down: i64)
    requires
        0 <= avg_up,
        0 <= avg_down,
        avg_up == 0 || avg_down == 0 || avg_up == avg_down,
    ensures
        strength(avg_down, avg_up) == hundred::<i64>().spec_minus(strength(avg_up, avg_down)),
{
    let (u, d) = (avg_up as int, avg_down as int);
    if u == d && u > 0 {
        assert(u / u == 1) by (nonlinear_arith)
            requires
                u > 0,
        ;
        assert(100int / 2 == 50);
    } else if u > 0 || d > 0 {
        let x = if u > 0 {
            u
        } else {
            d
        };
        assert(0int / x == 0) by (nonlinear_arith)
            requires
                x > 0,
        ;
        assert(100int / 1 == 100);
    }
}

/// Mirroring a series turns every output into what it leaves of a hundred, where no quotient
/// is rounded and the averages of a point do not cancel each other.
pub proof fn mirrored_series_leaves_the_rest<
    N: ExactNumber + TotalOrder,
    D: BucketDetector,
    E: Next<N, Output = N> + Reset,
>(m: RelativeStrengthIndexModel<N, D, E::Model>, inputs: Seq<(Timestamp, N)>)
    requires
        m.closes() == (None::<N>, None::<N>),
        mirrors_order(inputs),
        exact_division::<N>(),
        forall|i: int|
            #![trigger outputs::<E, N>(m.up, gains(m.detector, m.closes(), inputs))[i]]
            0 <= i < inputs.len() ==> {
                let avg_up = outputs::<E, N>(m.up, gains(m.detector, m.closes(), inputs))[i];
                let avg_down = outputs::<E, N>(m.down, losses(m.detector, m.closes(), inputs))[i];
                (avg_up.spec_is_zero() && avg_down.spec_is_zero()) || !avg_up.spec_plus(
                    avg_down,
                ).spec_is_zero()
            },
    ensures
        forall|i: int|
            0 <= i < inputs.len() ==> #[trigger] outputs::<RelativeStrengthIndex<N, D, E>, N>(
                exchanged(m),
                mirrored(inputs),
            )[i] == hundred::<N>().spec_minus(
                outputs::<RelativeStrengthIndex<N, D, E>, N>(m, inputs)[i],
            ),
{
    mirrored_series_exchanges_averages::<N, D, E>(m, inputs);
    outputs_by_averages::<N, D, E>(m, inputs);
    let up = gains(m.detector, m.closes(), inputs);
    let down = losses(m.detector, m.closes(), inputs);
    assert forall|i: int| 0 <= i < inputs.len() implies #[trigger] outputs::<
        RelativeStrengthIndex<N, D, E>,
        N,
    >(exchanged(m), mirrored(inputs))[i] == hundred::<N>().spec_minus(
        outputs::<RelativeStrengthIndex<N, D, E>, N>(m, inputs)[i],
    ) by {
        strength_mirrors(outputs::<E, N>(m.up, up)[i], outputs::<E, N>(m.down, down)[i]);
    }
}

/// Whether some point of a series falls into the bucket of the point before it.
fn any_replacement<N: Number, D: BucketDetector>(
    detector: &D,
    inputs: &[(Timestamp, N)],
) -> (r: bool)
    ensures
        r == !all_new(*detector, inputs@),
{
    let mut probe = detector.probe();
    let mut i: usize = 0;
    proof {
        assert(inputs@.take(0) =~= Seq::empty());
    }
    while i < inputs.len()
        invariant
            i <= inputs@.len(),
            probe == detector_after(*detector, inputs@.take(i as int)),
            forall|j: int| 0 <= j < i ==> !#[trigger] replaces(*detector, inputs@, j),
        decreases inputs@.len() - i,
    {
        if probe.should_replace(inputs[i].0) {
            proof {
                assert(replaces(*detector, inputs@, i as int));
            }
            return true;
        }
        i = i + 1;
        proof {
            assert(inputs@.take(i as int).drop_last() =~= inputs@.take(i - 1));
            assert(!replaces(*detector, inputs@, i - 1));
        }
    }
    false
}

/// The state that follows `m` and the outputs when a series without replacements comes in as
/// a batch: both averages take in their part of it as a batch.
pub open spec fn batch_of_new<
    N: Number,
    D: BucketDetector,
    E: NextBatch<N> + Next<N, Output = N> + Reset,
>(m: RelativeStrengthIndexModel<N, D, E::Model>, inputs: Series<N>) -> (
    RelativeStrengthIndexModel<N, D, E::Model>,
    Outputs<N>,
) {
    let (up, avg_ups) = E::batch(m.up, gains(m.detector, m.closes(), inputs));
    let (down, avg_downs) = E::batch(m.down, losses(m.detector, m.closes(), inputs));
    (
        RelativeStrengthIndexModel {
            duration: m.duration,
            up,
            down,
            prev_close: closes_after(m.detector, m.closes(), inputs).0,
            last: closes_after(m.detector, m.closes(), inputs).1,
            detector: detector_after(m.detector, inputs),
        },
        Seq::new(inputs.len(), |i: int| strength(avg_ups[i], avg_downs[i])),
    )
}

impl<
    N: Number,
    D: BucketDetector,
    E: NextBatch<N> + Next<N, Output = N> + Reset,
> RelativeStrengthIndex<N, D, E> {
    /// The outputs for a series without replacements: both averages take in their part of
    /// the series as a batch.
    fn next_all_new(&mut self, inputs: &[(Timestamp, N)]) -> (r: Vec<N>)
        requires
            old(self).wf(),
            inputs@.len() > 0,
            all_new(old(self).model().detector, inputs@),
        ensures
            final(self).wf(),
            (final(self).model(), r@) == batch_of_new::<N, D, E>(old(self).model(), inputs@),
            r@.len() == inputs@.len(),
    {
        let n = inputs.len();
        let ghost m = self.model();
        let ghost up = gains(m.detector, m.closes(), inputs@);
        let ghost down = losses(m.detector, m.closes(), inputs@);
        let mut gain_inputs: Vec<(Timestamp, N)> = Vec::with_capacity(n);
        let mut loss_inputs: Vec<(Timestamp, N)> = Vec::with_capacity(n);
        let mut close = self.prev_close;
        let mut last = self.last;
        let mut i: usize = 0;
        proof {
            assert(inputs@.take(0) =~= Seq::empty());
        }
        while i < n
            invariant
                i <= n == inputs@.len(),
                all_new(m.detector, inputs@),
                up == gains(m.detector, m.closes(), inputs@),
                down == losses(m.detector, m.closes(), inputs@),
                (close, last) == closes_after(m.detector, m.closes(), inputs@.take(i as int)),
                gain_inputs@ == up.take(i as int),
                loss_inputs@ == down.take(i as int),
            decreases n - i,
        {
            let (timestamp, value) = inputs[i];
            close = last;
            let (gain, loss) = gain_and_loss(close, value);
            gain_inputs.push((timestamp, gain));
            loss_inputs.push((timestamp, loss));
            last = Some(value);
            i = i + 1;
            proof {
                let front = inputs@.take(i as int);
                assert(front.drop_last() =~= inputs@.take(i - 1));
                assert(front.take(i - 1) =~= inputs@.take(i - 1));
                assert(!replaces(m.detector, inputs@, i - 1));
                assert(!replaces(m.detector, front, i - 1));
                assert(up.take(i as int) =~= up.take(i - 1).push(up[i - 1]));
                assert(down.take(i as int) =~= down.take(i - 1).push(down[i - 1]));
            }
        }
        proof {
            assert(inputs@.take(n as int) =~= inputs@);
            assert(up.take(n as int) =~= up);
            assert(down.take(n as int) =~= down);
        }
        let avg_ups = self.up_ema_indicator.next_batch(gain_inputs.as_slice());
        let avg_downs = self.down_ema_indicator.next_batch(loss_inputs.as_slice());
        let mut i: usize = 0;
        while i < n
            invariant
                i <= n == inputs@.len(),
                self.detector == detector_after(m.detector, inputs@.take(i as int)),
                self.duration == m.duration,
                self.up_ema_indicator.wf(),
                self.up_ema_indicator.model() == E::batch(m.up, up).0,
                self.down_ema_indicator.wf(),
                self.down_ema_indicator.model() == E::batch(m.down, down).0,
            decreases n - i,
        {
            let _ = self.detector.should_replace(inputs[i].0);
            i = i + 1;
            proof {
                assert(inputs@.take(i as int).drop_last() =~= inputs@.take(i - 1));
            }
        }
        self.prev_close = close;
        self.last = last;
        proof {
            assert(inputs@.take(n as int) =~= inputs@);
        }
        let mut out: Vec<N> = Vec::with_capacity(n);
        let mut i: usize = 0;
        let ghost all = batch_of_new::<N, D, E>(m, inputs@).1;
        while i < n
            invariant
                i <= n,
                all.len() == n,
                avg_ups@.len() == n,
                avg_downs@.len() == n,
                forall|j: int|
                    0 <= j < n ==> #[trigger] all[j] == strength(avg_ups@[j], avg_downs@[j]),
                out@ == all.take(i as int),
            decreases n - i,
        {
            out.push(strength_of(avg_ups[i], avg_downs[i]));
            i = i + 1;
            proof {
                assert(all.take(i as int) =~= all.take(i - 1).push(all[i - 1]));
            }
        }
        proof {
            assert(all.take(n as int) =~= all);
        }
        out
    }
}

impl<
    N: Number,
    D: BucketDetector,
    E: NextBatch<N> + Next<N, Output = N> + Reset,
> NextBatch<N> for RelativeStrengthIndex<N, D, E> {
    /// A series without replacements goes to the two averages as batches of its gains and its
    /// losses.  Any other one is taken in point by point.
    open spec fn batch(m: RelativeStrengthIndexModel<N, D, E::Model>, inputs: Series<N>) -> (
        RelativeStrengthIndexModel<N, D, E::Model>,
        Outputs<N>,
    ) {
        if inputs.len() > 0 && all_new(m.detector, inputs) {
            batch_of_new::<N, D, E>(m, inputs)
        } else {
            looped::<Self, N>(m, inputs)
        }
    }

    fn next_batch(&mut self, inputs: &[(Timestamp, N)]) -> (r: Vec<N>) {
        if inputs.len() == 0 {
            let out: Vec<N> = Vec::new();
            proof {
                assert(out@ =~= outputs::<Self, N>(self.model(), inputs@));
            }
            return out;
        }
        if any_replacement(&self.detector, inputs) {
            next_each(self, inputs)
        } else {
            self.next_all_new(inputs)
        }
    }
}

/// A batch gives what the loop gives: the same outputs and the same state, where the batches
/// of the averages give what their loops give.
pub proof fn batch_is_loop<
    N: Number,
    D: BucketDetector,
    E: NextBatch<N> + Next<N, Output = N> + Reset,
>(m: RelativeStrengthIndexModel<N, D, E::Model>, inputs: Series<N>)
    requires
        E::batch(m.up, gains(m.detector, m.closes(), inputs)) == looped::<E, N>(
            m.up,
            gains(m.detector, m.closes(), inputs),
        ),
        E::batch(m.down, losses(m.detector, m.closes(), inputs)) == looped::<E, N>(
            m.down,
            losses(m.detector, m.closes(), inputs),
        ),
    ensures
        RelativeStrengthIndex::<N, D, E>::batch(m, inputs) == looped::<
            RelativeStrengthIndex<N, D, E>,
            N,
        >(m, inputs),
{
    series_by_averages::<N, D, E>(m, inputs);
    outputs_by_averages::<N, D, E>(m, inputs);
    assert(batch_of_new::<N, D, E>(m, inputs).1 =~= outputs::<RelativeStrengthIndex<N, D, E>, N>(
        m,
        inputs,
    ));
}

/// A reset leaves the index neutral: whatever has come in, the first output after a reset is
/// 50, where the averages that have been reset give zero for zero.
pub proof fn reset_is_neutral<
    N: TotalOrder,
    D: ForgetfulDetector,
    E: Forgetful<N> + Next<N, Output = N>,
>(
    m: RelativeStrengthIndexModel<N, D, E::Model>,
    inputs: Series<N>,
    input: (Timestamp, N),
)
    requires
        keeps_zero::<E, N>(E::cleared(m.up)),
        keeps_zero::<E, N>(E::cleared(m.down)),
    ensures
        RelativeStrengthIndex::<N, D, E>::step(
            RelativeStrengthIndex::<N, D, E>::cleared(
                state_after::<RelativeStrengthIndex<N, D, E>, N>(m, inputs),
            ),
            input,
        ).1 == N::spec_of_usize(50),
{
    N::order_laws();
    reset_undoes_series::<RelativeStrengthIndex<N, D, E>, N>(m, inputs);
    let first = seq![(input.0, zero::<N>())];
    first_average_is_zero::<N, E>(E::cleared(m.up), first);
    first_average_is_zero::<N, E>(E::cleared(m.down), first);
    assert(first.take(0) =~= Seq::empty());
}

} // verus!
