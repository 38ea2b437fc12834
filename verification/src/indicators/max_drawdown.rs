//! The largest decline within a span of time.
use crate::errors::{Result, TaError};
use crate::indicators::held::{
    having_seen, holds_exactly, holds_step, moves_on, moving_on_keeps_recent, recent,
    room_moves_on,
};
use crate::indicators::swings::{
    decline_scan, declines_in, declines_in_order, drawdown_is_zero_without_falls, falls_show,
    largest_decline, largest_decline_among, never_falls, ordered_scan_starts_below,
    positive_declines_in_order, scan_is_drawdown, scan_starts_below,
    window_with_newest_tells_drawdown,
};
use crate::indicators::window::{
    copy_window, cutoff, evicted, expired, expired_count, expired_count_bounds,
    expired_count_unique, front_in_order, in_order, limit_at, sealed, values_of, window_moves_on,
    with_room, Points,
};
use crate::indicators::window_aggregate::{
    window_is_queue, DrawdownAgg, MonoidWindow, WindowAggregate, WindowParts,
};
use crate::number::{decline, hundred, positive, zero, Number, PositiveRatios};
use crate::text::{decimal, decimal_reads_back, push_decimal, reads_as};
use crate::time::{BucketDetector, Duration, ForgetfulDetector, Timestamp, TWO_WEEKS_SECS};
use crate::traits::{
    looped, next_each, outputs, state_after, Forgetful, Indicator, Next, NextBatch, Outputs, Reset,
    Series,
};
use std::collections::VecDeque;
use vstd::prelude::*;
use vstd::string::*;

verus! {

/// The state of a [`MaxDrawdown`].
pub struct MaxDrawdownModel<N, D> {
    pub duration: Duration,
    pub window: Points<N>,
    /// The values of all points but the newest.
    pub parts: WindowParts<N>,
    pub detector: D,
}

/// `w` after `count` values have left.
pub open spec fn popped_times<N: Number>(w: WindowParts<N>, count: nat) -> WindowParts<N>
    decreases count,
{
    if count == 0 {
        w
    } else {
        popped_times(w.popped(), (count - 1) as nat)
    }
}

/// How many of the points that leave a window are not its newest.
pub open spec fn older_expired<N>(window: Points<N>, limit: int) -> nat {
    let count = expired_count(window, limit);
    if count > 0 && count == window.len() {
        (count - 1) as nat
    } else {
        count
    }
}

/// The largest decline, in percent, over the values that `prefix` covers and `tail` after
/// them.
pub open spec fn drawdown_with<N: Number>(prefix: Option<DrawdownAgg<N>>, tail: N) -> N {
    let leaf = DrawdownAgg::<N>::spec_leaf(tail);
    let all = match prefix {
        Some(agg) => agg.spec_combine(leaf),
        None => leaf,
    };
    hundred::<N>().spec_times(all.spec_ratio())
}

/// The largest decline from a peak to a later trough within the last `duration`, in percent
/// of the peak.
#[derive(Debug, Clone)]
pub struct MaxDrawdown<N: Copy, D> {
    duration: Duration,
    window: VecDeque<(Timestamp, N)>,
    detector: D,
    /// The length of `duration` in nanoseconds, once it has been needed.
    cached_window: Option<u128>,
    /// The aggregate over all points but the newest, once `swag_built` says that it has
    /// been built.
    swag: MonoidWindow<N, DrawdownAgg<N>>,
    swag_built: bool,
}

impl<N: Number, D: BucketDetector> MaxDrawdown<N, D> {
    /// The state without points.
    pub open spec fn initial(duration: Duration, detector: D) -> MaxDrawdownModel<N, D> {
        MaxDrawdownModel {
            duration,
            window: Seq::empty(),
            parts: WindowParts::<N>::empty(),
            detector,
        }
    }

    /// The state that the parts which are kept make up.
    pub open spec fn restored(duration: Duration, window: Points<N>, detector: D) -> MaxDrawdownModel<
        N,
        D,
    > {
        MaxDrawdownModel {
            duration,
            window,
            parts: WindowParts { older: Seq::empty(), newer: values_of(sealed(window)) },
            detector,
        }
    }

    /// A copy of the points in the window, oldest first.
    pub fn get_window(&self) -> (r: VecDeque<(Timestamp, N)>)
        requires
            self.wf(),
        ensures
            r@ == self.model().window,
    {
        copy_window(&self.window)
    }

    /// The drawdown over the last `duration`, which must not be empty.
    pub fn new(duration: Duration, detector: D) -> (r: Result<Self>)
        ensures
            r is Err <==> duration.spec_nanos() == 0,
            r is Ok <==> duration.secs > 0 || duration.subsec_nanos > 0,
            r is Err ==> r->Err_0 == TaError::InvalidParameter,
            r is Ok ==> r->Ok_0.wf() && r->Ok_0.model() == Self::initial(duration, detector),
    {
        if duration.is_zero() {
            Err(TaError::InvalidParameter)
        } else {
            let r = Self::restore(duration, VecDeque::new(), detector);
            proof {
                assert(values_of(sealed(Seq::<(Timestamp, N)>::empty())) =~= Seq::empty());
            }
            Ok(r)
        }
    }

    /// The drawdown over the last 14 days.
    pub fn with_default_duration(detector: D) -> (r: Self)
        ensures
            r.wf(),
            r.model().duration.secs == 14 * 24 * 60 * 60,
            r.model().duration.subsec_nanos == 0,
            r.model() == Self::initial(
                (Duration { secs: TWO_WEEKS_SECS, subsec_nanos: 0 }),
                detector,
            ),
    {
        let r = Self::restore(Duration::from_secs(TWO_WEEKS_SECS), VecDeque::new(), detector);
        proof {
            assert(values_of(sealed(Seq::<(Timestamp, N)>::empty())) =~= Seq::empty());
        }
        r
    }

    /// An indicator from the parts that are kept when one is stored.  The aggregate is
    /// built anew when the next point comes in.
    pub fn restore(duration: Duration, window: VecDeque<(Timestamp, N)>, detector: D) -> (r: Self)
        ensures
            r.wf(),
            r.model() == Self::restored(duration, window@, detector),
    {
        MaxDrawdown {
            duration,
            window,
            detector,
            cached_window: None,
            swag: MonoidWindow::default(),
            swag_built: false,
        }
    }

    /// The parts to keep when an indicator is stored.
    pub fn into_parts(self) -> (r: (Duration, VecDeque<(Timestamp, N)>, D))
        requires
            self.wf(),
        ensures
            r.0 == self.model().duration,
            r.1@ == self.model().window,
            r.2 == self.model().detector,
    {
        (self.duration, self.window, self.detector)
    }

    /// What an indicator over `duration` is, in writing.
    pub open spec fn label_of(duration: Duration) -> Seq<char> {
        "MaxDrawdown("@ + decimal(duration.secs as nat) + "s)"@
    }

    /// What the indicator is, in writing.
    pub fn label(&self) -> (r: String)
        requires
            self.wf(),
        ensures
            r@ == "MaxDrawdown("@ + decimal(self.model().duration.secs as nat) + "s)"@,
            r@ == Self::label_of(self.model().duration),
    {
        let mut text = String::new();
        text.append("MaxDrawdown(");
        push_decimal(&mut text, self.duration.secs);
        text.append("s)");
        proof {
            assert(text@ =~= "MaxDrawdown("@ + decimal(self.duration.secs as nat) + "s)"@);
        }
        text
    }

    /// The cached length, where there is one, is the length of the span.
    pub closed spec fn cache_holds(&self) -> bool {
        match self.cached_window {
            Some(span) => span == self.duration.spec_nanos(),
            None => true,
        }
    }

    /// Builds the aggregate over all points but the newest, unless it has been built.
    fn ensure_built(&mut self)
        requires
            old(self).wf(),
        ensures
            final(self).wf(),
            final(self).swag_built,
            final(self).window@ == old(self).window@,
            final(self).model() == old(self).model(),
    {
        if self.swag_built {
            return;
        }
        self.swag.clear();
        let committed: usize = if self.window.len() == 0 {
            0
        } else {
            self.window.len() - 1
        };
        let ghost values = values_of(sealed(self.window@));
        let mut i: usize = 0;
        proof {
            assert(values.take(0) =~= Seq::empty());
        }
        while i < committed
            invariant
                i <= committed,
                committed == sealed(self.window@).len(),
                values == values_of(sealed(self.window@)),
                self.swag.wf(),
                self.swag.parts() == (WindowParts { older: Seq::empty(), newer: values.take(i as int) }),
                self.window == old(self).window,
                self.duration == old(self).duration,
                self.detector == old(self).detector,
                self.cached_window == old(self).cached_window,
            decreases committed - i,
        {
            self.swag.push_back(self.window[i].1);
            i = i + 1;
            proof {
                assert(values.take(i as int) =~= values.take(i - 1).push(values[i - 1]));
            }
        }
        proof {
            assert(values.take(i as int) =~= values);
        }
        self.swag_built = true;
    }

    /// Lets the points leave that are too old at time `t`, from the window and, but for the
    /// newest point, from the aggregate.
    fn remove_old_data(&mut self, t: Timestamp)
        requires
            old(self).wf(),
            old(self).swag_built,
        ensures
            final(self).wf(),
            final(self).swag_built,
            final(self).duration == old(self).duration,
            final(self).detector == old(self).detector,
            final(self).window@ == evicted(
                old(self).window@,
                cutoff(t, old(self).duration) - 1,
            ),
            final(self).swag.parts() == popped_times(
                old(self).swag.parts(),
                older_expired(old(self).window@, cutoff(t, old(self).duration) - 1),
            ),
    {
        let span = match self.cached_window {
            Some(span) => span,
            None => self.duration.as_nanos(),
        };
        self.cached_window = Some(span);
        let limit = limit_at(t, span);
        let ghost start = self.window@;
        let ghost last = limit - 1;
        let ghost mut gone: int = 0;
        let ghost total = older_expired(start, last);
        proof {
            assert(start.skip(0) =~= start);
            expired_count_bounds(start, last);
        }
        while self.window.len() > 0 && (self.window[0].0.nanos() as i128) < limit
            invariant
                0 <= gone <= start.len(),
                self.window@ == start.skip(gone),
                forall|i: int| 0 <= i < gone ==> expired(#[trigger] start[i], last),
                last == limit - 1,
                gone <= expired_count(start, last) <= start.len(),
                total == older_expired(start, last),
                self.swag.wf(),
                self.cache_holds(),
                self.swag_built,
                self.duration == old(self).duration,
                self.detector == old(self).detector,
                gone < expired_count(start, last) ==> popped_times(
                    self.swag.parts(),
                    (total - gone) as nat,
                ) == popped_times(old(self).swag.parts(), total),
                gone == expired_count(start, last) ==> self.swag.parts() == popped_times(
                    old(self).swag.parts(),
                    total,
                ),
            decreases self.window@.len(),
        {
            proof {
                reveal_with_fuel(popped_times, 2);
                expired_count_bounds(start, last);
                assert(expired(start[gone], last));
                if gone == expired_count(start, last) {
                    assert(!expired(start[gone], last));
                }
            }
            if self.window.len() > 1 {
                let _ = self.swag.pop_front();
            }
            let _ = self.window.pop_front();
            proof {
                gone = gone + 1;
                assert(self.window@ =~= start.skip(gone));
            }
        }
        proof {
            expired_count_unique(start, last, gone);
        }
    }

    /// The largest decline over the aggregate and `tail` after it, in percent.
    fn current_max_drawdown(&self, tail: N) -> (r: N)
        requires
            self.swag.wf(),
        ensures
            r == drawdown_with(self.swag.parts().aggregate(), tail),
    {
        let leaf = DrawdownAgg::<N>::leaf(tail);
        let agg = match self.swag.aggregate() {
            Some(prefix) => prefix.combine(&leaf),
            None => leaf,
        };
        N::of_usize(100).times(agg.ratio())
    }
}

impl<N: Number, D: BucketDetector> Indicator for MaxDrawdown<N, D> {
    type Model = MaxDrawdownModel<N, D>;

    closed spec fn wf(&self) -> bool {
        &&& self.cache_holds()
        &&& self.swag_built ==> self.swag.wf()
    }

    closed spec fn model(&self) -> MaxDrawdownModel<N, D> {
        MaxDrawdownModel {
            duration: self.duration,
            window: self.window@,
            parts: if self.swag_built {
                self.swag.parts()
            } else {
                WindowParts { older: Seq::empty(), newer: values_of(sealed(self.window@)) }
            },
            detector: self.detector,
        }
    }
}

/// The window and the values of its older points once the newest point has been put aside
/// for one at `t`: what is too old has left, and the newest point is either dropped, because
/// the next one replaces it, or counts among the older ones.
pub open spec fn made_room<N: Number, D: BucketDetector>(
    m: MaxDrawdownModel<N, D>,
    t: Timestamp,
) -> (Points<N>, WindowParts<N>) {
    let limit = cutoff(t, m.duration) - 1;
    let window = evicted(m.window, limit);
    let parts = popped_times(m.parts, older_expired(m.window, limit));
    if window.len() == 0 {
        (window, parts)
    } else if m.detector.spec_same_bucket(t) {
        (sealed(window), parts)
    } else {
        (window, parts.pushed(window.last().1))
    }
}

impl<N: Number, D: BucketDetector> Next<N> for MaxDrawdown<N, D> {
    type Output = N;

    open spec fn step(m: MaxDrawdownModel<N, D>, input: (Timestamp, N)) -> (
        MaxDrawdownModel<N, D>,
        N,
    ) {
        let (older, parts) = made_room(m, input.0);
        (
            MaxDrawdownModel {
                duration: m.duration,
                window: older.push(input),
                parts,
                detector: m.detector.spec_seen(input.0),
            },
            drawdown_with(parts.aggregate(), input.1),
        )
    }

    fn next(&mut self, input: (Timestamp, N)) -> (r: N) {
        let (timestamp, value) = input;
        self.ensure_built();
        let should_replace = self.detector.should_replace(timestamp);
        self.remove_old_data(timestamp);
        let newest = self.window.len();
        if should_replace && newest > 0 {
            let ghost before = self.window@;
            let _ = self.window.pop_back();
            proof {
                assert(self.window@ =~= sealed(before));
            }
        } else if newest > 0 {
            let previous = self.window[newest - 1].1;
            self.swag.push_back(previous);
        }
        self.window.push_back((timestamp, value));
        self.current_max_drawdown(value)
    }
}

impl<N: Number, D: BucketDetector> NextBatch<N> for MaxDrawdown<N, D> {
    open spec fn batch(m: MaxDrawdownModel<N, D>, inputs: Series<N>) -> (MaxDrawdownModel<N, D>, Outputs<N>) {
        looped::<Self, N>(m, inputs)
    }

    fn next_batch(&mut self, inputs: &[(Timestamp, N)]) -> (r: Vec<N>) {
        next_each(self, inputs)
    }
}

impl<N: Number, D: BucketDetector> Reset for MaxDrawdown<N, D> {
    open spec fn cleared(m: MaxDrawdownModel<N, D>) -> MaxDrawdownModel<N, D> {
        Self::initial(m.duration, m.detector.spec_fresh())
    }

    fn reset(&mut self) {
        self.window.clear();
        self.detector.reset();
        self.swag.clear();
        self.swag_built = true;
    }
}

/// Whether the aggregate covers the values of all points but the newest.
pub open spec fn in_step<N: Number, D>(m: MaxDrawdownModel<N, D>) -> bool {
    m.parts.contents() == values_of(sealed(m.window))
}

/// Whether all values in the window are positive.
pub open spec fn all_positive<N: Number>(s: Points<N>) -> bool {
    forall|i: int| 0 <= i < s.len() ==> positive((#[trigger] s[i]).1)
}

proof fn popped_times_contents<N: Number>(w: WindowParts<N>, count: nat)
    requires
        count <= w.contents().len(),
    ensures
        popped_times(w, count).contents() == w.contents().skip(count as int),
    decreases count,
{
    if count == 0 {
        assert(w.contents().skip(0) =~= w.contents());
    } else {
        window_is_queue(w, w.contents()[0]);
        popped_times_contents(w.popped(), (count - 1) as nat);
        assert(w.contents().drop_first().skip(count - 1) =~= w.contents().skip(count as int));
    }
}

/// The aggregate of an indicator without points, or of one that has just been restored,
/// covers all points but the newest.
pub proof fn aggregate_starts_in_step<N: Number, D: BucketDetector>(
    duration: Duration,
    window: Points<N>,
    detector: D,
)
    ensures
        in_step(MaxDrawdown::<N, D>::initial(duration, detector)),
        in_step(MaxDrawdown::<N, D>::restored(duration, window, detector)),
{
    let clear = MaxDrawdown::<N, D>::initial(duration, detector);
    assert(clear.parts.contents() =~= values_of(sealed(clear.window)));
    let again = MaxDrawdown::<N, D>::restored(duration, window, detector);
    assert(again.parts.contents() =~= values_of(sealed(window)));
}

/// The aggregate keeps covering all points but the newest, whatever comes in.
pub proof fn aggregate_stays_in_step<N: Number, D: BucketDetector>(
    m: MaxDrawdownModel<N, D>,
    input: (Timestamp, N),
)
    requires
        in_step(m),
    ensures
        in_step(MaxDrawdown::<N, D>::step(m, input).0),
        made_room(m, input.0).1.contents() == values_of(made_room(m, input.0).0),
{
    let limit = cutoff(input.0, m.duration) - 1;
    let window = evicted(m.window, limit);
    let count = older_expired(m.window, limit);
    expired_count_bounds(m.window, limit);
    assert(sealed(m.window).len() == values_of(sealed(m.window)).len());
    popped_times_contents(m.parts, count);
    let parts = popped_times(m.parts, count);
    let (older, after) = made_room(m, input.0);
    if window.len() == 0 {
        assert(parts.contents() =~= Seq::empty());
        assert(values_of(older) =~= Seq::empty());
    } else {
        assert(parts.contents() =~= values_of(sealed(window)));
        window_is_queue(parts, window.last().1);
        assert(values_of(window) =~= values_of(sealed(window)).push(window.last().1));
    }
    assert(sealed(older.push(input)) =~= older);
}

/// The aggregate covers all points but the newest at every moment of a series.
pub proof fn aggregate_in_step_throughout<N: Number, D: BucketDetector>(
    m: MaxDrawdownModel<N, D>,
    inputs: Seq<(Timestamp, N)>,
)
    requires
        in_step(m),
    ensures
        in_step(state_after::<MaxDrawdown<N, D>, N>(m, inputs)),
    decreases inputs.len(),
{
    if inputs.len() > 0 {
        aggregate_in_step_throughout::<N, D>(m, inputs.drop_last());
        aggregate_stays_in_step(
            state_after::<MaxDrawdown<N, D>, N>(m, inputs.drop_last()),
            inputs.last(),
        );
    }
}

/// The drawdown in percent of the values `s`, by a scan from the oldest on.
pub open spec fn drawdown_of<N: Number>(s: Seq<N>) -> N {
    hundred::<N>().spec_times(decline_scan(s).1)
}

/// Whether the drawdown of the values `s` does not depend on how it is worked out: the values
/// and the declines among them are ordered, the declines respect the order of the values, and
/// a scan starts from below them.
pub open spec fn drawdown_is_definite<N: Number>(s: Seq<N>) -> bool {
    declines_in_order(s) && scan_starts_below(s)
}

/// The incremental drawdown is the drawdown by a full scan, and that is the largest decline
/// from a value to a later one, whatever the format: all that is asked is that the values of
/// the window and the declines among them are ordered as they should be.
pub proof fn drawdown_is_full_scan<N: Number, D: BucketDetector>(
    m: MaxDrawdownModel<N, D>,
    input: (Timestamp, N),
)
    requires
        in_step(m),
        drawdown_is_definite(values_of(MaxDrawdown::<N, D>::step(m, input).0.window)),
    ensures
        ({
            let values = values_of(MaxDrawdown::<N, D>::step(m, input).0.window);
            &&& MaxDrawdown::<N, D>::step(m, input).1 == drawdown_of(values)
            &&& largest_decline(values, decline_scan(values).1)
        }),
{
    aggregate_stays_in_step(m, input);
    let (older, parts) = made_room(m, input.0);
    let window = older.push(input);
    let values = values_of(window);
    let before = values_of(older);
    assert(values =~= before.push(input.1));
    // The aggregate with the newest value is the aggregate of one more value.
    let leaf = DrawdownAgg::<N>::spec_leaf(input.1);
    let all = match parts.aggregate::<DrawdownAgg<N>>() {
        Some(agg) => agg.spec_combine(leaf),
        None => leaf,
    };
    window_with_newest_tells_drawdown(parts, input.1);
    scan_is_drawdown(values, all);
}

/// The output at any moment of a series is the drawdown by a scan of the window of that
/// moment, and that is the largest decline within it.
pub proof fn drawdown_is_full_scan_throughout<N: Number, D: BucketDetector>(
    m: MaxDrawdownModel<N, D>,
    inputs: Seq<(Timestamp, N)>,
    i: int,
)
    requires
        in_step(m),
        0 <= i < inputs.len(),
        drawdown_is_definite(
            values_of(state_after::<MaxDrawdown<N, D>, N>(m, inputs.take(i + 1)).window),
        ),
    ensures
        ({
            let values = values_of(
                state_after::<MaxDrawdown<N, D>, N>(m, inputs.take(i + 1)).window,
            );
            &&& outputs::<MaxDrawdown<N, D>, N>(m, inputs)[i] == drawdown_of(values)
            &&& largest_decline(values, decline_scan(values).1)
            &&& values.len() > 0
        }),
{
    let before = inputs.take(i);
    aggregate_in_step_throughout::<N, D>(m, before);
    assert(inputs.take(i + 1).drop_last() =~= before);
    drawdown_is_full_scan(state_after::<MaxDrawdown<N, D>, N>(m, before), inputs[i]);
}

/// Whether a share between nothing and the whole is a percentage, for the declines among the
/// values `s`, and none but nothing is zero percent.
pub open spec fn declines_in_percent<N: Number>(s: Seq<N>) -> bool {
    &&& forall|x: N|
        declines_in(s).contains(x) && zero::<N>().spec_at_most(x) ==> {
            let percent = #[trigger] hundred::<N>().spec_times(x);
            &&& zero::<N>().spec_at_most(percent)
            &&& percent.spec_at_most(hundred())
            &&& percent == zero::<N>() ==> x == zero::<N>()
        }
    &&& hundred::<N>().spec_times(zero()) == zero::<N>()
}

/// Every output is a percentage.  It is zero where the window never falls, and nowhere else
/// unless a fall is rounded away.
pub proof fn drawdown_is_percentage_throughout<N: Number, D: BucketDetector>(
    m: MaxDrawdownModel<N, D>,
    inputs: Seq<(Timestamp, N)>,
    i: int,
)
    requires
        in_step(m),
        0 <= i < inputs.len(),
        drawdown_is_definite(
            values_of(state_after::<MaxDrawdown<N, D>, N>(m, inputs.take(i + 1)).window),
        ),
        declines_in_percent(
            values_of(state_after::<MaxDrawdown<N, D>, N>(m, inputs.take(i + 1)).window),
        ),
    ensures
        ({
            let values = values_of(
                state_after::<MaxDrawdown<N, D>, N>(m, inputs.take(i + 1)).window,
            );
            let output = outputs::<MaxDrawdown<N, D>, N>(m, inputs)[i];
            &&& zero::<N>().spec_at_most(output)
            &&& output.spec_at_most(hundred())
            &&& never_falls(values) ==> output == zero::<N>()
            &&& falls_show(values) && output == zero::<N>() ==> never_falls(values)
        }),
{
    drawdown_is_full_scan_throughout(m, inputs, i);
    let values = values_of(state_after::<MaxDrawdown<N, D>, N>(m, inputs.take(i + 1)).window);
    let r = decline_scan(values).1;
    drawdown_is_zero_without_falls(values, r);
    largest_decline_among(values, values, r);
}

/// Positive values meet every premise in a format in which declines between positive values
/// respect the order.
pub proof fn positive_drawdown_is_definite<N: PositiveRatios>(s: Seq<N>)
    requires
        forall|i: int| 0 <= i < s.len() ==> positive(#[trigger] s[i]),
    ensures
        drawdown_is_definite(s),
        declines_in_percent(s),
{
    N::order_laws();
    positive_declines_in_order(s);
    ordered_scan_starts_below(s);
    assert forall|x: N|
        declines_in(s).contains(x) && zero::<N>().spec_at_most(x) implies {
        let percent = #[trigger] hundred::<N>().spec_times(x);
        &&& zero::<N>().spec_at_most(percent)
        &&& percent.spec_at_most(hundred())
        &&& percent == zero::<N>() ==> x == zero::<N>()
    } by {
        if x == zero::<N>() {
            N::zero_at_most_one();
        } else {
            let (i, j) = choose|i: int, j: int|
                0 <= i < s.len() && 0 <= j < s.len() && x == decline(
                    #[trigger] s[i],
                    #[trigger] s[j],
                );
            N::decline_at_most_whole(s[i], s[j]);
        }
        N::share_in_percent(x);
    }
    N::zero_at_most_one();
    N::share_in_percent(zero());
}

/// Points with positive values leave positive values in the window.
pub proof fn window_stays_positive<N: Number, D: BucketDetector>(
    m: MaxDrawdownModel<N, D>,
    inputs: Seq<(Timestamp, N)>,
)
    requires
        all_positive(m.window),
        all_positive(inputs),
    ensures
        all_positive(state_after::<MaxDrawdown<N, D>, N>(m, inputs).window),
    decreases inputs.len(),
{
    if inputs.len() > 0 {
        let before = inputs.drop_last();
        let input = inputs.last();
        assert forall|i: int| 0 <= i < before.len() implies positive((#[trigger] before[i]).1) by {
            assert(before[i] == inputs[i]);
        }
        window_stays_positive::<N, D>(m, before);
        assert(positive(inputs[inputs.len() - 1].1));
        let at = state_after::<MaxDrawdown<N, D>, N>(m, before);
        let limit = cutoff(input.0, at.duration) - 1;
        let stay = evicted(at.window, limit);
        expired_count_bounds(at.window, limit);
        let gone = at.window.len() - stay.len();
        let older = made_room(at, input.0).0;
        let window = older.push(input);
        assert forall|i: int| 0 <= i < window.len() implies positive((#[trigger] window[i]).1) by {
            if i < older.len() {
                assert(window[i] == stay[i]);
                assert(stay[i] == at.window[gone + i]);
            }
        }
    }
}

/// With positive values every output is the drawdown by a scan of the window, the largest
/// decline within it in percent, between 0 and 100.
pub proof fn positive_drawdown_throughout<N: PositiveRatios, D: BucketDetector>(
    m: MaxDrawdownModel<N, D>,
    inputs: Seq<(Timestamp, N)>,
    i: int,
)
    requires
        in_step(m),
        all_positive(m.window),
        all_positive(inputs),
        0 <= i < inputs.len(),
    ensures
        ({
            let values = values_of(
                state_after::<MaxDrawdown<N, D>, N>(m, inputs.take(i + 1)).window,
            );
            let output = outputs::<MaxDrawdown<N, D>, N>(m, inputs)[i];
            &&& output == drawdown_of(values)
            &&& largest_decline(values, decline_scan(values).1)
            &&& zero::<N>().spec_at_most(output)
            &&& output.spec_at_most(hundred())
            &&& never_falls(values) ==> output == zero::<N>()
            &&& falls_show(values) && output == zero::<N>() ==> never_falls(values)
        }),
{
    let front = inputs.take(i + 1);
    assert forall|j: int| 0 <= j < front.len() implies positive((#[trigger] front[j]).1) by {
        assert(front[j] == inputs[j]);
    }
    window_stays_positive::<N, D>(m, front);
    let window = state_after::<MaxDrawdown<N, D>, N>(m, front).window;
    let values = values_of(window);
    assert forall|j: int| 0 <= j < values.len() implies positive(#[trigger] values[j]) by {
        assert(positive(window[j].1));
    }
    positive_drawdown_is_definite(values);
    drawdown_is_full_scan_throughout(m, inputs, i);
    drawdown_is_percentage_throughout(m, inputs, i);
}

/// Where points come in the order of their times, the window ends with the newest point,
/// holds no point that is older than the span is long, and stays in order.
pub proof fn window_spans_duration<N: Number, D: BucketDetector>(
    m: MaxDrawdownModel<N, D>,
    input: (Timestamp, N),
)
    requires
        in_order(m.window.push(input)),
    ensures
        ({
            let window = MaxDrawdown::<N, D>::step(m, input).0.window;
            &&& window.len() > 0
            &&& window.last() == input
            &&& in_order(window)
            &&& forall|i: int|
                0 <= i < window.len() ==> (#[trigger] window[i]).0.spec_nanos() >= cutoff(
                    input.0,
                    m.duration,
                )
        }),
{
    let limit = cutoff(input.0, m.duration) - 1;
    window_moves_on(m.window, m.detector.spec_same_bucket(input.0), input, limit);
    let window = MaxDrawdown::<N, D>::step(m, input).0.window;
    assert(window == with_room(m.window, m.detector.spec_same_bucket(input.0), limit).push(input));
    assert forall|i: int| 0 <= i < window.len() implies (#[trigger] window[i]).0.spec_nanos()
        >= cutoff(input.0, m.duration) by {
        assert(!expired(window[i], limit));
    }
}

impl<N: Number, D: ForgetfulDetector> Forgetful<N> for MaxDrawdown<N, D> {
    proof fn reset_forgets(m: MaxDrawdownModel<N, D>, input: (Timestamp, N)) {
        D::fresh_forgets(m.detector, input.0);
    }
}

/// The windows of two indicators that differ in nothing but how their aggregates are split
/// stay the same.
proof fn windows_agree<N: Number, D: BucketDetector>(
    a: MaxDrawdownModel<N, D>,
    b: MaxDrawdownModel<N, D>,
    inputs: Seq<(Timestamp, N)>,
)
    requires
        a.duration == b.duration,
        a.window == b.window,
        a.detector == b.detector,
    ensures
        ({
            let after_a = state_after::<MaxDrawdown<N, D>, N>(a, inputs);
            let after_b = state_after::<MaxDrawdown<N, D>, N>(b, inputs);
            &&& after_a.duration == after_b.duration
            &&& after_a.window == after_b.window
            &&& after_a.detector == after_b.detector
        }),
    decreases inputs.len(),
{
    if inputs.len() > 0 {
        windows_agree(a, b, inputs.drop_last());
    }
}

/// Storing an indicator and restoring it changes nothing that can be seen: where the drawdown
/// of every window is definite, the restored one goes on with the same outputs and the same
/// windows.
pub proof fn restored_agrees<N: Number, D: BucketDetector>(
    m: MaxDrawdownModel<N, D>,
    inputs: Seq<(Timestamp, N)>,
)
    requires
        in_step(m),
        forall|i: int|
            0 < i <= inputs.len() ==> drawdown_is_definite(
                values_of(
                    state_after::<MaxDrawdown<N, D>, N>(m, #[trigger] inputs.take(i)).window,
                ),
            ),
    ensures
        ({
            let again = MaxDrawdown::<N, D>::restored(m.duration, m.window, m.detector);
            &&& outputs::<MaxDrawdown<N, D>, N>(again, inputs) == outputs::<
                MaxDrawdown<N, D>,
                N,
            >(m, inputs)
            &&& state_after::<MaxDrawdown<N, D>, N>(again, inputs).window == state_after::<
                MaxDrawdown<N, D>,
                N,
            >(m, inputs).window
        }),
{
    let again = MaxDrawdown::<N, D>::restored(m.duration, m.window, m.detector);
    aggregate_starts_in_step(m.duration, m.window, m.detector);
    windows_agree(again, m, inputs);
    let (ours, theirs) = (
        outputs::<MaxDrawdown<N, D>, N>(again, inputs),
        outputs::<MaxDrawdown<N, D>, N>(m, inputs),
    );
    assert forall|i: int| 0 <= i < inputs.len() implies ours[i] == theirs[i] by {
        windows_agree(again, m, inputs.take(i + 1));
        drawdown_is_full_scan_throughout(m, inputs, i);
        drawdown_is_full_scan_throughout(again, inputs, i);
    }
    assert(ours =~= theirs);
}

/// The window after a point is exactly what it should be: the points held before that are not
/// older than the span, but for the newest of them if the point falls into its bucket, and the
/// point.  The indicator takes note of the point's bucket, and its span stays.
pub proof fn window_is_exact<N: Number, D: BucketDetector>(
    m: MaxDrawdownModel<N, D>,
    input: (Timestamp, N),
)
    ensures
        ({
            let reach = m.duration.secs * 1_000_000_000 + m.duration.subsec_nanos + 1;
            let replace = m.detector.spec_same_bucket(input.0);
            let after = MaxDrawdown::<N, D>::step(m, input).0;
            let kept = recent(m.window, input, reach);
            &&& moves_on(m.window, replace, input, reach, after.window)
            &&& in_order(m.window) && replace && kept.len() > 0 ==> after.window
                == kept.drop_last().push(input)
            &&& in_order(m.window) && !(replace && kept.len() > 0) ==> after.window == kept.push(
                input,
            )
            &&& after.detector == m.detector.spec_seen(input.0)
            &&& after.duration == m.duration
        }),
{
    let reach = m.duration.secs * 1_000_000_000 + m.duration.subsec_nanos + 1;
    let replace = m.detector.spec_same_bucket(input.0);
    let after = MaxDrawdown::<N, D>::step(m, input).0;
    room_moves_on(m.window, replace, input, reach);
    let limit = input.0.spec_nanos() - reach;
    assert(limit == cutoff(input.0, m.duration) - 1);
    assert(after.window =~= with_room(m.window, replace, limit).push(input));
    if in_order(m.window) {
        moving_on_keeps_recent(m.window, replace, input, reach, after.window);
    }
}

/// Over a series in the order of its times, the window holds exactly the points that have come
/// in within the span and have not been replaced, oldest first.
pub proof fn window_holds_exactly<N: Number, D: BucketDetector>(
    m: MaxDrawdownModel<N, D>,
    inputs: Seq<(Timestamp, N)>,
)
    requires
        m.window.len() == 0,
        in_order(inputs),
        inputs.len() > 0,
    ensures
        ({
            let reach = m.duration.secs * 1_000_000_000 + m.duration.subsec_nanos + 1;
            let after = state_after::<MaxDrawdown<N, D>, N>(m, inputs);
            &&& holds_exactly(after.window, m.detector, inputs, reach)
            &&& after.detector == having_seen(m.detector, inputs)
            &&& after.duration == m.duration
        }),
    decreases inputs.len(),
{
    let reach = m.duration.secs * 1_000_000_000 + m.duration.subsec_nanos + 1;
    let before = inputs.drop_last();
    let at = state_after::<MaxDrawdown<N, D>, N>(m, before);
    front_in_order(inputs);
    if before.len() > 0 {
        window_holds_exactly::<N, D>(m, before);
    } else {
        assert(having_seen(m.detector, before) == m.detector);
    }
    assert(inputs.take(inputs.len() - 1) =~= before);
    window_is_exact(at, inputs.last());
    holds_step(
        at.window,
        state_after::<MaxDrawdown<N, D>, N>(m, inputs).window,
        m.detector,
        inputs,
        reach,
    );
}

/// Whether `r` is the largest fall from a point of `s` to a later one as a share of the former,
/// or zero where there is none.
pub open spec fn largest_fall<N: Number>(s: Points<N>, r: N) -> bool {
    &&& N::spec_of_usize(0).spec_at_most(r)
    &&& forall|i: int, j: int|
        0 <= i <= j < s.len() ==> (#[trigger] s[i]).1.spec_minus((#[trigger] s[j]).1).spec_over(
            s[i].1,
        ).spec_at_most(r)
    &&& r == N::spec_of_usize(0) || exists|i: int, j: int|
        0 <= i < j < s.len() && r == (#[trigger] s[i]).1.spec_minus(
            (#[trigger] s[j]).1,
        ).spec_over(s[i].1)
}

/// The output is a hundred times the largest fall within the window that the point leaves,
/// where the drawdown of its values is definite.
pub proof fn output_is_largest_fall<N: Number, D: BucketDetector>(
    m: MaxDrawdownModel<N, D>,
    input: (Timestamp, N),
)
    requires
        in_step(m),
        drawdown_is_definite(values_of(MaxDrawdown::<N, D>::step(m, input).0.window)),
    ensures
        exists|r: N|
            #[trigger] largest_fall(MaxDrawdown::<N, D>::step(m, input).0.window, r)
                && MaxDrawdown::<N, D>::step(m, input).1 == N::spec_of_usize(100).spec_times(r),
{
    drawdown_is_full_scan(m, input);
    let window = MaxDrawdown::<N, D>::step(m, input).0.window;
    let values = values_of(window);
    fall_is_decline(window, decline_scan(values).1);
}

proof fn fall_is_decline<N: Number>(s: Points<N>, r: N)
    requires
        largest_decline(values_of(s), r),
    ensures
        largest_fall(s, r),
{
    let values = values_of(s);
    assert forall|i: int, j: int| 0 <= i <= j < s.len() implies (#[trigger] s[i]).1.spec_minus(
        (#[trigger] s[j]).1,
    ).spec_over(s[i].1).spec_at_most(r) by {
        assert(decline(values[i], values[j]).spec_at_most(r));
    }
    if r != zero::<N>() {
        let (i, j) = choose|i: int, j: int|
            0 <= i < j < values.len() && r == decline(#[trigger] values[i], #[trigger] values[j]);
        assert(r == s[i].1.spec_minus(s[j].1).spec_over(s[i].1));
    }
}

/// From the first point on, with positive values in the order of their times, every output is a
/// hundred times the largest fall among the points that have come in within the span and have
/// not been replaced.
pub proof fn outputs_are_largest_falls<N: PositiveRatios, D: BucketDetector>(
    m: MaxDrawdownModel<N, D>,
    inputs: Seq<(Timestamp, N)>,
)
    requires
        m.window.len() == 0,
        m.parts.older.len() == 0,
        m.parts.newer.len() == 0,
        in_order(inputs),
        inputs.len() > 0,
        forall|i: int| 0 <= i < inputs.len() ==> positive((#[trigger] inputs[i]).1),
    ensures
        ({
            let reach = m.duration.secs * 1_000_000_000 + m.duration.subsec_nanos + 1;
            let window = state_after::<MaxDrawdown<N, D>, N>(m, inputs).window;
            &&& holds_exactly(window, m.detector, inputs, reach)
            &&& exists|r: N|
                #[trigger] largest_fall(window, r)
                    && outputs::<MaxDrawdown<N, D>, N>(m, inputs).last() == N::spec_of_usize(
                    100,
                ).spec_times(r)
        }),
{
    window_holds_exactly::<N, D>(m, inputs);
    outputs_measure_window::<N, D>(m, inputs);
}

/// An indicator starts, and starts again after a reset, without points, with the span that it
/// was made for.
pub proof fn starts_without_points<N: Number, D: BucketDetector>(
    duration: Duration,
    detector: D,
    m: MaxDrawdownModel<N, D>,
)
    ensures
        ({
            let start = MaxDrawdown::<N, D>::initial(duration, detector);
            let again = MaxDrawdown::<N, D>::cleared(m);
            &&& start.window.len() == 0
            &&& start.parts.older.len() == 0 && start.parts.newer.len() == 0
            &&& start.duration == duration
            &&& start.detector == detector
            &&& again.window.len() == 0
            &&& again.parts.older.len() == 0 && again.parts.newer.len() == 0
            &&& again.duration == m.duration
            &&& again.detector == m.detector.spec_fresh()
        }),
{
}

/// A batch gives what its points give one after the other.
pub proof fn batch_is_one_by_one<N: Number, D: BucketDetector>(
    m: MaxDrawdownModel<N, D>,
    inputs: Series<N>,
)
    ensures
        MaxDrawdown::<N, D>::batch(m, inputs).0 == state_after::<MaxDrawdown<N, D>, N>(m, inputs),
        MaxDrawdown::<N, D>::batch(m, inputs).1 == outputs::<MaxDrawdown<N, D>, N>(m, inputs),
{
}

/// From the first point on, with positive values in any order of their times, every output is a
/// hundred times the largest fall within the window.
pub proof fn outputs_measure_window<N: PositiveRatios, D: BucketDetector>(
    m: MaxDrawdownModel<N, D>,
    inputs: Seq<(Timestamp, N)>,
)
    requires
        m.window.len() == 0,
        m.parts.older.len() == 0,
        m.parts.newer.len() == 0,
        inputs.len() > 0,
        forall|i: int| 0 <= i < inputs.len() ==> positive((#[trigger] inputs[i]).1),
    ensures
        exists|r: N|
            #[trigger] largest_fall(state_after::<MaxDrawdown<N, D>, N>(m, inputs).window, r)
                && outputs::<MaxDrawdown<N, D>, N>(m, inputs).last() == N::spec_of_usize(
                100,
            ).spec_times(r),
{
    let n = inputs.len() - 1;
    let before = inputs.take(n);
    assert(before =~= inputs.drop_last());
    assert(m.parts.contents() =~= values_of(sealed(m.window)));
    assert(in_step(m));
    assert(all_positive(inputs));
    window_stays_positive::<N, D>(m, inputs);
    aggregate_in_step_throughout::<N, D>(m, before);
    let window = state_after::<MaxDrawdown<N, D>, N>(m, inputs).window;
    let values = values_of(window);
    assert forall|j: int| 0 <= j < values.len() implies positive(#[trigger] values[j]) by {
        assert(positive(window[j].1));
    }
    positive_drawdown_is_definite(values);
    output_is_largest_fall(state_after::<MaxDrawdown<N, D>, N>(m, before), inputs[n]);
}

/// The label gives the span in whole seconds.
pub proof fn label_tells_span<N: Number, D: BucketDetector>(duration: Duration) -> (digits: Seq<
    char,
>)
    ensures
        MaxDrawdown::<N, D>::label_of(duration) == "MaxDrawdown("@ + digits + "s)"@,
        reads_as(digits) == duration.secs,
{
    decimal_reads_back(duration.secs as nat);
    decimal(duration.secs as nat)
}

/// An indicator made of stored parts has the span, the points and the detector that were stored.
pub proof fn restored_keeps_parts<N: Number, D: BucketDetector>(
    duration: Duration,
    window: Points<N>,
    detector: D,
)
    ensures
        MaxDrawdown::<N, D>::restored(duration, window, detector).duration == duration,
        MaxDrawdown::<N, D>::restored(duration, window, detector).window == window,
        MaxDrawdown::<N, D>::restored(duration, window, detector).detector == detector,
{
}

} // verus!
