//! The highest value within a span of time.
//!
//! Beside the window of points stands a second, shorter queue of candidates: the points
//! that can still be the maximum, in the order of their times and with values that fall
//! from front to back.  Its front is the maximum over all points but the newest, so the
//! maximum is known without a scan of the window.
use crate::errors::{Result, TaError};
use crate::indicators::held::{
    having_seen, held, holds_exactly, holds_step, lists_held, moves_on, moving_on_keeps_recent,
    recent, room_moves_on,
};
use crate::indicators::window::{
    copy_window, cutoff, evict, evicted, evicted_all, evicted_in_order, evicted_push,
    evicted_sealed, expired, expired_count, expired_count_bounds, front_in_order, in_order,
    limit_at, sealed, window_moves_on, with_room, Points,
};
use crate::number::{positive, zero, Number, TotalOrder};
use crate::text::{decimal, decimal_reads_back, push_decimal, reads_as};
use crate::time::{BucketDetector, Duration, ForgetfulDetector, Timestamp, TWO_WEEKS_SECS};
use crate::traits::{
    all_zero, keeps_not_negative, keeps_positive, keeps_zero, looped, next_each, none_negative,
    outputs, state_after, Forgetful, Indicator, Next, NextBatch, Outputs, Reset, Series,
};
use std::collections::VecDeque;
use vstd::prelude::*;
use vstd::string::*;

verus! {

/// A window with more points than this is thinned.
pub const MAX_WINDOW_SIZE: usize = 500;

/// The oldest points, all of which thinning keeps.
pub const KEEP_OLDEST: usize = 10;

/// The most recent points, all of which thinning keeps.
pub const KEEP_RECENT: usize = 100;

/// What is left of the candidates `s` when those at the back with values of at most `x`
/// leave.
pub open spec fn trimmed<N: Number>(s: Points<N>, x: N) -> Points<N>
    decreases s.len(),
{
    if s.len() > 0 && s.last().1.spec_at_most(x) {
        trimmed(s.drop_last(), x)
    } else {
        s
    }
}

/// The candidates when `point` joins them: those that it does not dominate, and it.
pub open spec fn joined<N: Number>(s: Points<N>, point: (Timestamp, N)) -> Points<N> {
    trimmed(s, point.1).push(point)
}

/// The candidates among the points `s`.
pub open spec fn candidates<N: Number>(s: Points<N>) -> Points<N>
    decreases s.len(),
{
    if s.len() == 0 {
        s
    } else {
        joined(candidates(s.drop_last()), s.last())
    }
}

/// The highest value in `s`, by a scan from front to back.
pub open spec fn scan_max<N: Number>(s: Points<N>) -> N
    decreases s.len(),
{
    if s.len() == 0 {
        N::spec_lowest()
    } else {
        scan_max(s.drop_last()).spec_greater(s.last().1)
    }
}

/// Every other point of `s`, from the first on.
pub open spec fn every_other<N>(s: Points<N>) -> Points<N> {
    Seq::new((s.len() + 1) / 2, |i: int| s[2 * i])
}

/// The window after thinning.  One that is too long keeps its oldest and its most recent
/// points, and every other point in between.
pub open spec fn thinned<N>(s: Points<N>) -> Points<N> {
    if s.len() <= MAX_WINDOW_SIZE {
        s
    } else {
        let recent = s.len() - KEEP_RECENT;
        s.take(KEEP_OLDEST as int) + every_other(s.subrange(KEEP_OLDEST as int, recent)) + s.skip(
            recent,
        )
    }
}

/// The candidates to go on with: where there are none although the window holds older
/// points, they are worked out anew.
pub open spec fn refreshed<N: Number>(window: Points<N>, mono: Points<N>) -> Points<N> {
    if mono.len() == 0 && window.len() > 1 {
        candidates(sealed(window))
    } else {
        mono
    }
}

/// The greater of the best candidate and the newest value.
pub open spec fn best<N: Number>(mono: Points<N>, newest: N) -> N {
    if mono.len() == 0 {
        newest
    } else {
        mono[0].1.spec_greater(newest)
    }
}

/// The state of a [`Maximum`].
pub struct MaximumModel<N, D> {
    pub duration: Duration,
    pub window: Points<N>,
    pub mono: Points<N>,
    pub detector: D,
}

/// The highest value within the last `duration`.
#[derive(Debug, Clone)]
pub struct Maximum<N, D> {
    duration: Duration,
    window: VecDeque<(Timestamp, N)>,
    detector: D,
    /// The length of `duration` in nanoseconds, once it has been needed.
    cached_window: Option<u128>,
    /// The candidates among all points but the newest.  After [`Maximum::restore`] they
    /// are missing until the next point comes in.
    mono: VecDeque<(Timestamp, N)>,
}

impl<N: Number, D: BucketDetector> Maximum<N, D> {
    /// The state without the points.
    pub open spec fn initial(duration: Duration, detector: D) -> MaximumModel<N, D> {
        MaximumModel { duration, window: Seq::empty(), mono: Seq::empty(), detector }
    }

    /// The state that the parts which are kept make up.
    pub open spec fn restored(duration: Duration, window: Points<N>, detector: D) -> MaximumModel<
        N,
        D,
    > {
        MaximumModel { duration, window, mono: candidates(sealed(window)), detector }
    }

    /// A copy of the points in the window, oldest first.
    pub fn get_window(&self) -> (r: VecDeque<(Timestamp, N)>)
        requires
            self.wf(),
        ensures
            r@ == self.model().window,
    {
        copy_window(&self.window)
    }

    /// The maximum over the last `duration`, which must not be empty.
    pub fn new(duration: Duration, detector: D) -> (r: Result<Self>)
        ensures
            r is Err <==> duration.spec_nanos() == 0,
            r is Ok <==> duration.secs > 0 || duration.subsec_nanos > 0,
            r is Err ==> r->Err_0 == TaError::InvalidParameter,
            r is Ok ==> r->Ok_0.wf() && r->Ok_0.model() == Self::initial(duration, detector),
    {
        if duration.is_zero() {
            Err(TaError::InvalidParameter)
        } else {
            Ok(
                Maximum {
                    duration,
                    window: VecDeque::new(),
                    detector,
                    cached_window: None,
                    mono: VecDeque::new(),
                },
            )
        }
    }

    /// The maximum over the last 14 days.
    pub fn with_default_duration(detector: D) -> (r: Self)
        ensures
            r.wf(),
            r.model().duration.secs == 14 * 24 * 60 * 60,
            r.model().duration.subsec_nanos == 0,
            r.model() == Self::initial(
                (Duration { secs: TWO_WEEKS_SECS, subsec_nanos: 0 }),
                detector,
            ),
    {
        Maximum {
            duration: Duration::from_secs(TWO_WEEKS_SECS),
            window: VecDeque::new(),
            detector,
            cached_window: None,
            mono: VecDeque::new(),
        }
    }

    /// An indicator from the parts that are kept when one is stored.  The candidates are
    /// worked out anew.
    pub fn restore(duration: Duration, window: VecDeque<(Timestamp, N)>, detector: D) -> (r: Self)
        ensures
            r.wf(),
            r.model() == Self::restored(duration, window@, detector),
    {
        let r = Maximum { duration, window, detector, cached_window: None, mono: VecDeque::new() };
        proof {
            assert(window@.len() <= 1 ==> candidates(sealed(window@)) =~= Seq::empty());
        }
        r
    }

    /// The parts to keep when an indicator is stored.
    pub fn into_parts(self) -> (r: (Duration, VecDeque<(Timestamp, N)>, D))
        requires
            self.wf(),
        ensures
            r.0 == self.model().duration,
            r.1@ == self.model().window,
            r.2 == self.model().detector,
    {
        (self.duration, self.window, self.detector)
    }

    /// The highest value in the window, by a scan.
    pub fn find_max_value(&self) -> (r: N)
        requires
            self.wf(),
        ensures
            r == scan_max(self.model().window),
    {
        let mut found = N::lowest();
        let mut i: usize = 0;
        proof {
            assert(self.window@.take(0) =~= Seq::empty());
        }
        while i < self.window.len()
            invariant
                i <= self.window@.len(),
                found == scan_max(self.window@.take(i as int)),
            decreases self.window@.len() - i,
        {
            found = found.greater(self.window[i].1);
            i = i + 1;
            proof {
                assert(self.window@.take(i as int).drop_last() =~= self.window@.take(i - 1));
            }
        }
        proof {
            assert(self.window@.take(i as int) =~= self.window@);
        }
        found
    }

    /// What an indicator over `duration` is, in writing.
    pub open spec fn label_of(duration: Duration) -> Seq<char> {
        "MAX("@ + decimal(duration.secs as nat) + "s)"@
    }

    /// What the indicator is, in writing.
    pub fn label(&self) -> (r: String)
        requires
            self.wf(),
        ensures
            r@ == "MAX("@ + decimal(self.model().duration.secs as nat) + "s)"@,
            r@ == Self::label_of(self.model().duration),
    {
        let mut text = String::new();
        text.append("MAX(");
        push_decimal(&mut text, self.duration.secs);
        text.append("s)");
        proof {
            assert(text@ =~= "MAX("@ + decimal(self.duration.secs as nat) + "s)"@);
        }
        text
    }
}

/// Lets `point` join the candidates.
fn join<N: Number>(mono: &mut VecDeque<(Timestamp, N)>, point: (Timestamp, N))
    ensures
        final(mono)@ == joined(old(mono)@, point),
{
    let ghost start = mono@;
    while mono.len() > 0 && mono[mono.len() - 1].1.at_most(point.1)
        invariant
            trimmed(mono@, point.1) == trimmed(start, point.1),
        decreases mono@.len(),
    {
        let ghost before = mono@;
        mono.pop_back();
        proof {
            assert(mono@ =~= before.drop_last());
        }
    }
    mono.push_back(point);
}

/// The candidates among the first `count` points of a window.
fn collect_candidates<N: Number>(window: &VecDeque<(Timestamp, N)>, count: usize) -> (r: VecDeque<
    (Timestamp, N),
>)
    requires
        count <= window@.len(),
    ensures
        r@ == candidates(window@.take(count as int)),
{
    let mut mono: VecDeque<(Timestamp, N)> = VecDeque::new();
    let mut i: usize = 0;
    proof {
        assert(window@.take(0) =~= Seq::empty());
    }
    while i < count
        invariant
            i <= count <= window@.len(),
            mono@ == candidates(window@.take(i as int)),
        decreases count - i,
    {
        join(&mut mono, window[i]);
        i = i + 1;
        proof {
            assert(window@.take(i as int).drop_last() =~= window@.take(i - 1));
        }
    }
    mono
}

/// Thins a window that is too long.
fn thin<N: Number>(window: &VecDeque<(Timestamp, N)>) -> (r: VecDeque<(Timestamp, N)>)
    requires
        window@.len() > MAX_WINDOW_SIZE,
    ensures
        r@ == thinned(window@),
{
    let len = window.len();
    let middle_end: usize = len - KEEP_RECENT;
    let mut kept: VecDeque<(Timestamp, N)> = VecDeque::with_capacity(MAX_WINDOW_SIZE);
    let mut i: usize = 0;
    while i < KEEP_OLDEST
        invariant
            i <= KEEP_OLDEST < len,
            len == window@.len(),
            kept@ == window@.take(i as int),
        decreases KEEP_OLDEST - i,
    {
        kept.push_back(window[i]);
        i = i + 1;
        proof {
            assert(kept@ =~= window@.take(i as int));
        }
    }
    let ghost oldest = kept@;
    let ghost middle = window@.subrange(KEEP_OLDEST as int, middle_end as int);
    let mut keep = true;
    proof {
        assert(oldest + every_other(middle).take(0) =~= oldest);
    }
    while i < middle_end
        invariant
            KEEP_OLDEST <= i <= middle_end < len,
            len == window@.len(),
            middle == window@.subrange(KEEP_OLDEST as int, middle_end as int),
            keep == ((i - KEEP_OLDEST) % 2 == 0),
            kept@ == oldest + every_other(middle).take((i - KEEP_OLDEST + 1) / 2),
        decreases middle_end - i,
    {
        let ghost at = i - KEEP_OLDEST;
        let ghost before = kept@;
        if keep {
            kept.push_back(window[i]);
            proof {
                assert(every_other(middle)[at / 2] == middle[at]);
                assert(middle[at] == window@[i as int]);
                assert(kept@ =~= oldest + every_other(middle).take((at + 2) / 2));
            }
        }
        keep = !keep;
        i = i + 1;
    }
    proof {
        assert(every_other(middle).take((middle_end - KEEP_OLDEST + 1) / 2) =~= every_other(middle));
    }
    let ghost front = kept@;
    proof {
        assert(front + window@.subrange(middle_end as int, middle_end as int) =~= front);
    }
    while i < len
        invariant
            middle_end <= i <= len,
            len == window@.len(),
            kept@ == front + window@.subrange(middle_end as int, i as int),
        decreases len - i,
    {
        kept.push_back(window[i]);
        i = i + 1;
        proof {
            assert(kept@ =~= front + window@.subrange(middle_end as int, i as int));
        }
    }
    proof {
        assert(window@.subrange(middle_end as int, len as int) =~= window@.skip(middle_end as int));
        assert(kept@ =~= thinned(window@));
    }
    kept
}

impl<N: Number, D: BucketDetector> Maximum<N, D> {
    /// Works the candidates out anew from all points but the newest.
    fn rebuild_mono(&mut self)
        ensures
            *final(self) == (Maximum { mono: final(self).mono, ..*old(self) }),
            final(self).mono@ == candidates(sealed(old(self).window@)),
    {
        let count: usize = if self.window.len() == 0 {
            0
        } else {
            self.window.len() - 1
        };
        proof {
            assert(self.window@.take(count as int) =~= sealed(self.window@));
        }
        self.mono = collect_candidates(&self.window, count);
    }

    /// Lets the points leave that are too old at time `t`, from the window and from the
    /// candidates.
    fn remove_old_data(&mut self, t: Timestamp)
        requires
            old(self).cache_holds(),
        ensures
            final(self).cache_holds(),
            final(self).duration == old(self).duration,
            final(self).detector == old(self).detector,
            final(self).window@ == evicted(old(self).window@, cutoff(t, old(self).duration)),
            final(self).mono@ == evicted(old(self).mono@, cutoff(t, old(self).duration)),
    {
        let span = match self.cached_window {
            Some(span) => span,
            None => self.duration.as_nanos(),
        };
        self.cached_window = Some(span);
        let limit = limit_at(t, span);
        evict(&mut self.window, limit);
        evict(&mut self.mono, limit);
    }

    /// Thins the window if it has grown too long.
    fn thin_window(&mut self)
        ensures
            *final(self) == (Maximum { window: final(self).window, ..*old(self) }),
            final(self).window@ == thinned(old(self).window@),
    {
        if self.window.len() <= MAX_WINDOW_SIZE {
            return;
        }
        self.window = thin(&self.window);
    }

    /// The cached length, where there is one, is the length of the span.
    pub closed spec fn cache_holds(&self) -> bool {
        match self.cached_window {
            Some(span) => span == self.duration.spec_nanos(),
            None => true,
        }
    }
}

impl<N: Number, D: BucketDetector> Indicator for Maximum<N, D> {
    type Model = MaximumModel<N, D>;

    closed spec fn wf(&self) -> bool {
        self.cache_holds()
    }

    closed spec fn model(&self) -> MaximumModel<N, D> {
        MaximumModel {
            duration: self.duration,
            window: self.window@,
            mono: refreshed(self.window@, self.mono@),
            detector: self.detector,
        }
    }
}

/// The window and the candidates once the newest point has been put aside for one at `t`:
/// what is too old has left, and the newest point is either dropped, because the next one
/// replaces it, or has joined the candidates.
pub open spec fn made_room<N: Number, D: BucketDetector>(
    m: MaximumModel<N, D>,
    t: Timestamp,
) -> (Points<N>, Points<N>) {
    let limit = cutoff(t, m.duration);
    let window = evicted(m.window, limit);
    let mono = evicted(m.mono, limit);
    if m.detector.spec_same_bucket(t) {
        (sealed(window), mono)
    } else if window.len() > 0 {
        (window, joined(mono, window.last()))
    } else {
        (window, mono)
    }
}

impl<N: Number, D: BucketDetector> Next<N> for Maximum<N, D> {
    type Output = N;

    open spec fn step(m: MaximumModel<N, D>, input: (Timestamp, N)) -> (MaximumModel<N, D>, N) {
        let (older, mono) = made_room(m, input.0);
        let full = older.push(input);
        let window = thinned(full);
        let mono = if window.len() == full.len() {
            mono
        } else {
            candidates(sealed(window))
        };
        (
            MaximumModel {
                duration: m.duration,
                window,
                mono: refreshed(window, mono),
                detector: m.detector.spec_seen(input.0),
            },
            best(mono, input.1),
        )
    }

    fn next(&mut self, input: (Timestamp, N)) -> (r: N) {
        let (timestamp, value) = input;
        if self.mono.len() == 0 && self.window.len() > 1 {
            self.rebuild_mono();
        }
        let ghost m = old(self).model();
        proof {
            assert(self.mono@ == m.mono);
        }
        let should_replace = self.detector.should_replace(timestamp);
        self.remove_old_data(timestamp);
        let newest = self.window.len();
        if should_replace {
            if newest > 0 {
                self.window.pop_back();
                proof {
                    assert(self.window@ =~= made_room(m, timestamp).0);
                }
            }
        } else if newest > 0 {
            let point = self.window[newest - 1];
            join(&mut self.mono, point);
        }
        self.window.push_back((timestamp, value));
        let ghost full = self.window@;
        proof {
            assert(full =~= made_room(m, timestamp).0.push(input));
        }
        let len_before = self.window.len();
        self.thin_window();
        if self.window.len() != len_before {
            self.rebuild_mono();
        }
        if self.mono.len() > 0 {
            self.mono[0].1.greater(value)
        } else {
            value
        }
    }
}

impl<N: Number, D: BucketDetector> NextBatch<N> for Maximum<N, D> {
    open spec fn batch(m: MaximumModel<N, D>, inputs: Series<N>) -> (MaximumModel<N, D>, Outputs<N>) {
        looped::<Self, N>(m, inputs)
    }

    fn next_batch(&mut self, inputs: &[(Timestamp, N)]) -> (r: Vec<N>) {
        next_each(self, inputs)
    }
}

impl<N: Number, D: BucketDetector> Reset for Maximum<N, D> {
    open spec fn cleared(m: MaximumModel<N, D>) -> MaximumModel<N, D> {
        Self::initial(m.duration, m.detector.spec_fresh())
    }

    fn reset(&mut self) {
        self.window.clear();
        self.mono.clear();
        self.detector.reset();
    }
}

/// Whether the window is in order and the candidates are those among all points but the
/// newest.
pub open spec fn in_step<N: Number, D>(m: MaximumModel<N, D>) -> bool {
    &&& in_order(m.window)
    &&& m.mono == candidates(sealed(m.window))
}

/// Whether a point at `t` is no earlier than the points in the window `s`.
pub open spec fn follows<N>(s: Points<N>, t: Timestamp) -> bool {
    s.len() > 0 ==> s.last().0.spec_nanos() <= t.spec_nanos()
}

/// What trimming leaves is a front part; all that it takes off is at most `x`, and the
/// last that it leaves is not.
proof fn trimmed_bounds<N: Number>(s: Points<N>, x: N)
    ensures
        trimmed(s, x).len() <= s.len(),
        trimmed(s, x) == s.take(trimmed(s, x).len() as int),
        forall|i: int| trimmed(s, x).len() <= i < s.len() ==> (#[trigger] s[i]).1.spec_at_most(x),
        trimmed(s, x).len() > 0 ==> !s[trimmed(s, x).len() - 1].1.spec_at_most(x),
    decreases s.len(),
{
    if s.len() > 0 && s.last().1.spec_at_most(x) {
        let rest = s.drop_last();
        trimmed_bounds(rest, x);
        let kept = trimmed(s, x).len() as int;
        assert(s.take(kept) =~= rest.take(kept));
        assert forall|i: int| kept <= i < s.len() implies (#[trigger] s[i]).1.spec_at_most(x) by {
            if i < rest.len() {
                assert(rest[i] == s[i]);
            }
        }
    } else {
        assert(s.take(s.len() as int) =~= s);
    }
}

/// The values of candidates fall strictly from front to back, and the front is the maximum.
pub proof fn candidates_front<N: TotalOrder>(s: Points<N>)
    ensures
        candidates(s).len() == 0 <==> s.len() == 0,
        s.len() > 0 ==> candidates(s)[0].1 == scan_max(s),
        forall|i: int, j: int|
            0 <= i < j < candidates(s).len() ==> !(#[trigger] candidates(s)[i]).1.spec_at_most(
                (#[trigger] candidates(s)[j]).1,
            ),
    decreases s.len(),
{
    N::order_laws();
    if s.len() > 0 {
        let before = candidates(s.drop_last());
        let x = s.last().1;
        candidates_front(s.drop_last());
        trimmed_bounds(before, x);
        let kept = trimmed(before, x);
        assert(candidates(s) == kept.push(s.last()));
        assert forall|i: int, j: int| 0 <= i < j < candidates(s).len() implies !(
        #[trigger] candidates(s)[i]).1.spec_at_most((#[trigger] candidates(s)[j]).1) by {
            assert(candidates(s)[i] == before[i]);
            if j < kept.len() {
                assert(candidates(s)[j] == before[j]);
            } else {
                let k = kept.len() - 1;
                assert(!before[k].1.spec_at_most(x));
                if i < k {
                    assert(!before[i].1.spec_at_most(before[k].1));
                }
            }
        }
        assert(scan_max(s) == scan_max(s.drop_last()).spec_greater(x));
        if kept.len() > 0 {
            assert(candidates(s)[0] == before[0]);
            let k = kept.len() - 1;
            if 0 < k {
                assert(!before[0].1.spec_at_most(before[k].1));
            }
            assert(!before[0].1.spec_at_most(x));
        } else {
            assert(candidates(s)[0] == s.last());
            if before.len() > 0 {
                assert(before[0].1.spec_at_most(x));
            } else {
                assert(N::spec_lowest().spec_at_most(x));
            }
        }
    }
}

/// Candidates are points of the window.
proof fn candidates_within<N: Number>(s: Points<N>)
    ensures
        forall|i: int| 0 <= i < candidates(s).len() ==> s.contains(#[trigger] candidates(s)[i]),
    decreases s.len(),
{
    if s.len() > 0 {
        let older = s.drop_last();
        let before = candidates(older);
        candidates_within(older);
        trimmed_bounds(before, s.last().1);
        assert forall|i: int| 0 <= i < candidates(s).len() implies s.contains(
            #[trigger] candidates(s)[i],
        ) by {
            if i < candidates(s).len() - 1 {
                assert(candidates(s)[i] == before[i]);
                assert(older.contains(before[i]));
                let k = choose|k: int| 0 <= k < older.len() && older[k] == before[i];
                assert(s[k] == before[i]);
            } else {
                assert(s[s.len() - 1] == candidates(s)[i]);
            }
        }
    }
}

/// Candidates come in the order of their times where the points do.
pub proof fn candidates_in_order<N: Number>(s: Points<N>)
    requires
        in_order(s),
    ensures
        in_order(candidates(s)),
    decreases s.len(),
{
    if s.len() > 0 {
        let older = s.drop_last();
        let before = candidates(older);
        let last = s.len() - 1;
        front_in_order(s);
        candidates_in_order(older);
        candidates_within(older);
        trimmed_bounds(before, s.last().1);
        let all = candidates(s);
        assert forall|i: int, j: int| 0 <= i <= j < all.len() implies (
        #[trigger] all[i]).0.spec_nanos() <= (#[trigger] all[j]).0.spec_nanos() by {
            if j < all.len() - 1 {
                assert(all[i] == before[i] && all[j] == before[j]);
            } else if i < j {
                assert(all[i] == before[i]);
                assert(older.contains(before[i]));
                let k = choose|k: int| 0 <= k < older.len() && older[k] == before[i];
                assert(s[k] == before[i]);
                assert(s[k].0.spec_nanos() <= s[last].0.spec_nanos());
            }
        }
    }
}

/// Eviction at the front and trimming at the back do not get in each other's way.
proof fn evicted_trimmed<N: Number>(s: Points<N>, x: N, limit: int)
    ensures
        evicted(trimmed(s, x), limit) == trimmed(evicted(s, limit), x),
    decreases s.len(),
{
    expired_count_bounds(s, limit);
    if s.len() > 0 && s.last().1.spec_at_most(x) {
        let rest = s.drop_last();
        evicted_trimmed(rest, x, limit);
        evicted_sealed(s, limit);
        if evicted(s, limit).len() == 0 {
            assert(evicted(rest, limit).len() == 0);
            assert(evicted(rest, limit) =~= evicted(s, limit));
        }
    } else if s.len() > 0 {
        evicted_sealed(s, limit);
    }
}

/// The candidates among the points that stay are the candidates that stay.
proof fn evicted_candidates<N: Number>(s: Points<N>, limit: int)
    requires
        in_order(s),
    ensures
        evicted(candidates(s), limit) == candidates(evicted(s, limit)),
    decreases s.len(),
{
    if s.len() == 0 {
        assert(evicted(s, limit) =~= s);
    } else {
        let older = s.drop_last();
        let point = s.last();
        if expired(point, limit) {
            assert forall|i: int| 0 <= i < s.len() implies expired(#[trigger] s[i], limit) by {
                assert(s[i].0.spec_nanos() <= s[s.len() - 1].0.spec_nanos());
            }
            evicted_all(s, limit);
            candidates_within(s);
            let all = candidates(s);
            assert forall|i: int| 0 <= i < all.len() implies expired(#[trigger] all[i], limit) by {
                assert(s.contains(all[i]));
                let k = choose|k: int| 0 <= k < s.len() && s[k] == all[i];
                assert(expired(s[k], limit));
            }
            evicted_all(all, limit);
            assert(candidates(evicted(s, limit)) =~= evicted(all, limit));
        } else {
            front_in_order(s);
            evicted_candidates(older, limit);
            assert(s =~= older.push(point));
            evicted_push(older, point, limit);
            let before = candidates(older);
            evicted_push(trimmed(before, point.1), point, limit);
            evicted_trimmed(before, point.1, limit);
            let stay = evicted(older, limit);
            assert(stay.push(point).drop_last() =~= stay);
            assert(evicted(s, limit).last() == point);
        }
    }
}

/// Where in a window of `len` points the point comes from that thinning puts at `i`.
spec fn thinned_source(len: int, i: int) -> int {
    let middle = (len - KEEP_RECENT - KEEP_OLDEST + 1) / 2;
    if len <= MAX_WINDOW_SIZE || i < KEEP_OLDEST {
        i
    } else if i < KEEP_OLDEST + middle {
        KEEP_OLDEST + 2 * (i - KEEP_OLDEST)
    } else {
        len - KEEP_RECENT + (i - KEEP_OLDEST - middle)
    }
}

/// Thinning picks points and keeps them in their order.
proof fn thinned_picks<N>(s: Points<N>)
    ensures
        thinned(s).len() <= s.len(),
        s.len() > 0 ==> thinned(s).len() > 0 && thinned(s).last() == s.last(),
        forall|i: int|
            0 <= i < thinned(s).len() ==> 0 <= thinned_source(s.len() as int, i) < s.len()
                && #[trigger] thinned(s)[i] == s[thinned_source(s.len() as int, i)],
        forall|i: int, j: int|
            0 <= i <= j < thinned(s).len() ==> #[trigger] thinned_source(s.len() as int, i)
                <= #[trigger] thinned_source(s.len() as int, j),
{
}

/// Thinning never adds to a window: the points that it leaves are points of the window,
/// in their order, and the newest is among them.
pub proof fn thinning_keeps_order<N>(s: Points<N>)
    ensures
        in_order(s) ==> in_order(thinned(s)),
        s.len() > 0 ==> thinned(s).len() > 0 && thinned(s).last() == s.last(),
        forall|i: int| 0 <= i < thinned(s).len() ==> s.contains(#[trigger] thinned(s)[i]),
{
    thinned_picks(s);
    let n = s.len() as int;
    if in_order(s) {
        assert forall|i: int, j: int| 0 <= i <= j < thinned(s).len() implies (
        #[trigger] thinned(s)[i]).0.spec_nanos() <= (#[trigger] thinned(s)[j]).0.spec_nanos() by {
            let (a, b) = (thinned_source(n, i), thinned_source(n, j));
            assert(a <= b);
            assert(s[a].0.spec_nanos() <= s[b].0.spec_nanos());
        }
    }
    assert forall|i: int| 0 <= i < thinned(s).len() implies s.contains(#[trigger] thinned(s)[i]) by {
        assert(s[thinned_source(n, i)] == thinned(s)[i]);
    }
}

/// A scan gives a value of the window that no other exceeds, and the lowest value of all
/// for a window without points.
pub proof fn scan_max_is_maximum<N: TotalOrder>(s: Points<N>)
    ensures
        forall|i: int| 0 <= i < s.len() ==> (#[trigger] s[i]).1.spec_at_most(scan_max(s)),
        s.len() > 0 ==> exists|i: int| 0 <= i < s.len() && (#[trigger] s[i]).1 == scan_max(s),
        s.len() == 0 ==> scan_max(s) == N::spec_lowest(),
    decreases s.len(),
{
    N::order_laws();
    if s.len() > 0 {
        let older = s.drop_last();
        scan_max_is_maximum(older);
        assert forall|i: int| 0 <= i < s.len() implies (#[trigger] s[i]).1.spec_at_most(
            scan_max(s),
        ) by {
            if i < older.len() {
                assert(older[i] == s[i]);
                assert(older[i].1.spec_at_most(scan_max(older)));
            }
        }
        if scan_max(s) == s.last().1 {
            assert(s[s.len() - 1].1 == scan_max(s));
        } else {
            assert(older.len() > 0) by {
                if older.len() == 0 {
                    assert(N::spec_lowest().spec_at_most(s.last().1));
                }
            }
            let k = choose|k: int| 0 <= k < older.len() && (#[trigger] older[k]).1 == scan_max(older);
            assert(s[k].1 == scan_max(s));
        }
    }
}

/// The candidates of what is left when room has been made for a point.
proof fn made_room_in_step<N: Number, D: BucketDetector>(m: MaximumModel<N, D>, t: Timestamp)
    requires
        in_step(m),
    ensures
        in_order(made_room(m, t).0),
        follows(m.window, t) ==> follows(made_room(m, t).0, t),
        made_room(m, t).1 == candidates(made_room(m, t).0),
{
    let limit = cutoff(t, m.duration);
    let window = evicted(m.window, limit);
    let older = sealed(m.window);
    expired_count_bounds(m.window, limit);
    evicted_in_order(m.window, limit);
    front_in_order(m.window);
    evicted_candidates(older, limit);
    if m.window.len() > 0 {
        evicted_sealed(m.window, limit);
    }
    if window.len() > 0 {
        assert(evicted(m.mono, limit) == candidates(sealed(window)));
        let room = sealed(window);
        assert forall|i: int| 0 <= i < room.len() implies #[trigger] room[i] == window[i] by {
        }
        front_in_order(window);
        if room.len() > 0 {
            assert(room.last() == window[room.len() - 1]);
            assert(window[room.len() - 1].0.spec_nanos() <= window[window.len() - 1].0.spec_nanos());
        }
    } else {
        assert(evicted(older, limit).len() == 0);
        assert(evicted(m.mono, limit) =~= Seq::empty());
        assert(candidates(window) =~= Seq::empty());
        assert(sealed(window) =~= window);
    }
}

/// The maximum without a scan is the maximum by a scan: as long as points come in the
/// order of their times, every output is the highest value in the window, the candidates
/// stay those among all points but the newest, and the newest point is the one that came
/// in last.
pub proof fn maximum_is_scan<N: TotalOrder, D: BucketDetector>(
    m: MaximumModel<N, D>,
    input: (Timestamp, N),
)
    requires
        in_step(m),
        follows(m.window, input.0),
    ensures
        in_step(Maximum::<N, D>::step(m, input).0),
        Maximum::<N, D>::step(m, input).1 == scan_max(Maximum::<N, D>::step(m, input).0.window),
        Maximum::<N, D>::step(m, input).0.window.len() > 0,
        Maximum::<N, D>::step(m, input).0.window.last() == input,
{
    N::order_laws();
    let (older, mono) = made_room(m, input.0);
    made_room_in_step(m, input.0);
    let full = older.push(input);
    assert(sealed(full) =~= older);
    assert(in_order(full)) by {
        assert forall|i: int, j: int| 0 <= i <= j < full.len() implies (
        #[trigger] full[i]).0.spec_nanos() <= (#[trigger] full[j]).0.spec_nanos() by {
            if j < older.len() {
                assert(full[i] == older[i] && full[j] == older[j]);
            } else if i < older.len() {
                assert(full[i] == older[i]);
                assert(older[i].0.spec_nanos() <= older[older.len() - 1].0.spec_nanos());
            }
        }
    }
    thinning_keeps_order(full);
    let window = thinned(full);
    let raw = if window.len() == full.len() {
        mono
    } else {
        candidates(sealed(window))
    };
    thinned_picks(full);
    assert(window.len() == full.len() ==> window == full);
    assert(raw == candidates(sealed(window)));
    candidates_front(sealed(window));
    assert(window.last() == input);
    if sealed(window).len() == 0 {
        assert(scan_max(sealed(window)) == N::spec_lowest());
    }
}

/// The candidates are there exactly when the window holds an older point.
pub proof fn candidates_iff_two_points<N: TotalOrder, D: BucketDetector>(m: MaximumModel<N, D>)
    requires
        in_step(m),
    ensures
        m.mono.len() > 0 <==> m.window.len() >= 2,
{
    candidates_front(sealed(m.window));
}

/// Storing an indicator and restoring it changes nothing: the state is made up again from
/// the parts that are kept.
pub proof fn restored_is_stored<N: Number, D: BucketDetector>(m: MaximumModel<N, D>)
    requires
        in_step(m),
    ensures
        Maximum::<N, D>::restored(m.duration, m.window, m.detector) == m,
{
}

/// Over a whole series in the order of its times, every output is the highest value that
/// the window holds at that moment.
pub proof fn maximum_is_scan_throughout<N: TotalOrder, D: BucketDetector>(
    m: MaximumModel<N, D>,
    inputs: Seq<(Timestamp, N)>,
)
    requires
        in_step(m),
        in_order(inputs),
        inputs.len() > 0 ==> follows(m.window, inputs[0].0),
    ensures
        in_step(state_after::<Maximum<N, D>, N>(m, inputs)),
        forall|i: int|
            0 <= i < inputs.len() ==> #[trigger] outputs::<Maximum<N, D>, N>(m, inputs)[i]
                == scan_max(state_after::<Maximum<N, D>, N>(m, inputs.take(i + 1)).window),
        inputs.len() > 0 ==> state_after::<Maximum<N, D>, N>(m, inputs).window.len() > 0
            && state_after::<Maximum<N, D>, N>(m, inputs).window.last() == inputs.last(),
    decreases inputs.len(),
{
    if inputs.len() > 0 {
        let before = inputs.drop_last();
        let n = before.len() as int;
        front_in_order(inputs);
        maximum_is_scan_throughout::<N, D>(m, before);
        let m1 = state_after::<Maximum<N, D>, N>(m, before);
        if n > 0 {
            assert(inputs[n - 1].0.spec_nanos() <= inputs[n].0.spec_nanos());
        }
        maximum_is_scan(m1, inputs.last());
        assert forall|i: int| 0 <= i < inputs.len() implies #[trigger] outputs::<
            Maximum<N, D>,
            N,
        >(m, inputs)[i] == scan_max(
            state_after::<Maximum<N, D>, N>(m, inputs.take(i + 1)).window,
        ) by {
            if i < n {
                assert(inputs.take(i + 1) =~= before.take(i + 1));
                assert(inputs.take(i) =~= before.take(i));
                assert(outputs::<Maximum<N, D>, N>(m, before)[i] == scan_max(
                    state_after::<Maximum<N, D>, N>(m, before.take(i + 1)).window,
                ));
            } else {
                assert(inputs.take(i) =~= before);
                assert(inputs.take(i + 1) =~= inputs);
            }
        }
    }
}

/// No output exceeds what has come in: where every value in the window and the value that
/// comes in are at most `bound`, so are the output and every value in the window that
/// follows, whether or not the window has been thinned.
pub proof fn maximum_is_bounded<N: TotalOrder, D: BucketDetector>(
    m: MaximumModel<N, D>,
    input: (Timestamp, N),
    bound: N,
)
    requires
        in_step(m),
        follows(m.window, input.0),
        forall|i: int| 0 <= i < m.window.len() ==> (#[trigger] m.window[i]).1.spec_at_most(bound),
        input.1.spec_at_most(bound),
    ensures
        Maximum::<N, D>::step(m, input).1.spec_at_most(bound),
        forall|i: int|
            0 <= i < Maximum::<N, D>::step(m, input).0.window.len() ==> (
            #[trigger] Maximum::<N, D>::step(m, input).0.window[i]).1.spec_at_most(bound),
{
    maximum_is_scan(m, input);
    let (older, mono) = made_room(m, input.0);
    let full = older.push(input);
    let limit = cutoff(input.0, m.duration);
    let stay = evicted(m.window, limit);
    expired_count_bounds(m.window, limit);
    let gone = m.window.len() - stay.len();
    assert forall|i: int| 0 <= i < full.len() implies (#[trigger] full[i]).1.spec_at_most(bound) by {
        if i < older.len() {
            assert(full[i] == stay[i]);
            assert(stay[i] == m.window[gone + i]);
        }
    }
    thinned_picks(full);
    let window = thinned(full);
    assert forall|i: int| 0 <= i < window.len() implies (#[trigger] window[i]).1.spec_at_most(
        bound,
    ) by {
        assert(window[i] == full[thinned_source(full.len() as int, i)]);
    }
    scan_max_is_maximum(window);
    let k = choose|k: int| 0 <= k < window.len() && (#[trigger] window[k]).1 == scan_max(window);
    assert(window[k].1.spec_at_most(bound));
}

/// Where points come in the order of their times, the window ends with the newest point,
/// holds no point that is as old as the span is long, and stays in order.
pub proof fn window_spans_duration<N: Number, D: BucketDetector>(
    m: MaximumModel<N, D>,
    input: (Timestamp, N),
)
    requires
        in_order(m.window.push(input)),
        m.duration.spec_nanos() > 0,
    ensures
        ({
            let window = Maximum::<N, D>::step(m, input).0.window;
            &&& window.len() > 0
            &&& window.last() == input
            &&& in_order(window)
            &&& forall|i: int|
                0 <= i < window.len() ==> !expired(
                    #[trigger] window[i],
                    cutoff(input.0, m.duration),
                )
        }),
{
    let limit = cutoff(input.0, m.duration);
    window_moves_on(m.window, m.detector.spec_same_bucket(input.0), input, limit);
    let full = with_room(m.window, m.detector.spec_same_bucket(input.0), limit).push(input);
    thinning_keeps_order(full);
    thinned_picks(full);
    let window = Maximum::<N, D>::step(m, input).0.window;
    assert(window == thinned(full));
    assert forall|i: int| 0 <= i < window.len() implies !expired(#[trigger] window[i], limit) by {
        assert(!expired(full[thinned_source(full.len() as int, i)], limit));
    }
}

/// Thinning keeps the window within its bound, whatever comes in.
pub proof fn window_stays_bounded<N: Number, D: BucketDetector>(
    m: MaximumModel<N, D>,
    input: (Timestamp, N),
)
    requires
        m.window.len() <= MAX_WINDOW_SIZE,
    ensures
        Maximum::<N, D>::step(m, input).0.window.len() <= MAX_WINDOW_SIZE,
{
    expired_count_bounds(m.window, cutoff(input.0, m.duration));
}

impl<N: Number, D: ForgetfulDetector> Forgetful<N> for Maximum<N, D> {
    proof fn reset_forgets(m: MaximumModel<N, D>, input: (Timestamp, N)) {
        D::fresh_forgets(m.detector, input.0);
    }
}

/// An indicator without points, or one that has just been restored from points in the order
/// of their times, has its candidates in step with its window.
pub proof fn candidates_start_in_step<N: Number, D: BucketDetector>(
    duration: Duration,
    window: Points<N>,
    detector: D,
)
    requires
        in_order(window),
    ensures
        in_step(Maximum::<N, D>::initial(duration, detector)),
        in_step(Maximum::<N, D>::restored(duration, window, detector)),
{
    assert(candidates(sealed(Seq::<(Timestamp, N)>::empty())) =~= Seq::empty());
}

/// Whether all values of the window and the candidates are zero.
spec fn holds_zeros<N: Number, D>(m: MaximumModel<N, D>) -> bool {
    all_zero(m.window) && all_zero(m.mono)
}

/// Candidates among zeros are zeros.
proof fn candidates_of_zeros<N: Number>(s: Points<N>)
    requires
        all_zero(s),
    ensures
        all_zero(candidates(s)),
{
    candidates_within(s);
    let all = candidates(s);
    assert forall|i: int| 0 <= i < all.len() implies (#[trigger] all[i]).1 == zero::<N>() by {
        assert(s.contains(all[i]));
        let k = choose|k: int| 0 <= k < s.len() && s[k] == all[i];
        assert(s[k].1 == zero::<N>());
    }
}

/// The maximum of zeros is zero, and nothing else joins them.
proof fn zeros_stay<N: TotalOrder, D: BucketDetector>(
    m: MaximumModel<N, D>,
    input: (Timestamp, N),
)
    requires
        holds_zeros(m),
        input.1 == zero::<N>(),
    ensures
        holds_zeros(Maximum::<N, D>::step(m, input).0),
        Maximum::<N, D>::step(m, input).1 == zero::<N>(),
{
    N::order_laws();
    let limit = cutoff(input.0, m.duration);
    let stay = evicted(m.window, limit);
    let kept = evicted(m.mono, limit);
    expired_count_bounds(m.window, limit);
    expired_count_bounds(m.mono, limit);
    assert forall|i: int| 0 <= i < stay.len() implies (#[trigger] stay[i]).1 == zero::<N>() by {
        assert(stay[i] == m.window[m.window.len() - stay.len() + i]);
    }
    assert forall|i: int| 0 <= i < kept.len() implies (#[trigger] kept[i]).1 == zero::<N>() by {
        assert(kept[i] == m.mono[m.mono.len() - kept.len() + i]);
    }
    if stay.len() > 0 {
        let point = stay.last();
        assert(stay[stay.len() - 1] == point);
        trimmed_bounds(kept, point.1);
        let all = joined(kept, point);
        assert forall|i: int| 0 <= i < all.len() implies (#[trigger] all[i]).1 == zero::<N>() by {
            if i < all.len() - 1 {
                assert(all[i] == kept[i]);
            }
        }
    }
    let (older, mono) = made_room(m, input.0);
    assert(all_zero(mono));
    let full = older.push(input);
    assert forall|i: int| 0 <= i < full.len() implies (#[trigger] full[i]).1 == zero::<N>() by {
        if i < older.len() {
            assert(full[i] == stay[i]);
        }
    }
    let window = thinned(full);
    thinned_picks(full);
    assert forall|i: int| 0 <= i < window.len() implies (#[trigger] window[i]).1 == zero::<N>() by {
        assert(full[thinned_source(full.len() as int, i)].1 == zero::<N>());
    }
    let older_window = sealed(window);
    assert forall|i: int| 0 <= i < older_window.len() implies (#[trigger] older_window[i]).1
        == zero::<N>() by {
        assert(older_window[i] == window[i]);
    }
    candidates_of_zeros(older_window);
}

proof fn zeros_stay_throughout<N: TotalOrder, D: BucketDetector>(
    m: MaximumModel<N, D>,
    inputs: Seq<(Timestamp, N)>,
)
    requires
        holds_zeros(m),
        all_zero(inputs),
    ensures
        holds_zeros(state_after::<Maximum<N, D>, N>(m, inputs)),
    decreases inputs.len(),
{
    if inputs.len() > 0 {
        let before = inputs.drop_last();
        assert forall|i: int| 0 <= i < before.len() implies (#[trigger] before[i]).1
            == zero::<N>() by {
            assert(before[i] == inputs[i]);
        }
        zeros_stay_throughout::<N, D>(m, before);
        assert(inputs[inputs.len() - 1].1 == zero::<N>());
        zeros_stay(state_after::<Maximum<N, D>, N>(m, before), inputs.last());
    }
}

/// A maximum keeps the sign of what comes in: from the first point on it gives zeros for
/// zeros, something positive for something positive, and nothing negative as long as nothing
/// negative comes in.
pub proof fn maximum_keeps_sign<N: TotalOrder, D: BucketDetector>(duration: Duration, detector: D)
    ensures
        keeps_zero::<Maximum<N, D>, N>(Maximum::<N, D>::initial(duration, detector)),
        keeps_positive::<Maximum<N, D>, N>(Maximum::<N, D>::initial(duration, detector)),
        keeps_not_negative::<Maximum<N, D>, N>(Maximum::<N, D>::initial(duration, detector)),
{
    N::order_laws();
    let m = Maximum::<N, D>::initial(duration, detector);
    assert forall|s: Seq<(Timestamp, N)>, i: int|
        all_zero(s) && 0 <= i < s.len() implies #[trigger] outputs::<Maximum<N, D>, N>(m, s)[i]
        == zero::<N>() by {
        let before = s.take(i);
        assert forall|j: int| 0 <= j < before.len() implies (#[trigger] before[j]).1
            == zero::<N>() by {
            assert(before[j] == s[j]);
        }
        zeros_stay_throughout::<N, D>(m, before);
        zeros_stay(state_after::<Maximum<N, D>, N>(m, before), s[i]);
    }
    assert forall|s: Seq<(Timestamp, N)>, i: int|
        none_negative(s) && 0 <= i < s.len() && positive(s[i].1) implies positive(
        #[trigger] outputs::<Maximum<N, D>, N>(m, s)[i],
    ) by {
        at_least_newest(state_after::<Maximum<N, D>, N>(m, s.take(i)), s[i]);
    }
    assert forall|s: Seq<(Timestamp, N)>, i: int|
        none_negative(s) && 0 <= i < s.len() implies zero::<N>().spec_at_most(
        #[trigger] outputs::<Maximum<N, D>, N>(m, s)[i],
    ) by {
        at_least_newest(state_after::<Maximum<N, D>, N>(m, s.take(i)), s[i]);
    }
}

proof fn at_least_newest<N: TotalOrder, D: BucketDetector>(
    m: MaximumModel<N, D>,
    input: (Timestamp, N),
)
    ensures
        input.1.spec_at_most(Maximum::<N, D>::step(m, input).1),
{
    N::order_laws();
}

/// Whether a window is `after` once it has been thinned: one of up to 500 points stays as it
/// is.  Of a longer one the oldest 10 and the most recent 100 points stay, and every other one
/// between them, from the first on.
pub open spec fn thins_to<N>(full: Points<N>, after: Points<N>) -> bool {
    if full.len() <= 500 {
        after == full
    } else {
        let middle = (full.len() - 110 + 1) / 2;
        &&& after.len() == 10 + middle + 100
        &&& forall|i: int| 0 <= i < 10 ==> #[trigger] after[i] == full[i]
        &&& forall|i: int| 10 <= i < 10 + middle ==> #[trigger] after[i] == full[10 + 2 * (i - 10)]
        &&& forall|i: int|
            10 + middle <= i < after.len() ==> #[trigger] after[i] == full[full.len() - after.len()
                + i]
    }
}

/// The window after a point is exactly what it should be: the points held before that are
/// younger than the span is long, but for the newest of them if the point falls into its bucket,
/// and the point, thinned where they are too many.  The indicator takes note of the point's
/// bucket, and its span stays.
pub proof fn window_is_exact<N: Number, D: BucketDetector>(
    m: MaximumModel<N, D>,
    input: (Timestamp, N),
) -> (full: Points<N>)
    ensures
        ({
            let reach = m.duration.secs * 1_000_000_000 + m.duration.subsec_nanos;
            let replace = m.detector.spec_same_bucket(input.0);
            let after = Maximum::<N, D>::step(m, input).0;
            let kept = recent(m.window, input, reach);
            &&& moves_on(m.window, replace, input, reach, full)
            &&& in_order(m.window) && replace && kept.len() > 0 ==> full == kept.drop_last().push(
                input,
            )
            &&& in_order(m.window) && !(replace && kept.len() > 0) ==> full == kept.push(input)
            &&& thins_to(full, after.window)
            &&& after.detector == m.detector.spec_seen(input.0)
            &&& after.duration == m.duration
        }),
{
    let reach = m.duration.secs * 1_000_000_000 + m.duration.subsec_nanos;
    let replace = m.detector.spec_same_bucket(input.0);
    let limit = input.0.spec_nanos() - reach;
    assert(limit == cutoff(input.0, m.duration));
    let full = with_room(m.window, replace, limit).push(input);
    room_moves_on(m.window, replace, input, reach);
    if in_order(m.window) {
        moving_on_keeps_recent(m.window, replace, input, reach, full);
    }
    let after = Maximum::<N, D>::step(m, input).0;
    assert(after.window == thinned(full));
    full
}

/// The output is the highest value in the window that a point leaves: no value there lies above
/// it, and one is equal to it.  The point itself may come late.
pub proof fn output_is_highest<N: TotalOrder, D: BucketDetector>(
    m: MaximumModel<N, D>,
    input: (Timestamp, N),
)
    requires
        in_step(m),
    ensures
        ({
            let (after, output) = Maximum::<N, D>::step(m, input);
            &&& forall|k: int|
                0 <= k < after.window.len() ==> (#[trigger] after.window[k]).1.spec_at_most(output)
            &&& exists|k: int|
                0 <= k < after.window.len() && (#[trigger] after.window[k]).1 == output
        }),
{
    made_room_in_step(m, input.0);
    candidates_give_highest(m, input);
}

/// Where the candidates are those among the points that stay, the output is the highest value in
/// the window, and the candidates go on being those among all points but the newest.
proof fn candidates_give_highest<N: TotalOrder, D: BucketDetector>(
    m: MaximumModel<N, D>,
    input: (Timestamp, N),
)
    requires
        made_room(m, input.0).1 == candidates(made_room(m, input.0).0),
    ensures
        ({
            let (after, output) = Maximum::<N, D>::step(m, input);
            &&& forall|k: int|
                0 <= k < after.window.len() ==> (#[trigger] after.window[k]).1.spec_at_most(output)
            &&& exists|k: int|
                0 <= k < after.window.len() && (#[trigger] after.window[k]).1 == output
            &&& after.mono == candidates(sealed(after.window))
        }),
{
    N::order_laws();
    let (older, mono) = made_room(m, input.0);
    let full = older.push(input);
    assert(sealed(full) =~= older);
    thinned_picks(full);
    let window = thinned(full);
    assert(window.len() == full.len() ==> window == full);
    candidates_front(sealed(window));
    assert(window.last() == input);
    assert(Maximum::<N, D>::step(m, input).1 == scan_max(window)) by {
        if sealed(window).len() == 0 {
            assert(scan_max(sealed(window)) == N::spec_lowest());
        }
    }
    scan_max_is_maximum(window);
    let after = Maximum::<N, D>::step(m, input).0;
    assert(after.window == window);
    assert(window.len() > 0);
    let k = choose|k: int| 0 <= k < window.len() && (#[trigger] window[k]).1 == scan_max(window);
    assert(after.window[k].1 == scan_max(window));
}

/// Over a series in the order of its times that is never thinned, the window holds exactly the
/// points that have come in within the span and have not been replaced, oldest first.
pub proof fn window_holds_exactly<N: Number, D: BucketDetector>(
    m: MaximumModel<N, D>,
    inputs: Seq<(Timestamp, N)>,
)
    requires
        m.window.len() == 0,
        m.duration.secs > 0 || m.duration.subsec_nanos > 0,
        in_order(inputs),
        inputs.len() > 0,
        forall|i: int|
            0 <= i < inputs.len() ==> state_after::<Maximum<N, D>, N>(
                m,
                #[trigger] inputs.take(i),
            ).window.len() < 500,
    ensures
        ({
            let reach = m.duration.secs * 1_000_000_000 + m.duration.subsec_nanos;
            let after = state_after::<Maximum<N, D>, N>(m, inputs);
            &&& holds_exactly(after.window, m.detector, inputs, reach)
            &&& after.detector == having_seen(m.detector, inputs)
            &&& after.duration == m.duration
        }),
    decreases inputs.len(),
{
    let reach = m.duration.secs * 1_000_000_000 + m.duration.subsec_nanos;
    let before = inputs.drop_last();
    let at = state_after::<Maximum<N, D>, N>(m, before);
    front_in_order(inputs);
    assert forall|i: int| 0 <= i < before.len() implies state_after::<Maximum<N, D>, N>(
        m,
        #[trigger] before.take(i),
    ).window.len() < 500 by {
        assert(before.take(i) =~= inputs.take(i));
    }
    if before.len() > 0 {
        window_holds_exactly::<N, D>(m, before);
    } else {
        assert(having_seen(m.detector, before) == m.detector);
    }
    assert(inputs.take(inputs.len() - 1) =~= before);
    let full = window_is_exact(at, inputs.last());
    assert(full.len() <= 500);
    holds_step(
        at.window,
        state_after::<Maximum<N, D>, N>(m, inputs).window,
        m.detector,
        inputs,
        reach,
    );
}

/// A window has no more points than have come in.
proof fn window_within_count<N: Number, D: BucketDetector>(
    m: MaximumModel<N, D>,
    inputs: Seq<(Timestamp, N)>,
)
    requires
        m.window.len() == 0,
    ensures
        state_after::<Maximum<N, D>, N>(m, inputs).window.len() <= inputs.len(),
    decreases inputs.len(),
{
    if inputs.len() > 0 {
        window_within_count::<N, D>(m, inputs.drop_last());
        let at = state_after::<Maximum<N, D>, N>(m, inputs.drop_last());
        expired_count_bounds(at.window, cutoff(inputs.last().0, at.duration));
        let full = made_room(at, inputs.last().0).0.push(inputs.last());
        thinned_picks(full);
    }
}

/// From the first point on, every output is the highest value of all points that have come in
/// within the span and have not been replaced, as long as the points are few enough not to be
/// thinned: none of them lies above it, and one of them is equal to it.
pub proof fn outputs_are_highest_held<N: TotalOrder, D: BucketDetector>(
    m: MaximumModel<N, D>,
    inputs: Seq<(Timestamp, N)>,
)
    requires
        m.window.len() == 0,
        m.mono.len() == 0,
        m.duration.secs > 0 || m.duration.subsec_nanos > 0,
        in_order(inputs),
        0 < inputs.len() <= 500,
    ensures
        ({
            let reach = m.duration.secs * 1_000_000_000 + m.duration.subsec_nanos;
            let output = outputs::<Maximum<N, D>, N>(m, inputs).last();
            &&& forall|j: int|
                0 <= j < inputs.len() && #[trigger] held(m.detector, inputs, reach, j)
                    ==> inputs[j].1.spec_at_most(output)
            &&& exists|j: int|
                0 <= j < inputs.len() && #[trigger] held(m.detector, inputs, reach, j)
                    && inputs[j].1 == output
        }),
{
    let reach = m.duration.secs * 1_000_000_000 + m.duration.subsec_nanos;
    let n = inputs.len() - 1;
    let before = inputs.take(n);
    assert(before =~= inputs.drop_last());
    assert forall|i: int| 0 <= i < inputs.len() implies state_after::<Maximum<N, D>, N>(
        m,
        #[trigger] inputs.take(i),
    ).window.len() < 500 by {
        window_within_count::<N, D>(m, inputs.take(i));
    }
    window_holds_exactly::<N, D>(m, inputs);
    front_in_order(inputs);
    assert(candidates(sealed(m.window)) =~= m.mono);
    maximum_is_scan_throughout::<N, D>(m, before);
    let at = state_after::<Maximum<N, D>, N>(m, before);
    if n > 0 {
        assert(inputs[n - 1].0.spec_nanos() <= inputs[n].0.spec_nanos());
    }
    output_is_highest(at, inputs[n]);
    let window = state_after::<Maximum<N, D>, N>(m, inputs).window;
    let output = outputs::<Maximum<N, D>, N>(m, inputs).last();
    let list = choose|list: Seq<int>| #[trigger] lists_held(
        window,
        m.detector,
        inputs,
        reach,
        list,
    );
    assert forall|j: int|
        0 <= j < inputs.len() && #[trigger] held(
            m.detector,
            inputs,
            reach,
            j,
        ) implies inputs[j].1.spec_at_most(output) by {
        assert(list.contains(j));
        let k = choose|k: int| 0 <= k < list.len() && list[k] == j;
        assert(window[k] == inputs[list[k]]);
        assert(window[k].1.spec_at_most(output));
    }
    let k = choose|k: int| 0 <= k < window.len() && (#[trigger] window[k]).1 == output;
    assert(held(m.detector, inputs, reach, list[k]));
}

/// An indicator starts, and starts again after a reset, without points, with the span that it
/// was made for.
pub proof fn starts_without_points<N: Number, D: BucketDetector>(
    duration: Duration,
    detector: D,
    m: MaximumModel<N, D>,
)
    ensures
        ({
            let start = Maximum::<N, D>::initial(duration, detector);
            let again = Maximum::<N, D>::cleared(m);
            &&& start.window.len() == 0
            &&& start.mono.len() == 0
            &&& start.duration == duration
            &&& start.detector == detector
            &&& again.window.len() == 0
            &&& again.mono.len() == 0
            &&& again.duration == m.duration
            &&& again.detector == m.detector.spec_fresh()
        }),
{
}

/// A batch gives what its points give one after the other.
pub proof fn batch_is_one_by_one<N: Number, D: BucketDetector>(
    m: MaximumModel<N, D>,
    inputs: Series<N>,
)
    ensures
        Maximum::<N, D>::batch(m, inputs).0 == state_after::<Maximum<N, D>, N>(m, inputs),
        Maximum::<N, D>::batch(m, inputs).1 == outputs::<Maximum<N, D>, N>(m, inputs),
{
}

/// The output is never below the newest value, whatever came before and in whatever order.
pub proof fn output_reaches_newest<N: TotalOrder, D: BucketDetector>(
    m: MaximumModel<N, D>,
    input: (Timestamp, N),
)
    ensures
        input.1.spec_at_most(Maximum::<N, D>::step(m, input).1),
{
    N::order_laws();
}

/// From the first point on, with points in the order of their times, every output is the
/// highest value in the window, whether or not it has been thinned: none of its values lies
/// above it, and one of them is equal to it.
pub proof fn outputs_are_highest_in_window<N: TotalOrder, D: BucketDetector>(
    m: MaximumModel<N, D>,
    inputs: Seq<(Timestamp, N)>,
)
    requires
        m.window.len() == 0,
        m.mono.len() == 0,
        in_order(inputs),
        inputs.len() > 0,
    ensures
        ({
            let window = state_after::<Maximum<N, D>, N>(m, inputs).window;
            let output = outputs::<Maximum<N, D>, N>(m, inputs).last();
            &&& forall|k: int|
                0 <= k < window.len() ==> (#[trigger] window[k]).1.spec_at_most(output)
            &&& exists|k: int| 0 <= k < window.len() && (#[trigger] window[k]).1 == output
            &&& window.last() == inputs.last()
        }),
{
    let before = inputs.take(inputs.len() - 1);
    assert(before =~= inputs.drop_last());
    front_in_order(inputs);
    assert(candidates(sealed(m.window)) =~= m.mono);
    maximum_is_scan_throughout::<N, D>(m, before);
    maximum_is_scan_throughout::<N, D>(m, inputs);
    output_is_highest(state_after::<Maximum<N, D>, N>(m, before), inputs.last());
}

/// The label gives the span in whole seconds.
pub proof fn label_tells_span<N: Number, D: BucketDetector>(duration: Duration) -> (digits: Seq<
    char,
>)
    ensures
        Maximum::<N, D>::label_of(duration) == "MAX("@ + digits + "s)"@,
        reads_as(digits) == duration.secs,
{
    decimal_reads_back(duration.secs as nat);
    decimal(duration.secs as nat)
}

/// An indicator made of stored parts has the span, the points and the detector that were stored.
pub proof fn restored_keeps_parts<N: Number, D: BucketDetector>(
    duration: Duration,
    window: Points<N>,
    detector: D,
)
    ensures
        Maximum::<N, D>::restored(duration, window, detector).duration == duration,
        Maximum::<N, D>::restored(duration, window, detector).window == window,
        Maximum::<N, D>::restored(duration, window, detector).detector == detector,
{
}

/// Whether all points of a series lie within the span of one another, so that none expires.
pub open spec fn close_together<N>(inputs: Seq<(Timestamp, N)>, reach: int) -> bool {
    forall|i: int, j: int|
        0 <= i < inputs.len() && 0 <= j < inputs.len() ==> (#[trigger] inputs[i]).0.spec_nanos()
            > (#[trigger] inputs[j]).0.spec_nanos() - reach
}

/// The order in which points come in plays no part as long as none expires: every output is the
/// highest value in the window.
pub proof fn late_points_count<N: TotalOrder, D: BucketDetector>(
    m: MaximumModel<N, D>,
    inputs: Seq<(Timestamp, N)>,
)
    requires
        m.window.len() == 0,
        m.mono.len() == 0,
        inputs.len() > 0,
        close_together(inputs, m.duration.secs * 1_000_000_000 + m.duration.subsec_nanos),
    ensures
        ({
            let window = state_after::<Maximum<N, D>, N>(m, inputs).window;
            let output = outputs::<Maximum<N, D>, N>(m, inputs).last();
            &&& forall|k: int|
                0 <= k < window.len() ==> (#[trigger] window[k]).1.spec_at_most(output)
            &&& exists|k: int| 0 <= k < window.len() && (#[trigger] window[k]).1 == output
        }),
{
    let n = inputs.len() - 1;
    let before = inputs.take(n);
    assert(before =~= inputs.drop_last());
    candidates_without_expiry::<N, D>(m, inputs, n);
    let at = state_after::<Maximum<N, D>, N>(m, before);
    candidates_give_highest(at, inputs[n]);
    let (after, output) = Maximum::<N, D>::step(at, inputs[n]);
    let window = state_after::<Maximum<N, D>, N>(m, inputs).window;
    assert(window == after.window);
    assert(outputs::<Maximum<N, D>, N>(m, inputs).last() == output);
    let k = choose|k: int|
        0 <= k < after.window.len() && (#[trigger] after.window[k]).1 == output;
    assert(window[k].1 == output);
}

/// As long as no point expires, the candidates are those among the points that stay when the
/// next one comes in.
proof fn candidates_without_expiry<N: TotalOrder, D: BucketDetector>(
    m: MaximumModel<N, D>,
    inputs: Seq<(Timestamp, N)>,
    n: int,
)
    requires
        m.window.len() == 0,
        m.mono.len() == 0,
        0 <= n < inputs.len(),
        close_together(inputs, m.duration.secs * 1_000_000_000 + m.duration.subsec_nanos),
    ensures
        ({
            let at = state_after::<Maximum<N, D>, N>(m, inputs.take(n));
            &&& made_room(at, inputs[n].0).1 == candidates(made_room(at, inputs[n].0).0)
            &&& at.duration == m.duration
            &&& forall|k: int| 0 <= k < at.window.len() ==> inputs.contains(#[trigger] at.window[k])
        }),
    decreases n,
{
    let at = state_after::<Maximum<N, D>, N>(m, inputs.take(n));
    let (window, mono) = (at.window, at.mono);
    if n == 0 {
        assert(inputs.take(0) =~= Seq::empty());
        assert(candidates(sealed(window)) =~= mono);
    } else {
        let prior = state_after::<Maximum<N, D>, N>(m, inputs.take(n - 1));
        assert(inputs.take(n).drop_last() =~= inputs.take(n - 1));
        candidates_without_expiry::<N, D>(m, inputs, n - 1);
        candidates_give_highest(prior, inputs[n - 1]);
        let limit = cutoff(inputs[n - 1].0, prior.duration);
        expired_count_bounds(prior.window, limit);
        let stay = evicted(prior.window, limit);
        let gone = prior.window.len() - stay.len();
        let full = made_room(prior, inputs[n - 1].0).0.push(inputs[n - 1]);
        assert forall|k: int| 0 <= k < full.len() implies inputs.contains(#[trigger] full[k]) by {
            if k < full.len() - 1 {
                assert(full[k] == stay[k]);
                assert(stay[k] == prior.window[gone + k]);
            } else {
                assert(full[k] == inputs[n - 1]);
            }
        }
        thinning_keeps_order(full);
        assert(window == thinned(full));
        assert forall|k: int| 0 <= k < window.len() implies inputs.contains(
            #[trigger] window[k],
        ) by {
            assert(full.contains(thinned(full)[k]));
            let j = choose|j: int| 0 <= j < full.len() && full[j] == window[k];
            assert(inputs.contains(full[j]));
        }
    }
    // Nothing expires now.
    let limit = cutoff(inputs[n].0, at.duration);
    assert forall|k: int| 0 <= k < window.len() implies !expired(#[trigger] window[k], limit) by {
        assert(inputs.contains(window[k]));
        let j = choose|j: int| 0 <= j < inputs.len() && inputs[j] == window[k];
        assert(inputs[j].0.spec_nanos() > inputs[n].0.spec_nanos() - (m.duration.secs
            * 1_000_000_000 + m.duration.subsec_nanos));
    }
    assert(mono == candidates(sealed(window)));
    candidates_within(sealed(window));
    assert forall|k: int| 0 <= k < mono.len() implies !expired(#[trigger] mono[k], limit) by {
        assert(sealed(window).contains(mono[k]));
        let j = choose|j: int| 0 <= j < sealed(window).len() && sealed(window)[j] == mono[k];
        assert(window[j] == mono[k]);
    }
    expired_count_bounds(window, limit);
    expired_count_bounds(mono, limit);
    assert(expired_count(window, limit) == 0);
    assert(expired_count(mono, limit) == 0);
    assert(evicted(window, limit) =~= window);
    assert(evicted(mono, limit) =~= mono);
    if window.len() == 0 {
        assert(sealed(window) =~= window);
    }
}

} // verus!
