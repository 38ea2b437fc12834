//! Points in time, spans of time, and the buckets into which time is cut.
use vstd::prelude::*;

verus! {

/// Nanoseconds in a second.
pub const NANOS_PER_SEC: u32 = 1_000_000_000;

/// Seconds in a day.
pub const SECS_PER_DAY: u64 = 86_400;

/// Seconds in 14 days, over which an indicator looks back unless told otherwise.
pub const TWO_WEEKS_SECS: u64 = 14 * 24 * 60 * 60;

/// A point in time in UTC: the whole seconds since 1970-01-01 00:00:00 and the
/// nanoseconds since the last whole second.  In a leap second, which is the last second
/// of its minute, the nanoseconds run on up to two seconds.
#[derive(Clone, Copy, Debug, PartialEq, Eq, Structural)]
pub struct Timestamp {
    pub secs: i64,
    pub subsec_nanos: u32,
}

/// Whether the two parts name a point in time.
pub open spec fn is_point_in_time(secs: i64, subsec_nanos: u32) -> bool {
    subsec_nanos < NANOS_PER_SEC || (subsec_nanos < 2 * NANOS_PER_SEC && secs % 60 == 59)
}

/// The nanoseconds since 1970-01-01 00:00:00 of a point in time, where 64 bits hold them.
pub open spec fn nanos_since_epoch(secs: i64, subsec_nanos: u32) -> Option<i64> {
    let total = secs * NANOS_PER_SEC + subsec_nanos;
    if is_point_in_time(secs, subsec_nanos) && i64::MIN <= total <= i64::MAX {
        Some(total as i64)
    } else {
        None
    }
}

/// The nanoseconds since 1970-01-01 00:00:00, by `chrono::DateTime::<Utc>::from_timestamp`
/// and `timestamp_nanos_opt`.
///
/// Claimed of the two together: the result is the seconds times a billion plus the
/// nanoseconds.  It is `None` exactly where the parts name no point in time (which
/// `from_timestamp` reports) or where the total does not fit in 64 bits (which
/// `timestamp_nanos_opt` reports; every point in time of which the total fits lies within
/// the years that `from_timestamp` accepts).
#[verifier::external_body]
fn utc_nanos(secs: i64, subsec_nanos: u32) -> (r: Option<i64>)
    ensures
        r == nanos_since_epoch(secs, subsec_nanos),
{
    match chrono::DateTime::from_timestamp(secs, subsec_nanos) {
        Some(time) => time.timestamp_nanos_opt(),
        None => None,
    }
}

impl Timestamp {
    /// The nanoseconds since the epoch by which points in time are compared.  A point too
    /// far away for 64 bits counts as the earliest of all.
    pub open spec fn spec_nanos(self) -> i64 {
        match nanos_since_epoch(self.secs, self.subsec_nanos) {
            Some(n) => n,
            None => i64::MIN,
        }
    }

    /// The nanoseconds since the epoch by which points in time are compared.
    pub fn nanos(self) -> (r: i64)
        ensures
            r == self.spec_nanos(),
    {
        match utc_nanos(self.secs, self.subsec_nanos) {
            Some(n) => n,
            None => i64::MIN,
        }
    }
}

/// A span of time.
#[derive(Clone, Copy, Debug, PartialEq, Eq, Structural)]
pub struct Duration {
    pub secs: u64,
    pub subsec_nanos: u32,
}

impl Duration {
    /// The length in nanoseconds.
    pub open spec fn spec_nanos(self) -> int {
        self.secs * NANOS_PER_SEC + self.subsec_nanos
    }

    /// A span of whole seconds.
    pub fn from_secs(secs: u64) -> (r: Self)
        ensures
            r == (Duration { secs, subsec_nanos: 0 }),
    {
        Duration { secs, subsec_nanos: 0 }
    }

    /// The length in nanoseconds.
    pub fn as_nanos(self) -> (r: u128)
        ensures
            r == self.spec_nanos(),
    {
        self.secs as u128 * 1_000_000_000 + self.subsec_nanos as u128
    }

    /// Whether the span is empty.
    pub fn is_zero(self) -> (r: bool)
        ensures
            r == (self.spec_nanos() == 0),
    {
        self.secs == 0 && self.subsec_nanos == 0
    }
}

/// Decides which of the points that come in belong to the same time bucket as the point
/// before them.  An indicator replaces its newest point when the next one falls into the
/// same bucket.
pub trait BucketDetector: Sized {
    /// Whether a point at `t` would fall into the bucket of the point before it.
    spec fn spec_same_bucket(self, t: Timestamp) -> bool;

    /// The detector after a point at `t`.
    spec fn spec_seen(self, t: Timestamp) -> Self;

    /// The detector before any point.
    spec fn spec_fresh(self) -> Self;

    /// Takes note of a point at `t` and says whether it falls into the bucket of the point
    /// before it.
    fn should_replace(&mut self, t: Timestamp) -> (r: bool)
        ensures
            r == old(self).spec_same_bucket(t),
            *final(self) == old(self).spec_seen(t),
    ;

    /// Forgets every point.
    fn reset(&mut self)
        ensures
            *final(self) == old(self).spec_fresh(),
    ;

    /// A second detector in the same state.
    fn probe(&self) -> (r: Self)
        ensures
            r == *self,
    ;
}

/// Detectors that keep nothing of the points they have seen once they are reset.
pub trait ForgetfulDetector: BucketDetector {
    proof fn fresh_forgets(d: Self, t: Timestamp)
        ensures
            d.spec_seen(t).spec_fresh() == d.spec_fresh(),
            d.spec_fresh().spec_fresh() == d.spec_fresh(),
    ;
}

/// Buckets of one fixed width, counted from the epoch.
#[derive(Clone, Copy, Debug, PartialEq, Eq, Structural)]
pub struct TimeBuckets {
    /// The width of a bucket.  Buckets of width zero hold a single instant.
    pub width: Duration,
    /// The bucket of the last point.
    pub last: Option<i128>,
}

impl TimeBuckets {
    /// The number of the bucket that holds `t`.
    pub open spec fn spec_bucket(self, t: Timestamp) -> i128 {
        let width = if self.width.spec_nanos() == 0 {
            1
        } else {
            self.width.spec_nanos()
        };
        (t.spec_nanos() as int / width) as i128
    }

    /// Buckets of the given width, before any point.
    pub fn new(width: Duration) -> (r: Self)
        ensures
            r == (TimeBuckets { width, last: None }),
    {
        TimeBuckets { width, last: None }
    }

    /// The number of the bucket that holds `t`.
    fn bucket(&self, t: Timestamp) -> (r: i128)
        ensures
            r == self.spec_bucket(t),
    {
        let nanos = t.nanos();
        let width: i128 = if self.width.is_zero() {
            1
        } else {
            self.width.as_nanos() as i128
        };
        proof {
            let (n, w) = (nanos as int, width as int);
            assert(i64::MIN <= n / w <= i64::MAX) by (nonlinear_arith)
                requires
                    i64::MIN <= n <= i64::MAX,
                    w >= 1,
            ;
        }
        match (nanos as i128).checked_div_euclid(width) {
            Some(b) => b,
            None => 0,
        }
    }
}

impl BucketDetector for TimeBuckets {
    open spec fn spec_same_bucket(self, t: Timestamp) -> bool {
        self.last == Some(self.spec_bucket(t))
    }

    open spec fn spec_seen(self, t: Timestamp) -> Self {
        TimeBuckets { width: self.width, last: Some(self.spec_bucket(t)) }
    }

    open spec fn spec_fresh(self) -> Self {
        TimeBuckets { width: self.width, last: None }
    }

    fn should_replace(&mut self, t: Timestamp) -> (r: bool) {
        let bucket = self.bucket(t);
        let same = match self.last {
            Some(last) => last == bucket,
            None => false,
        };
        self.last = Some(bucket);
        same
    }

    fn reset(&mut self) {
        self.last = None;
    }

    fn probe(&self) -> (r: Self) {
        *self
    }
}

impl ForgetfulDetector for TimeBuckets {
    proof fn fresh_forgets(d: Self, t: Timestamp) {
    }
}

/// Points in time are counted in nanoseconds: one is as far after another as its seconds and
/// its nanoseconds say, where 64 bits hold both.  A point too far away, or one that the parts do
/// not name, counts as the earliest of all.
pub proof fn nanos_measure_time(t: Timestamp, u: Timestamp)
    ensures
        ({
            let counts = |x: Timestamp|
                {
                    let total = x.secs * 1_000_000_000 + x.subsec_nanos;
                    &&& x.subsec_nanos < 1_000_000_000 || (x.subsec_nanos < 2_000_000_000 && x.secs
                        % 60 == 59)
                    &&& -0x8000_0000_0000_0000 <= total < 0x8000_0000_0000_0000
                };
            &&& counts(t) && counts(u) ==> u.spec_nanos() - t.spec_nanos() == (u.secs - t.secs)
                * 1_000_000_000 + (u.subsec_nanos - t.subsec_nanos)
            &&& counts(t) && t.secs == 0 && t.subsec_nanos == 0 ==> t.spec_nanos() == 0
            &&& !counts(t) ==> t.spec_nanos() <= u.spec_nanos()
        }),
{
}

/// Spans are counted in nanoseconds: a second more is a billion of them more, and only the span
/// without seconds and nanoseconds is empty.
pub proof fn nanos_measure_spans(d: Duration)
    ensures
        d.spec_nanos() == d.secs * 1_000_000_000 + d.subsec_nanos,
        d.spec_nanos() == 0 <==> d.secs == 0 && d.subsec_nanos == 0,
{
}

/// Buckets cut time into pieces of one width: the bucket of `t` begins at a multiple `k` of the
/// width, and a later point falls into the same bucket if and only if it lies between there and
/// the next multiple.  Before any point, and after a reset, no point does.
pub proof fn buckets_cut_time(b: TimeBuckets, t: Timestamp, u: Timestamp) -> (k: int)
    ensures
        ({
            let length = b.width.secs * 1_000_000_000 + b.width.subsec_nanos;
            let width = if length == 0 {
                1
            } else {
                length
            };
            &&& k * width <= t.spec_nanos() < (k + 1) * width
            &&& b.spec_seen(t).spec_same_bucket(u) <==> k * width <= u.spec_nanos() < (k + 1)
                * width
        }),
        b.spec_seen(t).width == b.width,
        b.spec_fresh().width == b.width,
        !b.spec_fresh().spec_same_bucket(u),
{
    let length = b.width.secs * 1_000_000_000 + b.width.subsec_nanos;
    let width = if length == 0 {
        1
    } else {
        length
    };
    let (x, y) = (t.spec_nanos() as int, u.spec_nanos() as int);
    let (k, j) = (x / width, y / width);
    assert(k * width <= x < (k + 1) * width && i64::MIN <= k <= i64::MAX) by (nonlinear_arith)
        requires
            k == x / width,
            width >= 1,
            i64::MIN <= x <= i64::MAX,
    ;
    assert(j * width <= y < (j + 1) * width && i64::MIN <= j <= i64::MAX) by (nonlinear_arith)
        requires
            j == y / width,
            width >= 1,
            i64::MIN <= y <= i64::MAX,
    ;
    assert(j == k <==> k * width <= y < (k + 1) * width) by (nonlinear_arith)
        requires
            j * width <= y < (j + 1) * width,
            width >= 1,
    ;
    k
}

} // verus!
