//! The sliding window of points that the indicators keep.
//!
//! A window holds points with their times, oldest first.  Whenever a point comes in, the
//! points that are too old leave at the front.
use crate::number::Number;
use crate::time::{Duration, Timestamp};
use std::collections::VecDeque;
use vstd::prelude::*;

verus! {

/// The points of a window.
pub type Points<N> = Seq<(Timestamp, N)>;

/// The time up to which points are too old when the time is `t`.
pub open spec fn cutoff(t: Timestamp, duration: Duration) -> int {
    t.spec_nanos() - duration.spec_nanos()
}

/// Whether a point is no later than `limit`.
pub open spec fn expired<N>(point: (Timestamp, N), limit: int) -> bool {
    point.0.spec_nanos() <= limit
}

/// The number of points at the front that are no later than `limit`.
pub open spec fn expired_count<N>(s: Points<N>, limit: int) -> nat
    decreases s.len(),
{
    if s.len() > 0 && expired(s[0], limit) {
        1 + expired_count(s.drop_first(), limit)
    } else {
        0
    }
}

/// The points that stay when those at the front that are no later than `limit` leave.
pub open spec fn evicted<N>(s: Points<N>, limit: int) -> Points<N> {
    s.skip(expired_count(s, limit) as int)
}

/// Whether the points come in the order of their times.
pub open spec fn in_order<N>(s: Points<N>) -> bool {
    forall|i: int, j: int|
        0 <= i <= j < s.len() ==> (#[trigger] s[i]).0.spec_nanos() <= (
        #[trigger] s[j]).0.spec_nanos()
}

/// All points but the newest.
pub open spec fn sealed<N>(s: Points<N>) -> Points<N> {
    if s.len() == 0 {
        s
    } else {
        s.drop_last()
    }
}

/// The window once there is room for the next point: what is no later than `limit` has left,
/// and so has the newest point if the next one replaces it.
pub open spec fn with_room<N>(s: Points<N>, replace: bool, limit: int) -> Points<N> {
    if replace {
        sealed(evicted(s, limit))
    } else {
        evicted(s, limit)
    }
}

/// The values of the points.
pub open spec fn values_of<N>(s: Points<N>) -> Seq<N> {
    Seq::new(s.len(), |i: int| s[i].1)
}

/// All points but the newest of a window in order are in order.
pub proof fn front_in_order<N>(s: Points<N>)
    requires
        in_order(s),
    ensures
        in_order(sealed(s)),
{
    let older = sealed(s);
    assert forall|i: int, j: int| 0 <= i <= j < older.len() implies (
    #[trigger] older[i]).0.spec_nanos() <= (#[trigger] older[j]).0.spec_nanos() by {
        assert(older[i] == s[i] && older[j] == s[j]);
    }
}

/// What the number of expired points is: all before it are expired, the next is not.
pub proof fn expired_count_bounds<N>(s: Points<N>, limit: int)
    ensures
        expired_count(s, limit) <= s.len(),
        forall|i: int| 0 <= i < expired_count(s, limit) ==> expired(#[trigger] s[i], limit),
        expired_count(s, limit) < s.len() ==> !expired(
            s[expired_count(s, limit) as int],
            limit,
        ),
    decreases s.len(),
{
    if s.len() > 0 && expired(s[0], limit) {
        let rest = s.drop_first();
        expired_count_bounds(rest, limit);
        assert forall|i: int| 0 <= i < expired_count(s, limit) implies expired(
            #[trigger] s[i],
            limit,
        ) by {
            if i > 0 {
                assert(rest[i - 1] == s[i]);
            }
        }
    }
}

/// The number of expired points is the only one with that property.
pub proof fn expired_count_unique<N>(s: Points<N>, limit: int, count: int)
    requires
        0 <= count <= s.len(),
        forall|i: int| 0 <= i < count ==> expired(#[trigger] s[i], limit),
        count < s.len() ==> !expired(s[count], limit),
    ensures
        expired_count(s, limit) == count,
{
    expired_count_bounds(s, limit);
    let found = expired_count(s, limit) as int;
    if found < count {
        assert(expired(s[found], limit));
    } else if count < found {
        assert(expired(s[count], limit));
    }
}

/// A point that is not expired stays behind all others.
pub proof fn evicted_push<N>(s: Points<N>, point: (Timestamp, N), limit: int)
    requires
        !expired(point, limit),
    ensures
        evicted(s.push(point), limit) == evicted(s, limit).push(point),
{
    expired_count_bounds(s, limit);
    let count = expired_count(s, limit) as int;
    assert forall|i: int| 0 <= i < count implies expired(#[trigger] s.push(point)[i], limit) by {
        assert(s.push(point)[i] == s[i]);
    }
    expired_count_unique(s.push(point), limit, count);
    assert(s.push(point).skip(count) =~= s.skip(count).push(point));
}

/// Where every point is expired, none stays.
pub proof fn evicted_all<N>(s: Points<N>, limit: int)
    requires
        forall|i: int| 0 <= i < s.len() ==> expired(#[trigger] s[i], limit),
    ensures
        evicted(s, limit).len() == 0,
{
    expired_count_unique(s, limit, s.len() as int);
}

/// In a window in order, eviction takes exactly the points that are no later than the
/// limit, and what stays is in order.
pub proof fn evicted_in_order<N>(s: Points<N>, limit: int)
    requires
        in_order(s),
    ensures
        in_order(evicted(s, limit)),
        forall|i: int| 0 <= i < evicted(s, limit).len() ==> !expired(
            #[trigger] evicted(s, limit)[i],
            limit,
        ),
        forall|i: int|
            0 <= i < s.len() && !expired(#[trigger] s[i], limit) ==> evicted(s, limit).contains(
                s[i],
            ),
{
    expired_count_bounds(s, limit);
    let count = expired_count(s, limit) as int;
    let rest = evicted(s, limit);
    assert forall|i: int| 0 <= i < rest.len() implies !expired(#[trigger] rest[i], limit) by {
        assert(rest[i] == s[count + i]);
        assert(s[count].0.spec_nanos() <= s[count + i].0.spec_nanos());
    }
    assert forall|i: int| 0 <= i < s.len() && !expired(#[trigger] s[i], limit) implies rest.contains(
        s[i],
    ) by {
        assert(rest[i - count] == s[i]);
    }
}

/// Eviction leaves the newest point in place as long as it leaves any.
pub proof fn evicted_sealed<N>(s: Points<N>, limit: int)
    requires
        s.len() > 0,
    ensures
        evicted(s, limit).len() > 0 ==> evicted(s, limit).last() == s.last() && sealed(
            evicted(s, limit),
        ) == evicted(sealed(s), limit),
        evicted(s, limit).len() == 0 ==> evicted(sealed(s), limit).len() == 0,
{
    expired_count_bounds(s, limit);
    let count = expired_count(s, limit) as int;
    let older = sealed(s);
    assert forall|i: int| 0 <= i < count && i < older.len() implies expired(
        #[trigger] older[i],
        limit,
    ) by {
        assert(older[i] == s[i]);
    }
    if count < s.len() {
        expired_count_unique(older, limit, count);
        assert(s.skip(count).drop_last() =~= older.skip(count));
    } else {
        evicted_all(older, limit);
    }
}

/// A window in order stays so when room is made and the next point in order joins, and it
/// then holds no expired point.
pub proof fn window_moves_on<N>(
    s: Points<N>,
    replace: bool,
    input: (Timestamp, N),
    limit: int,
)
    requires
        in_order(s.push(input)),
        !expired(input, limit),
    ensures
        in_order(with_room(s, replace, limit).push(input)),
        forall|i: int|
            0 <= i <= with_room(s, replace, limit).len() ==> !expired(
                #[trigger] with_room(s, replace, limit).push(input)[i],
                limit,
            ),
{
    let all = s.push(input);
    front_in_order(all);
    assert(sealed(all) =~= s);
    evicted_in_order(s, limit);
    expired_count_bounds(s, limit);
    let stay = evicted(s, limit);
    let gone = s.len() - stay.len();
    let older = with_room(s, replace, limit);
    let window = older.push(input);
    assert forall|i: int| 0 <= i < older.len() implies older[i] == stay[i] && stay[i] == all[gone
        + i] && older[i] == #[trigger] window[i] by {}
    assert forall|i: int, j: int| 0 <= i <= j < window.len() implies (
    #[trigger] window[i]).0.spec_nanos() <= (#[trigger] window[j]).0.spec_nanos() by {
        let last = s.len() as int;
        assert(all[last] == input);
        if j < older.len() {
            assert(stay[i].0.spec_nanos() <= stay[j].0.spec_nanos());
        } else if i < older.len() {
            assert(all[gone + i].0.spec_nanos() <= all[last].0.spec_nanos());
        }
    }
    assert forall|i: int| 0 <= i < window.len() implies !expired(#[trigger] window[i], limit) by {
        if i < older.len() {
            assert(!expired(stay[i], limit));
        }
    }
}

/// The time up to which points are too old.
pub(crate) fn limit_at(t: Timestamp, span: u128) -> (r: i128)
    requires
        span <= u64::MAX * 1_000_000_000 + u32::MAX,
    ensures
        r == t.spec_nanos() - span,
{
    t.nanos() as i128 - span as i128
}

/// Lets the points at the front leave that are no later than `limit`.
pub(crate) fn evict<N: Number>(window: &mut VecDeque<(Timestamp, N)>, limit: i128)
    ensures
        final(window)@ == evicted(old(window)@, limit as int),
{
    let ghost start = window@;
    let ghost mut gone: int = 0;
    proof {
        assert(start.skip(0) =~= start);
    }
    while window.len() > 0 && window[0].0.nanos() as i128 <= limit
        invariant
            0 <= gone <= start.len(),
            window@ == start.skip(gone),
            forall|i: int| 0 <= i < gone ==> expired(#[trigger] start[i], limit as int),
        decreases window@.len(),
    {
        window.pop_front();
        proof {
            gone = gone + 1;
            assert(window@ =~= start.skip(gone));
        }
    }
    proof {
        expired_count_unique(start, limit as int, gone);
    }
}

/// A copy of a window.
pub(crate) fn copy_window<N: Number>(window: &VecDeque<(Timestamp, N)>) -> (r: VecDeque<
    (Timestamp, N),
>)
    ensures
        r@ == window@,
{
    let mut copy: VecDeque<(Timestamp, N)> = VecDeque::with_capacity(window.len());
    let mut i: usize = 0;
    while i < window.len()
        invariant
            i <= window@.len(),
            copy@ == window@.take(i as int),
        decreases window@.len() - i,
    {
        copy.push_back(window[i]);
        i = i + 1;
        proof {
            assert(window@.take(i as int) =~= window@.take(i - 1).push(window@[i - 1]));
        }
    }
    proof {
        assert(window@.take(i as int) =~= window@);
    }
    copy
}

} // verus!
