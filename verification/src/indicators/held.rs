//! Which points an indicator holds.
//!
//! The laws here say what a window is, in terms of the points that have come in: those within
//! the span that have not been replaced, oldest first.
use crate::indicators::window::{
    expired, expired_count, expired_count_bounds, in_order, with_room, Points,
};
use crate::time::{BucketDetector, Timestamp};
use vstd::prelude::*;

verus! {

/// Whether exactly the first `gone` points of a window are no later than `limit`, up to the
/// first one that is later.
pub open spec fn leaves<N>(before: Points<N>, limit: int, gone: int) -> bool {
    &&& 0 <= gone <= before.len()
    &&& forall|i: int| 0 <= i < gone ==> (#[trigger] before[i]).0.spec_nanos() <= limit
    &&& gone < before.len() ==> before[gone].0.spec_nanos() > limit
}

/// Whether a window is `after` once its first `gone` points have left, which are those that lie
/// `reach` nanoseconds or more before `input`, the newest of the others is gone if the input
/// replaces it, and the input is the newest.
pub open spec fn moves_on_by<N>(
    before: Points<N>,
    replace: bool,
    input: (Timestamp, N),
    reach: int,
    after: Points<N>,
    gone: int,
) -> bool {
    &&& leaves(before, input.0.spec_nanos() - reach, gone)
    &&& replace && gone < before.len() ==> after == before.subrange(
        gone,
        before.len() - 1,
    ).push(input)
    &&& !(replace && gone < before.len()) ==> after == before.skip(gone).push(input)
}

/// The same for the number of points that leave.
pub open spec fn moves_on<N>(
    before: Points<N>,
    replace: bool,
    input: (Timestamp, N),
    reach: int,
    after: Points<N>,
) -> bool {
    exists|gone: int| #[trigger] moves_on_by(before, replace, input, reach, after, gone)
}

/// In a window in order, the points that stay are those later than the limit, all of them.
pub proof fn what_stays_is_later<N>(before: Points<N>, limit: int, gone: int)
    requires
        in_order(before),
        leaves(before, limit, gone),
    ensures
        before.skip(gone) == before.filter(|p: (Timestamp, N)| p.0.spec_nanos() > limit),
    decreases before.len(),
{
    let later = |p: (Timestamp, N)| p.0.spec_nanos() > limit;
    reveal(Seq::filter);
    if before.len() == 0 {
        assert(before.skip(gone) =~= before.filter(later));
    } else {
        let older = before.drop_last();
        let last = before.len() - 1;
        assert forall|i: int, j: int| 0 <= i <= j < older.len() implies (
        #[trigger] older[i]).0.spec_nanos() <= (#[trigger] older[j]).0.spec_nanos() by {
            assert(older[i] == before[i] && older[j] == before[j]);
        }
        if gone == before.len() {
            assert(before[last].0.spec_nanos() <= limit);
            assert forall|i: int| 0 <= i < older.len() implies (#[trigger] older[i]).0.spec_nanos()
                <= limit by {
                assert(older[i] == before[i]);
            }
            what_stays_is_later(older, limit, older.len() as int);
            assert(before.skip(gone) =~= older.skip(older.len() as int));
        } else {
            assert(before[gone].0.spec_nanos() <= before[last].0.spec_nanos());
            assert forall|i: int| 0 <= i < gone implies (#[trigger] older[i]).0.spec_nanos()
                <= limit by {
                assert(older[i] == before[i]);
            }
            if gone < older.len() {
                assert(older[gone] == before[gone]);
            }
            what_stays_is_later(older, limit, gone);
            assert(before.skip(gone) =~= older.skip(gone).push(before[last]));
        }
    }
}

/// A detector that has seen all points of a series.
pub open spec fn having_seen<N, D: BucketDetector>(d: D, inputs: Points<N>) -> D {
    inputs.fold_left(d, |d: D, p: (Timestamp, N)| d.spec_seen(p.0))
}

/// Whether point `k` of a series falls into the bucket of the point before it.
pub open spec fn same_bucket_at<N, D: BucketDetector>(d: D, inputs: Points<N>, k: int) -> bool {
    having_seen(d, inputs.take(k)).spec_same_bucket(inputs[k].0)
}

/// Whether point `j` of a series still counts when its newest point has come in: it lies less
/// than `reach` nanoseconds back, and no point of its own bucket has come after it.
pub open spec fn held<N, D: BucketDetector>(
    d: D,
    inputs: Points<N>,
    reach: int,
    j: int,
) -> bool {
    &&& inputs[j].0.spec_nanos() > inputs.last().0.spec_nanos() - reach
    &&& j == inputs.len() - 1 || !same_bucket_at(d, inputs, j + 1)
}

/// Whether `at` lists the points of a series that still count, in their order, and a window
/// holds them.
pub open spec fn lists_held<N, D: BucketDetector>(
    window: Points<N>,
    d: D,
    inputs: Points<N>,
    reach: int,
    at: Seq<int>,
) -> bool {
    &&& at.len() == window.len()
    &&& forall|k: int|
        0 <= k < at.len() ==> 0 <= #[trigger] at[k] < inputs.len() && held(d, inputs, reach, at[k])
            && window[k] == inputs[at[k]]
    &&& forall|k: int, l: int| 0 <= k < l < at.len() ==> #[trigger] at[k] < #[trigger] at[l]
    &&& forall|j: int|
        0 <= j < inputs.len() && #[trigger] held(d, inputs, reach, j) ==> at.contains(j)
}

/// Whether a window holds exactly the points of a series that still count, oldest first.
pub open spec fn holds_exactly<N, D: BucketDetector>(
    window: Points<N>,
    d: D,
    inputs: Points<N>,
    reach: int,
) -> bool {
    exists|at: Seq<int>| #[trigger] lists_held(window, d, inputs, reach, at)
}

/// One more point.
pub(crate) proof fn holds_step<N, D: BucketDetector>(
    window: Points<N>,
    after: Points<N>,
    d: D,
    inputs: Points<N>,
    reach: int,
)
    requires
        in_order(inputs),
        reach > 0,
        inputs.len() > 0,
        inputs.len() == 1 ==> window.len() == 0,
        inputs.len() > 1 ==> holds_exactly(window, d, inputs.drop_last(), reach),
        moves_on(
            window,
            same_bucket_at(d, inputs, inputs.len() - 1),
            inputs.last(),
            reach,
            after,
        ),
    ensures
        holds_exactly(after, d, inputs, reach),
{
    let n = inputs.len() - 1;
    let old_inputs = inputs.drop_last();
    let replace = same_bucket_at(d, inputs, n);
    let limit = inputs.last().0.spec_nanos() - reach;
    let gone = choose|gone: int|
        #[trigger] moves_on_by(window, replace, inputs.last(), reach, after, gone);
    let old_at = if n == 0 {
        Seq::<int>::empty()
    } else {
        choose|at: Seq<int>| #[trigger] lists_held(window, d, old_inputs, reach, at)
    };
    assert(old_at.len() == window.len());
    let kept = if replace && gone < window.len() {
        old_at.subrange(gone, window.len() - 1)
    } else {
        old_at.skip(gone)
    };
    let at = kept.push(n);
    // A point before the newest is in its old place.
    assert forall|j: int| 0 <= j < n implies #[trigger] old_inputs[j] == inputs[j] by {}
    assert forall|j: int| 0 <= j < n - 1 implies (#[trigger] same_bucket_at(d, inputs, j + 1)
        <==> same_bucket_at(d, old_inputs, j + 1)) by {
        assert(old_inputs.take(j + 1) =~= inputs.take(j + 1));
    }
    if n > 0 {
        // The newest point so far is the last in the window.
        assert(held(d, old_inputs, reach, n - 1));
        assert(old_at.contains(n - 1));
        let k = choose|k: int| 0 <= k < old_at.len() && old_at[k] == n - 1;
        let l = old_at.len() - 1;
        if k < l {
            assert(old_at[k] < old_at[l]);
        }
        assert(old_at[l] == n - 1);
    }
    assert forall|k: int| 0 <= k < at.len() implies 0 <= #[trigger] at[k] < inputs.len() && held(
        d,
        inputs,
        reach,
        at[k],
    ) && after[k] == inputs[at[k]] by {
        if k < kept.len() {
            let o = gone + k;
            assert(at[k] == old_at[o]);
            let j = old_at[o];
            assert(0 <= j < old_inputs.len() && held(d, old_inputs, reach, j));
            assert(window[o] == old_inputs[j]);
            assert(window[gone] == old_inputs[old_at[gone]]);
            assert(old_at[gone] <= j) by {
                if gone < o {
                    assert(old_at[gone] < old_at[o]);
                }
            }
            assert(inputs[old_at[gone]].0.spec_nanos() <= inputs[j].0.spec_nanos());
            if j < n - 1 {
                assert(!same_bucket_at(d, old_inputs, j + 1));
                assert(!same_bucket_at(d, inputs, j + 1));
            } else {
                // The newest so far is only kept where it is not replaced.
                assert(j == n - 1);
                if replace {
                    assert(o < window.len() - 1);
                    assert(old_at[o] < old_at[window.len() - 1]);
                }
            }
        }
    }
    assert forall|k: int, l: int| 0 <= k < l < at.len() implies #[trigger] at[k]
        < #[trigger] at[l] by {
        if l < kept.len() {
            assert(old_at[gone + k] < old_at[gone + l]);
        } else {
            assert(old_at[gone + k] < n);
        }
    }
    assert forall|j: int|
        0 <= j < inputs.len() && #[trigger] held(d, inputs, reach, j) implies at.contains(j) by {
        if j == n {
            assert(at[kept.len() as int] == n);
        } else {
            assert(inputs[n - 1].0.spec_nanos() <= inputs[n].0.spec_nanos());
            if j < n - 1 {
                assert(!same_bucket_at(d, inputs, j + 1));
                assert(!same_bucket_at(d, old_inputs, j + 1));
            } else {
                assert(!replace);
            }
            assert(held(d, old_inputs, reach, j));
            assert(old_at.contains(j));
            let o = choose|o: int| 0 <= o < old_at.len() && old_at[o] == j;
            assert(window[o] == old_inputs[old_at[o]]);
            if o < gone {
                assert(window[o].0.spec_nanos() <= limit);
            }
            if j < n - 1 && o == window.len() - 1 {
                assert(old_at[o] == n - 1);
            }
            assert(kept[o - gone] == j);
            assert(at[o - gone] == j);
        }
    }
    assert(lists_held(after, d, inputs, reach, at));
}

/// What a window holds of a series is in order.
pub proof fn held_in_order<N, D: BucketDetector>(
    window: Points<N>,
    d: D,
    inputs: Points<N>,
    reach: int,
)
    requires
        in_order(inputs),
        holds_exactly(window, d, inputs, reach),
    ensures
        in_order(window),
{
    let at = choose|at: Seq<int>| #[trigger] lists_held(window, d, inputs, reach, at);
    assert forall|i: int, j: int| 0 <= i <= j < window.len() implies (
    #[trigger] window[i]).0.spec_nanos() <= (#[trigger] window[j]).0.spec_nanos() by {
        assert(window[i] == inputs[at[i]] && window[j] == inputs[at[j]]);
        assert(i == j || at[i] < at[j]);
    }
}

/// The points of a window that lie less than `reach` nanoseconds before `input`.
pub open spec fn recent<N>(before: Points<N>, input: (Timestamp, N), reach: int) -> Points<N> {
    before.filter(|p: (Timestamp, N)| p.0.spec_nanos() > input.0.spec_nanos() - reach)
}

/// In a window in order, moving on keeps the recent points, all of them and in their order,
/// but for the newest of them where it is replaced.
pub proof fn moving_on_keeps_recent<N>(
    before: Points<N>,
    replace: bool,
    input: (Timestamp, N),
    reach: int,
    after: Points<N>,
)
    requires
        in_order(before),
        moves_on(before, replace, input, reach, after),
    ensures
        replace && recent(before, input, reach).len() > 0 ==> after == recent(
            before,
            input,
            reach,
        ).drop_last().push(input),
        !(replace && recent(before, input, reach).len() > 0) ==> after == recent(
            before,
            input,
            reach,
        ).push(input),
{
    let gone = choose|gone: int|
        #[trigger] moves_on_by(before, replace, input, reach, after, gone);
    what_stays_is_later(before, input.0.spec_nanos() - reach, gone);
    let stay = before.skip(gone);
    assert(stay == recent(before, input, reach));
    if gone < before.len() {
        assert(stay.drop_last() =~= before.subrange(gone, before.len() - 1));
    }
}

/// Letting the expired points leave and making room is moving on.
pub(crate) proof fn room_moves_on<N>(
    before: Points<N>,
    replace: bool,
    input: (Timestamp, N),
    reach: int,
)
    ensures
        moves_on(
            before,
            replace,
            input,
            reach,
            with_room(before, replace, input.0.spec_nanos() - reach).push(input),
        ),
{
    let limit = input.0.spec_nanos() - reach;
    expired_count_bounds(before, limit);
    let gone = expired_count(before, limit) as int;
    assert forall|i: int| 0 <= i < gone implies (#[trigger] before[i]).0.spec_nanos()
        <= limit by {
        assert(expired(before[i], limit));
    }
    let after = with_room(before, replace, limit).push(input);
    if gone < before.len() {
        assert(before.skip(gone).drop_last() =~= before.subrange(gone, before.len() - 1));
    }
    assert(moves_on_by(before, replace, input, reach, after, gone));
}

} // verus!
