//! The exponential moving average over a slice.
//!
//! The average is a first-order recurrence, `s_t = k*x_t + (1-k)*s_{t-1}`, which
//! as it stands cannot be computed in lanes.  For a block of four inputs that
//! follows a known `s`, however, every output is a combination of the inputs of
//! the block and of `s`.  With `a = 1 - k`:
//!
//! ```text
//! [s_0]       [ 1     0    0    0 ] [x_0]       [a  ]
//! [s_1] = k * [ a     1    0    0 ] [x_1] + s * [a^2]
//! [s_2]       [ a^2   a    1    0 ] [x_2]       [a^3]
//! [s_3]       [ a^3   a^2  a    1 ] [x_3]       [a^4]
//! ```
//!
//! Above the diagonal nothing is multiplied: an output does not depend on inputs that come
//! after it, not even on infinite ones.
//!
//! The last output of a block is the `s` of the next one.  The first output of a
//! whole average is the first input, unsmoothed.
use crate::lanes::Lanes;
use crate::number::{one, zero, zeros, ExactNumber, Number};
use vstd::prelude::*;

verus! {

/// The share of the past that a step keeps, `1 - k`.
pub open spec fn decay<N: Number>(k: N) -> N {
    one::<N>().spec_minus(k)
}

/// `1`, `a`, `a^2`, `a^3`, `a^4` with `a = 1 - k`, each the one before times `a`.
pub open spec fn decay_power<N: Number>(k: N, e: int) -> N
    decreases e,
{
    if e <= 0 {
        one()
    } else if e == 1 {
        decay(k)
    } else {
        decay_power(k, e - 1).spec_times(decay(k))
    }
}

/// The term of input `column` in row `row` of the block matrix: none where the input comes
/// after the output.
pub open spec fn block_term<N: Number>(x: Seq<N>, k: N, row: int, column: int) -> N {
    if column > row {
        zero()
    } else {
        x[column].spec_times(decay_power(k, row - column))
    }
}

/// The product of row `row` of the block matrix with the four inputs `x`.
pub open spec fn block_mix<N: Number>(x: Seq<N>, k: N, row: int) -> N {
    block_term(x, k, row, 0).spec_plus(block_term(x, k, row, 1)).spec_plus(
        block_term(x, k, row, 2),
    ).spec_plus(block_term(x, k, row, 3))
}

/// Output `row` of a block with inputs `x` that follows the state `s`.
pub open spec fn block_output<N: Number>(x: Seq<N>, k: N, s: N, row: int) -> N {
    k.spec_times(block_mix(x, k, row)).spec_plus(decay_power(k, row + 1).spec_times(s))
}

/// The outputs of one block.
pub open spec fn block<N: Number>(x: Seq<N>, k: N, s: N) -> Seq<N> {
    seq![
        block_output(x, k, s, 0),
        block_output(x, k, s, 1),
        block_output(x, k, s, 2),
        block_output(x, k, s, 3),
    ]
}

/// One step of the recurrence.
pub open spec fn smoothed<N: Number>(x: N, k: N, s: N) -> N {
    k.spec_times(x).spec_plus(decay(k).spec_times(s))
}

/// The recurrence itself, from the state `s` on.
pub open spec fn recurrence<N: Number>(v: Seq<N>, k: N, s: N) -> Seq<N>
    decreases v.len(),
{
    if v.len() == 0 {
        Seq::empty()
    } else {
        let t = smoothed(v[0], k, s);
        seq![t] + recurrence(v.drop_first(), k, t)
    }
}

/// The average that continues from `s`: block after block, and the recurrence for
/// what does not fill a block.
pub open spec fn continued<N: Number>(v: Seq<N>, k: N, s: N) -> Seq<N>
    decreases v.len(),
{
    if v.len() < 4 {
        recurrence(v, k, s)
    } else {
        let b = block(v.take(4), k, s);
        b + continued(v.skip(4), k, b[3])
    }
}

/// The average of a whole series: its first value, and from there on.
pub open spec fn ema_of<N: Number>(v: Seq<N>, k: N) -> Seq<N> {
    if v.len() == 0 {
        Seq::empty()
    } else {
        seq![v[0]] + continued(v.skip(1), k, v[0])
    }
}

/// The average of a whole series by the recurrence alone.
pub open spec fn ema_scalar_of<N: Number>(v: Seq<N>, k: N) -> Seq<N> {
    if v.len() == 0 {
        Seq::empty()
    } else {
        seq![v[0]] + recurrence(v.skip(1), k, v[0])
    }
}

/// There is one output for every input.
pub proof fn recurrence_len<N: Number>(v: Seq<N>, k: N, s: N)
    ensures
        recurrence(v, k, s).len() == v.len(),
    decreases v.len(),
{
    if v.len() > 0 {
        recurrence_len(v.drop_first(), k, smoothed(v[0], k, s));
    }
}

/// There is one output for every input.
pub proof fn continued_len<N: Number>(v: Seq<N>, k: N, s: N)
    ensures
        continued(v, k, s).len() == v.len(),
    decreases v.len(),
{
    if v.len() < 4 {
        recurrence_len(v, k, s);
    } else {
        continued_len(v.skip(4), k, block(v.take(4), k, s)[3]);
    }
}

/// The exponential moving average of `values` with smoothing factor `k`.  The first
/// output is the first value.
pub fn ema<N: Number, L: Lanes<N>>(values: &[N], k: N) -> (r: Vec<N>)
    ensures
        r@ == ema_of(values@, k),
{
    let mut out = zeros(values.len());
    ema_into::<N, L>(values, k, out.as_mut_slice());
    out
}

/// Writes the exponential moving average of `values` into `out`, which is as long.
pub fn ema_into<N: Number, L: Lanes<N>>(values: &[N], k: N, out: &mut [N])
    requires
        values@.len() == old(out)@.len(),
    ensures
        final(out)@ == ema_of(values@, k),
{
    if values.is_empty() {
        return;
    }
    out[0] = values[0];
    if values.len() == 1 {
        proof {
            assert(values@.skip(1) =~= Seq::empty());
        }
        return;
    }
    let first = values[0];
    let (_, rest) = values.split_at(1);
    let (head, tail) = out.split_at_mut(1);
    ema_continuation_into::<N, L>(rest, k, first, tail);
}

/// Writes into `out` how an average that stands at `s_prev` goes on over `values`.
/// `out` is as long as `values`.
pub fn ema_continuation_into<N: Number, L: Lanes<N>>(values: &[N], k: N, s_prev: N, out: &mut [N])
    requires
        values@.len() == old(out)@.len(),
    ensures
        final(out)@ == continued(values@, k, s_prev),
{
    if values.is_empty() {
        return;
    }
    let unit = N::of_usize(1);
    let a = unit.minus(k);
    let a2 = a.times(a);
    let a3 = a2.times(a);
    let a4 = a3.times(a);
    let col0 = L::new([unit, a, a2, a3]);
    let col1 = L::new([unit, unit, a, a2]);
    let col2 = L::new([unit, unit, unit, a]);
    let col3 = L::new([unit, unit, unit, unit]);
    let powers = L::new([a, a2, a3, a4]);
    let k_lanes = L::splat(k);
    proof {
        reveal_with_fuel(decay_power, 5);
    }

    let n = values.len();
    let mut s = s_prev;
    let mut i: usize = 0;
    proof {
        assert(values@.skip(0) =~= values@);
    }
    while n - i >= 4
        invariant
            i <= n,
            n == values@.len(),
            n == out@.len(),
            out@.take(i as int) + continued(values@.skip(i as int), k, s) == continued(
                values@,
                k,
                s_prev,
            ),
            forall|r: usize|
                r < 4 ==> #[trigger] col0.spec_lane(r) == decay_power(k, r as int),
            forall|r: usize|
                1 <= r < 4 ==> #[trigger] col1.spec_lane(r) == decay_power(k, r - 1),
            forall|r: usize|
                2 <= r < 4 ==> #[trigger] col2.spec_lane(r) == decay_power(k, r - 2),
            forall|r: usize|
                3 <= r < 4 ==> #[trigger] col3.spec_lane(r) == decay_power(k, r - 3),
            forall|r: usize|
                r < 4 ==> #[trigger] powers.spec_lane(r) == decay_power(k, r as int + 1),
            forall|r: usize| r < 4 ==> #[trigger] k_lanes.spec_lane(r) == k,
        decreases n - i,
    {
        let term0 = L::splat(values[i]).times(col0);
        let term1 = L::splat(values[i + 1]).times(col1).from_lane(1);
        let term2 = L::splat(values[i + 2]).times(col2).from_lane(2);
        let term3 = L::splat(values[i + 3]).times(col3).from_lane(3);
        let mix = term0.plus(term1).plus(term2).plus(term3);
        let outputs = k_lanes.times(mix).plus(powers.times(L::splat(s)));
        let arr = outputs.to_array();
        let ghost before = out@;
        let ghost rest = values@.skip(i as int);
        out[i] = arr[0];
        out[i + 1] = arr[1];
        out[i + 2] = arr[2];
        out[i + 3] = arr[3];
        proof {
            let x = rest.take(4);
            let b = block(x, k, s);
            assert(arr[0] == outputs.spec_lane(0usize));
            assert(arr[1] == outputs.spec_lane(1usize));
            assert(arr[2] == outputs.spec_lane(2usize));
            assert(arr[3] == outputs.spec_lane(3usize));
            assert(arr@ =~= b);
            assert(out@.take(i + 4) =~= before.take(i as int) + b);
            assert(rest.skip(4) =~= values@.skip(i + 4));
            assert(out@.take(i + 4) + continued(rest.skip(4), k, b[3]) =~= before.take(i as int)
                + continued(rest, k, s));
        }
        s = arr[3];
        i = i + 4;
    }
    while i < n
        invariant
            i <= n,
            n - i < 4,
            n == values@.len(),
            n == out@.len(),
            a == decay(k),
            out@.take(i as int) + recurrence(values@.skip(i as int), k, s) == continued(
                values@,
                k,
                s_prev,
            ),
        decreases n - i,
    {
        let ghost before = out@;
        let ghost rest = values@.skip(i as int);
        let ghost s_before = s;
        s = k.times(values[i]).plus(a.times(s));
        out[i] = s;
        i = i + 1;
        proof {
            assert(rest.drop_first() =~= values@.skip(i as int));
            assert(out@.take(i as int) =~= before.take(i - 1).push(s));
            assert(out@.take(i as int) + recurrence(rest.drop_first(), k, s) =~= before.take(i - 1)
                + recurrence(rest, k, s_before));
        }
    }
    proof {
        assert(values@.skip(n as int) =~= Seq::empty());
        assert(out@.take(n as int) =~= out@);
        assert(out@ + Seq::<N>::empty() =~= out@);
    }
}

/// The exponential moving average of `values` by the recurrence alone.
pub fn ema_scalar<N: Number>(values: &[N], k: N) -> (r: Vec<N>)
    ensures
        r@ == ema_scalar_of(values@, k),
{
    let n = values.len();
    let mut out: Vec<N> = Vec::with_capacity(n);
    if n == 0 {
        return out;
    }
    out.push(values[0]);
    let a = N::of_usize(1).minus(k);
    let mut s = values[0];
    let mut i: usize = 1;
    while i < n
        invariant
            1 <= i <= n,
            n == values@.len(),
            a == decay(k),
            out@ + recurrence(values@.skip(i as int), k, s) == ema_scalar_of(values@, k),
        decreases n - i,
    {
        let ghost before = out@;
        let ghost rest = values@.skip(i as int);
        let ghost s_before = s;
        s = k.times(values[i]).plus(a.times(s));
        out.push(s);
        i = i + 1;
        proof {
            assert(rest.drop_first() =~= values@.skip(i as int));
            assert(out@ + recurrence(rest.drop_first(), k, s) =~= before + recurrence(
                rest,
                k,
                s_before,
            ));
        }
    }
    proof {
        assert(values@.skip(n as int) =~= Seq::empty());
        assert(out@ + Seq::<N>::empty() =~= out@);
    }
    out
}

/// A sum times `a` is the sum of the products.
proof fn times_distributes_right<N: ExactNumber>(b: N, c: N, a: N)
    ensures
        b.spec_plus(c).spec_times(a) == b.spec_times(a).spec_plus(c.spec_times(a)),
{
    N::times_commutes(b.spec_plus(c), a);
    N::times_distributes(a, b, c);
    N::times_commutes(a, b);
    N::times_commutes(a, c);
}

/// Every row of the block matrix is the row above times `a`, with one more input.
proof fn block_mix_steps<N: ExactNumber>(x: Seq<N>, k: N)
    ensures
        block_mix(x, k, 0) == x[0],
        forall|row: int|
            0 <= row < 3 ==> #[trigger] block_mix(x, k, row + 1) == block_mix(x, k, row).spec_times(
                decay(k),
            ).spec_plus(x[row + 1]),
{
    reveal_with_fuel(decay_power, 5);
    let a = decay(k);
    let a2 = a.spec_times(a);
    let a3 = a2.spec_times(a);
    let (x0, x1, x2, x3) = (x[0], x[1], x[2], x[3]);
    let m1 = x0.spec_times(a).spec_plus(x1);
    let m2 = x0.spec_times(a2).spec_plus(x1.spec_times(a)).spec_plus(x2);
    let m3 = x0.spec_times(a3).spec_plus(x1.spec_times(a2)).spec_plus(x2.spec_times(a)).spec_plus(
        x3,
    );
    N::times_one(x0);
    N::times_one(x1);
    N::times_one(x2);
    N::times_one(x3);
    N::plus_zero(x0);
    N::plus_zero(m1);
    N::plus_zero(m2);
    assert(block_mix(x, k, 0) == x0);
    assert(block_mix(x, k, 1) == m1);
    assert(block_mix(x, k, 2) == m2);
    assert(block_mix(x, k, 3) == m3);
    assert(m2 == m1.spec_times(a).spec_plus(x2)) by {
        times_distributes_right(x0.spec_times(a), x1, a);
        N::times_associates(x0, a, a);
    }
    assert(m3 == m2.spec_times(a).spec_plus(x3)) by {
        times_distributes_right(x0.spec_times(a2).spec_plus(x1.spec_times(a)), x2, a);
        times_distributes_right(x0.spec_times(a2), x1.spec_times(a), a);
        N::times_associates(x0, a2, a);
        N::times_associates(x1, a, a);
    }
    assert forall|row: int| 0 <= row < 3 implies #[trigger] block_mix(x, k, row + 1) == block_mix(
        x,
        k,
        row,
    ).spec_times(a).spec_plus(x[row + 1]) by {
        if row == 0 {
        } else if row == 1 {
        } else {
            assert(row == 2);
        }
    }
}

/// `k*(m*a + x) + (p*a)*s` is one smoothing step from `k*m + p*s`.
proof fn block_step<N: ExactNumber>(m: N, p: N, x: N, k: N, s: N)
    ensures
        k.spec_times(m.spec_times(decay(k)).spec_plus(x)).spec_plus(
            p.spec_times(decay(k)).spec_times(s),
        ) == smoothed(x, k, k.spec_times(m).spec_plus(p.spec_times(s))),
{
    let a = decay(k);
    let km = k.spec_times(m);
    let ps = p.spec_times(s);
    let kx = k.spec_times(x);
    N::times_distributes(k, m.spec_times(a), x);
    N::times_associates(k, m, a);
    N::times_commutes(km, a);
    N::times_commutes(p, a);
    N::times_associates(a, p, s);
    N::times_distributes(a, km, ps);
    let left = a.spec_times(km);
    let right = a.spec_times(ps);
    N::plus_commutes(left, kx);
    N::plus_associates(kx, left, right);
}

/// With exact arithmetic every output of a block is one smoothing step from the output
/// before it.
proof fn block_output_step<N: ExactNumber>(x: Seq<N>, k: N, s: N, row: int)
    requires
        0 <= row < 3,
    ensures
        block_output(x, k, s, row + 1) == smoothed(x[row + 1], k, block_output(x, k, s, row)),
{
    block_mix_steps(x, k);
    reveal_with_fuel(decay_power, 5);
    assert(block_mix(x, k, row + 1) == block_mix(x, k, row).spec_times(decay(k)).spec_plus(
        x[row + 1],
    ));
    block_step(block_mix(x, k, row), decay_power(k, row + 1), x[row + 1], k, s);
}

/// With exact arithmetic the outputs of a block are four steps of the recurrence.
proof fn block_is_recurrence<N: ExactNumber>(x: Seq<N>, k: N, s: N)
    requires
        x.len() == 4,
    ensures
        block(x, k, s) == recurrence(x, k, s),
{
    let b = block(x, k, s);
    block_mix_steps(x, k);
    reveal_with_fuel(decay_power, 5);
    assert(b[0] == smoothed(x[0], k, s));
    block_output_step(x, k, s, 0);
    block_output_step(x, k, s, 1);
    block_output_step(x, k, s, 2);
    let x1 = x.drop_first();
    let x2 = x1.drop_first();
    let x3 = x2.drop_first();
    assert(x3.drop_first() =~= Seq::empty());
    assert(recurrence(x3.drop_first(), k, b[3]).len() == 0);
    assert(recurrence(x3, k, b[2]) =~= seq![b[3]]);
    assert(recurrence(x2, k, b[1]) =~= seq![b[2], b[3]]);
    assert(recurrence(x1, k, b[0]) =~= seq![b[1], b[2], b[3]]);
    assert(recurrence(x, k, s) =~= b);
}

/// The recurrence goes on where it stopped: over a series in two parts, the second
/// part continues from the last output of the first.
pub proof fn recurrence_resumes<N: Number>(a: Seq<N>, b: Seq<N>, k: N, s: N)
    ensures
        a.len() > 0 ==> recurrence(a + b, k, s) == recurrence(a, k, s) + recurrence(
            b,
            k,
            recurrence(a, k, s).last(),
        ),
    decreases a.len(),
{
    if a.len() > 0 {
        let t = smoothed(a[0], k, s);
        let rest = a.drop_first();
        assert((a + b).drop_first() =~= rest + b);
        recurrence_len(rest, k, t);
        if rest.len() == 0 {
            assert(rest + b =~= b);
            assert(recurrence(a, k, s) =~= seq![t]);
        } else {
            recurrence_resumes(rest, b, k, t);
            assert(recurrence(a, k, s).last() == recurrence(rest, k, t).last());
        }
        assert(recurrence(a + b, k, s) =~= recurrence(a, k, s) + recurrence(
            b,
            k,
            recurrence(a, k, s).last(),
        ));
    }
}

/// The block form computes the recurrence: where the arithmetic is exact, an average
/// continued in blocks is the average continued step by step, and so [`ema`] gives
/// what [`ema_scalar`] gives.
pub proof fn blocks_are_recurrence<N: ExactNumber>(v: Seq<N>, k: N, s: N)
    ensures
        continued(v, k, s) == recurrence(v, k, s),
    decreases v.len(),
{
    if v.len() >= 4 {
        let x = v.take(4);
        let b = block(x, k, s);
        block_is_recurrence(x, k, s);
        blocks_are_recurrence(v.skip(4), k, b[3]);
        recurrence_resumes(x, v.skip(4), k, s);
        assert(x + v.skip(4) =~= v);
    }
}

/// Where the arithmetic is exact, [`ema`] gives what [`ema_scalar`] gives.
pub proof fn ema_is_exact<N: ExactNumber>(v: Seq<N>, k: N)
    ensures
        ema_of(v, k) == ema_scalar_of(v, k),
{
    if v.len() > 0 {
        blocks_are_recurrence(v.skip(1), k, v[0]);
    }
}

/// Splitting a series: where the arithmetic is exact, the average of a prefix followed
/// by its continuation over the rest is the average of the whole, wherever the cut is.
pub proof fn continuation_resumes<N: ExactNumber>(v: Seq<N>, k: N, cut: int)
    requires
        0 < cut <= v.len(),
    ensures
        ema_of(v, k) == ema_of(v.take(cut), k) + continued(
            v.skip(cut),
            k,
            ema_of(v.take(cut), k).last(),
        ),
{
    let first = v[0];
    let prefix = v.take(cut).skip(1);
    let rest = v.skip(cut);
    assert(v.skip(1) =~= prefix + rest);
    blocks_are_recurrence(v.skip(1), k, first);
    blocks_are_recurrence(prefix, k, first);
    recurrence_len(prefix, k, first);
    let last = ema_of(v.take(cut), k).last();
    blocks_are_recurrence(rest, k, last);
    if prefix.len() == 0 {
        assert(prefix + rest =~= rest);
        assert(ema_of(v.take(cut), k) =~= seq![first]);
    } else {
        recurrence_resumes(prefix, rest, k, first);
        assert(last == recurrence(prefix, k, first).last());
    }
    assert(ema_of(v, k) =~= ema_of(v.take(cut), k) + continued(rest, k, last));
}

/// Splitting at a block boundary needs no exactness: an average continued over a whole
/// number of blocks and then over the rest is the average continued over both at once,
/// operation for operation.
pub proof fn continuation_resumes_at_blocks<N: Number>(a: Seq<N>, b: Seq<N>, k: N, s: N)
    requires
        a.len() > 0,
        a.len() % 4 == 0,
    ensures
        continued(a + b, k, s) == continued(a, k, s) + continued(b, k, continued(a, k, s).last()),
    decreases a.len(),
{
    let x = a.take(4);
    let first = block(x, k, s);
    let rest = a.skip(4);
    assert((a + b).take(4) =~= x);
    assert((a + b).skip(4) =~= rest + b);
    continued_len(rest, k, first[3]);
    if rest.len() == 0 {
        assert(rest + b =~= b);
        assert(continued(a, k, s) =~= first);
    } else {
        continuation_resumes_at_blocks(rest, b, k, first[3]);
        assert(continued(a, k, s).last() == continued(rest, k, first[3]).last());
    }
    assert(continued(a + b, k, s) =~= continued(a, k, s) + continued(
        b,
        k,
        continued(a, k, s).last(),
    ));
}

} // verus!
