//! What a bucket does over a run of checks.
//!
//! The statements here are about the mathematical bucket, so they hold of
//! every bucket that the library hands out, whatever the times of the checks:
//! a time before the last update counts as no time passed.

use crate::bucket::{lemma_full_is_bounded, BucketView};
use vstd::prelude::*;

verus! {

/// The bucket after checks at the given times, in their order.
pub open spec fn after_checks(b: BucketView, times: Seq<nat>) -> BucketView
    decreases times.len(),
{
    if times.len() == 0 {
        b
    } else {
        after_checks(b, times.drop_last()).after_check(times.last())
    }
}

/// Whether the check with index `i` of a run finds a token.
pub open spec fn admitted_at(b: BucketView, times: Seq<nat>, i: int) -> bool {
    after_checks(b, times.take(i)).admits(times[i])
}

/// How many checks of a run find a token.
pub open spec fn admitted(b: BucketView, times: Seq<nat>) -> nat
    decreases times.len(),
{
    if times.len() == 0 {
        0
    } else {
        admitted(b, times.drop_last()) + if after_checks(b, times.drop_last()).admits(
            times.last(),
        ) {
            1nat
        } else {
            0nat
        }
    }
}

/// The points that the cap throws away over a run.
pub open spec fn spilled(b: BucketView, times: Seq<nat>) -> nat
    decreases times.len(),
{
    if times.len() == 0 {
        0
    } else {
        spilled(b, times.drop_last()) + after_checks(b, times.drop_last()).spill(times.last())
    }
}

/// Every check of the run is made within the window that begins at `start`
/// and is `width` long.
pub open spec fn in_window(times: Seq<nat>, start: nat, width: nat) -> bool {
    forall|i: int|
        0 <= i < times.len() ==> start <= #[trigger] times[i] && times[i] <= start + width
}

/// Every check of the run is made at time `t`.
pub open spec fn all_at(times: Seq<nat>, t: nat) -> bool {
    forall|i: int| 0 <= i < times.len() ==> #[trigger] times[i] == t
}

/// One check keeps a bucket well formed and its limits as they are, never
/// sets its time back, and accounts for every point: what was there and what
/// flowed in is what is left, what was taken and what the cap threw away.
pub proof fn lemma_check_step(b: BucketView, now: nat)
    requires
        b.wf(),
    ensures
        b.after_check(now).wf(),
        b.after_check(now).limits == b.limits,
        b.after_check(now).last_update >= b.last_update,
        b.after_check(now).last_update >= now,
        b.after_check(now).last_update == b.last_update || b.after_check(now).last_update == now,
        b.after_check(now).level + (if b.admits(now) {
            b.limits.grain()
        } else {
            0
        }) + b.spill(now) == b.level + b.limits.requests_per_unit * (b.after_check(
            now,
        ).last_update - b.last_update),
{
    lemma_full_is_bounded(b.limits);
    let r = b.limits.requests_per_unit as int;
    let e = b.elapsed(now) as int;
    assert(e == b.after_check(now).last_update - b.last_update);
    assert(e * r == r * e) by (nonlinear_arith);
}

/// A run of checks keeps a bucket well formed and its limits as they are,
/// and never sets its time back.
pub proof fn lemma_run_wf(b: BucketView, times: Seq<nat>)
    requires
        b.wf(),
    ensures
        after_checks(b, times).wf(),
        after_checks(b, times).limits == b.limits,
        after_checks(b, times).last_update >= b.last_update,
    decreases times.len(),
{
    if times.len() > 0 {
        lemma_run_wf(b, times.drop_last());
        lemma_check_step(after_checks(b, times.drop_last()), times.last());
    }
}

/// A run in two parts is the first part and then, from the bucket that it
/// leaves, the second.
pub proof fn lemma_run_splits(b: BucketView, first: Seq<nat>, second: Seq<nat>)
    ensures
        after_checks(b, first + second) == after_checks(after_checks(b, first), second),
        admitted(b, first + second) == admitted(b, first) + admitted(
            after_checks(b, first),
            second,
        ),
        spilled(b, first + second) == spilled(b, first) + spilled(after_checks(b, first), second),
    decreases second.len(),
{
    if second.len() == 0 {
        assert(first + second =~= first);
    } else {
        lemma_run_splits(b, first, second.drop_last());
        assert((first + second).drop_last() =~= first + second.drop_last());
        assert((first + second).last() == second.last());
    }
}

/// Nothing is lost or made over a run: the tokens handed out, the level
/// left and what the cap threw away are the level at the start and the
/// inflow over the time that the run spans.
pub proof fn lemma_conservation(b: BucketView, times: Seq<nat>)
    requires
        b.wf(),
    ensures
        admitted(b, times) * b.limits.grain() + after_checks(b, times).level + spilled(b, times)
            == b.level + b.limits.requests_per_unit * (after_checks(b, times).last_update
            - b.last_update),
    decreases times.len(),
{
    let g = b.limits.grain() as int;
    let r = b.limits.requests_per_unit as int;
    if times.len() == 0 {
        assert(r * 0 == 0) by (nonlinear_arith);
        assert(0 * g == 0) by (nonlinear_arith);
    } else {
        let rest = times.drop_last();
        let p = after_checks(b, rest);
        let q = after_checks(b, times);
        lemma_conservation(b, rest);
        lemma_run_wf(b, rest);
        lemma_check_step(p, times.last());
        let n = admitted(b, rest) as int;
        let d1 = p.last_update - b.last_update;
        let d2 = q.last_update - p.last_update;
        assert(r * d1 + r * d2 == r * (d1 + d2)) by (nonlinear_arith);
        assert((n + 1) * g == n * g + g) by (nonlinear_arith);
    }
}

/// If no check of a run comes after `bound`, the bucket's time after the run
/// is the time it had or at most `bound`.
pub proof fn lemma_run_time(b: BucketView, times: Seq<nat>, bound: nat)
    requires
        b.wf(),
        forall|i: int| 0 <= i < times.len() ==> #[trigger] times[i] <= bound,
    ensures
        after_checks(b, times).last_update <= bound || after_checks(b, times).last_update
            == b.last_update,
    decreases times.len(),
{
    if times.len() > 0 {
        let rest = times.drop_last();
        assert forall|i: int| 0 <= i < rest.len() implies rest[i] <= bound by {
            assert(rest[i] == times[i]);
        }
        lemma_run_time(b, rest, bound);
        lemma_run_wf(b, rest);
        lemma_check_step(after_checks(b, rest), times.last());
        assert(times.last() == times[times.len() - 1]);
    }
}

/// The tokens handed out over a run that is not empty, and the level left,
/// are at most what the bucket holds at the first check and the inflow since.
proof fn lemma_since_first_check(b: BucketView, times: Seq<nat>)
    requires
        b.wf(),
        times.len() > 0,
    ensures
        after_checks(b, times).last_update >= b.after_check(times[0]).last_update,
        admitted(b, times) * b.limits.grain() + after_checks(b, times).level <= b.refilled(
            times[0],
        ) + b.limits.requests_per_unit * (after_checks(b, times).last_update - b.after_check(
            times[0],
        ).last_update),
    decreases times.len(),
{
    let g = b.limits.grain() as int;
    let r = b.limits.requests_per_unit as int;
    let rest = times.drop_last();
    let p = after_checks(b, rest);
    let q = after_checks(b, times);
    lemma_run_wf(b, rest);
    lemma_check_step(p, times.last());
    if times.len() == 1 {
        assert(rest.len() == 0);
        assert(times.last() == times[0]);
        assert(r * 0 == 0) by (nonlinear_arith);
        assert(0 * g == 0) by (nonlinear_arith);
        assert(1 * g == g) by (nonlinear_arith);
    } else {
        lemma_since_first_check(b, rest);
        assert(rest[0] == times[0]);
        let first = b.after_check(times[0]).last_update;
        let n = admitted(b, rest) as int;
        let d1 = p.last_update - first;
        let d2 = q.last_update - p.last_update;
        assert(r * d1 + r * d2 == r * (d1 + d2)) by (nonlinear_arith);
        assert((n + 1) * g == n * g + g) by (nonlinear_arith);
    }
}

/// What a bucket holds when the first check of a run arrives; nothing for a
/// run without checks.
pub open spec fn level_at_first(b: BucketView, times: Seq<nat>) -> nat {
    if times.len() == 0 {
        0
    } else {
        b.refilled(times[0])
    }
}

/// Of the checks within a window of time, however many there are and in
/// whatever state the bucket was, at most what the bucket holds at the first
/// of them and the inflow over the width of the window are let through; at
/// most, therefore, a full bucket and that inflow.
pub proof fn lemma_window_bound(b: BucketView, times: Seq<nat>, start: nat, width: nat)
    requires
        b.wf(),
        in_window(times, start, width),
    ensures
        admitted(b, times) * b.limits.grain() <= level_at_first(b, times)
            + b.limits.requests_per_unit * width,
        level_at_first(b, times) <= b.limits.full(),
{
    let g = b.limits.grain() as int;
    let r = b.limits.requests_per_unit as int;
    let w = width as int;
    if times.len() == 0 {
        assert(0 * g == 0) by (nonlinear_arith);
        assert(0 <= r * w) by (nonlinear_arith)
            requires
                0 <= r,
                0 <= w,
        ;
    } else {
        lemma_since_first_check(b, times);
        lemma_run_time(b, times, start + width);
        lemma_check_step(b, times[0]);
        let first = b.after_check(times[0]).last_update;
        let d = after_checks(b, times).last_update - first;
        assert(0 <= d <= w);
        assert(r * d <= r * w) by (nonlinear_arith)
            requires
                0 <= r,
                0 <= d <= w,
        ;
    }
}

/// How many of the checks of a run with indices from `from` up to, and
/// without, `to` find a token.
pub open spec fn admitted_between(b: BucketView, times: Seq<nat>, from: int, to: int) -> nat {
    admitted(after_checks(b, times.take(from)), times.subrange(from, to))
}

/// Any window of any history: where a stretch of a run falls within a window
/// of time, at most a full bucket and the inflow over the width of the window
/// are let through in that stretch, whatever came before it. What is let
/// through in the stretch is what the run lets through up to the end of the
/// stretch, less what it lets through up to its beginning.
pub proof fn lemma_window_of_history(
    b: BucketView,
    times: Seq<nat>,
    from: int,
    to: int,
    start: nat,
    width: nat,
)
    requires
        b.wf(),
        0 <= from <= to <= times.len(),
        in_window(times.subrange(from, to), start, width),
    ensures
        admitted(b, times.take(to)) == admitted(b, times.take(from)) + admitted_between(
            b,
            times,
            from,
            to,
        ),
        admitted_between(b, times, from, to) * b.limits.grain() <= b.limits.full()
            + b.limits.requests_per_unit * width,
{
    let before = times.take(from);
    let stretch = times.subrange(from, to);
    assert(before + stretch =~= times.take(to));
    lemma_run_splits(b, before, stretch);
    lemma_run_wf(b, before);
    lemma_window_bound(after_checks(b, before), stretch, start, width);
}

/// In a window no longer than the unit of the rate, at most the capacity and
/// the rate together are let through.
pub proof fn lemma_window_of_one_unit(b: BucketView, times: Seq<nat>, start: nat, width: nat)
    requires
        b.wf(),
        width <= b.limits.grain(),
        in_window(times, start, width),
    ensures
        admitted(b, times) <= b.limits.capacity + b.limits.requests_per_unit,
{
    lemma_window_bound(b, times, start, width);
    lemma_full_is_bounded(b.limits);
    let g = b.limits.grain() as int;
    let r = b.limits.requests_per_unit as int;
    let c = b.limits.capacity as int;
    let w = width as int;
    let n = admitted(b, times) as int;
    assert(n <= c + r) by (nonlinear_arith)
        requires
            n * g <= c * g + r * w,
            0 <= w <= g,
            0 < g,
            0 <= r,
    ;
}

/// In a window at whose first check the bucket holds so little that this
/// and the inflow over the window do not make one token more than the
/// capacity, at most the capacity is let through. Every window too short for
/// a whole token to flow in is such a window, and so is a window of one unit
/// that begins with a bucket holding no more than the capacity less the rate.
pub proof fn lemma_window_within_capacity(b: BucketView, times: Seq<nat>, start: nat, width: nat)
    requires
        b.wf(),
        in_window(times, start, width),
        level_at_first(b, times) + b.limits.requests_per_unit * width < (b.limits.capacity + 1)
            * b.limits.grain(),
    ensures
        admitted(b, times) <= b.limits.capacity,
{
    lemma_window_bound(b, times, start, width);
    let g = b.limits.grain() as int;
    let c = b.limits.capacity as int;
    let x = (level_at_first(b, times) + b.limits.requests_per_unit * width) as int;
    let n = admitted(b, times) as int;
    lemma_full_is_bounded(b.limits);
    assert(n <= c) by (nonlinear_arith)
        requires
            n * g <= x,
            x < (c + 1) * g,
            0 < g,
    ;
}

/// A window too short for a whole token to flow in lets at most the capacity
/// through, in whatever state the bucket is.
pub proof fn lemma_short_window(b: BucketView, times: Seq<nat>, start: nat, width: nat)
    requires
        b.wf(),
        in_window(times, start, width),
        b.limits.requests_per_unit * width < b.limits.grain(),
    ensures
        admitted(b, times) <= b.limits.capacity,
{
    lemma_window_bound(b, times, start, width);
    let g = b.limits.grain() as int;
    let c = b.limits.capacity as int;
    assert((c + 1) * g == c * g + g) by (nonlinear_arith);
    lemma_window_within_capacity(b, times, start, width);
}

/// Over any run, the tokens handed out follow the rate: they are at most a
/// full bucket more than the inflow over the time that the run spans, and at
/// least the inflow less a full bucket and what the cap threw away, which is
/// nothing while demand keeps the bucket from filling up.
pub proof fn lemma_long_run_rate(b: BucketView, times: Seq<nat>)
    requires
        b.wf(),
    ensures
        admitted(b, times) * b.limits.grain() <= b.limits.full() + b.limits.requests_per_unit * (
        after_checks(b, times).last_update - b.last_update),
        admitted(b, times) * b.limits.grain() + b.limits.full() + spilled(b, times)
            >= b.limits.requests_per_unit * (after_checks(b, times).last_update - b.last_update),
{
    lemma_conservation(b, times);
    lemma_run_wf(b, times);
}

/// The state of a full bucket after checks that all carry one time: each
/// check takes a token until none is left.
proof fn lemma_burst_state(b: BucketView, times: Seq<nat>, t: nat)
    requires
        b.wf(),
        b.level == b.limits.full(),
        all_at(times, t),
    ensures
        after_checks(b, times).limits == b.limits,
        times.len() <= b.limits.capacity ==> after_checks(b, times).level == (b.limits.capacity
            - times.len()) * b.limits.grain(),
        times.len() >= b.limits.capacity ==> after_checks(b, times).level == 0,
        times.len() > 0 ==> after_checks(b, times).last_update == if t > b.last_update {
            t
        } else {
            b.last_update
        },
        admitted(b, times) == if times.len() <= b.limits.capacity {
            times.len()
        } else {
            b.limits.capacity
        },
    decreases times.len(),
{
    let g = b.limits.grain() as int;
    let c = b.limits.capacity as int;
    lemma_full_is_bounded(b.limits);
    if times.len() > 0 {
        let rest = times.drop_last();
        let k = rest.len() as int;
        let p = after_checks(b, rest);
        assert(times.last() == times[times.len() - 1]);
        assert forall|i: int| 0 <= i < rest.len() implies rest[i] == t by {
            assert(rest[i] == times[i]);
        }
        lemma_burst_state(b, rest, t);
        lemma_run_wf(b, rest);
        assert(p.refilled(t) == p.level) by {
            if k == 0 {
                assert(p == b);
            } else {
                assert(p.elapsed(t) == 0);
                assert(p.inflow(t) == 0) by (nonlinear_arith)
                    requires
                        p.inflow(t) == p.elapsed(t) * p.limits.requests_per_unit,
                        p.elapsed(t) == 0,
                ;
            }
        }
        if k < c {
            assert(p.level == (c - k) * g);
            assert((c - k) * g >= g && (c - k) * g - g == (c - (k + 1)) * g) by (nonlinear_arith)
                requires
                    c - k >= 1,
                    g > 0,
            ;
            if k + 1 == c {
                assert((c - (k + 1)) * g == 0) by (nonlinear_arith)
                    requires
                        c - (k + 1) == 0,
                ;
            }
        } else {
            assert(p.level == 0);
        }
    } else {
        assert((c - 0) * g == c * g);
    }
}

/// From a full bucket, as a new bucket is, checks with no time between them
/// pass until as many have passed as the capacity, and every later one is
/// refused: of `n` such checks exactly the smaller of `n` and the capacity
/// pass. In whatever order simultaneous callers reach the bucket, that is how
/// many of them pass.
pub proof fn lemma_burst(b: BucketView, times: Seq<nat>, t: nat)
    requires
        b.wf(),
        b.level == b.limits.full(),
        all_at(times, t),
    ensures
        forall|i: int|
            0 <= i < times.len() ==> (#[trigger] admitted_at(b, times, i) <==> i
                < b.limits.capacity),
        admitted(b, times) == if times.len() <= b.limits.capacity {
            times.len()
        } else {
            b.limits.capacity
        },
{
    lemma_burst_state(b, times, t);
    lemma_full_is_bounded(b.limits);
    let g = b.limits.grain() as int;
    let c = b.limits.capacity as int;
    assert forall|i: int| 0 <= i < times.len() implies (#[trigger] admitted_at(b, times, i) <==> i
        < b.limits.capacity) by {
        let before = times.take(i);
        let p = after_checks(b, before);
        assert forall|j: int| 0 <= j < before.len() implies before[j] == t by {
            assert(before[j] == times[j]);
        }
        lemma_burst_state(b, before, t);
        lemma_run_wf(b, before);
        assert(p.refilled(t) == p.level) by {
            if i == 0 {
                assert(p == b);
            } else {
                assert(p.elapsed(t) == 0);
                assert(p.inflow(t) == 0) by (nonlinear_arith)
                    requires
                        p.inflow(t) == p.elapsed(t) * p.limits.requests_per_unit,
                        p.elapsed(t) == 0,
                ;
            }
        }
        if i < c {
            assert((c - i) * g >= g) by (nonlinear_arith)
                requires
                    c - i >= 1,
                    g > 0,
            ;
        }
    }
}

/// After a burst has emptied the bucket, a check is refused until the time
/// since the burst has let a whole token flow in, and passes from then on.
pub proof fn lemma_refused_until_refilled(b: BucketView, times: Seq<nat>, t: nat, later: nat)
    requires
        b.wf(),
        b.level == b.limits.full(),
        times.len() >= b.limits.capacity,
        all_at(times, t),
        t >= b.last_update,
        later >= t,
    ensures
        after_checks(b, times).admits(later) <==> (later - t) * b.limits.requests_per_unit
            >= b.limits.grain(),
{
    lemma_burst_state(b, times, t);
    lemma_run_wf(b, times);
    lemma_full_is_bounded(b.limits);
}

} // verus!
