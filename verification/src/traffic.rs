//! What the service does over a sequence of requests.
//!
//! Whatever requests arrive and in whatever order, the bucket of a key sees
//! the requests of that key and no others: what holds of a bucket over a run
//! of checks holds of every key of the service over the requests of that key.

use crate::bucket::{lemma_full_is_bounded, BucketView};
use crate::classifier::EntryView;
use crate::history::{admitted, after_checks, all_at, in_window, lemma_burst, lemma_window_bound};
use crate::service::{lemma_after_key_wf, ServiceView};
use crate::store::{bucket_for, KeyView};
use vstd::prelude::*;

verus! {

/// A request and the time at which it arrives.
pub struct Arrival {
    pub request: Seq<Seq<EntryView>>,
    pub now: nat,
}

/// The service after the given arrivals, in their order.
pub open spec fn after_arrivals(s: ServiceView, arrivals: Seq<Arrival>) -> ServiceView
    decreases arrivals.len(),
{
    if arrivals.len() == 0 {
        s
    } else {
        after_arrivals(s, arrivals.drop_last()).after(
            arrivals.last().request,
            arrivals.last().now,
        )
    }
}

/// The times of those arrivals that are checked against `key`, in their
/// order.
pub open spec fn times_of(s: ServiceView, arrivals: Seq<Arrival>, key: KeyView) -> Seq<nat>
    decreases arrivals.len(),
{
    if arrivals.len() == 0 {
        Seq::empty()
    } else if s.key(arrivals.last().request) == key {
        times_of(s, arrivals.drop_last(), key).push(arrivals.last().now)
    } else {
        times_of(s, arrivals.drop_last(), key)
    }
}

/// How many of the arrivals that are checked against `key` are let through.
pub open spec fn passed_of(s: ServiceView, arrivals: Seq<Arrival>, key: KeyView) -> nat
    decreases arrivals.len(),
{
    if arrivals.len() == 0 {
        0
    } else {
        passed_of(s, arrivals.drop_last(), key) + if s.key(arrivals.last().request) == key
            && after_arrivals(s, arrivals.drop_last()).admits(
            arrivals.last().request,
            arrivals.last().now,
        ) {
            1nat
        } else {
            0nat
        }
    }
}

/// The bucket that the first request of `key` works on, if the requests of
/// the key come at the given times.
pub open spec fn first_bucket(s: ServiceView, key: KeyView, times: Seq<nat>) -> BucketView {
    bucket_for(s.buckets, key, s.plans.of(key.plan), times[0])
}

/// Over any sequence of requests, a key's bucket goes through the checks of
/// that key's requests and through nothing else. While the key has had no
/// request, its bucket is as it was, or still missing; from its first request
/// on, the bucket is the one that its requests alone would have left, and as
/// many of them were let through as that run of checks admits.
pub proof fn lemma_key_history(s: ServiceView, arrivals: Seq<Arrival>, key: KeyView)
    requires
        s.wf(),
    ensures
        after_arrivals(s, arrivals).wf(),
        after_arrivals(s, arrivals).keys == s.keys,
        after_arrivals(s, arrivals).plans == s.plans,
        times_of(s, arrivals, key).len() == 0 ==> passed_of(s, arrivals, key) == 0
            && after_arrivals(s, arrivals).buckets.contains_key(key) == s.buckets.contains_key(key)
            && (s.buckets.contains_key(key) ==> after_arrivals(s, arrivals).buckets[key]
            == s.buckets[key]),
        times_of(s, arrivals, key).len() > 0 ==> after_arrivals(s, arrivals).buckets.contains_key(
            key,
        ) && after_arrivals(s, arrivals).buckets[key] == after_checks(
            first_bucket(s, key, times_of(s, arrivals, key)),
            times_of(s, arrivals, key),
        ) && passed_of(s, arrivals, key) == admitted(
            first_bucket(s, key, times_of(s, arrivals, key)),
            times_of(s, arrivals, key),
        ),
    decreases arrivals.len(),
{
    if arrivals.len() > 0 {
        let rest = arrivals.drop_last();
        let last = arrivals.last();
        let before = after_arrivals(s, rest);
        lemma_key_history(s, rest, key);
        lemma_after_key_wf(before, before.key(last.request), last.now);
        if s.key(last.request) == key {
            let earlier = times_of(s, rest, key);
            let times = times_of(s, arrivals, key);
            assert(times == earlier.push(last.now));
            assert(times.drop_last() =~= earlier);
            assert(times.last() == last.now);
            assert(before.key(last.request) == key);
            if earlier.len() == 0 {
                assert(times[0] == last.now);
                assert(admitted(first_bucket(s, key, times), earlier) == 0);
                assert(after_checks(first_bucket(s, key, times), earlier) == first_bucket(
                    s,
                    key,
                    times,
                ));
            } else {
                assert(times[0] == earlier[0]);
            }
        }
    }
}

/// No bucket is ever removed: a key that has a bucket has one after any
/// sequence of requests.
pub proof fn lemma_buckets_persist(s: ServiceView, arrivals: Seq<Arrival>, key: KeyView)
    requires
        s.wf(),
        s.buckets.contains_key(key),
    ensures
        after_arrivals(s, arrivals).buckets.contains_key(key),
{
    lemma_key_history(s, arrivals, key);
}

/// What the first request of a key works on is a well-formed bucket with the
/// limits of the key's plan.
pub proof fn lemma_first_bucket(s: ServiceView, key: KeyView, times: Seq<nat>)
    requires
        s.wf(),
    ensures
        first_bucket(s, key, times).wf(),
        first_bucket(s, key, times).limits == s.plans.of(key.plan),
        !s.buckets.contains_key(key) ==> first_bucket(s, key, times).level == s.plans.of(
            key.plan,
        ).full(),
{
    lemma_full_is_bounded(s.plans.of(key.plan));
}

/// Of the requests of one key that arrive with no time between them, the
/// first time the key is seen, exactly as many are let through as the
/// capacity of the key's plan, or all of them if they are fewer; the rest are
/// refused. Requests of other keys that arrive among them change nothing of
/// this.
pub proof fn lemma_burst_of_a_new_key(
    s: ServiceView,
    arrivals: Seq<Arrival>,
    key: KeyView,
    t: nat,
)
    requires
        s.wf(),
        !s.buckets.contains_key(key),
        all_at(times_of(s, arrivals, key), t),
    ensures
        passed_of(s, arrivals, key) == if times_of(s, arrivals, key).len() <= s.plans.of(
            key.plan,
        ).capacity {
            times_of(s, arrivals, key).len()
        } else {
            s.plans.of(key.plan).capacity
        },
{
    let times = times_of(s, arrivals, key);
    lemma_key_history(s, arrivals, key);
    if times.len() > 0 {
        lemma_first_bucket(s, key, times);
        lemma_burst(first_bucket(s, key, times), times, t);
    }
}

/// Of the requests of one key that arrive within a window of time, whatever
/// else arrives and whatever came before, at most the capacity of the key's
/// plan and the inflow over the width of the window are let through.
pub proof fn lemma_window_of_a_key(
    s: ServiceView,
    arrivals: Seq<Arrival>,
    key: KeyView,
    start: nat,
    width: nat,
)
    requires
        s.wf(),
        in_window(times_of(s, arrivals, key), start, width),
    ensures
        passed_of(s, arrivals, key) * s.plans.of(key.plan).grain() <= s.plans.of(key.plan).full()
            + s.plans.of(key.plan).requests_per_unit * width,
{
    let times = times_of(s, arrivals, key);
    let limits = s.plans.of(key.plan);
    lemma_key_history(s, arrivals, key);
    if times.len() > 0 {
        lemma_first_bucket(s, key, times);
        lemma_window_bound(first_bucket(s, key, times), times, start, width);
    } else {
        let g = limits.grain() as int;
        let r = limits.requests_per_unit as int;
        let w = width as int;
        assert(0 * g == 0) by (nonlinear_arith);
        assert(0 <= r * w) by (nonlinear_arith)
            requires
                0 <= r,
                0 <= w,
        ;
    }
}

} // verus!
