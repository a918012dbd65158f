//! The limiter service: classify the request, find the bucket, check it,
//! and compose the decision.

use crate::bucket::{lemma_full_is_bounded, BucketView};
use crate::classifier::{
    classify, classify_spec, request_view, Classification, ClassificationView, ClassifierConfig,
    ClassifierKeys, Descriptor, EntryView,
};
use crate::decision::{decision_spec, lemma_status_reports_rate, Code, Decision, DecisionView};
use crate::history::lemma_check_step;
use crate::plan::{Limits, Plan, PlanLimits, PlanTable};
use crate::store::{
    admits_at, after_check_at, bucket_for, lemma_keys_are_isolated, BucketStore, KeyView,
    RateLimitKey,
};
use vstd::prelude::*;

verus! {

/// The key of the bucket that a classified request is checked against.
pub open spec fn key_of(c: ClassificationView) -> KeyView {
    KeyView { plan: c.plan, identity: c.identity }
}

/// A service as mathematical values: its fixed configuration, and the
/// buckets it holds.
pub struct ServiceView {
    pub keys: ClassifierKeys,
    pub plans: PlanLimits,
    pub buckets: Map<KeyView, BucketView>,
}

impl ServiceView {
    /// The limits of the plans are valid, and every bucket is well formed
    /// and has the limits of its key's plan.
    pub open spec fn wf(self) -> bool {
        &&& self.plans.valid()
        &&& forall|key: KeyView| #[trigger]
            self.buckets.contains_key(key) ==> self.buckets[key].wf() && self.buckets[key].limits
                == self.plans.of(key.plan)
    }

    /// The classification of a request.
    pub open spec fn classification(self, request: Seq<Seq<EntryView>>) -> ClassificationView {
        classify_spec(self.keys, request)
    }

    /// The key that a request is checked against.
    pub open spec fn key(self, request: Seq<Seq<EntryView>>) -> KeyView {
        key_of(self.classification(request))
    }

    /// The limits that a request is served under.
    pub open spec fn limits(self, request: Seq<Seq<EntryView>>) -> Limits {
        self.plans.of(self.classification(request).plan)
    }

    /// Whether a check of `key` at time `now` finds a token.
    pub open spec fn admits_key(self, key: KeyView, now: nat) -> bool {
        admits_at(self.buckets, key, self.plans.of(key.plan), now)
    }

    /// The service after a check of `key` at time `now`.
    pub open spec fn after_key(self, key: KeyView, now: nat) -> ServiceView {
        ServiceView {
            keys: self.keys,
            plans: self.plans,
            buckets: after_check_at(self.buckets, key, self.plans.of(key.plan), now),
        }
    }

    /// Whether a request at time `now` is let through.
    pub open spec fn admits(self, request: Seq<Seq<EntryView>>, now: nat) -> bool {
        self.admits_key(self.key(request), now)
    }

    /// The decision on a request at time `now`.
    pub open spec fn decision(self, request: Seq<Seq<EntryView>>, now: nat) -> DecisionView {
        decision_spec(self.admits(request, now), self.limits(request), request.len())
    }

    /// The service after a request at time `now`.
    pub open spec fn after(self, request: Seq<Seq<EntryView>>, now: nat) -> ServiceView {
        self.after_key(self.key(request), now)
    }
}

/// A check leaves a well-formed service well formed, with the names and
/// limits it had, and with a bucket for the key that was checked.
pub proof fn lemma_after_key_wf(s: ServiceView, key: KeyView, now: nat)
    requires
        s.wf(),
    ensures
        s.after_key(key, now).wf(),
        s.after_key(key, now).keys == s.keys,
        s.after_key(key, now).plans == s.plans,
        s.after_key(key, now).buckets.contains_key(key),
{
    let limits = s.plans.of(key.plan);
    let bucket = bucket_for(s.buckets, key, limits, now);
    lemma_full_is_bounded(limits);
    assert(bucket.wf() && bucket.limits == limits);
    lemma_check_step(bucket, now);
}

/// Requests are isolated: a request that is checked against one key changes
/// nothing of the decision on a later request that is checked against
/// another key, nor of the bucket that the later request leaves behind, and
/// two such requests leave the same service in either order.
pub proof fn lemma_requests_are_isolated(
    s: ServiceView,
    first: Seq<Seq<EntryView>>,
    first_now: nat,
    second: Seq<Seq<EntryView>>,
    second_now: nat,
)
    requires
        s.key(first) != s.key(second),
    ensures
        s.after(first, first_now).key(second) == s.key(second),
        s.after(first, first_now).admits(second, second_now) == s.admits(second, second_now),
        s.after(first, first_now).decision(second, second_now) == s.decision(second, second_now),
        s.after(first, first_now).after(second, second_now).buckets[s.key(second)] == s.after(
            second,
            second_now,
        ).buckets[s.key(second)],
        s.after(first, first_now).after(second, second_now) == s.after(second, second_now).after(
            first,
            first_now,
        ),
{
    let a = s.key(first);
    let b = s.key(second);
    lemma_keys_are_isolated(
        s.buckets,
        a,
        s.plans.of(a.plan),
        first_now,
        b,
        s.plans.of(b.plan),
        second_now,
    );
}

/// A request is classified alike whatever the service has seen before and
/// whenever it comes.
pub proof fn lemma_classification_ignores_state(
    s: ServiceView,
    earlier: Seq<Seq<EntryView>>,
    earlier_now: nat,
    request: Seq<Seq<EntryView>>,
)
    ensures
        s.after(earlier, earlier_now).classification(request) == s.classification(request),
        s.after(earlier, earlier_now).keys == s.keys,
        s.after(earlier, earlier_now).plans == s.plans,
{
}

/// A refused request is told the rate of its plan: the decision is
/// `OverLimit` as a whole and in every status, and every status carries the
/// rate and the unit that the plan is configured with.
pub proof fn lemma_refusal_reports_rate(
    s: ServiceView,
    request: Seq<Seq<EntryView>>,
    now: nat,
    i: int,
)
    requires
        s.plans.valid(),
        !s.admits(request, now),
        0 <= i < s.decision(request, now).statuses.len(),
    ensures
        s.decision(request, now).overall_code == Code::OverLimit,
        s.decision(request, now).statuses[i].code == Code::OverLimit,
        s.decision(request, now).statuses[i].current_limit matches Some(limit)
            && limit.requests_per_unit == s.limits(request).requests_per_unit && limit.unit
            == s.limits(request).unit,
{
    lemma_status_reports_rate(false, s.limits(request), request.len(), i);
}

/// The service. It owns its buckets; its configuration never changes.
#[derive(Debug)]
pub struct LimiterService {
    classifier: ClassifierConfig,
    plans: PlanTable,
    store: BucketStore,
}

impl View for LimiterService {
    type V = ServiceView;

    closed spec fn view(&self) -> ServiceView {
        ServiceView { keys: self.classifier@, plans: self.plans@, buckets: self.store@ }
    }
}

impl LimiterService {
    /// A service that classifies by `classifier`, limits by `plans` and
    /// keeps its buckets in `store`, which it owns from now on. With an empty
    /// store the service is well formed.
    pub fn new(classifier: ClassifierConfig, plans: PlanTable, store: BucketStore) -> (service:
        LimiterService)
        ensures
            service@ == (ServiceView { keys: classifier@, plans: plans@, buckets: store@ }),
            service@.plans.valid(),
            store@ == Map::<KeyView, BucketView>::empty() ==> service@.wf(),
    {
        let _ = plans.config(Plan::Free);
        let _ = plans.config(Plan::Paid);
        LimiterService { classifier, plans, store }
    }

    /// The names that the service classifies by.
    pub fn classifier(&self) -> (c: &ClassifierConfig)
        ensures
            c@ == self@.keys,
    {
        &self.classifier
    }

    /// The limits of the plans.
    pub fn plans(&self) -> (p: &PlanTable)
        ensures
            p@ == self@.plans,
            p@.valid(),
    {
        let _ = self.plans.config(Plan::Free);
        let _ = self.plans.config(Plan::Paid);
        &self.plans
    }

    /// The buckets.
    pub fn store(&self) -> (s: &BucketStore)
        ensures
            s@ == self@.buckets,
    {
        &self.store
    }

    /// Checks a request that has been classified already, of `descriptors`
    /// descriptors, at time `now`: the bucket of the classification's plan
    /// and identity is checked once, and the decision composed from what the
    /// check found and from the limits of the plan.
    pub fn check(&mut self, classification: &Classification, descriptors: usize, now: u64) -> (d:
        Decision)
        ensures
            d@ == decision_spec(
                old(self)@.admits_key(key_of(classification@), now as nat),
                old(self)@.plans.of(classification.plan),
                descriptors as nat,
            ),
            final(self)@ == old(self)@.after_key(key_of(classification@), now as nat),
            old(self)@.wf() ==> final(self)@.wf(),
    {
        proof {
            if self@.wf() {
                lemma_after_key_wf(self@, key_of(classification@), now as nat);
            }
        }
        let config = self.plans.config(classification.plan);
        let key = RateLimitKey::new(classification.plan, classification.identity.clone());
        let outcome = self.store.check(&key, &config, now);
        Decision::compose(&outcome, &config, descriptors)
    }

    /// Decides on a request at time `now`, in nanoseconds on a clock that
    /// does not go back. The request is classified, the bucket of its plan
    /// and identity is checked once, being made first if this is the key's
    /// first request, and the outcome of that check is the code of the
    /// decision. The bucket is brought up to `now` whether or not the request
    /// passes; no other bucket changes.
    pub fn should_rate_limit(&mut self, descriptors: &Vec<Descriptor>, now: u64) -> (d: Decision)
        ensures
            d@ == old(self)@.decision(request_view(descriptors@), now as nat),
            final(self)@ == old(self)@.after(request_view(descriptors@), now as nat),
            old(self)@.wf() ==> final(self)@.wf(),
    {
        let classification = classify(&self.classifier, descriptors);
        self.check(&classification, descriptors.len(), now)
    }
}

} // verus!
