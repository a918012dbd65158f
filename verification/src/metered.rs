//! The limiter service on buckets kept by `ratelimit_meter`.
//!
//! Here the buckets belong to a keyed leaky-bucket meter for each plan, and
//! the meter reads the monotonic clock itself. What a check finds is
//! therefore not a function of the request, and the contracts say what
//! holds whatever it finds. Classification and the composition of the
//! decision are those of the rest of the library.

use crate::bucket::{lemma_full_is_bounded, OverLimit};
use crate::classifier::{
    classify, classify_spec, request_view, Classification, ClassifierConfig, ClassifierKeys,
    Descriptor,
};
use crate::decision::{decision_spec, Code, Decision};
use crate::plan::{Limits, Plan, PlanConfig, PlanLimits, PlanTable};
use ratelimit_meter::KeyedRateLimiter;
use ratelimit_meter::LeakyBucket;
use std::num::NonZeroU32;
use std::time::Duration;
use vstd::prelude::*;

verus! {

/// A `ratelimit_meter::KeyedRateLimiter` keyed by strings, with leaky
/// buckets on the monotonic clock. The verifier takes the whole struct on
/// trust and sees nothing inside it: the limiter's type is bounded by traits
/// of `ratelimit_meter` that cannot be declared to the verifier.
#[verifier::external_body]
#[derive(Debug)]
pub struct KeyedMeter {
    inner: KeyedRateLimiter<String, LeakyBucket>,
}

/// The keys that a meter holds a bucket for.
pub uninterp spec fn meter_keys(meter: KeyedMeter) -> Set<Seq<char>>;

/// `KeyedRateLimiter::new`: a meter that lets `capacity` cells through per
/// drain period, the period given in whole seconds and nanoseconds beyond
/// them. Believed of it: the new meter holds no key. The period is kept
/// under 2^63 seconds, within which the meter's sums of two periods stay in
/// range.
#[verifier::external_body]
fn meter_new(capacity: u32, drain_secs: u64, drain_subsec_nanos: u32) -> (meter: KeyedMeter)
    requires
        capacity > 0,
        drain_secs < 0x8000_0000_0000_0000,
        drain_subsec_nanos < 1_000_000_000,
    ensures
        meter_keys(meter) == Set::<Seq<char>>::empty(),
{
    KeyedMeter {
        inner: KeyedRateLimiter::new(
            NonZeroU32::new(capacity).unwrap(),
            Duration::new(drain_secs, drain_subsec_nanos),
        ),
    }
}

/// `KeyedRateLimiter::check`: tests at the present moment whether one more
/// cell conforms under `key`. Believed of it: afterwards the meter holds a
/// bucket for `key`, and for the keys it held before. Nothing is believed of
/// the outcome, which depends on the clock.
#[verifier::external_body]
fn meter_check(meter: &mut KeyedMeter, key: String) -> (outcome: Result<(), OverLimit>)
    ensures
        meter_keys(*final(meter)) == meter_keys(*old(meter)).insert(key@),
{
    match meter.inner.check(key) {
        Ok(()) => Ok(()),
        Err(_) => Err(OverLimit),
    }
}

/// The nanoseconds in which a full bucket of these limits drains at their
/// rate, rounded up to a whole nanosecond. A meter that lets the capacity
/// through per such period has the burst and, but for the rounding, the rate
/// of the limits.
pub open spec fn drain_nanos(limits: Limits) -> nat {
    ((limits.full() + limits.requests_per_unit - 1) / (limits.requests_per_unit as int)) as nat
}

/// The drain period of `config` in whole seconds and the nanoseconds beyond
/// them.
pub fn drain_period(config: &PlanConfig) -> (period: (u64, u32))
    ensures
        period.0 * 1_000_000_000 + period.1 == drain_nanos(config@),
        period.1 < 1_000_000_000,
        period.0 < 0x8000_0000_0000_0000,
{
    let grain: u128 = config.unit().nanos() as u128;
    let capacity: u128 = config.capacity() as u128;
    let rate: u128 = config.requests_per_unit() as u128;
    proof {
        lemma_full_is_bounded(config@);
    }
    let nanos: u128 = (capacity * grain + rate - 1) / rate;
    let secs: u128 = nanos / 1_000_000_000;
    let rest: u128 = nanos % 1_000_000_000;
    (secs as u64, rest as u32)
}

/// A metered service as mathematical values: its fixed configuration, and
/// the keys that the meter of each plan holds.
pub struct MeteredView {
    pub keys: ClassifierKeys,
    pub plans: PlanLimits,
    pub free: Set<Seq<char>>,
    pub paid: Set<Seq<char>>,
}

impl MeteredView {
    /// The service after a check of `identity` under `plan`: the meter of
    /// that plan holds the identity, and nothing else has changed.
    pub open spec fn after(self, plan: Plan, identity: Seq<char>) -> MeteredView {
        MeteredView {
            keys: self.keys,
            plans: self.plans,
            free: if plan == Plan::Free {
                self.free.insert(identity)
            } else {
                self.free
            },
            paid: if plan == Plan::Paid {
                self.paid.insert(identity)
            } else {
                self.paid
            },
        }
    }
}

/// The service with one keyed meter for each plan.
#[derive(Debug)]
pub struct MeteredService {
    classifier: ClassifierConfig,
    plans: PlanTable,
    free: KeyedMeter,
    paid: KeyedMeter,
}

impl View for MeteredService {
    type V = MeteredView;

    closed spec fn view(&self) -> MeteredView {
        MeteredView {
            keys: self.classifier@,
            plans: self.plans@,
            free: meter_keys(self.free),
            paid: meter_keys(self.paid),
        }
    }
}

impl MeteredService {
    /// A service whose meters hold no key yet. The meter of a plan lets the
    /// plan's capacity through per drain period of the plan.
    pub fn new(classifier: ClassifierConfig, plans: PlanTable) -> (service: MeteredService)
        ensures
            service@ == (MeteredView {
                keys: classifier@,
                plans: plans@,
                free: Set::<Seq<char>>::empty(),
                paid: Set::<Seq<char>>::empty(),
            }),
    {
        let free_config = plans.config(Plan::Free);
        let paid_config = plans.config(Plan::Paid);
        let free_period = drain_period(&free_config);
        let paid_period = drain_period(&paid_config);
        let free = meter_new(free_config.capacity(), free_period.0, free_period.1);
        let paid = meter_new(paid_config.capacity(), paid_period.0, paid_period.1);
        MeteredService { classifier, plans, free, paid }
    }

    /// Checks a request that has been classified already, of `descriptors`
    /// descriptors, now. The meter of the request's plan is asked once,
    /// under the request's identity. Whatever it answers, the decision is
    /// the one composed from that answer, with the plan's rate in every
    /// status, and the meter then holds the identity.
    pub fn check(&mut self, classification: &Classification, descriptors: usize) -> (d: Decision)
        ensures
            d@ == decision_spec(
                d.overall_code == Code::WithinLimit,
                old(self)@.plans.of(classification.plan),
                descriptors as nat,
            ),
            final(self)@ == old(self)@.after(classification.plan, classification.identity@),
    {
        let config = self.plans.config(classification.plan);
        let key = classification.identity.clone();
        let outcome = match classification.plan {
            Plan::Paid => meter_check(&mut self.paid, key),
            Plan::Free => meter_check(&mut self.free, key),
        };
        Decision::compose(&outcome, &config, descriptors)
    }

    /// Decides on a request, now. The request is classified and the meter of
    /// its plan is asked once under its identity.
    pub fn should_rate_limit(&mut self, descriptors: &Vec<Descriptor>) -> (d: Decision)
        ensures
            d@ == decision_spec(
                d.overall_code == Code::WithinLimit,
                old(self)@.plans.of(classify_spec(old(self)@.keys, request_view(descriptors@)).plan),
                descriptors@.len(),
            ),
            final(self)@ == old(self)@.after(
                classify_spec(old(self)@.keys, request_view(descriptors@)).plan,
                classify_spec(old(self)@.keys, request_view(descriptors@)).identity,
            ),
    {
        let classification = classify(&self.classifier, descriptors);
        self.check(&classification, descriptors.len())
    }
}

} // verus!
