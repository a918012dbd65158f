//! The token bucket behind one key.
//!
//! A bucket holds up to `capacity` tokens and gains `requests_per_unit` of
//! them per unit of time. The level is kept in fixed point: a token weighs
//! as many points as its unit has nanoseconds, so a refill over any number of
//! nanoseconds adds a whole number of points and nothing is ever rounded.

use crate::plan::{ConfigError, Limits, PlanConfig, Unit};
use vstd::prelude::*;

verus! {

/// The answer to a check that found no token. It is an ordinary outcome.
#[derive(Clone, Copy, Debug, PartialEq, Eq, Structural)]
pub struct OverLimit;

/// A bucket as mathematical values.
pub struct BucketView {
    pub limits: Limits,
    /// The fill level in points; `limits.grain()` points make one token.
    pub level: nat,
    /// The latest time, in nanoseconds, that a check has carried.
    pub last_update: nat,
}

impl BucketView {
    /// The limits are valid and the level is within the capacity.
    pub open spec fn wf(self) -> bool {
        &&& self.limits.valid()
        &&& self.level <= self.limits.full()
    }

    /// A full bucket made at time `now`.
    pub open spec fn fresh(limits: Limits, now: nat) -> BucketView {
        BucketView { limits, level: limits.full(), last_update: now }
    }

    /// The time since the last update; none if the clock went back.
    pub open spec fn elapsed(self, now: nat) -> nat {
        if now > self.last_update {
            (now - self.last_update) as nat
        } else {
            0
        }
    }

    /// The points that have flowed in since the last update.
    pub open spec fn inflow(self, now: nat) -> nat {
        self.elapsed(now) * self.limits.requests_per_unit
    }

    /// The level at time `now`, before anything is taken: the old level and
    /// the inflow, capped at a full bucket.
    pub open spec fn refilled(self, now: nat) -> nat {
        if self.level + self.inflow(now) <= self.limits.full() {
            self.level + self.inflow(now)
        } else {
            self.limits.full()
        }
    }

    /// The points that the cap throws away at time `now`.
    pub open spec fn spill(self, now: nat) -> nat {
        (self.level + self.inflow(now) - self.refilled(now)) as nat
    }

    /// Whether a check at time `now` finds a whole token.
    pub open spec fn admits(self, now: nat) -> bool {
        self.refilled(now) >= self.limits.grain()
    }

    /// The bucket after a check at time `now`: refilled, one token less if
    /// there was one, and never earlier than it was.
    pub open spec fn after_check(self, now: nat) -> BucketView {
        BucketView {
            limits: self.limits,
            level: if self.admits(now) {
                (self.refilled(now) - self.limits.grain()) as nat
            } else {
                self.refilled(now)
            },
            last_update: if now > self.last_update {
                now
            } else {
                self.last_update
            },
        }
    }

    /// The whole tokens in the bucket.
    pub open spec fn tokens(self) -> nat {
        self.level / self.limits.grain()
    }
}

/// A token bucket: the limits it was made with, its level and the time of
/// its last update.
#[derive(Debug, PartialEq, Eq)]
pub struct Bucket {
    config: PlanConfig,
    level: u128,
    last_update: u64,
}

impl View for Bucket {
    type V = BucketView;

    closed spec fn view(&self) -> BucketView {
        BucketView {
            limits: self.config@,
            level: self.level as nat,
            last_update: self.last_update as nat,
        }
    }
}

/// A full bucket holds at least one token and fewer than 2^79 points.
pub proof fn lemma_full_is_bounded(limits: Limits)
    requires
        limits.valid(),
    ensures
        limits.grain() <= limits.full() <= 0xFFFF_FFFF * 86_400_000_000_000,
        0 < limits.grain() <= 86_400_000_000_000,
{
    let c = limits.capacity as int;
    let g = limits.grain() as int;
    assert(g <= c * g <= 0xFFFF_FFFF * 86_400_000_000_000) by (nonlinear_arith)
        requires
            1 <= c <= 0xFFFF_FFFF,
            0 < g <= 86_400_000_000_000,
    ;
}

impl Bucket {
    #[verifier::type_invariant]
    spec fn within_capacity(self) -> bool {
        self@.wf()
    }

    /// A full bucket that gains `requests_per_unit` tokens per `unit` and
    /// holds up to `capacity`, made at time `now`. Zero for the rate or for
    /// the capacity is a configuration error; the rate is looked at first.
    pub fn new(requests_per_unit: u32, unit: Unit, capacity: u32, now: u64) -> (r: Result<
        Bucket,
        ConfigError,
    >)
        ensures
            r is Ok <==> requests_per_unit > 0 && capacity > 0,
            r matches Ok(b) ==> b@ == BucketView::fresh(
                Limits {
                    requests_per_unit: requests_per_unit as nat,
                    unit,
                    capacity: capacity as nat,
                },
                now as nat,
            ) && b@.wf(),
            r matches Err(e) ==> e == if requests_per_unit == 0 {
                ConfigError::ZeroRate
            } else {
                ConfigError::ZeroCapacity
            },
    {
        match PlanConfig::new(requests_per_unit, unit, capacity) {
            Ok(config) => Ok(Bucket::full(config, now)),
            Err(e) => Err(e),
        }
    }

    /// A full bucket with the limits of `config`, made at time `now`.
    pub fn full(config: PlanConfig, now: u64) -> (b: Bucket)
        ensures
            b@ == BucketView::fresh(config@, now as nat),
            b@.wf(),
    {
        let grain: u128 = config.unit().nanos() as u128;
        let capacity: u128 = config.capacity() as u128;
        proof {
            lemma_full_is_bounded(config@);
        }
        Bucket { config, level: capacity * grain, last_update: now }
    }

    /// Takes one token at time `now` if the bucket, refilled for the time
    /// since its last update, holds one. The refilled level and the time are
    /// kept whether or not a token was found, so that no stretch of time is
    /// ever counted twice. A `now` before the last update counts as no time
    /// passed and leaves the time of the last update as it is.
    pub fn check(&mut self, now: u64) -> (r: Result<(), OverLimit>)
        ensures
            r is Ok <==> old(self)@.admits(now as nat),
            final(self)@ == old(self)@.after_check(now as nat),
            final(self)@.wf(),
    {
        proof {
            use_type_invariant(&*self);
            lemma_full_is_bounded(self@.limits);
        }
        let grain: u128 = self.config.unit().nanos() as u128;
        let full: u128 = self.config.capacity() as u128 * grain;
        let rate: u128 = self.config.requests_per_unit() as u128;
        let elapsed: u128 = if now > self.last_update {
            (now - self.last_update) as u128
        } else {
            0
        };
        assert(elapsed * rate <= 0xFFFF_FFFF_FFFF_FFFF * 0xFFFF_FFFF) by (nonlinear_arith)
            requires
                0 <= elapsed <= 0xFFFF_FFFF_FFFF_FFFF,
                0 <= rate <= 0xFFFF_FFFF,
        ;
        let inflow: u128 = elapsed * rate;
        let sum: u128 = self.level + inflow;
        let refilled: u128 = if sum <= full {
            sum
        } else {
            full
        };
        let admitted = refilled >= grain;
        self.level = if admitted {
            refilled - grain
        } else {
            refilled
        };
        if now > self.last_update {
            self.last_update = now;
        }
        if admitted {
            Ok(())
        } else {
            Err(OverLimit)
        }
    }

    /// The limits that the bucket was made with.
    pub fn config(&self) -> (c: PlanConfig)
        ensures
            c@ == self@.limits,
            self@.wf(),
    {
        proof {
            use_type_invariant(self);
        }
        self.config
    }

    /// The whole tokens that the bucket held after its last update.
    pub fn tokens(&self) -> (n: u32)
        ensures
            n == self@.tokens(),
            n <= self@.limits.capacity,
    {
        proof {
            use_type_invariant(self);
            lemma_full_is_bounded(self@.limits);
            let g = self@.limits.grain() as int;
            let c = self@.limits.capacity as int;
            let l = self@.level as int;
            assert(l / g <= c) by (nonlinear_arith)
                requires
                    0 <= l <= c * g,
                    0 < g,
            ;
        }
        let grain: u128 = self.config.unit().nanos() as u128;
        (self.level / grain) as u32
    }

    /// The latest time that a check has carried, or the time of making.
    pub fn last_update(&self) -> (t: u64)
        ensures
            t == self@.last_update,
    {
        self.last_update
    }
}

} // verus!
