//! Plans and their limits.

use vstd::prelude::*;

verus! {

/// The tier that a caller is served under.
#[derive(Clone, Copy, Debug, PartialEq, Eq, Hash, Structural)]
pub enum Plan {
    Free,
    Paid,
}

/// The span of time over which `requests_per_unit` requests are allowed.
#[derive(Clone, Copy, Debug, PartialEq, Eq, Hash, Structural)]
pub enum Unit {
    Second,
    Minute,
    Hour,
    Day,
}

/// The length of a unit in nanoseconds.
pub open spec fn unit_nanos(unit: Unit) -> nat {
    match unit {
        Unit::Second => 1_000_000_000,
        Unit::Minute => 60_000_000_000,
        Unit::Hour => 3_600_000_000_000,
        Unit::Day => 86_400_000_000_000,
    }
}

impl Unit {
    /// The length of the unit in nanoseconds.
    pub fn nanos(self) -> (n: u64)
        ensures
            n == unit_nanos(self),
    {
        match self {
            Unit::Second => 1_000_000_000,
            Unit::Minute => 60_000_000_000,
            Unit::Hour => 3_600_000_000_000,
            Unit::Day => 86_400_000_000_000,
        }
    }
}

/// Why a pair of limits was refused.
#[derive(Clone, Copy, Debug, PartialEq, Eq, Structural)]
pub enum ConfigError {
    /// The steady rate was zero.
    ZeroRate,
    /// The burst capacity was zero.
    ZeroCapacity,
}

/// The limits of a plan as mathematical values.
pub struct Limits {
    /// Requests allowed per unit in the long run.
    pub requests_per_unit: nat,
    /// The unit of the rate.
    pub unit: Unit,
    /// Requests allowed at once after a long pause.
    pub capacity: nat,
}

impl Limits {
    /// Both limits are positive and fit the wire's unsigned 32 bits.
    pub open spec fn valid(self) -> bool {
        &&& 0 < self.requests_per_unit <= u32::MAX
        &&& 0 < self.capacity <= u32::MAX
    }

    /// The points that make one token in a bucket's fixed-point level: as
    /// many as the unit has nanoseconds. A bucket then gains
    /// `requests_per_unit` points in every nanosecond, and the refill over
    /// any number of nanoseconds is a whole number of points.
    pub open spec fn grain(self) -> nat {
        unit_nanos(self.unit)
    }

    /// The level of a full bucket.
    pub open spec fn full(self) -> nat {
        self.capacity * self.grain()
    }
}

/// The limits of a plan: a steady rate and a burst capacity, both positive.
/// Once made, it never changes.
#[derive(Clone, Copy, Debug, PartialEq, Eq)]
pub struct PlanConfig {
    requests_per_unit: u32,
    unit: Unit,
    capacity: u32,
}

impl View for PlanConfig {
    type V = Limits;

    closed spec fn view(&self) -> Limits {
        Limits {
            requests_per_unit: self.requests_per_unit as nat,
            unit: self.unit,
            capacity: self.capacity as nat,
        }
    }
}

impl PlanConfig {
    #[verifier::type_invariant]
    spec fn positive(self) -> bool {
        self.requests_per_unit > 0 && self.capacity > 0
    }

    /// Limits of `requests_per_unit` per `unit` with bursts of up to
    /// `capacity`. A zero rate is refused first, then a zero capacity.
    pub fn new(requests_per_unit: u32, unit: Unit, capacity: u32) -> (r: Result<
        PlanConfig,
        ConfigError,
    >)
        ensures
            r is Ok <==> requests_per_unit > 0 && capacity > 0,
            r matches Ok(c) ==> c@ == (Limits {
                requests_per_unit: requests_per_unit as nat,
                unit,
                capacity: capacity as nat,
            }) && c@.valid(),
            r matches Err(e) ==> e == if requests_per_unit == 0 {
                ConfigError::ZeroRate
            } else {
                ConfigError::ZeroCapacity
            },
    {
        if requests_per_unit == 0 {
            Err(ConfigError::ZeroRate)
        } else if capacity == 0 {
            Err(ConfigError::ZeroCapacity)
        } else {
            Ok(PlanConfig { requests_per_unit, unit, capacity })
        }
    }

    /// The requests allowed per unit in the long run.
    pub fn requests_per_unit(&self) -> (r: u32)
        ensures
            r == self@.requests_per_unit,
            self@.valid(),
    {
        proof {
            use_type_invariant(self);
        }
        self.requests_per_unit
    }

    /// The unit of the rate.
    pub fn unit(&self) -> (u: Unit)
        ensures
            u == self@.unit,
    {
        self.unit
    }

    /// The requests allowed at once after a long pause.
    pub fn capacity(&self) -> (c: u32)
        ensures
            c == self@.capacity,
            self@.valid(),
    {
        proof {
            use_type_invariant(self);
        }
        self.capacity
    }
}

/// The limits of every plan.
#[derive(Clone, Copy, Debug, PartialEq, Eq)]
pub struct PlanTable {
    free: PlanConfig,
    paid: PlanConfig,
}

/// The limits of every plan as mathematical values.
pub struct PlanLimits {
    pub free: Limits,
    pub paid: Limits,
}

impl PlanLimits {
    /// The limits of every plan are valid.
    pub open spec fn valid(self) -> bool {
        self.free.valid() && self.paid.valid()
    }

    /// The limits of `plan`.
    pub open spec fn of(self, plan: Plan) -> Limits {
        match plan {
            Plan::Free => self.free,
            Plan::Paid => self.paid,
        }
    }
}

impl View for PlanTable {
    type V = PlanLimits;

    closed spec fn view(&self) -> PlanLimits {
        PlanLimits { free: self.free@, paid: self.paid@ }
    }
}

impl PlanTable {
    /// The table with the given limits for the free and for the paid plan.
    pub fn new(free: PlanConfig, paid: PlanConfig) -> (t: PlanTable)
        ensures
            t@ == (PlanLimits { free: free@, paid: paid@ }),
            t@.valid(),
    {
        proof {
            use_type_invariant(&free);
            use_type_invariant(&paid);
        }
        PlanTable { free, paid }
    }

    /// The table this service ships with: ten requests a second with bursts
    /// of twenty for the free plan, a hundred a second with bursts of two
    /// hundred for the paid plan.
    pub fn standard() -> (t: PlanTable)
        ensures
            t@.free == (Limits { requests_per_unit: 10, unit: Unit::Second, capacity: 20 }),
            t@.paid == (Limits { requests_per_unit: 100, unit: Unit::Second, capacity: 200 }),
            t@.valid(),
    {
        PlanTable {
            free: PlanConfig { requests_per_unit: 10, unit: Unit::Second, capacity: 20 },
            paid: PlanConfig { requests_per_unit: 100, unit: Unit::Second, capacity: 200 },
        }
    }

    /// The limits of `plan`.
    pub fn config(&self, plan: Plan) -> (c: PlanConfig)
        ensures
            c@ == self@.of(plan),
            c@.valid(),
    {
        let c = match plan {
            Plan::Free => self.free,
            Plan::Paid => self.paid,
        };
        proof {
            use_type_invariant(&c);
        }
        c
    }
}

} // verus!
