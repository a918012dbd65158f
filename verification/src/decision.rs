//! The answer to a rate-limit check.

use crate::bucket::OverLimit;
use crate::plan::{Limits, PlanConfig, Unit};
use vstd::prelude::*;

verus! {

/// Whether the request may pass: `WithinLimit` is the wire's `OK`,
/// `OverLimit` its `OVER_LIMIT`.
#[derive(Clone, Copy, Debug, PartialEq, Eq, Structural)]
pub enum Code {
    WithinLimit,
    OverLimit,
}

/// The limit that applied: so many requests per unit.
#[derive(Clone, Copy, Debug, PartialEq, Eq, Structural)]
pub struct RateLimit {
    pub requests_per_unit: u32,
    pub unit: Unit,
}

/// What is said of one descriptor.
#[derive(Clone, Copy, Debug, PartialEq, Eq, Structural)]
pub struct DescriptorStatus {
    pub code: Code,
    pub current_limit: Option<RateLimit>,
    /// Always zero: what is left in the bucket is not reported.
    pub limit_remaining: u32,
}

/// The answer to one check: a code for the whole request, and a status for
/// each descriptor.
#[derive(Clone, Debug, PartialEq, Eq)]
pub struct Decision {
    pub overall_code: Code,
    pub statuses: Vec<DescriptorStatus>,
}

/// A decision as mathematical values.
pub struct DecisionView {
    pub overall_code: Code,
    pub statuses: Seq<DescriptorStatus>,
}

impl View for Decision {
    type V = DecisionView;

    open spec fn view(&self) -> DecisionView {
        DecisionView { overall_code: self.overall_code, statuses: self.statuses@ }
    }
}

/// The code for a check that did or did not find a token.
pub open spec fn code_of(admitted: bool) -> Code {
    if admitted {
        Code::WithinLimit
    } else {
        Code::OverLimit
    }
}

/// The status of a descriptor: the code, and the rate of the plan that the
/// request was served under, whatever the code is.
pub open spec fn status_spec(admitted: bool, limits: Limits) -> DescriptorStatus {
    DescriptorStatus {
        code: code_of(admitted),
        current_limit: Some(
            RateLimit { requests_per_unit: limits.requests_per_unit as u32, unit: limits.unit },
        ),
        limit_remaining: 0,
    }
}

/// How many statuses a decision holds: one for each descriptor, and one for
/// a request without descriptors.
pub open spec fn status_count(descriptors: nat) -> nat {
    if descriptors == 0 {
        1
    } else {
        descriptors
    }
}

/// The decision on a request of so many descriptors, served under a plan
/// with the given limits, whose one check did or did not find a token.
pub open spec fn decision_spec(admitted: bool, limits: Limits, descriptors: nat) -> DecisionView {
    DecisionView {
        overall_code: code_of(admitted),
        statuses: Seq::new(status_count(descriptors), |i: int| status_spec(admitted, limits)),
    }
}

/// Every status of a decision carries the code of the request and the rate
/// of the plan, on a refusal as on a pass.
pub proof fn lemma_status_reports_rate(admitted: bool, limits: Limits, descriptors: nat, i: int)
    requires
        limits.valid(),
        0 <= i < status_count(descriptors),
    ensures
        decision_spec(admitted, limits, descriptors).overall_code == code_of(admitted),
        decision_spec(admitted, limits, descriptors).statuses.len() == status_count(descriptors),
        decision_spec(admitted, limits, descriptors).statuses[i].code == code_of(admitted),
        decision_spec(admitted, limits, descriptors).statuses[i].current_limit matches Some(limit)
            && limit.requests_per_unit == limits.requests_per_unit && limit.unit == limits.unit,
{
}

impl Code {
    /// The code for the outcome of a check.
    pub fn from_outcome(outcome: &Result<(), OverLimit>) -> (code: Code)
        ensures
            code == code_of(outcome is Ok),
    {
        match outcome {
            Ok(_) => Code::WithinLimit,
            Err(_) => Code::OverLimit,
        }
    }
}

impl Decision {
    /// Composes the decision on a request of `descriptors` descriptors that
    /// was served under `config` and whose check ended in `outcome`. The one
    /// check decides the code of the request and of every status, and every
    /// status reports the plan's rate, also where the request is refused.
    pub fn compose(outcome: &Result<(), OverLimit>, config: &PlanConfig, descriptors: usize) -> (d:
        Decision)
        ensures
            d@ == decision_spec(outcome is Ok, config@, descriptors as nat),
    {
        let code = Code::from_outcome(outcome);
        let status = DescriptorStatus {
            code,
            current_limit: Some(
                RateLimit { requests_per_unit: config.requests_per_unit(), unit: config.unit() },
            ),
            limit_remaining: 0,
        };
        let count: usize = if descriptors == 0 {
            1
        } else {
            descriptors
        };
        let mut statuses: Vec<DescriptorStatus> = Vec::new();
        let mut i: usize = 0;
        while i < count
            invariant
                i <= count,
                statuses@.len() == i,
                forall|j: int| 0 <= j < i ==> statuses@[j] == status,
            decreases count - i,
        {
            statuses.push(status);
            i = i + 1;
        }
        let d = Decision { overall_code: code, statuses };
        assert(d@.statuses =~= decision_spec(
            outcome is Ok,
            config@,
            descriptors as nat,
        ).statuses);
        d
    }
}

} // verus!
