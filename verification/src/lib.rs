//! Admission control: a keyed token-bucket rate limiter together with the
//! request classification that selects the plan and the bucket of each check.
//!
//! - [`plan`]: the plans and their limits.
//! - [`bucket`]: the token bucket behind one key.
//! - [`store`]: the buckets of all keys.
//! - [`classifier`]: from the descriptors of a request to a plan and an
//!   identity.
//! - [`decision`]: the answer to a check.
//! - [`service`]: the limiter service, which puts these together. Time is a
//!   number of nanoseconds on a monotonic clock that the caller reads, so
//!   that every answer is a function of the requests and their times.
//! - [`history`] and [`traffic`]: what holds of a bucket over a run of
//!   checks, and of the service over a sequence of requests.
//! - [`metered`]: the same service on the keyed leaky buckets of
//!   `ratelimit_meter`, which read the clock themselves.

pub mod bucket;
pub mod classifier;
pub mod decision;
pub mod history;
pub mod metered;
pub mod plan;
pub mod service;
pub mod store;
pub mod traffic;
