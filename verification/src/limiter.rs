//! The order-admission rate limit, kept by `governor`.

use vstd::prelude::*;

use governor::clock::{QuantaClock, QuantaInstant};
use governor::middleware::NoOpMiddleware;
use governor::state::{InMemoryState, NotKeyed};
use governor::{Quota, RateLimiter};

verus! {

/// A direct (unkeyed) `governor` rate limiter on the default clock. Its state
/// lives in the limiter and moves with the clock, so it is opaque here.
#[verifier::external_body]
pub struct OrderLimiter {
    limiter: RateLimiter<NotKeyed, InMemoryState, QuantaClock, NoOpMiddleware<QuantaInstant>>,
}

#[verifier::external_type_specification]
#[verifier::external_body]
pub struct ExQuota(Quota);

/// The order-admission rate limit: at most `rate()` orders per second, kept
/// by a `governor` limiter built from that same rate.
pub struct RateLimit {
    per_second: u32,
    limiter: OrderLimiter,
}

impl RateLimit {
    /// The configured number of orders per second.
    pub closed spec fn rate(&self) -> u32 {
        self.per_second
    }

    /// A limit of `per_second` orders per second.
    pub fn new(per_second: u32) -> (r: RateLimit)
        requires
            per_second > 0,
        ensures
            r.rate() == per_second,
    {
        RateLimit { per_second, limiter: direct_limiter(quota_per_second(per_second)) }
    }

    /// The configured number of orders per second.
    pub fn per_second(&self) -> (r: u32)
        ensures
            r == self.rate(),
    {
        self.per_second
    }

    /// Whether one more order is admitted now. The answer depends on the clock
    /// and on earlier answers, so nothing is stated of it.
    pub fn admits(&self) -> bool {
        check_one(&self.limiter)
    }
}

/// `governor::Quota::per_second`: a quota of bursts of `per_second` cells,
/// refilled at that rate. The quota is opaque here; `NonZeroU32::new` cannot
/// fail on the nonzero argument.
#[verifier::external_body]
pub(crate) fn quota_per_second(per_second: u32) -> (r: Quota)
    requires
        per_second > 0,
{
    Quota::per_second(std::num::NonZeroU32::new(per_second).unwrap())
}

/// `governor::RateLimiter::direct`: a direct limiter on the default clock for
/// `quota`. Nothing is stated of its state.
#[verifier::external_body]
pub(crate) fn direct_limiter(quota: Quota) -> (r: OrderLimiter) {
    OrderLimiter { limiter: RateLimiter::direct(quota) }
}

/// `governor::RateLimiter::check`: whether the limiter admits one more cell now.
/// The answer depends on the clock and on earlier checks, so nothing is stated
/// of it.
#[verifier::external_body]
pub(crate) fn check_one(l: &OrderLimiter) -> (r: bool) {
    l.limiter.check().is_ok()
}

} // verus!
