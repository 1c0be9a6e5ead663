use crate::binary64::{nanoseconds, seconds, Binary64, Multiplier, NANOS_PER_SEC};
use crate::rounding::{lemma_powers, product, unit};
use crate::time::{from_nanos, nanos_of, to_nanos};
use std::time::Duration;
use vstd::arithmetic::power2::*;
use vstd::prelude::*;

verus! {

/// Result of an HTTP request, as seen by the rate limiter.
pub enum RequestOutcome {
    /// Request succeeded (any non-throttled response).
    Success,
    /// Server returned 429 or 403 without a Retry-After header.
    Throttled,
    /// Server returned 429 or 403 with a Retry-After header specifying a wait duration.
    ThrottledWithRetryAfter(Duration),
}

/// Configuration for the rate limiter.
pub struct RetryConfig {
    /// The steady-state interval between requests. This is the target rate
    /// derived from documented API limits (e.g., 4s for 15 req/min). The limiter
    /// never goes faster than this.
    pub safe_interval: Duration,
    /// How much to decrease interval per success during recovery (e.g., 50ms).
    /// Only applies when interval is above safe_interval after a backoff.
    pub recovery_step: Duration,
    /// Factor to multiply interval on error (e.g., two = double the wait).
    pub backoff_multiplier: Multiplier,
}

/// `interval` nanoseconds times the absolute value of `multiplier`, as a binary64 number
/// of seconds.
pub open spec fn scaled(interval: nat, multiplier: Multiplier) -> nat {
    product(
        seconds(interval / NANOS_PER_SEC as nat, interval % NANOS_PER_SEC as nat),
        multiplier.magnitude(),
    )
}

/// `interval` nanoseconds times the absolute value of `multiplier`, in nanoseconds.
pub open spec fn back_off(interval: nat, multiplier: Multiplier) -> nat {
    nanoseconds(scaled(interval, multiplier))
}

/// The product is a duration: a number, not negative, and less than `2^64` seconds.
pub open spec fn can_back_off(interval: nat, multiplier: Multiplier) -> bool {
    &&& multiplier.finite()
    &&& scaled(interval, multiplier) < pow2(64) * unit()
    &&& multiplier.negative() ==> scaled(interval, multiplier) == 0
}

/// The larger of two numbers.
pub open spec fn larger(a: nat, b: nat) -> nat {
    if a < b {
        b
    } else {
        a
    }
}

/// The interval, in nanoseconds, that follows on `interval` when a request ends in
/// `outcome`.
pub open spec fn next_interval(interval: nat, config: RetryConfig, outcome: RequestOutcome) -> nat {
    match outcome {
        RequestOutcome::Success => {
            let step = nanos_of(config.recovery_step);
            larger(
                if interval < step {
                    0
                } else {
                    (interval - step) as nat
                },
                nanos_of(config.safe_interval),
            )
        },
        RequestOutcome::Throttled => larger(
            back_off(interval, config.backoff_multiplier),
            nanos_of(config.safe_interval),
        ),
        RequestOutcome::ThrottledWithRetryAfter(retry_after) => larger(
            larger(
                back_off(interval, config.backoff_multiplier),
                nanos_of(config.safe_interval),
            ),
            nanos_of(retry_after),
        ),
    }
}

/// `next_interval` is defined: only a success can follow on an interval that cannot be
/// backed off from.
pub open spec fn accepted(interval: nat, config: RetryConfig, outcome: RequestOutcome) -> bool {
    outcome is Success || can_back_off(interval, config.backoff_multiplier)
}

/// The longer of two durations.
fn longer(a: Duration, b: Duration) -> (r: Duration)
    ensures
        nanos_of(r) == larger(nanos_of(a), nanos_of(b)),
{
    if to_nanos(&a) < to_nanos(&b) {
        b
    } else {
        a
    }
}

/// Rate limiter that respects a documented API rate limit.
///
/// Pure state machine: no async, no sleeping, no network. Takes events,
/// returns how long to wait before the next request. The caller is responsible
/// for actually sleeping.
///
/// Steady state: requests are evenly spaced at `safe_interval`. On error:
/// multiplicative backoff. On subsequent successes: linear recovery back to
/// `safe_interval`, then hold. Never goes faster than `safe_interval`.
pub struct RespectfulRetry {
    interval: Duration,
    config: RetryConfig,
}

impl RespectfulRetry {
    /// The limiter never goes faster than the safe interval.
    #[verifier::type_invariant]
    closed spec fn never_faster(self) -> bool {
        nanos_of(self.interval) >= nanos_of(self.config.safe_interval)
    }

    /// The current interval between requests, in nanoseconds.
    pub closed spec fn interval(self) -> nat {
        nanos_of(self.interval)
    }

    /// The configuration that the limiter was made with.
    pub closed spec fn config(self) -> RetryConfig {
        self.config
    }

    /// `update` has a result for this outcome.
    pub open spec fn accepts(self, outcome: RequestOutcome) -> bool {
        accepted(self.interval(), self.config(), outcome)
    }

    /// A limiter that starts at the safe interval.
    pub fn new(config: RetryConfig) -> (r: Self)
        ensures
            r.config() == config,
            r.interval() == nanos_of(config.safe_interval),
    {
        let interval = config.safe_interval;
        Self { interval, config }
    }

    /// Report the outcome of a request and get the delay before the next one.
    pub fn update(&mut self, outcome: RequestOutcome) -> (delay: Duration)
        requires
            old(self).accepts(outcome),
        ensures
            final(self).config() == old(self).config(),
            final(self).interval() == next_interval(
                old(self).interval(),
                old(self).config(),
                outcome,
            ),
            nanos_of(delay) == final(self).interval(),
            nanos_of(delay) >= nanos_of(old(self).config().safe_interval),
            match outcome {
                RequestOutcome::Success => nanos_of(delay) == (if old(self).interval() >= nanos_of(
                    old(self).config().safe_interval,
                ) + nanos_of(old(self).config().recovery_step) {
                    old(self).interval() - nanos_of(old(self).config().recovery_step)
                } else {
                    nanos_of(old(self).config().safe_interval) as int
                }),
                RequestOutcome::Throttled => {
                    &&& nanos_of(delay) >= back_off(
                        old(self).interval(),
                        old(self).config().backoff_multiplier,
                    )
                    &&& nanos_of(delay) == back_off(
                        old(self).interval(),
                        old(self).config().backoff_multiplier,
                    ) || nanos_of(delay) == nanos_of(old(self).config().safe_interval)
                },
                RequestOutcome::ThrottledWithRetryAfter(wait) => {
                    &&& nanos_of(delay) >= nanos_of(wait)
                    &&& nanos_of(delay) >= back_off(
                        old(self).interval(),
                        old(self).config().backoff_multiplier,
                    )
                    &&& nanos_of(delay) == nanos_of(wait) || nanos_of(delay) == back_off(
                        old(self).interval(),
                        old(self).config().backoff_multiplier,
                    ) || nanos_of(delay) == nanos_of(old(self).config().safe_interval)
                },
            },
    {
        match outcome {
            RequestOutcome::Success => self.on_success(),
            RequestOutcome::Throttled => self.on_throttled(),
            RequestOutcome::ThrottledWithRetryAfter(retry_after) => {
                self.on_throttled_with_retry_after(retry_after)
            },
        }
    }

    /// The delay before the next request, as it stands.
    pub(crate) fn delay(&self) -> (delay: Duration)
        ensures
            nanos_of(delay) == self.interval(),
            self.interval() >= nanos_of(self.config().safe_interval),
    {
        proof {
            use_type_invariant(self);
        }
        self.interval
    }

    /// Whether `update` has a result for this outcome: backing off from the current
    /// interval gives a duration.
    pub fn can_update(&self, outcome: &RequestOutcome) -> (r: bool)
        ensures
            r == self.accepts(*outcome),
            r <==> *outcome is Success || can_back_off(
                self.interval(),
                self.config().backoff_multiplier,
            ),
    {
        match outcome {
            RequestOutcome::Success => true,
            _ => self.backed_off().is_some(),
        }
    }

    /// The current interval times the multiplier, if that is a duration.
    fn backed_off(&self) -> (r: Option<Duration>)
        ensures
            match r {
                Some(d) => can_back_off(self.interval(), self.config().backoff_multiplier)
                    && nanos_of(d) == back_off(self.interval(), self.config().backoff_multiplier),
                None => !can_back_off(self.interval(), self.config().backoff_multiplier),
            },
    {
        let secs = self.interval.as_secs();
        let subsec = self.interval.subsec_nanos();
        proof {
            lemma_powers();
            assert(self.interval() / NANOS_PER_SEC as nat == secs);
            assert(self.interval() % NANOS_PER_SEC as nat == subsec);
        }
        match self.config.backoff_multiplier.decode() {
            None => None,
            Some(factor) => {
                let scaled = Binary64::from_parts(secs, subsec).times(factor);
                if self.config.backoff_multiplier.is_negative() && !scaled.is_zero() {
                    None
                } else {
                    match scaled.to_nanos() {
                        None => None,
                        Some(n) => Some(from_nanos(n)),
                    }
                }
            },
        }
    }

    /// Report a success: the interval gets shorter by one step, down to the safe one.
    pub fn on_success(&mut self) -> (delay: Duration)
        ensures
            final(self).config() == old(self).config(),
            final(self).interval() == next_interval(
                old(self).interval(),
                old(self).config(),
                RequestOutcome::Success,
            ),
            nanos_of(delay) == final(self).interval(),
    {
        let interval = to_nanos(&self.interval);
        let step = to_nanos(&self.config.recovery_step);
        let safe = to_nanos(&self.config.safe_interval);
        // Recover toward safe_interval, but never go below it.
        let lowered: u128 = if interval < step {
            0
        } else {
            interval - step
        };
        self.interval = from_nanos(if lowered < safe { safe } else { lowered });
        self.interval
    }

    /// Report that the server throttled: the interval is multiplied.
    pub fn on_throttled(&mut self) -> (delay: Duration)
        requires
            old(self).accepts(RequestOutcome::Throttled),
        ensures
            final(self).config() == old(self).config(),
            final(self).interval() == next_interval(
                old(self).interval(),
                old(self).config(),
                RequestOutcome::Throttled,
            ),
            nanos_of(delay) == final(self).interval(),
    {
        let backed_off = self.backed_off().unwrap();
        self.interval = longer(backed_off, self.config.safe_interval);
        self.interval
    }

    /// Report that the server throttled and asked for a wait: the interval is multiplied,
    /// or as long as the wait if that is longer.
    pub fn on_throttled_with_retry_after(&mut self, retry_after: Duration) -> (delay: Duration)
        requires
            old(self).accepts(RequestOutcome::ThrottledWithRetryAfter(retry_after)),
        ensures
            final(self).config() == old(self).config(),
            final(self).interval() == next_interval(
                old(self).interval(),
                old(self).config(),
                RequestOutcome::ThrottledWithRetryAfter(retry_after),
            ),
            nanos_of(delay) == final(self).interval(),
    {
        let backed_off = self.backed_off().unwrap();
        self.interval = longer(longer(backed_off, self.config.safe_interval), retry_after);
        self.interval
    }
}

}
