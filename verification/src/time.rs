use crate::binary64::NANOS_PER_SEC;
use std::time::Duration;
use vstd::prelude::*;

verus! {

/// The whole seconds of a duration: what [`Duration::as_secs`] returns.
pub uninterp spec fn duration_secs(d: Duration) -> u64;

/// The part of a duration below a second, in nanoseconds: what
/// [`Duration::subsec_nanos`] returns.
pub uninterp spec fn duration_subsec_nanos(d: Duration) -> u32;

/// The length of a duration in nanoseconds.
pub open spec fn nanos_of(d: Duration) -> nat {
    duration_secs(d) as nat * NANOS_PER_SEC as nat + duration_subsec_nanos(d) as nat
}

/// [`Duration::as_secs`] returns the number of whole seconds that the duration holds.
pub assume_specification[ Duration::as_secs ](d: &Duration) -> (r: u64)
    ensures
        r == duration_secs(*d),
;

/// [`Duration::subsec_nanos`] returns the fractional part of the duration in
/// nanoseconds, which is always less than one second.
pub assume_specification[ Duration::subsec_nanos ](d: &Duration) -> (r: u32)
    ensures
        r == duration_subsec_nanos(*d),
        r < NANOS_PER_SEC,
;

/// [`Duration::new`] makes a duration of the given whole seconds and nanoseconds; with
/// less than a second of nanoseconds nothing is carried over.
pub assume_specification[ Duration::new ](secs: u64, nanos: u32) -> (r: Duration)
    requires
        nanos < NANOS_PER_SEC,
    ensures
        duration_secs(r) == secs,
        duration_subsec_nanos(r) == nanos,
;

/// The length of a duration in nanoseconds.
pub(crate) fn to_nanos(d: &Duration) -> (n: u128)
    ensures
        n == nanos_of(*d),
        n <= u64::MAX * NANOS_PER_SEC + 999_999_999,
        duration_subsec_nanos(*d) < NANOS_PER_SEC,
{
    d.as_secs() as u128 * 1_000_000_000 + d.subsec_nanos() as u128
}

/// The duration of `n` nanoseconds.
pub(crate) fn from_nanos(n: u128) -> (d: Duration)
    requires
        n <= u64::MAX * NANOS_PER_SEC + 999_999_999,
    ensures
        nanos_of(d) == n,
        duration_subsec_nanos(d) < NANOS_PER_SEC,
{
    Duration::new((n / 1_000_000_000) as u64, (n % 1_000_000_000) as u32)
}

/// A duration is as long as its whole seconds and the nanoseconds behind them.
pub proof fn lemma_nanos_of(d: Duration)
    ensures
        nanos_of(d) == duration_secs(d) * 1_000_000_000 + duration_subsec_nanos(d),
{
}

}
