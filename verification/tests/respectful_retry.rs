use respectful_http::{Multiplier, RequestOutcome, RespectfulRetry, RetryConfig};
use std::time::Duration;

fn factor(value: f64) -> Multiplier {
    Multiplier { bits: value.to_bits() }
}

fn test_config() -> RetryConfig {
    RetryConfig {
        safe_interval: Duration::from_secs(4),
        recovery_step: Duration::from_millis(100),
        backoff_multiplier: factor(2.0),
    }
}

#[test]
fn steady_state_holds_at_safe_interval() {
    let mut limiter = RespectfulRetry::new(test_config());
    // Already at safe_interval — successes should not change it.
    for _ in 0..10 {
        let delay = limiter.update(RequestOutcome::Success);
        assert_eq!(delay, Duration::from_secs(4));
    }
}

#[test]
fn never_goes_below_safe_interval() {
    let mut limiter = RespectfulRetry::new(test_config());
    // 100 successes should all return safe_interval.
    for _ in 0..100 {
        let delay = limiter.update(RequestOutcome::Success);
        assert_eq!(delay, Duration::from_secs(4));
    }
}

#[test]
fn multiplicative_backoff_on_error() {
    let mut limiter = RespectfulRetry::new(test_config());
    let delay = limiter.update(RequestOutcome::Throttled);
    assert_eq!(delay, Duration::from_secs(8));
}

#[test]
fn consecutive_errors_keep_doubling() {
    let mut limiter = RespectfulRetry::new(test_config());
    let d1 = limiter.update(RequestOutcome::Throttled);
    let d2 = limiter.update(RequestOutcome::Throttled);
    let d3 = limiter.update(RequestOutcome::Throttled);
    assert_eq!(d1, Duration::from_secs(8));
    assert_eq!(d2, Duration::from_secs(16));
    assert_eq!(d3, Duration::from_secs(32));
}

#[test]
fn recovery_after_error() {
    let mut limiter = RespectfulRetry::new(test_config());
    // Error: 4s → 8s.
    limiter.update(RequestOutcome::Throttled);

    // Recovery: each success decreases by 100ms.
    // (8.0 - 4.0) / 0.1 = 40 successes to recover.
    let mut delay = Duration::ZERO;
    for _ in 0..39 {
        delay = limiter.update(RequestOutcome::Success);
    }
    // After 39 successes: 8.0 - 3.9 = 4.1s
    assert_eq!(delay, Duration::from_millis(4100));

    // 40th success: 4.1 - 0.1 = 4.0 = safe_interval.
    delay = limiter.update(RequestOutcome::Success);
    assert_eq!(delay, Duration::from_secs(4));

    // 41st success: stays at safe_interval.
    delay = limiter.update(RequestOutcome::Success);
    assert_eq!(delay, Duration::from_secs(4));
}

#[test]
fn retry_after_respects_server_delay() {
    let mut limiter = RespectfulRetry::new(test_config());
    // Server says wait 25s. Multiplicative backoff would give 8s.
    let delay = limiter.update(RequestOutcome::ThrottledWithRetryAfter(
        Duration::from_secs(25),
    ));
    assert_eq!(delay, Duration::from_secs(25));
}

#[test]
fn retry_after_uses_backoff_when_larger() {
    let mut config = test_config();
    config.safe_interval = Duration::from_secs(20);
    let mut limiter = RespectfulRetry::new(config);

    // Interval is 20s. Backoff gives 40s. Retry-After is 5s.
    let delay = limiter.update(RequestOutcome::ThrottledWithRetryAfter(
        Duration::from_secs(5),
    ));
    assert_eq!(delay, Duration::from_secs(40));
}

#[test]
fn recovery_after_retry_after() {
    let mut limiter = RespectfulRetry::new(test_config());
    // Throttled with retry-after 25s.
    limiter.update(RequestOutcome::ThrottledWithRetryAfter(
        Duration::from_secs(25),
    ));

    // Recovery: (25.0 - 4.0) / 0.1 = 210 successes.
    let mut delay = Duration::ZERO;
    for _ in 0..300 {
        delay = limiter.update(RequestOutcome::Success);
    }
    assert_eq!(delay, Duration::from_secs(4));
}

#[test]
fn error_during_recovery() {
    let mut limiter = RespectfulRetry::new(test_config());
    // Error: 4s → 8s.
    limiter.update(RequestOutcome::Throttled);

    // Partial recovery: 10 successes → 8.0 - 1.0 = 7.0s.
    for _ in 0..10 {
        limiter.update(RequestOutcome::Success);
    }

    // Another error at 7s → 14s.
    let delay = limiter.update(RequestOutcome::Throttled);
    assert_eq!(delay, Duration::from_secs(14));

    // Full recovery back to safe_interval.
    let mut d = Duration::ZERO;
    for _ in 0..200 {
        d = limiter.update(RequestOutcome::Success);
    }
    assert_eq!(d, Duration::from_secs(4));
}

#[test]
fn no_run_of_outcomes_goes_faster_than_the_safe_interval() {
    for multiplier in [0.0, 0.5, 0.999, 1.0, 1.5, 2.0, 3.7] {
        let mut config = test_config();
        config.backoff_multiplier = factor(multiplier);
        let mut limiter = RespectfulRetry::new(config);
        for i in 0..500u64 {
            let outcome = match i % 7 {
                0 => RequestOutcome::Throttled,
                3 => RequestOutcome::ThrottledWithRetryAfter(Duration::from_secs(i % 9)),
                _ => RequestOutcome::Success,
            };
            if !limiter.can_update(&outcome) {
                break;
            }
            assert!(limiter.update(outcome) >= Duration::from_secs(4));
        }
    }
}

#[test]
fn a_multiplier_below_one_stops_at_the_safe_interval() {
    let mut config = test_config();
    config.backoff_multiplier = factor(0.5);
    let mut limiter = RespectfulRetry::new(config);
    assert_eq!(limiter.update(RequestOutcome::Throttled), Duration::from_secs(4));
    assert_eq!(
        limiter.update(RequestOutcome::ThrottledWithRetryAfter(Duration::from_secs(3))),
        Duration::from_secs(4)
    );
    assert_eq!(
        limiter.update(RequestOutcome::ThrottledWithRetryAfter(Duration::from_secs(10))),
        Duration::from_secs(10)
    );
    assert_eq!(limiter.update(RequestOutcome::Throttled), Duration::from_secs(5));
    assert_eq!(limiter.update(RequestOutcome::Throttled), Duration::from_secs(4));
    assert_eq!(limiter.update(RequestOutcome::Success), Duration::from_secs(4));
}

#[test]
fn rounding_does_not_go_below_the_safe_interval() {
    // The nearest binary64 number is a second less.
    let mut config = test_config();
    config.safe_interval = Duration::from_secs((1 << 53) + 1);
    config.backoff_multiplier = factor(1.0);
    let mut limiter = RespectfulRetry::new(config);
    assert_eq!(
        limiter.update(RequestOutcome::Throttled),
        Duration::from_secs((1 << 53) + 1)
    );
}

#[test]
fn each_outcome_has_its_method() {
    let mut limiter = RespectfulRetry::new(test_config());
    assert_eq!(limiter.on_throttled(), Duration::from_secs(8));
    assert_eq!(limiter.on_success(), Duration::from_millis(7900));
    assert_eq!(
        limiter.on_throttled_with_retry_after(Duration::from_secs(20)),
        Duration::from_secs(20)
    );
}

#[test]
fn without_a_step_successes_change_nothing() {
    let mut config = test_config();
    config.recovery_step = Duration::ZERO;
    let mut limiter = RespectfulRetry::new(config);
    limiter.update(RequestOutcome::Throttled);
    for _ in 0..10 {
        assert_eq!(limiter.update(RequestOutcome::Success), Duration::from_secs(8));
    }
}

#[test]
fn a_factor_of_one_keeps_intervals_below_three_months() {
    for interval in [
        Duration::from_nanos(1),
        Duration::new(1_000_000, 1),
        Duration::new((1 << 23) - 1, 999_999_999),
    ] {
        let mut limiter = standing_at(interval, 1.0);
        assert_eq!(limiter.update(RequestOutcome::Throttled), interval);
    }
    // From there on the nearest number of seconds may be another nanosecond.
    let mut limiter = standing_at(Duration::new(1 << 23, 3), 1.0);
    assert_ne!(limiter.update(RequestOutcome::Throttled), Duration::new(1 << 23, 3));
}

#[test]
fn a_larger_factor_does_not_make_the_interval_shorter() {
    let mut last = Duration::ZERO;
    for percent in 0..1_000u32 {
        let mut limiter = standing_at(Duration::from_millis(4100), f64::from(percent) / 100.0);
        let delay = limiter.update(RequestOutcome::Throttled);
        assert!(delay >= last);
        last = delay;
    }
}

#[test]
fn consecutive_errors_keep_tripling() {
    let mut config = test_config();
    config.backoff_multiplier = factor(3.0);
    config.safe_interval = Duration::from_nanos(1_234_567);
    let mut limiter = RespectfulRetry::new(config);
    let mut expected: u64 = 1_234_567;
    while expected * 30 < 1 << 53 {
        expected *= 3;
        assert_eq!(limiter.update(RequestOutcome::Throttled), Duration::from_nanos(expected));
    }
}

#[test]
fn a_longer_interval_is_not_backed_off_from_to_a_shorter_one() {
    let mut last = Duration::ZERO;
    for nanos in (0..2_000_000_000u64).step_by(999_983) {
        let mut limiter = standing_at(Duration::from_nanos(nanos), 1.3);
        let delay = limiter.update(RequestOutcome::Throttled);
        assert!(delay >= last);
        last = delay;
    }
}

#[test]
fn doubling_ends_where_durations_end() {
    let mut limiter = RespectfulRetry::new(test_config());
    let mut expected: u64 = 4;
    for _ in 0..61 {
        assert!(limiter.can_update(&RequestOutcome::Throttled));
        expected *= 2;
        assert_eq!(limiter.update(RequestOutcome::Throttled), Duration::from_secs(expected));
    }
    assert!(!limiter.can_update(&RequestOutcome::Throttled));
    assert!(!limiter.can_update(&RequestOutcome::ThrottledWithRetryAfter(Duration::ZERO)));
    assert!(limiter.can_update(&RequestOutcome::Success));
}

#[test]
fn a_step_longer_than_the_interval_recovers_at_once() {
    let mut config = test_config();
    config.recovery_step = Duration::from_secs(100);
    let mut limiter = RespectfulRetry::new(config);
    limiter.update(RequestOutcome::Throttled);
    assert_eq!(limiter.update(RequestOutcome::Success), Duration::from_secs(4));
}

/// A limiter that stands at `interval` and multiplies by `multiplier`. Its safe interval is
/// zero, so that it goes as fast as the multiplier says.
fn standing_at(interval: Duration, multiplier: f64) -> RespectfulRetry {
    let config = |safe_interval: Duration| RetryConfig {
        safe_interval,
        recovery_step: Duration::ZERO,
        backoff_multiplier: factor(multiplier),
    };
    let mut limiter = RespectfulRetry::new(config(Duration::ZERO));
    let outcome = RequestOutcome::ThrottledWithRetryAfter(interval);
    if limiter.can_update(&outcome) {
        assert_eq!(limiter.update(outcome), interval);
        limiter
    } else {
        // no interval can be multiplied by an infinite number, or by none
        assert!(!multiplier.is_finite());
        RespectfulRetry::new(config(interval))
    }
}

/// The delay after a throttled request, compared with the machine's own arithmetic.
fn check_backoff(interval: Duration, multiplier: f64) {
    let mut limiter = standing_at(interval, multiplier);
    let expected = Duration::try_from_secs_f64(interval.as_secs_f64() * multiplier).ok();
    assert_eq!(
        limiter.can_update(&RequestOutcome::Throttled),
        expected.is_some(),
        "{interval:?} * {multiplier:e}"
    );
    if let Some(expected) = expected {
        let delay = limiter.update(RequestOutcome::Throttled);
        assert_eq!(delay, expected, "{interval:?} * {multiplier:e}");
    }
}

#[test]
fn backoff_is_binary64_arithmetic() {
    let intervals = [
        Duration::ZERO,
        Duration::from_nanos(1),
        Duration::from_nanos(3),
        Duration::from_nanos(999_999_999),
        Duration::from_millis(50),
        Duration::from_millis(4100),
        Duration::new(1, 1),
        Duration::new(4, 0),
        Duration::new(4_194_303, 999_999_999),
        Duration::new(8_388_607, 123_456_789),
        Duration::new((1 << 52) + 1, 500_000_000),
        Duration::new((1 << 53) - 1, 500_000_000),
        Duration::new((1 << 53) + 1, 999_999_999),
        Duration::new((1 << 53) + 3, 999_999_999),
        Duration::new(1 << 63, 7),
        Duration::new(u64::MAX - 1024, 0),
        Duration::MAX,
    ];
    let multipliers = [
        0.0,
        -0.0,
        5e-324,
        -5e-324,
        2.5e-310,
        f64::MIN_POSITIVE,
        1e-300,
        -1e-300,
        4.9e-10,
        5e-10,
        0.1,
        0.5,
        0.999_999_999_999_999_9,
        1.0,
        1.000_000_000_000_000_2,
        1.1,
        1.5,
        2.0,
        std::f64::consts::PI,
        10.0,
        4_503_599_627_370_497.0,
        1.8446744073709552e19,
        1e300,
        f64::MAX,
        f64::INFINITY,
        f64::NEG_INFINITY,
        f64::NAN,
        -1.0,
        -2.0,
    ];
    for interval in intervals {
        for multiplier in multipliers {
            check_backoff(interval, multiplier);
        }
    }
}

#[test]
fn backoff_is_binary64_arithmetic_on_scattered_values() {
    let mut state: u64 = 0x9e37_79b9_7f4a_7c15;
    let mut next = move || {
        state ^= state << 13;
        state ^= state >> 7;
        state ^= state << 17;
        state
    };
    for _ in 0..20_000 {
        let secs = next() >> (next() % 64);
        let nanos = (next() % 1_000_000_000) as u32;
        let mantissa = next() & ((1 << 52) - 1);
        let exponent = 1023 - 70 + next() % 140;
        check_backoff(Duration::new(secs, nanos), f64::from_bits(exponent << 52 | mantissa));
    }
    for _ in 0..20_000 {
        let nanos = (next() % 1_000_000_000) as u32;
        check_backoff(Duration::new(next() % 100_000, nanos), f64::from_bits(next()));
    }
}
