use crate::binary64::{nanoseconds, seconds, Multiplier, NANOS_PER_SEC};
use crate::respectful_retry::{
    accepted, back_off, can_back_off, larger, next_interval, scaled, RequestOutcome, RetryConfig,
};
use crate::rounding::{
    distance, half_even, lemma_excess_exists, lemma_half_even_error, lemma_half_even_monotone,
    is_nearest, is_nearest_integer, lemma_half_even_is_nearest, lemma_half_even_multiple,
    lemma_nearest_integer_is_unique, lemma_nearest_is_unique, lemma_powers, lemma_round_error, lemma_round_exact, lemma_round_is_nearest,
    lemma_round_monotone, lemma_round_nearest, lemma_round_scales, product, representable, round,
    sum, unit,
};
use crate::time::nanos_of;
use vstd::arithmetic::div_mod::*;
use vstd::arithmetic::mul::*;
use vstd::arithmetic::power::*;
use vstd::arithmetic::power2::*;
use vstd::prelude::*;

verus! {

proof fn lemma_unit_large()
    ensures
        unit() >= NANOS_PER_SEC as nat * pow2(53),
        unit() >= NANOS_PER_SEC as nat * pow2(52),
        unit() > 0,
        pow2(53) == 2 * pow2(52),
{
    lemma_powers();
    lemma2_to64();
    lemma_pow2_adds(30, 53);
    lemma_pow2_strictly_increases(83, 1074);
    lemma_pow2_unfold(53);
    assert(pow2(30) == 0x4000_0000);
    assert(NANOS_PER_SEC as nat * pow2(53) <= pow2(30) * pow2(53)) by (nonlinear_arith)
        requires
            NANOS_PER_SEC as nat <= pow2(30),
    ;
}

/// The number of seconds in `n` nanoseconds is exact to three parts in `2^53`.
proof fn lemma_seconds_error(n: nat)
    ensures
        ({
            let c = seconds(n / NANOS_PER_SEC as nat, n % NANOS_PER_SEC as nat);
            let err = distance(c * NANOS_PER_SEC as nat, n * unit(), 1);
            &&& err * pow2(53) <= 3 * (n * unit())
            &&& c * NANOS_PER_SEC as nat <= 2 * (n * unit())
        }),
{
    let g = NANOS_PER_SEC as nat;
    let u = unit();
    let s = n / g;
    let r = n % g;
    let a = round(s * u, 1);
    let b = round(r * u, g);
    let c = sum(a, b);
    let q = pow2(53);
    lemma_unit_large();
    lemma_powers();
    lemma_fundamental_div_mod(n as int, g as int);
    lemma_round_error(s * u, 1);
    lemma_round_error(r * u, g);
    lemma_round_error(a + b, 1);
    let ea = distance(a, s * u, 1);
    let eb = distance(b, r * u, g);
    let ec = distance(c, a + b, 1);
    assert(ea * q <= s * u) by (nonlinear_arith)
        requires
            2 * ea <= 1 || ea * q <= s * u,
            ea >= 0,
    ;
    assert(ec * q <= a + b) by (nonlinear_arith)
        requires
            2 * ec <= 1 || ec * q <= a + b,
            ec >= 0,
    ;
    assert(eb * q <= r * u) by {
        if r == 0 {
            assert(r * u == 0) by (nonlinear_arith)
                requires
                    r == 0,
            ;
            lemma_round_scales(0, 1, g);
            lemma_round_exact(0, 0);
            assert(0nat * pow2(0) == 0);
            assert(0nat * g == 0);
            assert(1nat * g == g);
        } else {
            assert(2 * eb <= g ==> eb * q <= r * u) by (nonlinear_arith)
                requires
                    r >= 1,
                    q == 2 * pow2(52),
                    u >= g * pow2(52),
            ;
        }
    }
    let e = distance(c * g, n * u, 1);
    let ab = (a + b) * g;
    assert(c * g <= ab + ec * g && ab <= c * g + ec * g) by (nonlinear_arith)
        requires
            ab == (a + b) * g,
            c <= a + b + ec,
            a + b <= c + ec,
    ;
    assert(ab <= n * u + ea * g + eb && n * u <= ab + ea * g + eb) by (nonlinear_arith)
        requires
            ab == (a + b) * g,
            n == g * s + r,
            a <= s * u + ea,
            s * u <= a + ea,
            b * g <= r * u + eb,
            r * u <= b * g + eb,
    ;
    assert((ea * g + eb) * q <= n * u) by (nonlinear_arith)
        requires
            ea * q <= s * u,
            eb * q <= r * u,
            n == g * s + r,
    ;
    assert(ec * g * q <= ab) by (nonlinear_arith)
        requires
            ec * q <= a + b,
            ab == (a + b) * g,
    ;
    let low = ea * g + eb;
    let nu = n * u;
    assert(low * 4 <= nu) by (nonlinear_arith)
        requires
            low * q <= nu,
            q >= 4,
            low >= 0,
    ;
    let hi = ec * g;
    assert(hi * 4 <= ab) by (nonlinear_arith)
        requires
            hi * q <= ab,
            q >= 4,
            hi >= 0,
    ;
    assert(e <= low + hi);
    assert(e * q <= low * q + hi * q) by (nonlinear_arith)
        requires
            e <= low + hi,
            q > 0,
    ;
}

proof fn lemma_half_even_near(x: nat, k: nat, den: nat)
    requires
        den > 0,
        2 * distance(k, x, den) < den,
    ensures
        half_even(x, den) == k,
{
    lemma_half_even_error(x, den);
    let m = half_even(x, den);
    if m < k {
        assert(m * den + den <= k * den) by (nonlinear_arith)
            requires
                m + 1 <= k,
        ;
    } else if k < m {
        assert(k * den + den <= m * den) by (nonlinear_arith)
            requires
                k + 1 <= m,
        ;
    }
}

/// Throttling multiplies the interval: the next one lies within a nanosecond and six parts
/// in `2^53` of the exact product.
pub proof fn lemma_backoff_is_multiplicative(interval: nat, multiplier: Multiplier)
    ensures
        distance(back_off(interval, multiplier), interval * multiplier.magnitude(), unit()) * pow2(
            53,
        ) <= unit() * pow2(53) + 6 * (interval * multiplier.magnitude()),
{
    let g = NANOS_PER_SEC as nat;
    let u = unit();
    let q = pow2(53);
    let n = interval;
    let m = multiplier.magnitude();
    let c = seconds(n / g, n % g);
    let p = product(c, m);
    let got = nanoseconds(p);
    lemma_unit_large();
    lemma_powers();
    lemma_seconds_error(n);
    lemma_round_error(c * m, u);
    lemma_half_even_error(p * g, u);
    let ec = distance(c * g, n * u, 1);
    let ep = distance(p, c * m, u);
    let nm = n * m;
    assert(ep * q <= c * m + u * pow2(52)) by (nonlinear_arith)
        requires
            2 * ep <= u || ep * q <= c * m,
            q == 2 * pow2(52),
            ep >= 0,
    ;
    // p * g against n * m, both times u
    let pg = p * g;
    let e = if pg < nm { nm - pg } else { pg - nm };
    assert(u * e <= ep * g + m * ec) by {
        lemma_mul_inequality((p * u) as int, c * m + ep, g as int);
        lemma_mul_inequality((c * m) as int, p * u + ep, g as int);
        lemma_mul_inequality((c * g) as int, n * u + ec, m as int);
        lemma_mul_inequality((n * u) as int, c * g + ec, m as int);
        assert((c * m + ep) * g == (c * g) * m + ep * g) by (nonlinear_arith);
        assert((c * m) * g == (c * g) * m) by (nonlinear_arith);
        assert((p * u + ep) * g == u * (p * g) + ep * g) by (nonlinear_arith);
        assert((p * u) * g == u * (p * g)) by (nonlinear_arith);
        assert((n * u + ec) * m == u * (n * m) + m * ec) by (nonlinear_arith);
        assert((n * u) * m == u * (n * m)) by (nonlinear_arith);
        assert((c * g + ec) * m == (c * g) * m + m * ec) by (nonlinear_arith);
        assert(u * (nm - pg) == u * nm - u * pg) by (nonlinear_arith);
        assert(u * (pg - nm) == u * pg - u * nm) by (nonlinear_arith);
    }
    assert(ep * g * q <= c * m * g + u * pow2(52) * g) by (nonlinear_arith)
        requires
            ep * q <= c * m + u * pow2(52),
    ;
    assert(c * m * g <= 2 * (nm * u)) by (nonlinear_arith)
        requires
            c * g <= 2 * (n * u),
            nm == n * m,
    ;
    assert(m * ec * q <= 3 * (nm * u)) by (nonlinear_arith)
        requires
            ec * q <= 3 * (n * u),
            nm == n * m,
    ;
    assert(u * (e * q) <= u * (5 * nm + pow2(52) * g)) by {
        lemma_mul_inequality(u * e, ep * g + m * ec, q as int);
        lemma_mul_is_distributive_add_other_way(q as int, ep * g, m * ec);
        lemma_mul_is_associative(u as int, e, q as int);
        assert(u * (5 * nm + pow2(52) * g) == 5 * (nm * u) + u * pow2(52) * g)
            by (nonlinear_arith);
    }
    assert(e * q <= 5 * nm + pow2(52) * g) by (nonlinear_arith)
        requires
            u * (e * q) <= u * (5 * nm + pow2(52) * g),
            u > 0,
    ;
    let d = distance(got, nm, u);
    assert(2 * d <= 2 * e + u);
    assert(2 * (d * q) <= 2 * (e * q) + u * q) by (nonlinear_arith)
        requires
            2 * d <= 2 * e + u,
            q > 0,
    ;
    assert(2 * (pow2(52) * g) <= u * q) by (nonlinear_arith)
        requires
            u >= g * q,
            q == 2 * pow2(52),
            q >= 1,
    ;
}

/// A factor is made of a sign, an exponent and a significand, as binary64 has it: normal
/// numbers, subnormal ones, and those that are not finite.
pub proof fn lemma_factor_of_parts(sign: nat, exponent: nat, significand: nat)
    requires
        sign <= 1,
        exponent <= 2047,
        significand < 0x10_0000_0000_0000,
    ensures
        ({
            let bits = sign * 0x8000_0000_0000_0000 + exponent * 0x10_0000_0000_0000 + significand;
            let factor = Multiplier { bits: bits as u64 };
            &&& bits <= u64::MAX
            &&& factor.negative() <==> sign == 1
            &&& factor.finite() <==> exponent < 2047
            &&& exponent == 0 ==> factor.magnitude() == significand
            &&& 0 < exponent < 2047 ==> factor.magnitude() == (0x10_0000_0000_0000 + significand)
                * pow2((exponent - 1) as nat)
        }),
{
    let bits = sign * 0x8000_0000_0000_0000 + exponent * 0x10_0000_0000_0000 + significand;
    let high = sign * 0x800 + exponent;
    assert(bits == high * 0x10_0000_0000_0000 + significand);
    lemma_fundamental_div_mod_converse(
        bits as int,
        0x10_0000_0000_0000,
        high as int,
        significand as int,
    );
    lemma_fundamental_div_mod_converse(high as int, 0x800, sign as int, exponent as int);
}

/// What a factor does to an interval: the whole seconds and the nanoseconds become the nearest
/// binary64 numbers, so does their sum, and so does its product with the factor; that product
/// is the next interval, to the nearest nanosecond.
pub open spec fn is_backed_off(next: nat, interval: nat, magnitude: nat, product: nat) -> bool {
    exists|whole: nat, part: nat, secs: nat|
        {
            &&& #[trigger] is_nearest(whole, (interval / 1_000_000_000) * pow2(1074), 1)
            &&& #[trigger] is_nearest(part, (interval % 1_000_000_000) * pow2(1074), 1_000_000_000)
            &&& #[trigger] is_nearest(secs, whole + part, 1)
            &&& is_nearest(product, secs * magnitude, pow2(1074))
            &&& is_nearest_integer(next, product * 1_000_000_000, pow2(1074))
        }
}

/// Backing off is exact to the last digit: each of its steps gives the nearest number. It
/// yields a duration if and only if the factor is finite and the product is less than `2^64`
/// seconds and not below zero.
pub proof fn lemma_backoff_is_correctly_rounded(interval: nat, factor: Multiplier)
    ensures
        is_backed_off(
            back_off(interval, factor),
            interval,
            factor.magnitude(),
            scaled(interval, factor),
        ),
        can_back_off(interval, factor) <==> {
            &&& (factor.bits as nat / 0x10_0000_0000_0000) % 0x800 < 0x7ff
            &&& scaled(interval, factor) < 0x1_0000_0000_0000_0000 * pow2(1074)
            &&& factor.bits >= 0x8000_0000_0000_0000 ==> scaled(interval, factor) == 0
        },
{
    let g = NANOS_PER_SEC as nat;
    let u = unit();
    let m = factor.magnitude();
    lemma_unit_large();
    lemma_powers();
    let whole = round((interval / g) * u, 1);
    let part = round((interval % g) * u, g);
    let secs = sum(whole, part);
    lemma_round_is_nearest((interval / g) * u, 1);
    lemma_round_is_nearest((interval % g) * u, g);
    lemma_round_is_nearest(whole + part, 1);
    lemma_round_is_nearest(secs * m, u);
    lemma_half_even_is_nearest(scaled(interval, factor) * g, u);
    assert(is_nearest(whole, (interval / 1_000_000_000) * pow2(1074), 1));
    assert(is_nearest(part, (interval % 1_000_000_000) * pow2(1074), 1_000_000_000));
    assert(is_nearest(secs, whole + part, 1));
}

/// The nearest numbers leave no choice: one interval and one factor give one next interval.
pub proof fn lemma_backoff_is_determined(
    interval: nat,
    magnitude: nat,
    a: nat,
    b: nat,
    product_a: nat,
    product_b: nat,
)
    requires
        is_backed_off(a, interval, magnitude, product_a),
        is_backed_off(b, interval, magnitude, product_b),
    ensures
        product_a == product_b,
        a == b,
{
    let s = (interval / 1_000_000_000) * pow2(1074);
    let r = (interval % 1_000_000_000) * pow2(1074);
    let (x, y, z) = choose|whole: nat, part: nat, secs: nat|
        {
            &&& #[trigger] is_nearest(whole, s, 1)
            &&& #[trigger] is_nearest(part, r, 1_000_000_000)
            &&& #[trigger] is_nearest(secs, whole + part, 1)
            &&& is_nearest(product_a, secs * magnitude, pow2(1074))
            &&& is_nearest_integer(a, product_a * 1_000_000_000, pow2(1074))
        };
    let (u, v, w) = choose|whole: nat, part: nat, secs: nat|
        {
            &&& #[trigger] is_nearest(whole, s, 1)
            &&& #[trigger] is_nearest(part, r, 1_000_000_000)
            &&& #[trigger] is_nearest(secs, whole + part, 1)
            &&& is_nearest(product_b, secs * magnitude, pow2(1074))
            &&& is_nearest_integer(b, product_b * 1_000_000_000, pow2(1074))
        };
    lemma_nearest_is_unique(x, u, s, 1);
    lemma_nearest_is_unique(y, v, r, 1_000_000_000);
    lemma_nearest_is_unique(z, w, x + y, 1);
    lemma_nearest_is_unique(product_a, product_b, z * magnitude, pow2(1074));
    lemma_pow2_pos(1074);
    lemma_nearest_integer_is_unique(a, b, product_a * 1_000_000_000, pow2(1074));
}

/// A success makes the interval shorter by one step where it can, and else the safe one.
pub proof fn lemma_success_takes_off_one_step(interval: nat, config: RetryConfig)
    ensures
        ({
            let next = next_interval(interval, config, RequestOutcome::Success);
            let safe = nanos_of(config.safe_interval);
            let step = nanos_of(config.recovery_step);
            &&& interval >= safe + step ==> next == interval - step
            &&& interval < safe + step ==> next == safe
        }),
{
}

/// After a throttled request the interval is the longest of the product, the safe interval and
/// the wait that the server asks for, and no longer. Any request may succeed; one that is
/// throttled is taken if the product is a duration, whatever the server asks for.
pub proof fn lemma_throttled_is_the_longest(
    interval: nat,
    config: RetryConfig,
    retry_after: std::time::Duration,
)
    ensures
        ({
            let next = next_interval(interval, config, RequestOutcome::Throttled);
            let product = back_off(interval, config.backoff_multiplier);
            let safe = nanos_of(config.safe_interval);
            &&& next >= product && next >= safe
            &&& next == product || next == safe
        }),
        ({
            let next = next_interval(
                interval,
                config,
                RequestOutcome::ThrottledWithRetryAfter(retry_after),
            );
            let product = back_off(interval, config.backoff_multiplier);
            let safe = nanos_of(config.safe_interval);
            let wait = nanos_of(retry_after);
            &&& next >= product && next >= safe && next >= wait
            &&& next == product || next == safe || next == wait
        }),
        accepted(interval, config, RequestOutcome::Success),
        accepted(interval, config, RequestOutcome::Throttled) <==> can_back_off(
            interval,
            config.backoff_multiplier,
        ),
        accepted(interval, config, RequestOutcome::ThrottledWithRetryAfter(retry_after))
            <==> can_back_off(interval, config.backoff_multiplier),
{
}

/// The factor is the whole number `times`.
pub open spec fn is_whole(multiplier: Multiplier, times: nat) -> bool {
    &&& multiplier.finite()
    &&& !multiplier.negative()
    &&& multiplier.magnitude() == times * unit()
}

/// With a whole number for a factor backing off is exact, up to about ten days.
pub proof fn lemma_backoff_by_whole_number(interval: nat, multiplier: Multiplier, times: nat)
    requires
        is_whole(multiplier, times),
        10 * (interval * times) < pow2(53),
    ensures
        can_back_off(interval, multiplier),
        back_off(interval, multiplier) == interval * times,
{
    let g = NANOS_PER_SEC as nat;
    let u = unit();
    let q = pow2(53);
    let n = interval;
    let k = times;
    let c = seconds(n / g, n % g);
    lemma_unit_large();
    lemma_powers();
    lemma_seconds_error(n);
    assert(c * (k * u) == (c * k) * u) by (nonlinear_arith);
    lemma_round_scales(c * k, 1, u);
    assert(1 * u == u);
    let p = product(c, multiplier.magnitude());
    assert(p == round(c * k, 1));
    lemma_round_error(c * k, 1);
    let ec = distance(c * g, n * u, 1);
    let ep = distance(p, c * k, 1);
    let nk = n * k;
    let pg = p * g;
    let e = if pg < nk * u { nk * u - pg } else { pg - nk * u };
    assert(ep * q <= c * k) by (nonlinear_arith)
        requires
            2 * ep <= 1 || ep * q <= c * k,
            ep >= 0,
    ;
    assert(e <= ep * g + k * ec) by (nonlinear_arith)
        requires
            p <= c * k + ep,
            c * k <= p + ep,
            c * g <= n * u + ec,
            n * u <= c * g + ec,
            pg == p * g,
            nk == n * k,
            e == nk * u - pg || e == pg - nk * u,
    ;
    assert(ep * g * q <= c * k * g) by (nonlinear_arith)
        requires
            ep * q <= c * k,
    ;
    assert(c * k * g <= 2 * (nk * u)) by (nonlinear_arith)
        requires
            c * g <= 2 * (n * u),
            nk == n * k,
    ;
    assert(k * ec * q <= 3 * (nk * u)) by (nonlinear_arith)
        requires
            ec * q <= 3 * (n * u),
            nk == n * k,
    ;
    assert(e * q <= 5 * (nk * u)) by (nonlinear_arith)
        requires
            e <= ep * g + k * ec,
            ep * g * q <= 2 * (nk * u),
            k * ec * q <= 3 * (nk * u),
            q > 0,
    ;
    assert(2 * e < u) by (nonlinear_arith)
        requires
            e * q <= 5 * (nk * u),
            10 * nk < q,
            u > 0,
            e >= 0,
    ;
    lemma_half_even_near(pg, nk, u);
    // less than 2^64 seconds
    assert(p < pow2(64) * u) by (nonlinear_arith)
        requires
            pg == p * g,
            g >= 1,
            pg <= nk * u + e,
            2 * e < u,
            nk + 1 <= pow2(64),
    ;
}

/// A rounded number of `2^53` seconds or more is a multiple of two seconds.
proof fn lemma_large_is_even(num: nat) -> (k: nat)
    requires
        num >= pow2(1127),
    ensures
        round(num, 1) == k * (2 * unit()),
{
    let bits = lemma_excess_exists(num, 1);
    if bits < 1075 {
        if bits + 53 < 1127 {
            lemma_pow2_strictly_increases(bits + 53, 1127);
        }
    }
    let gap = (bits - 1075) as nat;
    lemma_pow2_adds(gap, 1075);
    lemma_pow2_unfold(1075);
    let m = half_even(num, 1 * pow2(bits));
    let k = m * pow2(gap);
    assert(m * pow2(bits) == k * (2 * unit())) by (nonlinear_arith)
        requires
            k == m * pow2(gap),
            pow2(gap) * (2 * unit()) == pow2(bits),
    ;
    k
}

/// Less than a second is less than a second after rounding, too.
proof fn lemma_fraction_below_one(r: nat)
    requires
        r < NANOS_PER_SEC as nat,
    ensures
        round(r * unit(), NANOS_PER_SEC as nat) < unit(),
{
    let g = NANOS_PER_SEC as nat;
    let u = unit();
    let b = round(r * u, g);
    lemma_unit_large();
    lemma_powers();
    lemma_round_error(r * u, g);
    let e = distance(b, r * u, g);
    assert((r + 1) * u <= g * u && (r + 1) * u == r * u + u) by (nonlinear_arith)
        requires
            r + 1 <= g,
    ;
    assert(e < u) by {
        assert(2 * e <= g ==> e < u) by (nonlinear_arith)
            requires
                u >= g * pow2(53),
                pow2(53) >= 1,
                g >= 1,
                e >= 0,
        ;
        assert(e * pow2(53) <= r * u ==> e < u) by (nonlinear_arith)
            requires
                r < pow2(53),
                u > 0,
        ;
    }
    assert(b * g < g * u);
    assert(b < u) by (nonlinear_arith)
        requires
            b * g < g * u,
            g > 0,
    ;
}

/// A longer duration is no smaller a number of seconds.
proof fn lemma_seconds_monotone(x: nat, y: nat)
    requires
        x <= y,
    ensures
        seconds(x / NANOS_PER_SEC as nat, x % NANOS_PER_SEC as nat) <= seconds(
            y / NANOS_PER_SEC as nat,
            y % NANOS_PER_SEC as nat,
        ),
{
    let g = NANOS_PER_SEC as nat;
    let u = unit();
    lemma_unit_large();
    lemma_powers();
    let s = x / g;
    let t = y / g;
    let a = round(s * u, 1);
    let b = round((x % g) * u, g);
    let c = round(t * u, 1);
    let d = round((y % g) * u, g);
    lemma_div_is_ordered(x as int, y as int, g as int);
    lemma_fundamental_div_mod(x as int, g as int);
    lemma_fundamental_div_mod(y as int, g as int);
    if s == t {
        lemma_mul_inequality((x % g) as int, (y % g) as int, u as int);
        lemma_round_monotone((x % g) * u, (y % g) * u, g);
        lemma_round_monotone(a + b, c + d, 1);
    } else {
        lemma_fraction_below_one(x % g);
        lemma_mul_inequality(s as int, t as int, u as int);
        lemma_round_monotone(s * u, t * u, 1);
        lemma_pow2_adds(53, 1074);
        if s < pow2(53) {
            lemma_round_exact(s, 1074);
            lemma_round_exact(s + 1, 1074);
            lemma_mul_inequality((s + 1) as int, t as int, u as int);
            lemma_round_monotone((s + 1) * u, t * u, 1);
            assert((s + 1) * u == s * u + u) by (nonlinear_arith);
            lemma_round_monotone(a + b, c + d, 1);
        } else {
            // the fraction is lost: a + b rounds to a
            lemma_mul_inequality(pow2(53) as int, s as int, u as int);
            let i = lemma_large_is_even(s * u);
            lemma_round_exact(pow2(53), 1074);
            lemma_round_monotone(pow2(53) * u, s * u, 1);
            let j = lemma_large_is_even(a + b);
            lemma_round_nearest(s * u, 1, 0 * pow2(0));
            lemma_round_nearest(a + b, 1, a);
            let e = sum(a, b);
            assert(e <= a + 2 * b);
            assert(j <= i) by (nonlinear_arith)
                requires
                    e == j * (2 * u),
                    a == i * (2 * u),
                    e <= a + 2 * b,
                    b < u,
            ;
            assert(e <= a) by (nonlinear_arith)
                requires
                    e == j * (2 * u),
                    a == i * (2 * u),
                    j <= i,
            ;
            let (mantissa, exponent) = choose|mantissa: nat, exponent: nat|
                #![trigger mantissa * pow2(exponent)]
                mantissa <= pow2(53) && a == mantissa * pow2(exponent);
            lemma_round_exact(mantissa, exponent);
            lemma_round_monotone(a, c + d, 1);
        }
    }
}

/// From a longer interval one does not back off to a shorter one.
pub proof fn lemma_backoff_monotone(shorter: nat, longer: nat, multiplier: Multiplier)
    requires
        shorter <= longer,
    ensures
        back_off(shorter, multiplier) <= back_off(longer, multiplier),
{
    let g = NANOS_PER_SEC as nat;
    lemma_unit_large();
    lemma_seconds_monotone(shorter, longer);
    let a = seconds(shorter / g, shorter % g);
    let b = seconds(longer / g, longer % g);
    let m = multiplier.magnitude();
    lemma_mul_inequality(a as int, b as int, m as int);
    lemma_round_monotone(a * m, b * m, unit());
    lemma_mul_inequality(product(a, m) as int, product(b, m) as int, g as int);
    lemma_half_even_monotone(product(a, m) * g, product(b, m) * g, unit());
}

/// Up to `2^(e + 53)` rounding errs by at most half of `2^e`.
proof fn lemma_round_error_below(num: nat, den: nat, e: nat)
    requires
        den > 0,
        num <= den * pow2(e + 53),
    ensures
        2 * distance(round(num, den), num, den) <= den * pow2(e),
{
    let bits = lemma_excess_exists(num, den);
    let d = den * pow2(bits);
    lemma_pow2_pos(bits);
    lemma_pow2_pos(e);
    let m = half_even(num, d);
    assert(d > 0) by (nonlinear_arith)
        requires
            d == den * pow2(bits),
            den > 0,
            pow2(bits) > 0,
    ;
    assert(round(num, den) * den == m * d) by (nonlinear_arith)
        requires
            round(num, den) == m * pow2(bits),
            d == den * pow2(bits),
    ;
    if bits <= e {
        lemma_half_even_error(num, d);
        if bits < e {
            lemma_pow2_strictly_increases(bits, e);
        }
        assert(d <= den * pow2(e)) by (nonlinear_arith)
            requires
                d == den * pow2(bits),
                pow2(bits) <= pow2(e),
        ;
    } else {
        // only the upper end itself takes one digit more
        if bits > e + 1 {
            lemma_pow2_strictly_increases(e + 53, (bits + 52) as nat);
            assert(den * pow2(e + 53) < den * pow2((bits + 52) as nat)) by (nonlinear_arith)
                requires
                    den > 0,
                    pow2(e + 53) < pow2((bits + 52) as nat),
            ;
        }
        lemma_pow2_adds(52, bits);
        assert(num == pow2(52) * d) by (nonlinear_arith)
            requires
                num == den * pow2((bits + 52) as nat),
                pow2(52) * pow2(bits) == pow2((bits + 52) as nat),
                d == den * pow2(bits),
        ;
        lemma_half_even_multiple(pow2(52), d);
        assert(den * pow2(e) >= 0) by (nonlinear_arith)
            requires
                den > 0,
                pow2(e) > 0,
        ;
    }
}

/// An interval of less than `2^23` seconds, some three months, is exact to the nanosecond as a
/// binary64 number of seconds.
proof fn lemma_seconds_round_trip(n: nat)
    requires
        n < pow2(23) * NANOS_PER_SEC as nat,
    ensures
        nanoseconds(seconds(n / NANOS_PER_SEC as nat, n % NANOS_PER_SEC as nat)) == n,
{
    let g = NANOS_PER_SEC as nat;
    let u = unit();
    let s = n / g;
    let r = n % g;
    let a = round(s * u, 1);
    let b = round(r * u, g);
    let c = sum(a, b);
    lemma_unit_large();
    lemma_powers();
    lemma2_to64();
    lemma_fundamental_div_mod(n as int, g as int);
    assert(s < pow2(23)) by (nonlinear_arith)
        requires
            n < pow2(23) * g,
            n == g * s + r,
            g > 0,
    ;
    lemma_round_exact(s, 1074);
    lemma_fraction_below_one(r);
    // the fraction errs by 2^-54 of a second at most, the sum by 2^-31
    lemma_pow2_adds(1021, 53);
    assert(r * u <= g * pow2(1074)) by (nonlinear_arith)
        requires
            r <= g,
            u == pow2(1074),
    ;
    lemma_round_error_below(r * u, g, 1021);
    lemma_pow2_adds(23, 1074);
    lemma_pow2_adds(1044, 53);
    assert(a + b <= pow2(23) * u) by (nonlinear_arith)
        requires
            a == s * u,
            b <= u,
            s + 1 <= pow2(23),
    ;
    lemma_round_error_below(a + b, 1, 1044);
    let eb = distance(b, r * u, g);
    let ec = distance(c, a + b, 1);
    lemma_pow2_adds(1044, 30);
    lemma_pow2_adds(1021, 53);
    let v = pow2(1021);
    lemma_pow2_adds(1021, 23);
    let cg = c * g;
    let nu = n * u;
    assert(cg <= nu + ec * g + eb && nu <= cg + ec * g + eb) by (nonlinear_arith)
        requires
            cg == c * g,
            nu == n * u,
            n == g * s + r,
            a == s * u,
            c <= a + b + ec,
            a + b <= c + ec,
            b * g <= r * u + eb,
            r * u <= b * g + eb,
    ;
    let e = if cg < nu { nu - cg } else { cg - nu };
    assert(2 * e < u) by (nonlinear_arith)
        requires
            e <= ec * g + eb,
            2 * ec <= 8_388_608 * v,
            2 * eb <= g * v,
            u == 9_007_199_254_740_992 * v,
            g == 1_000_000_000,
            v > 0,
    ;
    lemma_half_even_near(cg, n, u);
}

/// A larger factor does not make the interval shorter.
pub proof fn lemma_backoff_monotone_in_factor(interval: nat, smaller: Multiplier, bigger: Multiplier)
    requires
        smaller.magnitude() <= bigger.magnitude(),
    ensures
        back_off(interval, smaller) <= back_off(interval, bigger),
{
    let g = NANOS_PER_SEC as nat;
    let c = seconds(interval / g, interval % g);
    let m = smaller.magnitude();
    let k = bigger.magnitude();
    lemma_unit_large();
    assert(c * m <= c * k) by (nonlinear_arith)
        requires
            m <= k,
    ;
    lemma_round_monotone(c * m, c * k, unit());
    lemma_mul_inequality(product(c, m) as int, product(c, k) as int, g as int);
    lemma_half_even_monotone(product(c, m) * g, product(c, k) * g, unit());
}

/// A factor of one or more does not shorten an interval of less than `2^23` seconds, some
/// three months. (From there on not every interval is a binary64 number of seconds, to the
/// nanosecond.)
pub proof fn lemma_backoff_does_not_shorten(interval: nat, multiplier: Multiplier)
    requires
        multiplier.magnitude() >= unit(),
        interval < pow2(23) * NANOS_PER_SEC as nat,
    ensures
        back_off(interval, multiplier) >= interval,
{
    let g = NANOS_PER_SEC as nat;
    let u = unit();
    let one = Multiplier { bits: 0x3ff0_0000_0000_0000 };
    lemma_unit_large();
    lemma_powers();
    lemma_pow2_adds(52, 1022);
    assert(one.magnitude() == u) by {
        assert(one.biased_exponent() == 1023);
        assert(one.fraction() == 0);
    }
    let s = interval / g;
    let r = interval % g;
    let whole = round(s * u, 1) + round(r * u, g);
    let c = seconds(s, r);
    lemma_seconds_round_trip(interval);
    // times one is exact
    lemma_round_nearest(whole, 1, 0 * pow2(0));
    let (mantissa, exponent) = choose|mantissa: nat, exponent: nat|
        #![trigger mantissa * pow2(exponent)]
        mantissa <= pow2(53) && c == mantissa * pow2(exponent);
    lemma_round_exact(mantissa, exponent);
    lemma_round_scales(c, 1, u);
    assert(1 * u == u);
    lemma_backoff_monotone_in_factor(interval, one, multiplier);
}

/// A whole number of seconds times a whole number is exact where both it and the product have
/// at most 53 significant binary digits, up to the end of durations.
pub proof fn lemma_backoff_of_whole_seconds(secs: nat, multiplier: Multiplier, times: nat)
    requires
        is_whole(multiplier, times),
        representable(secs),
        representable(secs * times),
        secs * times < pow2(64),
    ensures
        can_back_off(secs * NANOS_PER_SEC as nat, multiplier),
        back_off(secs * NANOS_PER_SEC as nat, multiplier) == secs * times * NANOS_PER_SEC as nat,
{
    let g = NANOS_PER_SEC as nat;
    let u = unit();
    let n = secs * g;
    let k = secs * times;
    lemma_unit_large();
    lemma_powers();
    lemma_fundamental_div_mod_converse(n as int, g as int, secs as int, 0);
    lemma_representable_seconds(secs);
    lemma_representable_seconds(k);
    assert(0nat * u == 0) by (nonlinear_arith);
    lemma_round_scales(0, 1, g);
    lemma_round_exact(0, 0);
    assert(0nat * pow2(0) == 0);
    assert(0nat * g == 0);
    assert(1nat * g == g);
    let c = seconds(n / g, n % g);
    assert(c == secs * u);
    assert(c * (times * u) == (k * u) * u) by (nonlinear_arith)
        requires
            c == secs * u,
            k == secs * times,
    ;
    lemma_round_scales(k * u, 1, u);
    assert(1 * u == u);
    let p = product(c, multiplier.magnitude());
    assert(p == k * u);
    assert(p * g == (k * g) * u) by (nonlinear_arith)
        requires
            p == k * u,
    ;
    lemma_half_even_multiple(k * g, u);
    assert(p < pow2(64) * u) by (nonlinear_arith)
        requires
            p == k * u,
            k < pow2(64),
            u > 0,
    ;
}

proof fn lemma_representable_seconds(secs: nat)
    requires
        representable(secs),
    ensures
        round(secs * unit(), 1) == secs * unit(),
{
    let (mantissa, exponent) = choose|mantissa: nat, exponent: nat|
        #![trigger mantissa * pow2(exponent)]
        mantissa <= pow2(53) && secs == mantissa * pow2(exponent);
    lemma_pow2_adds(exponent, 1074);
    assert(mantissa * pow2(exponent) * unit() == mantissa * pow2(exponent + 1074))
        by (nonlinear_arith)
        requires
            pow2(exponent) * unit() == pow2(exponent + 1074),
    ;
    lemma_round_exact(mantissa, exponent + 1074);
}

/// The interval after a number of requests with these outcomes.
pub open spec fn interval_after(
    interval: nat,
    config: RetryConfig,
    outcomes: Seq<RequestOutcome>,
) -> nat
    decreases outcomes.len(),
{
    if outcomes.len() == 0 {
        interval
    } else {
        next_interval(
            interval_after(interval, config, outcomes.drop_last()),
            config,
            outcomes.last(),
        )
    }
}

/// A run of successful requests.
pub open spec fn successes(count: nat) -> Seq<RequestOutcome> {
    Seq::new(count, |i: int| RequestOutcome::Success)
}

/// A run of requests that were throttled without a Retry-After header.
pub open spec fn throttlings(count: nat) -> Seq<RequestOutcome> {
    Seq::new(count, |i: int| RequestOutcome::Throttled)
}

/// Recovery is linear: each success takes off one step, down to the safe interval. Without a
/// step nothing is taken off.
pub proof fn lemma_recovery_is_linear(interval: nat, config: RetryConfig, count: nat)
    requires
        count > 0,
    ensures
        interval_after(interval, config, successes(count)) == larger(
            if interval < count * nanos_of(config.recovery_step) {
                0
            } else {
                (interval - count * nanos_of(config.recovery_step)) as nat
            },
            nanos_of(config.safe_interval),
        ),
        nanos_of(config.recovery_step) == 0 && interval >= nanos_of(config.safe_interval)
            ==> interval_after(interval, config, successes(count)) == interval,
    decreases count,
{
    let step = nanos_of(config.recovery_step);
    let fewer = (count - 1) as nat;
    assert(successes(count).drop_last() =~= successes(fewer));
    assert(count * step == fewer * step + step) by (nonlinear_arith)
        requires
            count == fewer + 1,
    ;
    if fewer > 0 {
        lemma_recovery_is_linear(interval, config, fewer);
    } else {
        assert(fewer * step == 0) by (nonlinear_arith)
            requires
                fewer == 0,
        ;
        assert(interval_after(interval, config, successes(fewer)) == interval);
    }
}

/// At the safe interval successes change nothing.
pub proof fn lemma_steady_state_holds(config: RetryConfig, count: nat)
    ensures
        interval_after(nanos_of(config.safe_interval), config, successes(count)) == nanos_of(
            config.safe_interval,
        ),
{
    if count > 0 {
        lemma_recovery_is_linear(nanos_of(config.safe_interval), config, count);
    }
}

/// Enough successes lead back to the safe interval.
pub proof fn lemma_recovery_completes(interval: nat, config: RetryConfig, count: nat)
    requires
        count > 0,
        interval <= nanos_of(config.safe_interval) + count * nanos_of(config.recovery_step),
    ensures
        interval_after(interval, config, successes(count)) == nanos_of(config.safe_interval),
{
    lemma_recovery_is_linear(interval, config, count);
}

/// After a success the interval is at least the safe one, whatever it was before, and a wait
/// that was safe does not get longer.
pub proof fn lemma_success_keeps_safe_interval(interval: nat, config: RetryConfig)
    ensures
        nanos_of(config.safe_interval) <= next_interval(interval, config, RequestOutcome::Success)
            <= larger(interval, nanos_of(config.safe_interval)),
{
}

/// The wait that the server asks for is honored, and so is the backoff.
pub proof fn lemma_retry_after_honored(
    interval: nat,
    config: RetryConfig,
    retry_after: std::time::Duration,
)
    ensures
        ({
            let next = next_interval(
                interval,
                config,
                RequestOutcome::ThrottledWithRetryAfter(retry_after),
            );
            &&& next >= nanos_of(retry_after)
            &&& next >= next_interval(interval, config, RequestOutcome::Throttled)
            &&& next == nanos_of(retry_after) || next == next_interval(
                interval,
                config,
                RequestOutcome::Throttled,
            )
        }),
{
}

/// The limiter never goes faster than the safe interval, whatever the outcomes are.
pub proof fn lemma_never_faster_than_safe(
    interval: nat,
    config: RetryConfig,
    outcomes: Seq<RequestOutcome>,
)
    requires
        interval >= nanos_of(config.safe_interval),
    ensures
        interval_after(interval, config, outcomes) >= nanos_of(config.safe_interval),
    decreases outcomes.len(),
{
    if outcomes.len() > 0 {
        lemma_never_faster_than_safe(interval, config, outcomes.drop_last());
    }
}

/// Consecutive throttled requests keep multiplying the interval, exactly where the factor
/// is a whole number, up to about ten days.
pub proof fn lemma_consecutive_errors_keep_multiplying(
    interval: nat,
    config: RetryConfig,
    times: nat,
    count: nat,
)
    requires
        is_whole(config.backoff_multiplier, times),
        times > 0,
        interval >= nanos_of(config.safe_interval),
        10 * (interval * pow(times as int, count)) < pow2(53),
    ensures
        interval_after(interval, config, throttlings(count)) == interval
            * pow(times as int, count),
    decreases count,
{
    reveal(pow);
    if count > 0 {
        let fewer = (count - 1) as nat;
        let w = pow(times as int, fewer);
        lemma_pow_positive(times as int, fewer);
        assert(throttlings(count).drop_last() =~= throttlings(fewer));
        assert(interval * (times * w) == (interval * w) * times) by (nonlinear_arith);
        assert(interval * w >= 0) by (nonlinear_arith)
            requires
                w > 0,
        ;
        assert(interval * w <= (interval * w) * times) by (nonlinear_arith)
            requires
                times >= 1,
                interval * w >= 0,
        ;
        assert(interval <= interval * w) by (nonlinear_arith)
            requires
                w >= 1,
        ;
        lemma_consecutive_errors_keep_multiplying(interval, config, times, fewer);
        lemma_backoff_by_whole_number((interval * w) as nat, config.backoff_multiplier, times);
    }
}

/// Consecutive throttled requests keep doubling a whole number of seconds (or multiplying it
/// by four, or another power of two), exactly, up to the end of durations.
pub proof fn lemma_consecutive_errors_keep_doubling(
    secs: nat,
    config: RetryConfig,
    doublings: nat,
    count: nat,
)
    requires
        is_whole(config.backoff_multiplier, pow2(doublings)),
        representable(secs),
        secs * NANOS_PER_SEC as nat >= nanos_of(config.safe_interval),
        secs * pow2(doublings * count) < pow2(64),
    ensures
        interval_after(secs * NANOS_PER_SEC as nat, config, throttlings(count)) == secs * pow2(
            doublings * count,
        ) * NANOS_PER_SEC as nat,
    decreases count,
{
    let g = NANOS_PER_SEC as nat;
    lemma_powers();
    if count == 0 {
        assert(doublings * count == 0) by (nonlinear_arith)
            requires
                count == 0,
        ;
        assert(secs * 1 == secs);
    } else {
        let fewer = (count - 1) as nat;
        let w = pow2(doublings * fewer);
        let before = secs * w;
        assert(doublings * count == doublings * fewer + doublings) by (nonlinear_arith)
            requires
                count == fewer + 1,
        ;
        lemma_pow2_adds(doublings * fewer, doublings);
        lemma_pow2_pos(doublings);
        lemma_pow2_pos(doublings * fewer);
        assert(before * pow2(doublings) == secs * pow2(doublings * count)) by (nonlinear_arith)
            requires
                before == secs * w,
                w * pow2(doublings) == pow2(doublings * count),
        ;
        assert(before <= before * pow2(doublings)) by (nonlinear_arith)
            requires
                pow2(doublings) >= 1,
        ;
        assert(throttlings(count).drop_last() =~= throttlings(fewer));
        lemma_consecutive_errors_keep_doubling(secs, config, doublings, fewer);
        lemma_representable_doubled(secs, doublings * fewer);
        lemma_representable_doubled(secs, doublings * count);
        lemma_backoff_of_whole_seconds(before, config.backoff_multiplier, pow2(doublings));
        assert(secs * g <= secs * pow2(doublings * count) * g) by (nonlinear_arith)
            requires
                secs * w <= secs * pow2(doublings * count),
                w >= 1,
        ;
    }
}

proof fn lemma_representable_doubled(n: nat, doublings: nat)
    requires
        representable(n),
    ensures
        representable(n * pow2(doublings)),
{
    let (mantissa, exponent) = choose|mantissa: nat, exponent: nat|
        #![trigger mantissa * pow2(exponent)]
        mantissa <= pow2(53) && n == mantissa * pow2(exponent);
    lemma_pow2_adds(exponent, doublings);
    assert(n * pow2(doublings) == mantissa * pow2(exponent + doublings)) by (nonlinear_arith)
        requires
            n == mantissa * pow2(exponent),
            pow2(exponent) * pow2(doublings) == pow2(exponent + doublings),
    ;
}

}
