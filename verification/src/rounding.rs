use vstd::arithmetic::div_mod::*;
use vstd::arithmetic::mul::*;
use vstd::arithmetic::power2::*;
use vstd::prelude::*;

verus! {

/// The integer nearest to `num / den`; of two that are equally near, the even one.
pub open spec fn half_even(num: nat, den: nat) -> nat
    recommends
        den > 0,
{
    let quotient = num / den;
    let rest = num % den;
    if 2 * rest < den || (2 * rest == den && quotient % 2 == 0) {
        quotient
    } else {
        quotient + 1
    }
}

/// `num / den` has `bits` binary digits too many for a significand of 53 digits.
pub open spec fn excess(num: nat, den: nat, bits: nat) -> bool {
    &&& num < den * pow2(bits + 53)
    &&& bits == 0 || den * pow2((bits + 52) as nat) <= num
}

/// `num / den` rounded to an integer of at most 53 significant binary digits.
///
/// Counted in units of `2^-1074` (see [`unit`]) these integers are the non-negative
/// numbers of IEEE 754 binary64, the subnormal ones included, but for the upper end:
/// there is no largest one.
pub open spec fn round(num: nat, den: nat) -> nat {
    let bits = choose|bits: nat| excess(num, den, bits);
    half_even(num, den * pow2(bits)) * pow2(bits)
}

/// The number one, counted in units of `2^-1074`.
pub open spec fn unit() -> nat {
    pow2(1074)
}

/// `a + b`, rounded.
pub open spec fn sum(a: nat, b: nat) -> nat {
    round(a + b, 1)
}

/// `a * b`, rounded.
pub open spec fn product(a: nat, b: nat) -> nat {
    round(a * b, unit())
}

pub(crate) proof fn lemma_half_even_scales(num: nat, den: nat, c: nat)
    requires
        den > 0,
        c > 0,
    ensures
        half_even(num * c, den * c) == half_even(num, den),
{
    let q = num / den;
    let r = num % den;
    lemma_fundamental_div_mod(num as int, den as int);
    assert(num * c == q * (den * c) + r * c) by (nonlinear_arith)
        requires
            num == den * q + r,
    ;
    assert(0 <= r * c < den * c) by (nonlinear_arith)
        requires
            0 <= r < den,
            c > 0,
    ;
    lemma_fundamental_div_mod_converse(
        (num * c) as int,
        (den * c) as int,
        q as int,
        (r * c) as int,
    );
    assert(2 * r < den <==> 2 * (r * c) < den * c) by (nonlinear_arith)
        requires
            c > 0,
    ;
    assert(2 * r == den <==> 2 * (r * c) == den * c) by (nonlinear_arith)
        requires
            c > 0,
    ;
}

proof fn lemma_excess_at_most(num: nat, den: nat, a: nat, b: nat)
    requires
        num < den * pow2(a + 53),
        b == 0 || den * pow2((b + 52) as nat) <= num,
    ensures
        b <= a,
{
    if a < b {
        if a + 53 < b + 52 {
            lemma_pow2_strictly_increases(a + 53, (b + 52) as nat);
        }
        assert(den * pow2(a + 53) <= den * pow2((b + 52) as nat)) by (nonlinear_arith)
            requires
                pow2(a + 53) <= pow2((b + 52) as nat),
        ;
    }
}

/// What `round` is, once the number of excess digits is known.
pub(crate) proof fn lemma_round_at(num: nat, den: nat, bits: nat)
    requires
        excess(num, den, bits),
    ensures
        round(num, den) == half_even(num, den * pow2(bits)) * pow2(bits),
{
    let chosen = choose|bits: nat| excess(num, den, bits);
    lemma_excess_at_most(num, den, bits, chosen);
    lemma_excess_at_most(num, den, chosen, bits);
}

proof fn lemma_excess_from(num: nat, den: nat, bits: nat) -> (found: nat)
    requires
        den > 0,
        bits == 0 || den * pow2((bits + 52) as nat) <= num,
    ensures
        excess(num, den, found),
    decreases num + 1 - bits,
{
    if num < den * pow2(bits + 53) {
        bits
    } else {
        let next = bits + 1;
        lemma_exponent_below_pow2((next + 52) as nat);
        assert(next <= num) by (nonlinear_arith)
            requires
                den > 0,
                next + 52 < pow2((next + 52) as nat),
                den * pow2((next + 52) as nat) <= num,
        ;
        lemma_excess_from(num, den, next)
    }
}

proof fn lemma_exponent_below_pow2(e: nat)
    ensures
        e < pow2(e),
    decreases e,
{
    lemma2_to64();
    if e > 0 {
        lemma_exponent_below_pow2((e - 1) as nat);
        lemma_pow2_unfold(e);
    }
}

/// The number of excess digits of `num / den`.
pub(crate) proof fn lemma_excess_exists(num: nat, den: nat) -> (bits: nat)
    requires
        den > 0,
    ensures
        excess(num, den, bits),
        round(num, den) == half_even(num, den * pow2(bits)) * pow2(bits),
{
    let bits = lemma_excess_from(num, den, 0);
    lemma_round_at(num, den, bits);
    bits
}

/// `round` depends on the value of the fraction alone.
pub(crate) proof fn lemma_round_scales(num: nat, den: nat, c: nat)
    requires
        den > 0,
        c > 0,
    ensures
        round(num * c, den * c) == round(num, den),
{
    let bits = lemma_excess_exists(num, den);
    let hi = pow2(bits + 53);
    let lo = pow2((bits + 52) as nat);
    assert(num * c < (den * c) * hi) by (nonlinear_arith)
        requires
            num < den * hi,
            c > 0,
    ;
    assert(den * lo <= num ==> (den * c) * lo <= num * c) by (nonlinear_arith)
        requires
            c > 0,
    ;
    lemma_round_at(num * c, den * c, bits);
    lemma_pow2_pos(bits);
    assert(den * pow2(bits) > 0) by (nonlinear_arith)
        requires
            den > 0,
            pow2(bits) > 0,
    ;
    lemma_half_even_scales(num, den * pow2(bits), c);
    assert((den * c) * pow2(bits) == (den * pow2(bits)) * c) by (nonlinear_arith);
}

/// `half_even` errs by half at most.
pub(crate) proof fn lemma_half_even_error(num: nat, den: nat)
    requires
        den > 0,
    ensures
        2 * num <= 2 * (half_even(num, den) * den) + den,
        2 * (half_even(num, den) * den) <= 2 * num + den,
{
    let q = num / den;
    let r = num % den;
    lemma_fundamental_div_mod(num as int, den as int);
    assert(q * den == den * q) by (nonlinear_arith);
    assert((q + 1) * den == den * q + den) by (nonlinear_arith);
}

pub(crate) proof fn lemma_half_even_monotone(a: nat, b: nat, den: nat)
    requires
        den > 0,
        a <= b,
    ensures
        half_even(a, den) <= half_even(b, den),
{
    lemma_fundamental_div_mod(a as int, den as int);
    lemma_fundamental_div_mod(b as int, den as int);
    lemma_div_is_ordered(a as int, b as int, den as int);
}

pub(crate) proof fn lemma_half_even_multiple(k: nat, den: nat)
    requires
        den > 0,
    ensures
        half_even(k * den, den) == k,
{
    lemma_fundamental_div_mod_converse((k * den) as int, den as int, k as int, 0);
}

pub proof fn lemma_round_monotone(a: nat, b: nat, den: nat)
    requires
        den > 0,
        a <= b,
    ensures
        round(a, den) <= round(b, den),
{
    let s = lemma_excess_exists(a, den);
    let t = lemma_excess_exists(b, den);
    lemma_excess_at_most(a, den, t, s);
    lemma_pow2_pos(s);
    lemma_pow2_pos(t);
    let ds = den * pow2(s);
    let dt = den * pow2(t);
    assert(ds > 0 && dt > 0) by (nonlinear_arith)
        requires
            den > 0,
            pow2(s) > 0,
            pow2(t) > 0,
            ds == den * pow2(s),
            dt == den * pow2(t),
    ;
    if s == t {
        lemma_half_even_monotone(a, b, ds);
        lemma_mul_inequality(half_even(a, ds) as int, half_even(b, ds) as int, pow2(s) as int);
    } else {
        // a rounds to at most 2^(s + 53), b to at least 2^(t + 52)
        lemma_pow2_adds(53, s);
        lemma_pow2_adds(52, t);
        assert(pow2(53) * ds == den * pow2(s + 53)) by (nonlinear_arith)
            requires
                ds == den * pow2(s),
                pow2(53) * pow2(s) == pow2(s + 53),
        ;
        lemma_half_even_monotone(a, pow2(53) * ds, ds);
        lemma_half_even_multiple(pow2(53), ds);
        assert(pow2(52) * dt == den * pow2((t + 52) as nat)) by (nonlinear_arith)
            requires
                dt == den * pow2(t),
                pow2(52) * pow2(t) == pow2((t + 52) as nat),
        ;
        lemma_half_even_monotone(pow2(52) * dt, b, dt);
        lemma_half_even_multiple(pow2(52), dt);
        if s + 53 < t + 52 {
            lemma_pow2_strictly_increases(s + 53, (t + 52) as nat);
        }
        lemma_mul_inequality(half_even(a, ds) as int, pow2(53) as int, pow2(s) as int);
        lemma_mul_inequality(pow2(52) as int, half_even(b, dt) as int, pow2(t) as int);
    }
}

/// A number of 53 significant digits is rounded to itself.
pub proof fn lemma_round_exact(mantissa: nat, exponent: nat)
    requires
        mantissa <= pow2(53),
    ensures
        round(mantissa * pow2(exponent), 1) == mantissa * pow2(exponent),
    decreases exponent,
{
    let n = mantissa * pow2(exponent);
    let bits = lemma_excess_exists(n, 1);
    lemma_pow2_pos(bits);
    if bits <= exponent {
        let gap = (exponent - bits) as nat;
        lemma_pow2_adds(gap, bits);
        let k = mantissa * pow2(gap);
        assert(n == k * pow2(bits)) by (nonlinear_arith)
            requires
                n == mantissa * pow2(exponent),
                k == mantissa * pow2(gap),
                pow2(gap) * pow2(bits) == pow2(exponent),
        ;
        lemma_half_even_multiple(k, pow2(bits));
    } else {
        // only 2^53 itself takes one digit more
        lemma_pow2_adds(53, exponent);
        lemma_mul_inequality(mantissa as int, pow2(53) as int, pow2(exponent) as int);
        lemma_pow2_pos(exponent);
        if bits > exponent + 1 {
            lemma_pow2_strictly_increases(exponent + 53, (bits + 52) as nat);
        }
        assert(mantissa == pow2(53)) by (nonlinear_arith)
            requires
                mantissa <= pow2(53),
                pow2(exponent) > 0,
                pow2(53) * pow2(exponent) <= mantissa * pow2(exponent),
        ;
        lemma_pow2_adds(52, bits);
        lemma_half_even_multiple(pow2(52), pow2(bits));
    }
}

/// `n` has at most 53 significant binary digits.
pub open spec fn representable(n: nat) -> bool {
    exists|mantissa: nat, exponent: nat|
        #![trigger mantissa * pow2(exponent)]
        mantissa <= pow2(53) && n == mantissa * pow2(exponent)
}

/// How far `n` lies from `num / den`, in parts of `den`.
pub open spec fn distance(n: nat, num: nat, den: nat) -> int {
    if n * den < num {
        num - n * den
    } else {
        n * den - num
    }
}

/// Rounding errs by at most one part in `2^53`, or by half a unit.
pub proof fn lemma_round_error(num: nat, den: nat)
    requires
        den > 0,
    ensures
        2 * distance(round(num, den), num, den) <= den || distance(round(num, den), num, den)
            * pow2(53) <= num,
{
    let bits = lemma_excess_exists(num, den);
    let d = den * pow2(bits);
    lemma_pow2_pos(bits);
    assert(d > 0) by (nonlinear_arith)
        requires
            den > 0,
            pow2(bits) > 0,
            d == den * pow2(bits),
    ;
    lemma_half_even_error(num, d);
    let m = half_even(num, d);
    let err = distance(round(num, den), num, den);
    assert(round(num, den) * den == m * d) by (nonlinear_arith)
        requires
            round(num, den) == m * pow2(bits),
            d == den * pow2(bits),
    ;
    lemma2_to64();
    if bits == 0 {
        assert(d == den) by (nonlinear_arith)
            requires
                d == den * pow2(bits),
                pow2(bits) == 1,
        ;
    } else {
        lemma_pow2_adds(bits, 52);
        lemma_pow2_unfold(53);
        assert(err * pow2(53) <= num) by (nonlinear_arith)
            requires
                2 * err <= d,
                d == den * pow2(bits),
                pow2(bits) * pow2(52) == pow2((bits + 52) as nat),
                den * pow2((bits + 52) as nat) <= num,
                pow2(53) == 2 * pow2(52),
        ;
    }
}

/// Rounding gives a number of at most 53 significant digits, and none lies nearer.
pub proof fn lemma_round_nearest(num: nat, den: nat, other: nat)
    requires
        den > 0,
        representable(other),
    ensures
        representable(round(num, den)),
        distance(round(num, den), num, den) <= distance(other, num, den),
{
    let bits = lemma_excess_exists(num, den);
    let step = pow2(bits);
    let d = den * step;
    let m = half_even(num, d);
    lemma_pow2_pos(bits);
    assert(d > 0) by (nonlinear_arith)
        requires
            den > 0,
            step > 0,
            d == den * step,
    ;
    lemma_pow2_adds(53, bits);
    assert(pow2(53) * d == den * pow2(bits + 53)) by (nonlinear_arith)
        requires
            d == den * step,
            pow2(53) * step == pow2(bits + 53),
    ;
    lemma_half_even_monotone(num, pow2(53) * d, d);
    lemma_half_even_multiple(pow2(53), d);
    assert(representable(m * pow2(bits)));
    let (mantissa, exponent) = choose|mantissa: nat, exponent: nat|
        #![trigger mantissa * pow2(exponent)]
        mantissa <= pow2(53) && other == mantissa * pow2(exponent);
    if exponent >= bits {
        let gap = (exponent - bits) as nat;
        lemma_pow2_adds(gap, bits);
        let k = mantissa * pow2(gap);
        assert(other == k * step) by (nonlinear_arith)
            requires
                other == mantissa * pow2(exponent),
                k == mantissa * pow2(gap),
                pow2(gap) * step == pow2(exponent),
        ;
        lemma_nearest_multiple(num, den, step, k);
    } else {
        // every such number lies below the least multiple of `step` with 53 digits
        lemma_pow2_adds(53, exponent);
        lemma_pow2_adds(52, bits);
        if exponent + 53 < bits + 52 {
            lemma_pow2_strictly_increases(exponent + 53, (bits + 52) as nat);
        }
        lemma_mul_inequality(mantissa as int, pow2(53) as int, pow2(exponent) as int);
        let low = pow2((bits + 52) as nat);
        assert(other <= low);
        assert(other * den <= low * den && low * den == den * low) by (nonlinear_arith)
            requires
                other <= low,
        ;
        lemma_nearest_multiple(num, den, step, pow2(52));
    }
}

proof fn lemma_nearest_multiple(num: nat, den: nat, step: nat, k: nat)
    requires
        den > 0,
        step > 0,
    ensures
        distance(half_even(num, den * step) * step, num, den) <= distance(k * step, num, den),
{
    let d = den * step;
    assert(d > 0) by (nonlinear_arith)
        requires
            den > 0,
            step > 0,
            d == den * step,
    ;
    let m = half_even(num, d);
    lemma_half_even_error(num, d);
    assert((m * step) * den == m * d) by (nonlinear_arith)
        requires
            d == den * step,
    ;
    assert((k * step) * den == k * d) by (nonlinear_arith)
        requires
            d == den * step,
    ;
    if k < m {
        assert(k * d + d <= m * d) by (nonlinear_arith)
            requires
                k + 1 <= m,
                d > 0,
        ;
    } else if m < k {
        assert(m * d + d <= k * d) by (nonlinear_arith)
            requires
                m + 1 <= k,
                d > 0,
        ;
    }
}

/// `n` is the integer nearest to `num / den`; of two that are equally near, the even one.
pub open spec fn is_nearest_integer(n: nat, num: nat, den: nat) -> bool {
    &&& 2 * (n * den) <= 2 * num + den
    &&& 2 * num <= 2 * (n * den) + den
    &&& 2 * (n * den) == 2 * num + den || 2 * num == 2 * (n * den) + den ==> n % 2 == 0
}

/// `r` is the binary64 number nearest to `num / den`: it has at most 53 significant binary
/// digits, no other such number lies nearer, and of two that are equally near it is the even
/// one, that is, an even multiple of the gap between them.
pub open spec fn is_nearest(r: nat, num: nat, den: nat) -> bool {
    &&& exists|mantissa: nat, exponent: nat|
        #![trigger mantissa * pow2(exponent)]
        mantissa <= 0x20_0000_0000_0000 && r == mantissa * pow2(exponent)
    &&& forall|mantissa: nat, exponent: nat|
        mantissa <= 0x20_0000_0000_0000 ==> no_nearer(
            r,
            #[trigger] (mantissa * pow2(exponent)),
            num,
            den,
        )
}

/// `other` does not lie nearer to `num / den` than `r` does, and where both are equally near
/// `r` is an even multiple of the gap.
pub open spec fn no_nearer(r: nat, other: nat, num: nat, den: nat) -> bool {
    let here = if r * den < num { num - r * den } else { r * den - num };
    let there = if other * den < num { num - other * den } else { other * den - num };
    &&& here <= there
    &&& here == there && r < other ==> r as int % (2 * (other - r)) == 0
    &&& here == there && other < r ==> r as int % (2 * (r - other)) == 0
}

/// `half_even` gives the nearest integer.
pub proof fn lemma_half_even_is_nearest(num: nat, den: nat)
    requires
        den > 0,
    ensures
        is_nearest_integer(half_even(num, den), num, den),
{
    let q = num / den;
    let r = num % den;
    lemma_fundamental_div_mod(num as int, den as int);
    assert(q * den == den * q) by (nonlinear_arith);
    assert((q + 1) * den == den * q + den) by (nonlinear_arith);
}

/// `round` gives the nearest binary64 number.
pub proof fn lemma_round_is_nearest(num: nat, den: nat)
    requires
        den > 0,
    ensures
        is_nearest(round(num, den), num, den),
{
    let r = round(num, den);
    lemma_powers();
    lemma_round_nearest(num, den, 0 * pow2(0));
    assert forall|mantissa: nat, exponent: nat| mantissa <= 0x20_0000_0000_0000 implies no_nearer(
        r,
        #[trigger] (mantissa * pow2(exponent)),
        num,
        den,
    ) by {
        let other = mantissa * pow2(exponent);
        assert(representable(other));
        lemma_round_nearest(num, den, other);
        if distance(r, num, den) == distance(other, num, den) && r != other {
            lemma_tie_is_even(num, den, mantissa, exponent);
        }
    }
}

proof fn lemma_tie_is_even(num: nat, den: nat, mantissa: nat, exponent: nat)
    requires
        den > 0,
        mantissa <= pow2(53),
        round(num, den) != mantissa * pow2(exponent),
        distance(round(num, den), num, den) == distance(mantissa * pow2(exponent), num, den),
    ensures
        ({
            let r = round(num, den) as int;
            let other = (mantissa * pow2(exponent)) as int;
            &&& r < other ==> r % (2 * (other - r)) == 0
            &&& other < r ==> r % (2 * (r - other)) == 0
        }),
{
    let other = mantissa * pow2(exponent);
    let bits = lemma_excess_exists(num, den);
    let step = pow2(bits);
    let d = den * step;
    let m = half_even(num, d);
    let r = m * step;
    lemma_pow2_pos(bits);
    assert(d > 0) by (nonlinear_arith)
        requires
            den > 0,
            step > 0,
            d == den * step,
    ;
    // the other one is a multiple of the step, too
    let k = if exponent >= bits {
        (mantissa * pow2((exponent - bits) as nat)) as nat
    } else {
        pow2(52)
    };
    assert(other == k * step) by {
        if exponent >= bits {
            let gap = (exponent - bits) as nat;
            lemma_pow2_adds(gap, bits);
            assert(other == k * step) by (nonlinear_arith)
                requires
                    other == mantissa * pow2(exponent),
                    k == mantissa * pow2(gap),
                    pow2(gap) * step == pow2(exponent),
            ;
        } else {
            lemma_pow2_adds(53, exponent);
            lemma_pow2_adds(52, bits);
            if exponent + 53 < bits + 52 {
                lemma_pow2_strictly_increases(exponent + 53, (bits + 52) as nat);
            }
            lemma_mul_inequality(mantissa as int, pow2(53) as int, pow2(exponent) as int);
            let low = pow2((bits + 52) as nat);
            assert(other <= low);
            assert(low * den == den * low) by (nonlinear_arith);
            if other < low {
                assert(other * den < low * den) by (nonlinear_arith)
                    requires
                        other < low,
                        den > 0,
                ;
                assert(representable(pow2(52) * pow2(bits))) by {
                    lemma_powers();
                }
                lemma_round_nearest(num, den, pow2(52) * pow2(bits));
            }
        }
    }
    assert(r * den == m * d) by (nonlinear_arith)
        requires
            r == m * step,
            d == den * step,
    ;
    assert(other * den == k * d) by (nonlinear_arith)
        requires
            other == k * step,
            d == den * step,
    ;
    lemma_half_even_is_nearest(num, d);
    if m < k {
        assert(k * d >= m * d + d) by (nonlinear_arith)
            requires
                k >= m + 1,
                d > 0,
        ;
        assert(k == m + 1) by {
            if k > m + 1 {
                assert(k * d >= m * d + 2 * d) by (nonlinear_arith)
                    requires
                        k >= m + 2,
                        d > 0,
                ;
            }
        }
        assert(k * d == m * d + d) by (nonlinear_arith)
            requires
                k == m + 1,
        ;
        assert(other - r == step) by (nonlinear_arith)
            requires
                other == k * step,
                r == m * step,
                k == m + 1,
        ;
    } else {
        assert(m != k);
        assert(m * d >= k * d + d) by (nonlinear_arith)
            requires
                m >= k + 1,
                d > 0,
        ;
        assert(m == k + 1) by {
            if m > k + 1 {
                assert(m * d >= k * d + 2 * d) by (nonlinear_arith)
                    requires
                        m >= k + 2,
                        d > 0,
                ;
            }
        }
        assert(m * d == k * d + d) by (nonlinear_arith)
            requires
                m == k + 1,
        ;
        assert(r - other == step) by (nonlinear_arith)
            requires
                other == k * step,
                r == m * step,
                m == k + 1,
        ;
    }
    assert(m % 2 == 0);
    let half = m / 2;
    assert(r == half * (2 * step)) by (nonlinear_arith)
        requires
            r == m * step,
            m == 2 * half,
    ;
    lemma_mod_multiples_basic(half as int, (2 * step) as int);
}

/// There is only one nearest integer.
pub proof fn lemma_nearest_integer_is_unique(a: nat, b: nat, num: nat, den: nat)
    requires
        den > 0,
        is_nearest_integer(a, num, den),
        is_nearest_integer(b, num, den),
    ensures
        a == b,
{
    if a != b {
        let (low, high) = if a < b { (a, b) } else { (b, a) };
        assert(high * den >= low * den + den) by (nonlinear_arith)
            requires
                high >= low + 1,
                den > 0,
        ;
        if high > low + 1 {
            assert(high * den >= low * den + 2 * den) by (nonlinear_arith)
                requires
                    high >= low + 2,
                    den > 0,
            ;
        }
    }
}

/// There is only one nearest binary64 number.
pub proof fn lemma_nearest_is_unique(a: nat, b: nat, num: nat, den: nat)
    requires
        is_nearest(a, num, den),
        is_nearest(b, num, den),
    ensures
        a == b,
{
    let (m, e) = choose|mantissa: nat, exponent: nat|
        #![trigger mantissa * pow2(exponent)]
        mantissa <= 0x20_0000_0000_0000 && a == mantissa * pow2(exponent);
    let (k, f) = choose|mantissa: nat, exponent: nat|
        #![trigger mantissa * pow2(exponent)]
        mantissa <= 0x20_0000_0000_0000 && b == mantissa * pow2(exponent);
    assert(no_nearer(a, k * pow2(f), num, den));
    assert(no_nearer(b, m * pow2(e), num, den));
    if a != b {
        let (low, high) = if a < b { (a as int, b as int) } else { (b as int, a as int) };
        let gap = high - low;
        lemma_fundamental_div_mod(low, 2 * gap);
        lemma_fundamental_div_mod(high, 2 * gap);
        let x = low / (2 * gap);
        let y = high / (2 * gap);
        assert(false) by (nonlinear_arith)
            requires
                low == (2 * gap) * x,
                high == (2 * gap) * y,
                high - low == gap,
                gap > 0,
        ;
    }
}

/// Some powers of two in figures.
pub(crate) proof fn lemma_powers()
    ensures
        pow2(0) == 1,
        pow2(1) == 2,
        pow2(52) == 0x10_0000_0000_0000,
        pow2(53) == 0x20_0000_0000_0000,
        pow2(63) == 0x8000_0000_0000_0000,
        pow2(64) == 0x1_0000_0000_0000_0000,
        pow2(127) == 0x8000_0000_0000_0000_0000_0000_0000_0000,
{
    lemma2_to64();
    lemma2_to64_rest();
    lemma_pow2_unfold(53);
    lemma_pow2_unfold(64);
    lemma_pow2_adds(64, 63);
}

}
