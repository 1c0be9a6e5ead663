use crate::rounding::{
    excess, half_even, lemma_half_even_monotone, lemma_half_even_multiple, lemma_half_even_scales,
    lemma_powers, lemma_round_at, lemma_round_exact, lemma_round_monotone, lemma_round_scales,
    product, round, sum, unit,
};
use vstd::arithmetic::div_mod::*;
use vstd::arithmetic::mul::*;
use vstd::arithmetic::power2::*;
use vstd::prelude::*;

verus! {

/// The length of a second in nanoseconds.
pub const NANOS_PER_SEC: u32 = 1_000_000_000;

/// The binary64 number of seconds in a duration of `secs` seconds and `nanos` nanoseconds:
/// both parts are converted, then added, and each step rounds.
pub open spec fn seconds(secs: nat, nanos: nat) -> nat {
    sum(round(secs * unit(), 1), round(nanos * unit(), NANOS_PER_SEC as nat))
}

/// The whole number of nanoseconds nearest to the binary64 number `x` of seconds.
pub open spec fn nanoseconds(x: nat) -> nat {
    half_even(x * NANOS_PER_SEC as nat, unit())
}

/// A non-negative finite binary64 number.
#[derive(Clone, Copy)]
pub(crate) struct Binary64 {
    pub(crate) mantissa: u64,
    pub(crate) exponent: u32,
}

impl View for Binary64 {
    type V = nat;

    /// The number, in units of `2^-1074`.
    closed spec fn view(&self) -> nat {
        self.mantissa as nat * pow2(self.exponent as nat)
    }
}

impl Binary64 {
    pub closed spec fn well_formed(self) -> bool {
        &&& self.mantissa <= pow2(53)
        &&& self.exponent <= 5000
    }
}

fn power_of_two(e: u32) -> (r: u128)
    requires
        e < 128,
    ensures
        r == pow2(e as nat),
{
    let mut r: u128 = 1;
    let mut i: u32 = 0;
    proof {
        lemma_powers();
    }
    while i < e
        invariant
            i <= e < 128,
            r == pow2(i as nat),
        decreases e - i,
    {
        proof {
            lemma_pow2_unfold((i + 1) as nat);
            lemma_powers();
            if i + 1 < 127 {
                lemma_pow2_strictly_increases((i + 1) as nat, 127);
            }
        }
        r = r * 2;
        i = i + 1;
    }
    r
}

/// The number of binary digits of `p`.
fn bit_length(p: u128) -> (b: u32)
    requires
        p < pow2(127),
    ensures
        b <= 127,
        p < pow2(b as nat),
        b == 0 <==> p == 0,
        b > 0 ==> pow2((b - 1) as nat) <= p,
{
    let mut b: u32 = 0;
    let mut w: u128 = 1;
    proof {
        lemma_powers();
    }
    while w <= p
        invariant
            p < pow2(127),
            b <= 127,
            w == pow2(b as nat),
            b == 0 || pow2((b - 1) as nat) <= p,
        decreases 127 - b,
    {
        proof {
            assert(b < 127);
            lemma_pow2_unfold((b + 1) as nat);
            lemma_powers();
            if b + 1 < 127 {
                lemma_pow2_strictly_increases((b + 1) as nat, 127);
            }
        }
        w = w * 2;
        b = b + 1;
    }
    proof {
        if b > 0 {
            lemma_pow2_pos((b - 1) as nat);
        }
    }
    b
}

proof fn lemma_half_even_of_parts(p: nat, den: nat, rest: nat, t: nat, high: nat, low: nat)
    requires
        rest < den,
        t > 0,
        p == high * pow2(t) + low,
        low < pow2(t),
    ensures
        half_even(p * den + rest, den * pow2(t)) == (if low < pow2((t - 1) as nat) || (low == pow2(
            (t - 1) as nat,
        ) && rest == 0 && high % 2 == 0) {
            high
        } else {
            high + 1
        }),
{
    let half = pow2((t - 1) as nat);
    let d = den * pow2(t);
    let r = low * den + rest;
    lemma_pow2_unfold(t);
    assert(p * den + rest == high * d + r) by (nonlinear_arith)
        requires
            p == high * pow2(t) + low,
            d == den * pow2(t),
            r == low * den + rest,
    ;
    assert(r < d) by (nonlinear_arith)
        requires
            low + 1 <= pow2(t),
            rest < den,
            r == low * den + rest,
            d == den * pow2(t),
    ;
    lemma_fundamental_div_mod_converse((p * den + rest) as int, d as int, high as int, r as int);
    assert(d == 2 * (den * half)) by (nonlinear_arith)
        requires
            d == den * pow2(t),
            pow2(t) == 2 * half,
    ;
    if low < half {
        assert(r < den * half) by (nonlinear_arith)
            requires
                low + 1 <= half,
                rest < den,
                r == low * den + rest,
        ;
    } else {
        assert(r >= den * half + rest && (low > half ==> r > den * half)) by (nonlinear_arith)
            requires
                low >= half,
                rest < den,
                r == low * den + rest,
        ;
        assert(low == half ==> r == den * half + rest) by (nonlinear_arith)
            requires
                r == low * den + rest,
        ;
    }
}

/// Half-even rounding of `(p + f) / 2^t`, where `f` is `rest / den`.
fn shift_right(
    p: u128,
    sticky: bool,
    t: u32,
    Ghost(den): Ghost<nat>,
    Ghost(rest): Ghost<nat>,
) -> (r: u128)
    requires
        p < pow2(127),
        rest < den,
        sticky == (rest > 0),
        t == 0 ==> !sticky,
    ensures
        r == half_even(p as nat * den + rest, den * pow2(t as nat)),
        r <= p + 1,
{
    if t == 0 {
        proof {
            lemma_powers();
            lemma_half_even_multiple(p as nat, den);
            assert(den * 1 == den);
        }
        return p;
    }
    if t >= 128 {
        proof {
            if t > 128 {
                lemma_pow2_strictly_increases(128, t as nat);
            }
            lemma_pow2_unfold(t as nat);
            lemma_pow2_unfold(128);
            lemma_half_even_of_parts(p as nat, den, rest, t as nat, 0, p as nat);
        }
        return 0;
    }
    proof {
        lemma_pow2_pos(t as nat);
    }
    let w = power_of_two(t);
    let h = power_of_two(t - 1);
    let high = p / w;
    let low = p % w;
    proof {
        lemma_fundamental_div_mod(p as int, w as int);
        assert(w * high == high * w) by (nonlinear_arith);
        lemma_half_even_of_parts(p as nat, den, rest, t as nat, high as nat, low as nat);
        lemma_div_nonincreasing(p as int, w as int);
        lemma_powers();
    }
    if low < h || (low == h && !sticky && high % 2 == 0) {
        high
    } else {
        high + 1
    }
}

/// Rounds `(p + f) * 2^k`, where `f` is `rest / den`.
pub(crate) fn round_scaled(
    p: u128,
    sticky: bool,
    k: u32,
    Ghost(den): Ghost<nat>,
    Ghost(rest): Ghost<nat>,
) -> (r: Binary64)
    requires
        p < pow2(127),
        rest < den,
        sticky == (rest > 0),
        sticky ==> pow2(53) <= p,
        k <= 4000,
    ensures
        r@ == round((p as nat * den + rest) * pow2(k as nat), den),
        r.well_formed(),
        p > 0 && k >= 53 ==> k <= r.exponent + 52 && pow2((r.exponent + 52 - k) as nat) <= p < pow2(
            (r.exponent + 53 - k) as nat,
        ),
        r.exponent <= k + 74,
{
    if p == 0 {
        proof {
            lemma_round_zero(den);
            lemma_pow2_pos(53);
            assert((0nat * den + 0) * pow2(k as nat) == 0) by (nonlinear_arith);
            assert(0nat * pow2(0) == 0);
        }
        return Binary64 { mantissa: 0, exponent: 0 };
    }
    let b = bit_length(p);
    let s: u32 = if b + k > 53 { b + k - 53 } else { 0 };
    let ghost x = (p as nat * den + rest) * pow2(k as nat);
    proof {
        lemma_excess_of_bits(p as nat, den, rest, b as nat, k as nat, s as nat);
        lemma_round_at(x, den, s as nat);
    }
    if s > k {
        let t = s - k;
        let m = shift_right(p, sticky, t, Ghost(den), Ghost(rest));
        proof {
            lemma_pow2_adds(t as nat, k as nat);
            lemma_pow2_pos(k as nat);
            lemma_pow2_pos(t as nat);
            let d = den * pow2(t as nat);
            assert(d > 0) by (nonlinear_arith)
                requires
                    den > 0,
                    pow2(t as nat) > 0,
                    d == den * pow2(t as nat),
            ;
            lemma_half_even_scales(p as nat * den + rest, d, pow2(k as nat));
            assert(d * pow2(k as nat) == den * pow2(s as nat)) by (nonlinear_arith)
                requires
                    d == den * pow2(t as nat),
                    pow2(t as nat) * pow2(k as nat) == pow2(s as nat),
            ;
            lemma_mantissa_bound(x, den, s as nat);
            lemma_powers();
        }
        Binary64 { mantissa: m as u64, exponent: s }
    } else {
        let up = k - s;
        proof {
            lemma_powers();
            if sticky {
                if b < 54 {
                    if b < 53 {
                        lemma_pow2_strictly_increases(b as nat, 53);
                    }
                }
                assert(b >= 54);
            }
            assert(!sticky);
            lemma_pow2_adds(up as nat, s as nat);
            lemma_pow2_pos(s as nat);
            lemma_pow2_pos(up as nat);
            let w = pow2(up as nat);
            let m = p as nat * w;
            assert(x == m * (den * pow2(s as nat))) by (nonlinear_arith)
                requires
                    x == (p as nat * den) * pow2(k as nat),
                    m == p as nat * w,
                    w * pow2(s as nat) == pow2(k as nat),
            ;
            assert(den * pow2(s as nat) > 0) by (nonlinear_arith)
                requires
                    den > 0,
                    pow2(s as nat) > 0,
            ;
            lemma_half_even_multiple(m, den * pow2(s as nat));
            lemma_mantissa_bound(x, den, s as nat);
            if up >= 54 {
                lemma_pow2_strictly_increases(53, up as nat);
            }
            assert(w <= m) by (nonlinear_arith)
                requires
                    m == p as nat * w,
                    p >= 1,
            ;
        }
        let w = power_of_two(up);
        Binary64 { mantissa: (p * w) as u64, exponent: s }
    }
}

proof fn lemma_round_zero(den: nat)
    requires
        den > 0,
    ensures
        round(0, den) == 0,
{
    lemma_pow2_pos(53);
    lemma_powers();
    assert(excess(0, den, 0)) by {
        assert(den * pow2(53) > 0) by (nonlinear_arith)
            requires
                den > 0,
                pow2(53) > 0,
        ;
    }
    lemma_round_at(0, den, 0);
    lemma_half_even_multiple(0, den);
}

proof fn lemma_mantissa_bound(num: nat, den: nat, s: nat)
    requires
        den > 0,
        excess(num, den, s),
    ensures
        half_even(num, den * pow2(s)) <= pow2(53),
{
    let d = den * pow2(s);
    lemma_pow2_pos(s);
    assert(d > 0) by (nonlinear_arith)
        requires
            den > 0,
            pow2(s) > 0,
            d == den * pow2(s),
    ;
    lemma_pow2_adds(53, s);
    assert(pow2(53) * d == den * pow2(s + 53)) by (nonlinear_arith)
        requires
            d == den * pow2(s),
            pow2(53) * pow2(s) == pow2(s + 53),
    ;
    lemma_half_even_monotone(num, pow2(53) * d, d);
    lemma_half_even_multiple(pow2(53), d);
}

proof fn lemma_excess_of_bits(p: nat, den: nat, rest: nat, b: nat, k: nat, s: nat)
    requires
        rest < den,
        p < pow2(b),
        b > 0,
        pow2((b - 1) as nat) <= p,
        s == (if b + k > 53 { b + k - 53 } else { 0 }),
    ensures
        excess((p * den + rest) * pow2(k), den, s),
{
    let x = (p * den + rest) * pow2(k);
    lemma_pow2_adds(b, k);
    lemma_pow2_pos(k);
    assert(x < den * pow2(b + k)) by (nonlinear_arith)
        requires
            x == (p * den + rest) * pow2(k),
            p + 1 <= pow2(b),
            rest < den,
            pow2(b) * pow2(k) == pow2(b + k),
            pow2(k) > 0,
    ;
    if s == 0 {
        if b + k < 53 {
            lemma_pow2_strictly_increases(b + k, 53);
        }
        assert(den * pow2(b + k) <= den * pow2(53)) by (nonlinear_arith)
            requires
                pow2(b + k) <= pow2(53),
        ;
    } else {
        lemma_pow2_adds((b - 1) as nat, k);
        assert(den * pow2((b + k - 1) as nat) <= x) by (nonlinear_arith)
            requires
                x == (p * den + rest) * pow2(k),
                pow2((b - 1) as nat) <= p,
                pow2((b - 1) as nat) * pow2(k) == pow2((b + k - 1) as nat),
        ;
    }
}

/// Rounds `p / 2^j`.
fn round_fraction(p: u128, j: u32) -> (r: Binary64)
    requires
        p < pow2(127),
        0 < j <= 4000,
    ensures
        r@ == round(p as nat, pow2(j as nat)),
        r.well_formed(),
        r.exponent <= 74,
{
    let b = bit_length(p);
    let s: u32 = if b > j + 53 { b - j - 53 } else { 0 };
    let t = s + j;
    let m = shift_right(p, false, t, Ghost(1), Ghost(0));
    proof {
        lemma_powers();
        lemma_pow2_adds(j as nat, s as nat);
        lemma_pow2_adds(j as nat, (s + 53) as nat);
        lemma_pow2_adds(j as nat, (s + 52) as nat);
        if b < j + s + 53 {
            lemma_pow2_strictly_increases(b as nat, (j + s + 53) as nat);
        }
        lemma_pow2_pos(j as nat);
        lemma_round_at(p as nat, pow2(j as nat), s as nat);
        lemma_mantissa_bound(p as nat, pow2(j as nat), s as nat);
    }
    Binary64 { mantissa: m as u64, exponent: s }
}

impl Binary64 {
    /// The number of seconds in a duration.
    pub(crate) fn from_parts(secs: u64, nanos: u32) -> (r: Binary64)
        requires
            nanos < NANOS_PER_SEC,
        ensures
            r@ == seconds(secs as nat, nanos as nat),
            r.well_formed(),
            r.exponent_at_most(1160),
    {
        proof {
            lemma_powers();
            assert((secs as nat * 1 + 0) * pow2(1074) == secs as nat * unit());
        }
        let a = round_scaled(secs as u128, false, 1074, Ghost(1), Ghost(0));
        let w = power_of_two(90);
        proof {
            lemma2_to64_rest();
            lemma_pow2_adds(30, 60);
            lemma2_to64();
            assert(nanos * w < pow2(30) * w) by (nonlinear_arith)
                requires
                    nanos < pow2(30),
                    w > 0,
            ;
            lemma_pow2_adds(30, 90);
            lemma_pow2_strictly_increases(120, 127);
        }
        let scaled = nanos as u128 * w;
        let p = scaled / 1_000_000_000;
        let rest = scaled % 1_000_000_000;
        proof {
            if nanos > 0 {
                assert(scaled >= w) by (nonlinear_arith)
                    requires
                        nanos >= 1,
                        scaled == nanos * w,
                ;
            }
            lemma_pow2_adds(90, 984);
            assert((p as nat * NANOS_PER_SEC as nat + rest as nat) * pow2(984) == nanos as nat
                * unit()) by (nonlinear_arith)
                requires
                    p as nat * NANOS_PER_SEC as nat + rest as nat == nanos as nat * w as nat,
                    w as nat * pow2(984) == unit(),
            ;
        }
        let b = round_scaled(p, rest > 0, 984, Ghost(NANOS_PER_SEC as nat), Ghost(rest as nat));
        if secs == 0 {
            proof {
                assert(0nat * unit() == 0);
                lemma_round_zero(1);
                lemma_round_exact(b.mantissa as nat, b.exponent as nat);
            }
            return b;
        }
        if nanos == 0 {
            proof {
                lemma_round_zero(NANOS_PER_SEC as nat);
                lemma_round_exact(a.mantissa as nat, a.exponent as nat);
            }
            return a;
        }
        proof {
            lemma_pow2_below((a.exponent + 52 - 1074) as nat, 64, secs as nat);
            assert(p < pow2(90)) by {
                assert(scaled < 1_000_000_000 * w) by (nonlinear_arith)
                    requires
                        scaled == nanos * w,
                        nanos < 1_000_000_000,
                        w > 0,
                ;
            }
            lemma_pow2_below((b.exponent + 52 - 984) as nat, 90, p as nat);
            let s = secs as nat;
            lemma_round_exact(1, 1074);
            lemma_round_exact(1, 1138);
            lemma_pow2_adds(64, 1074);
            assert(unit() <= s * unit() <= pow2(64) * unit()) by (nonlinear_arith)
                requires
                    1 <= s <= pow2(64),
            ;
            lemma_round_monotone(1 * pow2(1074), s * unit(), 1);
            lemma_round_monotone(s * unit(), 1 * pow2(1138), 1);
        }
        plus_fraction(a, b)
    }

    pub closed spec fn exponent_at_most(self, limit: int) -> bool {
        self.exponent <= limit
    }
}

proof fn lemma_pow2_below(a: nat, b: nat, n: nat)
    requires
        pow2(a) <= n < pow2(b),
    ensures
        a < b,
{
    if b < a {
        lemma_pow2_strictly_increases(b, a);
    }
}

/// Adds a fraction of a second to a number of whole seconds.
fn plus_fraction(a: Binary64, b: Binary64) -> (r: Binary64)
    requires
        a.well_formed(),
        b.well_formed(),
        1012 <= a.exponent <= 1085,
        962 <= b.exponent <= 1021,
        unit() <= a@ <= pow2(64) * unit(),
    ensures
        r@ == sum(a@, b@),
        r.well_formed(),
        r.exponent_at_most(1160),
{
    let ghost base = pow2(1012);
    let up = power_of_two(a.exponent - 1012);
    proof {
        lemma_powers();
        lemma_pow2_pos(1012);
        lemma_pow2_adds((a.exponent - 1012) as nat, 1012);
        lemma_pow2_adds(1012, 62);
        lemma_pow2_adds(64, 62);
        let pa = a.mantissa as nat * up as nat;
        assert(a@ == pa * base) by (nonlinear_arith)
            requires
                a@ == a.mantissa as nat * pow2(a.exponent as nat),
                pa == a.mantissa as nat * up as nat,
                up as nat * base == pow2(a.exponent as nat),
        ;
        assert(pow2(62) <= pa <= pow2(126)) by (nonlinear_arith)
            requires
                base > 0,
                unit() == base * pow2(62),
                unit() <= pa * base,
                pa * base <= pow2(64) * unit(),
                pow2(64) * pow2(62) == pow2(126),
        ;
        lemma2_to64_rest();
        lemma_pow2_unfold(127);
    }
    let pa = a.mantissa as u128 * up;
    if b.exponent >= 1012 {
        let lift = power_of_two(b.exponent - 1012);
        proof {
            lemma_pow2_adds((b.exponent - 1012) as nat, 1012);
            let pb = b.mantissa as nat * lift as nat;
            assert(b@ == pb * base) by (nonlinear_arith)
                requires
                    b@ == b.mantissa as nat * pow2(b.exponent as nat),
                    pb == b.mantissa as nat * lift as nat,
                    lift as nat * base == pow2(b.exponent as nat),
            ;
            lemma2_to64();
            if b.exponent < 1021 {
                lemma_pow2_strictly_increases((b.exponent - 1012) as nat, 9);
            }
            lemma_mul_upper_bound(b.mantissa as int, pow2(53) as int, lift as int, pow2(9) as int);
            lemma_pow2_adds(53, 9);
            assert((pa as nat + pb) * base == a@ + b@) by (nonlinear_arith)
                requires
                    a@ == pa as nat * base,
                    b@ == pb * base,
            ;
        }
        let pb = b.mantissa as u128 * lift;
        proof {
            assert(((pa + pb) as nat * 1 + 0) * base == a@ + b@);
        }
        round_scaled(pa + pb, false, 1012, Ghost(1), Ghost(0))
    } else {
        let den = power_of_two(1012 - b.exponent);
        proof {
            lemma_pow2_pos((1012 - b.exponent) as nat);
        }
        let pb = b.mantissa as u128 / den;
        let rest = b.mantissa as u128 % den;
        proof {
            lemma_fundamental_div_mod(b.mantissa as int, den as int);
            lemma_div_nonincreasing(b.mantissa as int, den as int);
            lemma_pow2_adds(b.exponent as nat, (1012 - b.exponent) as nat);
            let d = den as nat;
            assert(((pa as nat + pb as nat) * d + rest as nat) * base == (a@ + b@) * d)
                by (nonlinear_arith)
                requires
                    a@ == pa as nat * base,
                    b@ == b.mantissa as nat * pow2(b.exponent as nat),
                    b.mantissa as nat == d * pb as nat + rest as nat,
                    pow2(b.exponent as nat) * d == base,
            ;
            lemma_round_scales(a@ + b@, 1, d);
            assert(1 * d == d);
        }
        round_scaled(pa + pb, rest > 0, 1012, Ghost(den as nat), Ghost(rest as nat))
    }
}

impl Binary64 {
    pub(crate) fn is_zero(&self) -> (r: bool)
        ensures
            r == (self@ == 0),
    {
        proof {
            lemma_pow2_pos(self.exponent as nat);
            assert(self.mantissa as nat * pow2(self.exponent as nat) == 0 <==> self.mantissa == 0)
                by (nonlinear_arith)
                requires
                    pow2(self.exponent as nat) > 0,
            ;
        }
        self.mantissa == 0
    }

    /// The product of two numbers.
    pub(crate) fn times(self, other: Binary64) -> (r: Binary64)
        requires
            self.well_formed(),
            other.well_formed(),
            self.exponent_at_most(1160),
            other.exponent_at_most(2045),
        ensures
            r@ == product(self@, other@),
            r.well_formed(),
    {
        let ghost m = self.mantissa as nat;
        let ghost n = other.mantissa as nat;
        let ghost e = (self.exponent + other.exponent) as nat;
        proof {
            lemma_powers();
            lemma_pow2_adds(53, 53);
            lemma_pow2_strictly_increases(106, 127);
            lemma_mul_upper_bound(m as int, pow2(53) as int, n as int, pow2(53) as int);
            lemma_pow2_adds(self.exponent as nat, other.exponent as nat);
            lemma_pow2_pos(e);
            assert(self@ * other@ == (m * n) * pow2(e)) by (nonlinear_arith)
                requires
                    self@ == m * pow2(self.exponent as nat),
                    other@ == n * pow2(other.exponent as nat),
                    pow2(self.exponent as nat) * pow2(other.exponent as nat) == pow2(e),
            ;
        }
        let p = self.mantissa as u128 * other.mantissa as u128;
        if self.exponent + other.exponent >= 1074 {
            let k = self.exponent + other.exponent - 1074;
            proof {
                lemma_pow2_adds(k as nat, 1074);
                let x = (p as nat * 1 + 0) * pow2(k as nat);
                assert(self@ * other@ == x * unit()) by (nonlinear_arith)
                    requires
                        self@ * other@ == p as nat * pow2(e),
                        x == p as nat * pow2(k as nat),
                        pow2(k as nat) * unit() == pow2(e),
                ;
                lemma_pow2_pos(1074);
                lemma_round_scales(x, 1, unit());
                assert(1 * unit() == unit());
            }
            round_scaled(p, false, k, Ghost(1), Ghost(0))
        } else {
            let j = 1074 - self.exponent - other.exponent;
            proof {
                lemma_pow2_adds(j as nat, e);
                lemma_pow2_pos(j as nat);
                lemma_round_scales(p as nat, pow2(j as nat), pow2(e));
            }
            round_fraction(p, j)
        }
    }

    /// The nearest whole number of nanoseconds in this number of seconds; `None` from
    /// `2^64` seconds on.
    pub(crate) fn to_nanos(self) -> (r: Option<u128>)
        requires
            self.well_formed(),
        ensures
            match r {
                Some(n) => self@ < pow2(64) * unit() && n == nanoseconds(self@) && n < pow2(64)
                    * NANOS_PER_SEC,
                None => self@ >= pow2(64) * unit(),
            },
    {
        proof {
            lemma_powers();
        }
        let b = bit_length(self.mantissa as u128);
        let ghost e = self.exponent as nat;
        let ghost m = self.mantissa as nat;
        proof {
            lemma_pow2_adds(64, 1074);
            lemma_pow2_adds(b as nat, e);
            lemma_pow2_pos(e);
        }
        if b > 0 && b + self.exponent > 1138 {
            proof {
                lemma_pow2_adds((b - 1) as nat, e);
                if b - 1 + e > 1138 {
                    lemma_pow2_strictly_increases(1138, (b - 1 + e) as nat);
                }
                lemma_mul_inequality(pow2((b - 1) as nat) as int, m as int, pow2(e) as int);
            }
            return None;
        }
        proof {
            if b == 0 {
                assert(m * pow2(e) == 0) by (nonlinear_arith)
                    requires
                        m == 0,
                ;
                lemma_pow2_pos(1138);
            } else {
                assert(m * pow2(e) < pow2(b as nat) * pow2(e)) by (nonlinear_arith)
                    requires
                        m < pow2(b as nat),
                        pow2(e) > 0,
                ;
                if b + e < 1138 {
                    lemma_pow2_strictly_increases((b + e) as nat, 1138);
                }
            }
        }
        let p = self.mantissa as u128 * 1_000_000_000;
        if b == 0 {
            proof {
                lemma_half_even_multiple(0, unit());
                lemma_pow2_pos(1074);
            }
            Some(0)
        } else if self.exponent >= 1074 {
            let w = power_of_two(self.exponent - 1074);
            proof {
                lemma_pow2_adds((e - 1074) as nat, 1074);
                lemma_pow2_pos(1074);
                let whole = m * w as nat;
                assert(self@ == whole * unit()) by (nonlinear_arith)
                    requires
                        self@ == m * pow2(e),
                        whole == m * w as nat,
                        w as nat * unit() == pow2(e),
                ;
                assert(whole < pow2(64)) by (nonlinear_arith)
                    requires
                        whole * unit() < pow2(64) * unit(),
                ;
                assert(p as nat * w as nat == whole * 1_000_000_000) by (nonlinear_arith)
                    requires
                        p as nat == m * 1_000_000_000,
                        whole == m * w as nat,
                ;
                assert(self@ * 1_000_000_000 == (whole * 1_000_000_000) * unit())
                    by (nonlinear_arith)
                    requires
                        self@ == whole * unit(),
                ;
                lemma_half_even_multiple(whole * 1_000_000_000, unit());
            }
            Some(p * w)
        } else {
            let t = 1074 - self.exponent;
            let n = shift_right(p, false, t, Ghost(1), Ghost(0));
            proof {
                lemma_pow2_adds(t as nat, e);
                lemma_pow2_pos(t as nat);
                lemma_half_even_scales(p as nat, pow2(t as nat), pow2(e));
                assert(self@ * 1_000_000_000 == p as nat * pow2(e)) by (nonlinear_arith)
                    requires
                        self@ == m * pow2(e),
                        p as nat == m * 1_000_000_000,
                ;
            }
            Some(n)
        }
    }
}

/// A factor to multiply a duration by: any number of IEEE 754 binary64.
#[derive(Clone, Copy, Debug, PartialEq, Eq, Structural)]
pub struct Multiplier {
    /// The bit pattern: sign, eleven digits of exponent, 52 digits of significand.
    pub bits: u64,
}

impl Multiplier {
    /// The exponent, as the bit pattern holds it.
    pub open spec fn biased_exponent(self) -> nat {
        (self.bits as nat / 0x10_0000_0000_0000) % 0x800
    }

    /// The digits of the significand that the bit pattern holds.
    pub open spec fn fraction(self) -> nat {
        self.bits as nat % 0x10_0000_0000_0000
    }

    /// The sign bit is set.
    pub open spec fn negative(self) -> bool {
        self.bits >= 0x8000_0000_0000_0000
    }

    /// Neither an infinity nor a NaN.
    pub open spec fn finite(self) -> bool {
        self.biased_exponent() != 0x7ff
    }

    /// The absolute value of a finite factor, in units of `2^-1074`.
    pub open spec fn magnitude(self) -> nat {
        if self.biased_exponent() == 0 {
            self.fraction()
        } else {
            (0x10_0000_0000_0000 + self.fraction()) * pow2((self.biased_exponent() - 1) as nat)
        }
    }

    pub(crate) fn is_negative(&self) -> (r: bool)
        ensures
            r == self.negative(),
    {
        self.bits >= 0x8000_0000_0000_0000
    }

    /// The absolute value of a finite factor.
    pub(crate) fn decode(&self) -> (r: Option<Binary64>)
        ensures
            match r {
                Some(x) => self.finite() && x@ == self.magnitude() && x.well_formed()
                    && x.exponent_at_most(2045),
                None => !self.finite(),
            },
    {
        let exponent: u64 = (self.bits / 0x10_0000_0000_0000) % 0x800;
        let fraction: u64 = self.bits % 0x10_0000_0000_0000;
        proof {
            lemma_powers();
        }
        if exponent == 0x7ff {
            None
        } else if exponent == 0 {
            proof {
                assert(fraction as nat * 1 == fraction);
            }
            Some(Binary64 { mantissa: fraction, exponent: 0 })
        } else {
            Some(
                Binary64 {
                    mantissa: 0x10_0000_0000_0000 + fraction,
                    exponent: (exponent - 1) as u32,
                },
            )
        }
    }
}

}
