use crate::binary64::{nanoseconds, round_scaled, Binary64, NANOS_PER_SEC};
use crate::decimal::{
    agrees, all_digits, decimal, decimal_text, digits_value, far, has_minus, is_digit, is_special,
    lemma_digits_value_bound, lemma_digits_value_concat, lemma_digits_value_lower,
    lemma_first_of, lemma_zeros_value, read_decimal, read_special, unsigned, Decimal,
};
use crate::rounding::{
    half_even, lemma_excess_exists, lemma_half_even_multiple, lemma_powers, lemma_round_exact,
    lemma_round_monotone, lemma_round_scales, round, unit,
};
use crate::time::{from_nanos, nanos_of};
use std::time::Duration;
use vstd::arithmetic::mul::*;
use vstd::arithmetic::power::*;
use vstd::arithmetic::power2::*;
use vstd::prelude::*;

verus! {

/// What the text of a Retry-After header says.
pub enum Reading {
    /// It is no number.
    NotANumber,
    /// It is a number, but no length of time: negative, infinite, or `2^64` seconds and more.
    OutOfRange,
    /// So many nanoseconds.
    Wait(nat),
}

/// The binary64 number nearest to a decimal number, in units of `2^-1074`.
pub open spec fn nearest(number: Decimal) -> nat {
    round(number.numerator() * unit(), number.denominator())
}

/// Reads a number as a binary64 number of seconds.
pub open spec fn reading_of_number(number: Decimal, negative: bool) -> Reading {
    let x = nearest(number);
    if x >= pow2(64) * unit() || (negative && x > 0) {
        Reading::OutOfRange
    } else {
        Reading::Wait(nanoseconds(x))
    }
}

/// Reads a text as a binary64 number of seconds: a sign or none, then a decimal number or
/// the word for an infinity or a NaN.
pub open spec fn reading(text: Seq<u8>) -> Reading {
    let t = unsigned(text);
    match decimal(t) {
        Some(number) => reading_of_number(number, has_minus(text)),
        None => if is_special(t) {
            Reading::OutOfRange
        } else {
            Reading::NotANumber
        },
    }
}

/// The outcome of reading the text of a Retry-After header.
pub enum RetryAfter {
    /// It is no number.
    NotANumber,
    /// It is a number, but no length of time: negative, infinite, or `2^64` seconds and more.
    OutOfRange,
    /// The time to wait.
    Wait(Duration),
}

impl RetryAfter {
    /// This is the result for a text of this reading.
    pub open spec fn is(self, reading: Reading) -> bool {
        match (self, reading) {
            (RetryAfter::NotANumber, Reading::NotANumber) => true,
            (RetryAfter::OutOfRange, Reading::OutOfRange) => true,
            (RetryAfter::Wait(d), Reading::Wait(n)) => nanos_of(d) == n,
            _ => false,
        }
    }
}

/// Doubles the number behind the decimal point; returns what is carried in front of it.
fn double(f: &mut Vec<u8>) -> (carry: u8)
    requires
        all_digits(old(f)@),
    ensures
        all_digits(final(f)@),
        final(f)@.len() == old(f)@.len(),
        carry <= 1,
        digits_value(final(f)@) + carry * pow(10, old(f)@.len()) == 2 * digits_value(old(f)@),
{
    let ghost before = f@;
    let n = f.len();
    let mut carry: u8 = 0;
    let mut i = n;
    proof {
        reveal(pow);
        assert(f@.skip(n as int) =~= Seq::<u8>::empty());
        assert(before.skip(n as int) =~= Seq::<u8>::empty());
        assert(carry * pow(10, 0) == 0);
    }
    while i > 0
        invariant
            i <= n == f@.len() == before.len(),
            all_digits(before),
            all_digits(f@),
            carry <= 1,
            forall|j: int| 0 <= j < i ==> f@[j] == before[j],
            digits_value(f@.skip(i as int)) + carry * pow(10, (n - i) as nat) == 2 * digits_value(
                before.skip(i as int),
            ),
        decreases i,
    {
        let ghost rest = f@.skip(i as int);
        let ghost old_rest = before.skip(i as int);
        let ghost old_carry = carry;
        i = i - 1;
        assert(is_digit(before[i as int]));
        let d: u8 = f[i] - 48;
        let v: u8 = 2 * d + carry;
        let low: u8 = if v < 10 {
            v
        } else {
            v - 10
        };
        f.set(i, 48 + low);
        carry = if v < 10 {
            0
        } else {
            1
        };
        proof {
            let k = (n - i - 1) as nat;
            let w = pow(10, k);
            assert(f@.skip(i as int) =~= seq![(48 + low) as u8] + rest);
            assert(before.skip(i as int) =~= seq![before[i as int]] + old_rest);
            lemma_digits_value_concat(seq![(48 + low) as u8], rest);
            lemma_digits_value_concat(seq![before[i as int]], old_rest);
            lemma_single((48 + low) as u8);
            lemma_single(before[i as int]);
            reveal(pow);
            assert(pow(10, (n - i) as nat) == 10 * w);
            assert(low * w + digits_value(rest) + carry * (10 * w) == 2 * (d * w + digits_value(
                old_rest,
            ))) by (nonlinear_arith)
                requires
                    digits_value(rest) + old_carry * w == 2 * digits_value(old_rest),
                    low + carry * 10 == 2 * d + old_carry,
            ;
        }
    }
    proof {
        assert(f@.skip(0) =~= f@);
        assert(before.skip(0) =~= before);
    }
    carry
}

proof fn lemma_single(b: u8)
    requires
        is_digit(b),
    ensures
        digits_value(seq![b]) == b - 48,
{
    assert(seq![b].drop_last() =~= Seq::<u8>::empty());
    assert(digits_value(Seq::<u8>::empty()) == 0);
}

/// Whether all digits are zero.
fn all_zero(f: &Vec<u8>) -> (r: bool)
    requires
        all_digits(f@),
    ensures
        r == (digits_value(f@) == 0),
{
    let mut i: usize = 0;
    while i < f.len()
        invariant
            i <= f@.len(),
            all_digits(f@),
            forall|j: int| 0 <= j < i ==> f@[j] == 48,
        decreases f@.len() - i,
    {
        if f[i] != 48 {
            proof {
                lemma_nonzero_value(f@, i as int);
            }
            return false;
        }
        i = i + 1;
    }
    proof {
        lemma_zeros_value(f@);
    }
    true
}

proof fn lemma_nonzero_value(s: Seq<u8>, i: int)
    requires
        all_digits(s),
        0 <= i < s.len(),
        s[i] != 48,
    ensures
        digits_value(s) > 0,
    decreases s.len(),
{
    assert(is_digit(s[s.len() - 1]));
    if i < s.len() - 1 {
        let t = s.drop_last();
        assert forall|j: int| 0 <= j < t.len() implies is_digit(#[trigger] t[j]) by {
            assert(t[j] == s[j]);
        }
        lemma_nonzero_value(t, i);
    } else {
        assert(is_digit(s[i]));
    }
}

/// The number in front of the decimal point and the digits behind it, for a number whose
/// first `zeros` digits are zero and whose point stands `shift` digits further on.
fn split(digits: &Vec<u8>, zeros: usize, shift: i32) -> (r: (u128, Vec<u8>))
    requires
        all_digits(digits@),
        zeros <= digits@.len(),
        forall|i: int| 0 <= i < zeros ==> digits@[i] == 48,
        -400 <= shift <= 20,
    ensures
        all_digits(r.1@),
        ({
            let number = Decimal { digits: digits@, point: zeros + shift };
            &&& number.denominator() == pow(10, r.1@.len())
            &&& number.numerator() == r.0 * pow(10, r.1@.len()) + digits_value(r.1@)
        }),
{
    let ghost number = Decimal { digits: digits@, point: zeros + shift };
    let ghost kept = digits@.skip(zeros as int);
    let mut row: Vec<u8> = Vec::new();
    let mut i: i32 = shift;
    while i < 0
        invariant
            shift <= i,
            i <= 0 || i == shift,
            row@.len() == i - shift,
            forall|j: int| 0 <= j < row@.len() ==> row@[j] == 48,
        decreases -i,
    {
        row.push(48);
        i = i + 1;
    }
    let ghost lead = row@;
    let mut k: usize = zeros;
    while k < digits.len()
        invariant
            zeros <= k <= digits@.len(),
            kept == digits@.skip(zeros as int),
            row@ == lead + kept.take(k - zeros),
        decreases digits@.len() - k,
    {
        row.push(digits[k]);
        k = k + 1;
        proof {
            assert(row@ =~= lead + kept.take(k - zeros));
        }
    }
    proof {
        assert(row@ =~= lead + kept);
    }
    let front: usize = if shift < 0 {
        0
    } else {
        shift as usize
    };
    let ghost before = row@;
    while row.len() < front
        invariant
            before.len() <= row@.len(),
            row@.len() <= front || row@.len() == before.len(),
            row@.take(before.len() as int) == before,
            forall|j: int| before.len() <= j < row@.len() ==> row@[j] == 48,
        decreases front - row@.len(),
    {
        row.push(48);
        proof {
            assert(row@.take(before.len() as int) =~= before);
        }
    }
    let ghost tail = row@.skip(before.len() as int);
    let ghost whole = row@;
    proof {
        reveal(pow);
        assert(digits@ =~= digits@.take(zeros as int) + kept);
        lemma_digits_value_concat(digits@.take(zeros as int), kept);
        lemma_zeros_value(digits@.take(zeros as int));
        lemma_digits_value_concat(lead, kept);
        lemma_zeros_value(lead);
        assert(whole =~= before + tail);
        lemma_digits_value_concat(before, tail);
        lemma_zeros_value(tail);
        assert(digits_value(before) == digits_value(digits@));
        assert(digits_value(whole) == digits_value(digits@) * pow(10, tail.len()));
        assert forall|j: int| 0 <= j < whole.len() implies is_digit(#[trigger] whole[j]) by {
            if j < lead.len() {
                assert(whole[j] == before[j] == lead[j]);
            } else if j < before.len() {
                assert(whole[j] == before[j] == kept[j - lead.len()]);
                assert(kept[j - lead.len()] == digits@[j - lead.len() + zeros]);
            }
        }
        assert(all_digits(whole));
    }
    let mut front_value: u128 = 0;
    let mut m: usize = 0;
    while m < front
        invariant
            m <= front <= 20,
            front <= row@.len(),
            row@ == whole,
            all_digits(whole),
            front_value == digits_value(whole.take(m as int)),
        decreases front - m,
    {
        proof {
            let next = whole.take(m + 1);
            assert(next.drop_last() =~= whole.take(m as int));
            lemma_digits_value_bound(whole.take(m as int));
            lemma_ten_20();
            if m < 20 {
                lemma_pow_increases(10, m as nat, 20);
            }
            assert(is_digit(whole[m as int]));
        }
        front_value = front_value * 10 + (row[m] - 48) as u128;
        m = m + 1;
    }
    let mut back: Vec<u8> = Vec::new();
    while m < row.len()
        invariant
            front <= m <= row@.len(),
            row@ == whole,
            back@ == whole.subrange(front as int, m as int),
        decreases row@.len() - m,
    {
        back.push(row[m]);
        m = m + 1;
    }
    proof {
        assert(back@ =~= whole.skip(front as int));
        assert(whole =~= whole.take(front as int) + back@);
        lemma_digits_value_concat(whole.take(front as int), back@);
        assert forall|j: int| 0 <= j < back@.len() implies is_digit(#[trigger] back@[j]) by {
            assert(back@[j] == whole[j + front]);
        }
        reveal(pow);
        lemma_pow_positive(10, tail.len());
        let scale = number.point - number.digits.len();
        assert(scale == shift - kept.len());
        if scale < 0 {
            assert(tail.len() == 0);
            assert(back@.len() == -scale);
        } else {
            assert(tail.len() == scale);
            assert(back@.len() == 0);
        }
        lemma_pow_positive(10, back@.len());
    }
    (front_value, back)
}

proof fn lemma_ten_20()
    ensures
        pow(10, 20) == 100_000_000_000_000_000_000,
{
    reveal_with_fuel(pow, 21);
}

/// A number of `2^64` or more is rounded to one of `2^64` or more.
proof fn lemma_too_large(num: nat, den: nat)
    requires
        den > 0,
        num >= pow2(64) * den,
    ensures
        round(num * unit(), den) >= pow2(64) * unit(),
{
    let u = unit();
    lemma_powers();
    lemma_pow2_adds(64, 1074);
    lemma_round_exact(1, 1138);
    lemma_round_scales(pow2(64) * u, 1, den);
    assert(1 * den == den);
    assert((pow2(64) * u) * den <= num * u) by (nonlinear_arith)
        requires
            num >= pow2(64) * den,
    ;
    lemma_round_monotone((pow2(64) * u) * den, num * u, den);
}

/// Rounding gives zero up to half a unit.
proof fn lemma_round_to_zero(num: nat, den: nat)
    requires
        den > 0,
    ensures
        round(num, den) == 0 <==> 2 * num <= den,
{
    let bits = lemma_excess_exists(num, den);
    lemma_powers();
    if bits == 0 {
        assert(den * 1 == den);
        let h = half_even(num, den);
        assert(h * 1 == h) by (nonlinear_arith);
        vstd::arithmetic::div_mod::lemma_fundamental_div_mod(num as int, den as int);
        let q = num / den;
        if q >= 1 {
            assert(den * q >= den) by (nonlinear_arith)
                requires
                    q >= 1,
            ;
        } else {
            assert(den * q == 0) by (nonlinear_arith)
                requires
                    q == 0,
            ;
        }
    } else {
        lemma_pow2_pos((bits + 52) as nat);
        assert(den <= num) by (nonlinear_arith)
            requires
                den * pow2((bits + 52) as nat) <= num,
                pow2((bits + 52) as nat) >= 1,
        ;
        lemma_round_exact(1, 0);
        lemma_round_scales(1, 1, den);
        assert(1 * pow2(0) == 1);
        assert(1 * den == den);
        lemma_round_monotone(den, num, den);
    }
}

/// Less than `2^-950` seconds is no nanosecond.
proof fn lemma_tiny(num: nat, den: nat)
    requires
        den > 0,
        num * pow2(1012) < pow2(62) * den,
    ensures
        nanoseconds(round(num * unit(), den)) == 0,
        round(num * unit(), den) < pow2(64) * unit(),
{
    let u = unit();
    let x = round(num * u, den);
    lemma_powers();
    lemma_pow2_adds(1012, 62);
    lemma_pow2_adds(62, 62);
    assert(num * u <= pow2(124) * den) by (nonlinear_arith)
        requires
            num * pow2(1012) < pow2(62) * den,
            u == pow2(1012) * pow2(62),
            pow2(62) * pow2(62) == pow2(124),
    ;
    lemma_round_exact(1, 124);
    lemma_round_scales(pow2(124), 1, den);
    assert(1 * den == den);
    assert(1 * pow2(124) == pow2(124));
    lemma_round_monotone(num * u, pow2(124) * den, den);
    lemma_pow2_strictly_increases(124, 1074);
    lemma_pow2_adds(64, 1074);
    lemma_pow2_strictly_increases(1074, 1138);
    lemma2_to64();
    lemma_pow2_adds(124, 30);
    lemma_pow2_unfold(1074);
    lemma_pow2_strictly_increases(154, 1073);
    let y = x * NANOS_PER_SEC as nat;
    assert(y <= pow2(154)) by (nonlinear_arith)
        requires
            y == x * NANOS_PER_SEC as nat,
            x <= pow2(124),
            NANOS_PER_SEC as nat <= pow2(30),
            pow2(124) * pow2(30) == pow2(154),
    ;
    vstd::arithmetic::div_mod::lemma_fundamental_div_mod_converse(y as int, u as int, 0, y as int);
}

/// The number nearest to `front` and a decimal fraction. Where it is less than `2^-950`,
/// whether `2^1012` times it is still less than one; `digits` are then left at that product.
fn to_binary(front: u64, digits: &mut Vec<u8>) -> (r: Result<Binary64, bool>)
    requires
        all_digits(old(digits)@),
    ensures
        all_digits(final(digits)@),
        ({
            let den = pow(10, old(digits)@.len()) as nat;
            let num = (front * den + digits_value(old(digits)@)) as nat;
            match r {
                Ok(x) => x@ == round(num * unit(), den) && x.well_formed(),
                Err(below) => {
                    &&& num * pow2(1012) < pow2(62) * den
                    &&& final(digits)@.len() == old(digits)@.len()
                    &&& below == (num * pow2(1012) < den)
                    &&& below ==> num * pow2(1012) == digits_value(final(digits)@)
                },
            }
        }),
{
    let ghost n = digits@.len();
    let ghost den = pow(10, n) as nat;
    let ghost num = (front * den + digits_value(digits@)) as nat;
    let mut q: u128 = front as u128;
    let mut shift: u32 = 0;
    proof {
        lemma_powers();
        lemma_pow_positive(10, n);
        assert(num * pow2(0) == num);
    }
    while q < 0x4000_0000_0000_0000 && shift < 1012
        invariant
            all_digits(digits@),
            digits@.len() == n,
            den == pow(10, n),
            den > 0,
            shift <= 1012,
            q < 0x1_0000_0000_0000_0000,
            num * pow2(shift as nat) == q * den + digits_value(digits@),
        decreases 1012 - shift,
    {
        let ghost value = digits_value(digits@);
        let carry = double(digits);
        proof {
            lemma_pow2_unfold((shift + 1) as nat);
            assert(num * (2 * pow2(shift as nat)) == (2 * q + carry) * den + digits_value(digits@))
                by (nonlinear_arith)
                requires
                    num * pow2(shift as nat) == q * den + value,
                    digits_value(digits@) + carry * den == 2 * value,
            ;
        }
        q = 2 * q + carry as u128;
        shift = shift + 1;
    }
    let ghost rest = digits_value(digits@);
    proof {
        lemma_digits_value_bound(digits@);
        lemma2_to64_rest();
    }
    if q < 0x4000_0000_0000_0000 {
        proof {
            assert(num * pow2(1012) < pow2(62) * den) by (nonlinear_arith)
                requires
                    num * pow2(1012) == q * den + rest,
                    q + 1 <= pow2(62),
                    rest < den,
            ;
            if q == 0 {
                assert(q * den == 0) by (nonlinear_arith)
                    requires
                        q == 0,
                ;
            } else {
                assert(q * den + rest >= den) by (nonlinear_arith)
                    requires
                        q >= 1,
                        rest >= 0,
                ;
            }
        }
        Err(q == 0)
    } else {
        let sticky = !all_zero(digits);
        proof {
            lemma_powers();
            lemma_pow2_adds(shift as nat, (1074 - shift) as nat);
            assert(num * unit() == (q as nat * den + rest) * pow2((1074 - shift) as nat))
                by (nonlinear_arith)
                requires
                    num * pow2(shift as nat) == q as nat * den + rest,
                    pow2(shift as nat) * pow2((1074 - shift) as nat) == unit(),
            ;
        }
        Ok(round_scaled(q, sticky, 1074 - shift, Ghost(den), Ghost(rest)))
    }
}

/// Whether `2^63` times a decimal fraction is at most one.
fn is_negligible(digits: &mut Vec<u8>) -> (r: bool)
    requires
        all_digits(old(digits)@),
    ensures
        r == (digits_value(old(digits)@) * pow2(63) <= pow(10, old(digits)@.len())),
{
    let ghost n = digits@.len();
    let ghost den = pow(10, n) as nat;
    let ghost num = digits_value(digits@);
    let mut shift: u32 = 0;
    proof {
        lemma_powers();
        lemma_pow_positive(10, n);
        assert(num * pow2(0) == num);
        lemma_digits_value_bound(digits@);
    }
    while shift < 63
        invariant
            all_digits(digits@),
            digits@.len() == n,
            den == pow(10, n),
            den > 0,
            n == old(digits)@.len(),
            num == digits_value(old(digits)@),
            shift <= 63,
            num * pow2(shift as nat) == digits_value(digits@),
            digits_value(digits@) < den,
        decreases 63 - shift,
    {
        let ghost value = digits_value(digits@);
        let carry = double(digits);
        shift = shift + 1;
        proof {
            lemma_pow2_unfold(shift as nat);
            assert(num * pow2(shift as nat) == carry * den + digits_value(digits@))
                by (nonlinear_arith)
                requires
                    num * pow2((shift - 1) as nat) == value,
                    digits_value(digits@) + carry * den == 2 * value,
                    pow2(shift as nat) == 2 * pow2((shift - 1) as nat),
            ;
            lemma_digits_value_bound(digits@);
            assert(carry * den == (if carry == 0 { 0 } else { den as int })) by (nonlinear_arith)
                requires
                    carry <= 1,
            ;
        }
        if carry == 1 {
            let zero = all_zero(digits);
            proof {
                if shift < 63 {
                    let gap = (63 - shift) as nat;
                    lemma_pow2_adds(shift as nat, gap);
                    lemma_pow2_unfold(gap);
                    lemma_pow2_pos((gap - 1) as nat);
                    assert(num * pow2(63) > den) by (nonlinear_arith)
                        requires
                            num * pow2(shift as nat) >= den,
                            den > 0,
                            pow2(shift as nat) * pow2(gap) == pow2(63),
                            pow2(gap) >= 2,
                    ;
                }
            }
            return shift == 63 && zero;
        }
    }
    true
}

/// More than twenty digits in front of the point, the first not zero.
proof fn lemma_many_digits(number: Decimal, zeros: nat)
    requires
        all_digits(number.digits),
        zeros < number.digits.len(),
        forall|i: int| 0 <= i < zeros ==> number.digits[i] == 48,
        number.digits[zeros as int] != 48,
        number.point - zeros > 20,
    ensures
        number.numerator() >= pow2(64) * number.denominator(),
        number.denominator() > 0,
{
    let kept = number.digits.skip(zeros as int);
    let len = kept.len();
    let value = lemma_leading_zeros(number, zeros);
    lemma_digits_value_lower(kept);
    lemma_powers();
    lemma_ten_20();
    let scale = number.point - number.digits.len();
    let low = pow(10, (len - 1) as nat);
    if scale < 0 {
        let e = (-scale) as nat;
        lemma_pow_positive(10, e);
        lemma_pow_adds(10, 20, e);
        lemma_pow_increases(10, 20 + e, (len - 1) as nat);
        assert(pow2(64) * pow(10, e) <= pow(10, 20) * pow(10, e)) by (nonlinear_arith)
            requires
                pow2(64) <= pow(10, 20),
                pow(10, e) > 0,
        ;
    } else {
        let e = scale as nat;
        lemma_pow_positive(10, e);
        lemma_pow_adds(10, (len - 1) as nat, e);
        lemma_pow_increases(10, 20, (len - 1 + e) as nat);
        assert(low * pow(10, e) <= value * pow(10, e)) by (nonlinear_arith)
            requires
                low <= value,
                pow(10, e) > 0,
        ;
    }
}

/// More than four hundred zeros behind the point.
proof fn lemma_many_zeros(number: Decimal, zeros: nat)
    requires
        all_digits(number.digits),
        zeros <= number.digits.len(),
        forall|i: int| 0 <= i < zeros ==> number.digits[i] == 48,
        number.point - zeros < -400,
    ensures
        nearest(number) == 0,
{
    let kept = number.digits.skip(zeros as int);
    let len = kept.len();
    let value = lemma_leading_zeros(number, zeros);
    lemma_digits_value_bound(kept);
    lemma_ten_400();
    let scale = number.point - number.digits.len();
    let e = (-scale) as nat;
    lemma_pow_adds(10, 400, len);
    lemma_pow_increases(10, 400 + len, e);
    lemma_pow_positive(10, e);
    lemma_pow2_unfold(1075);
    assert(2 * (value * unit()) <= pow(10, e)) by (nonlinear_arith)
        requires
            value < pow(10, len),
            pow(10, 400) >= 2 * unit(),
            pow(10, 400) * pow(10, len) <= pow(10, e),
    ;
    lemma_round_to_zero(value * unit(), number.denominator());
}

proof fn lemma_ten_400()
    ensures
        pow(10, 400) >= pow2(1075),
{
    lemma_eight(400);
    lemma_pow2_strictly_increases(1075, 1200);
}

proof fn lemma_eight(e: nat)
    ensures
        pow(10, e) >= pow2(3 * e),
    decreases e,
{
    reveal(pow);
    lemma2_to64();
    if e > 0 {
        let f = (e - 1) as nat;
        lemma_eight(f);
        lemma_pow2_adds(3, 3 * f);
    }
}

proof fn lemma_leading_zeros(number: Decimal, zeros: nat) -> (value: nat)
    requires
        zeros <= number.digits.len(),
        all_digits(number.digits),
        forall|i: int| 0 <= i < zeros ==> number.digits[i] == 48,
    ensures
        value == digits_value(number.digits),
        value == digits_value(number.digits.skip(zeros as int)),
        all_digits(number.digits.skip(zeros as int)),
{
    let zero = number.digits.take(zeros as int);
    let kept = number.digits.skip(zeros as int);
    assert(number.digits =~= zero + kept);
    lemma_digits_value_concat(zero, kept);
    lemma_zeros_value(zero);
    assert(0 * pow(10, kept.len()) == 0);
    assert forall|i: int| 0 <= i < kept.len() implies is_digit(#[trigger] kept[i]) by {
        assert(kept[i] == number.digits[i + zeros]);
    }
    digits_value(kept)
}

proof fn lemma_zero_wait()
    ensures
        nanoseconds(0) == 0,
        pow2(64) * unit() > 0,
{
    lemma_pow2_pos(1074);
    lemma_pow2_pos(64);
    lemma_half_even_multiple(0, unit());
    assert(pow2(64) * unit() > 0) by (nonlinear_arith)
        requires
            pow2(64) > 0,
            unit() > 0,
    ;
}

/// Reads the number of seconds that `number` is; `point` may stand for its point's place where
/// that is far out.
fn read_number(
    digits: Vec<u8>,
    point: i128,
    negative: bool,
    Ghost(number): Ghost<Decimal>,
) -> (r: RetryAfter)
    requires
        digits@ == number.digits,
        all_digits(digits@),
        agrees(point as int, number.point, far()),
        -0x2000_0000_0000_0000_0000_0000_0000 < point < 0x2000_0000_0000_0000_0000_0000_0000,
    ensures
        r.is(reading_of_number(number, negative)),
{
    let mut zeros: usize = 0;
    while zeros < digits.len() && digits[zeros] == 48
        invariant
            zeros <= digits@.len(),
            forall|i: int| 0 <= i < zeros ==> digits@[i] == 48,
        decreases digits@.len() - zeros,
    {
        zeros = zeros + 1;
    }
    proof {
        lemma_zero_wait();
        lemma_denominator(number);
    }
    if zeros == digits.len() {
        proof {
            lemma_zeros_value(digits@);
            assert(number.numerator() == 0) by {
                let scale = number.point - number.digits.len();
                if scale >= 0 {
                    assert(0 * pow(10, scale as nat) == 0);
                }
            }
            assert(0nat * unit() == 0);
            lemma_round_to_zero(0, number.denominator());
        }
        return RetryAfter::Wait(from_nanos(0));
    }
    let shift: i128 = point - zeros as i128;
    if shift > 20 {
        proof {
            lemma_many_digits(number, zeros as nat);
            lemma_too_large(number.numerator(), number.denominator());
        }
        return RetryAfter::OutOfRange;
    }
    if shift < -400 {
        proof {
            lemma_many_zeros(number, zeros as nat);
        }
        return RetryAfter::Wait(from_nanos(0));
    }
    let (front, back) = split(&digits, zeros, shift as i32);
    let mut rest: Vec<u8> = back;
    let ghost den = number.denominator();
    let ghost num = number.numerator();
    let ghost value = digits_value(rest@);
    assert(number == (Decimal { digits: digits@, point: zeros + shift }));
    if front >= 0x1_0000_0000_0000_0000 {
        proof {
            lemma_powers();
            assert(num >= pow2(64) * den) by (nonlinear_arith)
                requires
                    num == front * den + value,
                    front >= pow2(64),
            ;
            lemma_too_large(num, den);
        }
        return RetryAfter::OutOfRange;
    }
    match to_binary(front as u64, &mut rest) {
        Ok(x) => {
            if negative && !x.is_zero() {
                return RetryAfter::OutOfRange;
            }
            match x.to_nanos() {
                None => RetryAfter::OutOfRange,
                Some(n) => {
                    proof {
                        lemma_powers();
                    }
                    RetryAfter::Wait(from_nanos(n))
                },
            }
        },
        Err(below) => {
            proof {
                lemma_tiny(num, den);
                lemma_round_to_zero(num * unit(), den);
                lemma_pow2_adds(1012, 63);
                lemma_pow2_unfold(1075);
                let left = digits_value(rest@);
                assert(2 * (num * unit()) == (num * pow2(1012)) * pow2(63)) by (nonlinear_arith)
                    requires
                        2 * unit() == pow2(1012) * pow2(63),
                ;
                lemma_powers();
                assert(num * pow2(1012) >= den ==> (num * pow2(1012)) * pow2(63) > den)
                    by (nonlinear_arith)
                    requires
                        den > 0,
                        pow2(63) > 1,
                ;
            }
            if negative && !(below && is_negligible(&mut rest)) {
                RetryAfter::OutOfRange
            } else {
                RetryAfter::Wait(from_nanos(0))
            }
        },
    }
}

proof fn lemma_denominator(number: Decimal)
    ensures
        number.denominator() > 0,
{
    let scale = number.point - number.digits.len();
    if scale < 0 {
        lemma_pow_positive(10, (-scale) as nat);
    }
}

/// Reads the text of a Retry-After header as a number of seconds.
pub fn read_seconds(text: &[u8]) -> (r: RetryAfter)
    ensures
        r.is(reading(text@)),
        match r {
            RetryAfter::NotANumber => reading(text@) is NotANumber,
            RetryAfter::OutOfRange => reading(text@) is OutOfRange,
            RetryAfter::Wait(wait) => reading(text@) == Reading::Wait(nanos_of(wait)),
        },
{
    let len = text.len();
    let signed = len > 0 && (text[0] == 43 || text[0] == 45);
    let negative = len > 0 && text[0] == 45;
    let from: usize = if signed {
        1
    } else {
        0
    };
    proof {
        assert(unsigned(text@) =~= text@.skip(from as int));
    }
    match read_decimal(text, from) {
        Some((digits, point)) => {
            let ghost number = decimal(unsigned(text@))->Some_0;
            read_number(digits, point, negative, Ghost(number))
        },
        None => if read_special(text, from) {
            RetryAfter::OutOfRange
        } else {
            RetryAfter::NotANumber
        },
    }
}

proof fn lemma_decimal_text(n: nat)
    ensures
        all_digits(decimal_text(n)),
        decimal_text(n).len() > 0,
        digits_value(decimal_text(n)) == n,
    decreases n,
{
    let t = decimal_text(n);
    let last = (48 + n % 10) as u8;
    if n < 10 {
        lemma_single(last);
    } else {
        let high = decimal_text(n / 10);
        lemma_decimal_text(n / 10);
        assert(t.drop_last() =~= high);
        assert forall|i: int| 0 <= i < t.len() implies is_digit(#[trigger] t[i]) by {
            if i < high.len() {
                assert(is_digit(high[i]));
            }
        }
    }
}

/// A whole number of seconds is read as just that, up to the `2^53` seconds that binary64
/// counts one by one.
pub proof fn lemma_whole_seconds(n: nat)
    requires
        n <= pow2(53),
    ensures
        reading(decimal_text(n)) == Reading::Wait(n * NANOS_PER_SEC as nat),
{
    let t = decimal_text(n);
    let u = unit();
    lemma_decimal_text(n);
    assert(is_digit(t[0]));
    assert forall|i: int| 0 <= i < t.len() implies t[i] != 101 && t[i] != 69 && t[i] != 46 by {
        assert(is_digit(t[i]));
    }
    let len = t.len() as int;
    lemma_first_of(t, 101, 69, len);
    assert(t.take(len) =~= t);
    lemma_first_of(t, 46, 46, len);
    assert(t + Seq::<u8>::empty() =~= t);
    lemma_pow0(10);
    let number = Decimal { digits: t, point: len };
    assert(n * 1 == n);
    assert(decimal(t) == Some(number));
    assert(number.numerator() == n);
    lemma_powers();
    lemma_pow2_pos(1074);
    lemma_round_exact(n, 1074);
    assert(n * u < pow2(64) * u) by (nonlinear_arith)
        requires
            n < pow2(64),
            u > 0,
    ;
    let g = NANOS_PER_SEC as nat;
    assert((n * u) * g == (n * g) * u) by (nonlinear_arith);
    lemma_half_even_multiple(n * g, u);
}

}
