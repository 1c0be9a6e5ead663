use crate::binary64::NANOS_PER_SEC;
use crate::decimal::{
    all_digits, decimal, decimal_text, digits_value, exponent, first_of, has_minus, is_digit,
    is_special, lemma_first_of, lower_case, mantissa, spells, unsigned, Decimal,
};
use crate::http::{header_fields, retry_after, HttpResponse};
use crate::retry_after::{lemma_whole_seconds, nearest, reading, Reading, RetryAfter};
use crate::rounding::{
    is_nearest, is_nearest_integer, lemma_half_even_is_nearest, lemma_half_even_multiple,
    lemma_powers, lemma_round_exact, lemma_round_is_nearest, lemma_round_scales, unit,
};
use crate::time::nanos_of;
use vstd::arithmetic::power::*;
use vstd::arithmetic::power2::*;
use vstd::prelude::*;

verus! {

/// The bytes are characters from `0` to `9`.
pub open spec fn are_figures(s: Seq<u8>) -> bool {
    forall|i: int| 0 <= i < s.len() ==> 48 <= #[trigger] s[i] <= 57
}

/// Nothing, `+` or `-`.
pub open spec fn is_sign(s: Seq<u8>) -> bool {
    s == Seq::<u8>::empty() || s == seq![43u8] || s == seq![45u8]
}

/// How a number is written: a sign, figures with a point before, between or behind them, and
/// an exponent, of which all but the figures may be missing.
pub struct Numeral {
    pub sign: Seq<u8>,
    pub whole: Seq<u8>,
    pub point: Seq<u8>,
    pub part: Seq<u8>,
    pub mark: Seq<u8>,
    pub power_sign: Seq<u8>,
    pub power: Seq<u8>,
}

impl Numeral {
    pub open spec fn valid(self) -> bool {
        &&& is_sign(self.sign)
        &&& are_figures(self.whole)
        &&& are_figures(self.part)
        &&& are_figures(self.power)
        &&& self.whole.len() + self.part.len() > 0
        &&& self.point == seq![46u8] || (self.point.len() == 0 && self.part.len() == 0)
        &&& if self.mark == seq![101u8] || self.mark == seq![69u8] {
            is_sign(self.power_sign) && self.power.len() > 0
        } else {
            self.mark.len() == 0 && self.power_sign.len() == 0 && self.power.len() == 0
        }
    }

    pub open spec fn text(self) -> Seq<u8> {
        self.sign + self.unsigned_text()
    }

    pub open spec fn unsigned_text(self) -> Seq<u8> {
        self.whole + self.point + self.part + self.mark + self.power_sign + self.power
    }

    pub open spec fn negative(self) -> bool {
        self.sign == seq![45u8]
    }

    /// The absolute value of the number is this numerator over the denominator: the figures
    /// without the point, times the power of ten if that is not negative.
    pub open spec fn numerator(self) -> nat {
        if self.power_sign == seq![45u8] {
            digits_value(self.whole + self.part)
        } else {
            digits_value(self.whole + self.part) * pow(10, digits_value(self.power)) as nat
        }
    }

    pub open spec fn denominator(self) -> nat {
        if self.power_sign == seq![45u8] {
            pow(10, self.part.len() + digits_value(self.power)) as nat
        } else {
            pow(10, self.part.len()) as nat
        }
    }
}

/// Each further figure makes a number ten times as large and adds its own value.
pub proof fn lemma_value_of_figures(s: Seq<u8>, figure: u8)
    requires
        48 <= figure <= 57,
    ensures
        digits_value(Seq::empty()) == 0,
        digits_value(s.push(figure)) == 10 * digits_value(s) + (figure - 48),
{
    assert(s.push(figure).drop_last() =~= s);
}

/// Written in decimal, a number below ten is one figure, and ten times a number and a figure
/// more is that figure behind the number.
pub proof fn lemma_decimal_text_by_figure(n: nat, figure: nat)
    requires
        figure < 10,
    ensures
        decimal_text(figure) == seq![(48 + figure) as u8],
        n > 0 ==> decimal_text(10 * n + figure) == decimal_text(n).push((48 + figure) as u8),
{
    assert(figure % 10 == figure);
    if n > 0 {
        assert((10 * n + figure) % 10 == figure);
        assert((10 * n + figure) / 10 == n);
    }
}

/// The decimal number that a numeral is read as.
proof fn lemma_numeral_is_decimal(numeral: Numeral)
    requires
        numeral.valid(),
    ensures
        unsigned(numeral.text()) == numeral.unsigned_text(),
        has_minus(numeral.text()) <==> numeral.negative(),
        decimal(numeral.unsigned_text()) == Some(
            Decimal {
                digits: numeral.whole + numeral.part,
                point: if numeral.power_sign == seq![45u8] {
                    numeral.whole.len() - digits_value(numeral.power)
                } else {
                    (numeral.whole.len() + digits_value(numeral.power)) as int
                },
            },
        ),
{
    let text = numeral.text();
    let body = numeral.unsigned_text();
    let whole = numeral.whole;
    let part = numeral.part;
    let front = whole + numeral.point + part;
    let tail = numeral.power_sign + numeral.power;
    let q = front.len() as int;
    assert(body =~= front + (numeral.mark + tail));
    assert(body[0] == front[0]);
    assert(48 <= front[0] <= 57 || front[0] == 46) by {
        if whole.len() > 0 {
            assert(front[0] == whole[0]);
        } else {
            assert(front[0] == numeral.point[0]);
        }
    }
    if numeral.sign.len() == 0 {
        assert(text =~= body);
    } else {
        assert(text[0] == numeral.sign[0]);
        assert(text.skip(1) =~= body);
    }
    // the exponent starts behind the front
    assert forall|i: int| 0 <= i < q implies body[i] != 101 && body[i] != 69 by {
        assert(body[i] == front[i]);
        if i < whole.len() {
            assert(front[i] == whole[i]);
        } else if i < whole.len() + numeral.point.len() {
            assert(front[i] == numeral.point[i - whole.len()]);
        } else {
            assert(front[i] == part[i - whole.len() - numeral.point.len()]);
        }
    }
    if numeral.mark.len() > 0 {
        assert(body[q] == numeral.mark[0]);
    }
    lemma_first_of(body, 101, 69, q);
    assert(body.take(q) =~= front);
    // the point stands behind the whole part
    assert forall|i: int| 0 <= i < whole.len() implies front[i] != 46 by {
        assert(front[i] == whole[i]);
    }
    if numeral.point.len() > 0 {
        assert(front[whole.len() as int] == numeral.point[0]);
    }
    let dot = whole.len() as int;
    lemma_first_of(front, 46, 46, dot);
    assert(front.take(dot) =~= whole);
    if numeral.point.len() > 0 {
        assert(front.skip(dot + 1) =~= part);
    } else {
        assert(Seq::<u8>::empty() =~= part);
    }
    assert(all_digits(whole)) by {
        assert forall|i: int| 0 <= i < whole.len() implies is_digit(#[trigger] whole[i]) by {}
    }
    assert(all_digits(part)) by {
        assert forall|i: int| 0 <= i < part.len() implies is_digit(#[trigger] part[i]) by {}
    }
    assert(mantissa(front) == Some(Decimal { digits: whole + part, point: dot }));
    if numeral.mark.len() > 0 {
        let power = numeral.power;
        assert(body.skip(q + 1) =~= tail);
        assert(48 <= power[0] <= 57);
        if numeral.power_sign.len() == 0 {
            assert(tail =~= power);
        } else {
            assert(tail[0] == numeral.power_sign[0]);
            assert(tail.skip(1) =~= power);
        }
        assert(all_digits(power)) by {
            assert forall|i: int| 0 <= i < power.len() implies is_digit(#[trigger] power[i]) by {}
        }
        assert(unsigned(tail) == power);
        assert(exponent(tail) == Some(
            if numeral.power_sign == seq![45u8] {
                -(digits_value(power) as int)
            } else {
                digits_value(power) as int
            },
        ));
    } else {
        assert(numeral.power =~= Seq::<u8>::empty());
        assert(digits_value(numeral.power) == 0);
        assert(numeral.power_sign != seq![45u8]);
    }
}

/// The nearest binary64 number to a numeral, by its numerator and denominator.
proof fn lemma_nearest_to_numeral(numeral: Numeral)
    requires
        numeral.valid(),
    ensures
        is_nearest(
            nearest(decimal(numeral.unsigned_text())->Some_0),
            numeral.numerator() * pow2(1074),
            numeral.denominator(),
        ),
{
    lemma_numeral_is_decimal(numeral);
    let number = decimal(numeral.unsigned_text())->Some_0;
    let value = digits_value(numeral.whole + numeral.part);
    let p = digits_value(numeral.power);
    let behind = numeral.part.len();
    let u = pow2(1074);
    assert((numeral.whole + numeral.part).len() == numeral.whole.len() + behind);
    lemma_pow0(10);
    lemma_pow_positive(10, p);
    lemma_pow_positive(10, behind);
    lemma_pow_positive(10, behind + p);
    if numeral.power_sign == seq![45u8] {
        assert(value * 1 == value);
        assert(number.numerator() == numeral.numerator());
        assert(number.denominator() == numeral.denominator());
    } else if p < behind {
        let gap = (behind - p) as nat;
        let c = pow(10, p) as nat;
        let d = pow(10, gap) as nat;
        lemma_pow_positive(10, gap);
        lemma_pow_adds(10, gap, p);
        assert(number.numerator() == value);
        assert(number.denominator() == d);
        lemma_round_scales(value * u, d, c);
        assert((value * u) * c == (value * c) * u) by (nonlinear_arith);
        assert(d * c == numeral.denominator());
    } else {
        let gap = (p - behind) as nat;
        let c = pow(10, behind) as nat;
        let d = pow(10, gap) as nat;
        lemma_pow_positive(10, gap);
        lemma_pow_adds(10, gap, behind);
        assert(number.numerator() == value * d);
        assert(number.denominator() == 1);
        lemma_round_scales((value * d) * u, 1, c);
        assert(((value * d) * u) * c == (value * (d * c)) * u) by (nonlinear_arith);
        assert(1 * c == c);
    }
    assert(numeral.denominator() > 0);
    lemma_round_is_nearest(numeral.numerator() * u, numeral.denominator());
}

/// The number of seconds that a numeral denotes: the nearest binary64 number, and then the
/// nearest nanosecond. It is out of range if and only if that is `2^64` seconds or more, or
/// below zero.
pub proof fn lemma_numeral_is_read(numeral: Numeral)
    requires
        numeral.valid(),
    ensures
        exists|x: nat|
            {
                &&& #[trigger] is_nearest(
                    x,
                    numeral.numerator() * pow2(1074),
                    numeral.denominator(),
                )
                &&& match reading(numeral.text()) {
                    Reading::Wait(n) => {
                        &&& x < 0x1_0000_0000_0000_0000 * pow2(1074)
                        &&& numeral.negative() ==> x == 0
                        &&& is_nearest_integer(n, x * 1_000_000_000, pow2(1074))
                    },
                    Reading::OutOfRange => {
                        ||| x >= 0x1_0000_0000_0000_0000 * pow2(1074)
                        ||| numeral.negative() && x > 0
                    },
                    Reading::NotANumber => false,
                }
            },
{
    lemma_numeral_is_decimal(numeral);
    lemma_nearest_to_numeral(numeral);
    lemma_powers();
    lemma_pow2_pos(1074);
    let x = nearest(decimal(numeral.unsigned_text())->Some_0);
    lemma_half_even_is_nearest(x * NANOS_PER_SEC as nat, unit());
    assert(is_nearest(x, numeral.numerator() * pow2(1074), numeral.denominator()));
}

/// The text is a numeral.
pub open spec fn is_numeral(text: Seq<u8>) -> bool {
    exists|numeral: Numeral| numeral.valid() && #[trigger] numeral.text() == text
}

/// `b` is the letter `lower`, or the same in upper case.
pub open spec fn is_letter(b: u8, lower: u8) -> bool {
    b == lower || b == lower - 32
}

/// `inf`, `infinity` or `nan`, in upper case, lower case or both.
pub open spec fn is_word(t: Seq<u8>) -> bool {
    ||| t.len() == 3 && is_letter(t[0], 105) && is_letter(t[1], 110) && is_letter(t[2], 102)
    ||| t.len() == 3 && is_letter(t[0], 110) && is_letter(t[1], 97) && is_letter(t[2], 110)
    ||| t.len() == 8 && is_letter(t[0], 105) && is_letter(t[1], 110) && is_letter(t[2], 102)
        && is_letter(t[3], 105) && is_letter(t[4], 110) && is_letter(t[5], 105) && is_letter(
        t[6],
        116,
    ) && is_letter(t[7], 121)
}

/// The text is one of these words, behind a sign or none.
pub open spec fn is_signed_word(text: Seq<u8>) -> bool {
    is_word(text) || (text.len() > 0 && (text[0] == 43 || text[0] == 45) && is_word(text.skip(1)))
}

proof fn lemma_words(t: Seq<u8>)
    ensures
        is_special(t) <==> is_word(t),
{
    let inf = seq![105u8, 110, 102];
    let infinity = seq![105u8, 110, 102, 105, 110, 105, 116, 121];
    let nan = seq![110u8, 97, 110];
    if t.len() == 3 {
        assert(spells(t, inf) <==> is_letter(t[0], 105) && is_letter(t[1], 110) && is_letter(
            t[2],
            102,
        )) by {
            assert(inf[0] == 105 && inf[1] == 110 && inf[2] == 102);
            if spells(t, inf) {
                assert(lower_case(t[0]) == inf[0]);
                assert(lower_case(t[1]) == inf[1]);
                assert(lower_case(t[2]) == inf[2]);
            }
        }
        assert(spells(t, nan) <==> is_letter(t[0], 110) && is_letter(t[1], 97) && is_letter(
            t[2],
            110,
        )) by {
            assert(nan[0] == 110 && nan[1] == 97 && nan[2] == 110);
            if spells(t, nan) {
                assert(lower_case(t[0]) == nan[0]);
                assert(lower_case(t[1]) == nan[1]);
                assert(lower_case(t[2]) == nan[2]);
            }
        }
    }
    if t.len() == 8 && spells(t, infinity) {
        assert(lower_case(t[0]) == infinity[0]);
        assert(lower_case(t[1]) == infinity[1]);
        assert(lower_case(t[2]) == infinity[2]);
        assert(lower_case(t[3]) == infinity[3]);
        assert(lower_case(t[4]) == infinity[4]);
        assert(lower_case(t[5]) == infinity[5]);
        assert(lower_case(t[6]) == infinity[6]);
        assert(lower_case(t[7]) == infinity[7]);
    }
}

proof fn lemma_first_of_found(t: Seq<u8>, a: u8, b: u8)
    ensures
        0 <= first_of(t, a, b) <= t.len(),
        first_of(t, a, b) < t.len() ==> t[first_of(t, a, b)] == a || t[first_of(t, a, b)] == b,
    decreases t.len(),
{
    if t.len() > 0 && t[0] != a && t[0] != b {
        lemma_first_of_found(t.skip(1), a, b);
    }
}

/// The parts of a text that is read as a decimal number.
proof fn lemma_decimal_is_numeral(sign: Seq<u8>, t: Seq<u8>) -> (numeral: Numeral)
    requires
        is_sign(sign),
        decimal(t) is Some,
    ensures
        numeral.valid(),
        numeral.text() == sign + t,
{
    let empty = Seq::<u8>::empty();
    let q = first_of(t, 101, 69);
    lemma_first_of_found(t, 101, 69);
    let front = t.take(q);
    let dot = first_of(front, 46, 46);
    lemma_first_of_found(front, 46, 46);
    let whole = front.take(dot);
    let (point, part) = if dot < front.len() {
        (seq![46u8], front.skip(dot + 1))
    } else {
        (empty, empty)
    };
    let tail = if q < t.len() {
        t.skip(q + 1)
    } else {
        empty
    };
    let mark = if q < t.len() {
        seq![t[q]]
    } else {
        empty
    };
    let power = if q < t.len() {
        unsigned(tail)
    } else {
        empty
    };
    let power_sign = tail.take(tail.len() - power.len());
    let numeral = Numeral { sign, whole, point, part, mark, power_sign, power };
    assert(mantissa(front) is Some);
    assert forall|i: int| 0 <= i < whole.len() implies 48 <= #[trigger] whole[i] <= 57 by {
        assert(is_digit(whole[i]));
    }
    assert forall|i: int| 0 <= i < part.len() implies 48 <= #[trigger] part[i] <= 57 by {
        assert(is_digit(part[i]));
    }
    assert(front =~= whole + point + part);
    if q < t.len() {
        assert(exponent(tail) is Some);
        assert forall|i: int| 0 <= i < power.len() implies 48 <= #[trigger] power[i] <= 57 by {
            assert(is_digit(power[i]));
        }
        if tail.len() > 0 && (tail[0] == 43 || tail[0] == 45) {
            assert(power_sign =~= seq![tail[0]]);
        } else {
            assert(power_sign =~= empty);
        }
        assert(mark == seq![101u8] || mark == seq![69u8]);
        assert(tail =~= power_sign + power);
    } else {
        assert(power_sign =~= empty);
        assert(mark != seq![101u8] && mark != seq![69u8]) by {
            assert(mark.len() == 0);
            assert(seq![101u8].len() == 1 && seq![69u8].len() == 1);
        }
    }
    assert(t =~= whole + point + part + mark + power_sign + power);
    numeral
}

/// The texts that are read as a number are the numerals, and the words for an infinity and for
/// what is not a number, which are out of range; no other text is.
pub proof fn lemma_what_is_a_number(text: Seq<u8>)
    ensures
        !(reading(text) is NotANumber) <==> is_numeral(text) || is_signed_word(text),
        is_signed_word(text) ==> reading(text) is OutOfRange,
{
    let t = unsigned(text);
    let empty = Seq::<u8>::empty();
    let signed = text.len() > 0 && (text[0] == 43 || text[0] == 45);
    let sign = if signed {
        seq![text[0]]
    } else {
        empty
    };
    assert(sign + t =~= text);
    lemma_words(t);
    lemma_words(text);
    lemma_words(text.skip(1));
    if is_numeral(text) {
        let numeral = choose|numeral: Numeral| numeral.valid() && #[trigger] numeral.text() == text;
        lemma_numeral_is_decimal(numeral);
    }
    if decimal(t) is Some {
        let numeral = lemma_decimal_is_numeral(sign, t);
        assert(numeral.text() == text);
    }
    if is_word(t) {
        // a word starts with a letter, which is no figure
        let q = first_of(t, 101, 69);
        lemma_first_of(t, 101, 69, t.len() as int);
        assert(t.take(q) =~= t);
        lemma_first_of(t, 46, 46, t.len() as int);
        assert(t.take(t.len() as int) =~= t);
        assert(!is_digit(t[0]));
        assert(!all_digits(t));
        assert(decimal(t) is None);
    }
    if is_word(text) {
        assert(!signed);
    }
}

/// Figures alone are read as so many seconds, zeros in front or not, up to the `2^53` seconds
/// that binary64 counts one by one.
pub proof fn lemma_figures_are_seconds(figures: Seq<u8>)
    requires
        figures.len() > 0,
        are_figures(figures),
        digits_value(figures) <= 0x20_0000_0000_0000,
    ensures
        reading(figures) == Reading::Wait(digits_value(figures) * 1_000_000_000),
{
    let empty = Seq::<u8>::empty();
    let numeral = Numeral {
        sign: empty,
        whole: figures,
        point: empty,
        part: empty,
        mark: empty,
        power_sign: empty,
        power: empty,
    };
    assert(numeral.mark != seq![101u8] && numeral.mark != seq![69u8]) by {
        assert(seq![101u8].len() == 1 && seq![69u8].len() == 1);
    }
    assert(numeral.power_sign != seq![45u8] && numeral.sign != seq![45u8]) by {
        assert(seq![45u8].len() == 1);
    }
    lemma_numeral_is_decimal(numeral);
    assert(numeral.text() =~= figures);
    assert(figures + empty =~= figures);
    let n = digits_value(figures);
    let u = unit();
    lemma_pow0(10);
    assert(n * 1 == n);
    lemma_powers();
    lemma_pow2_pos(1074);
    lemma_round_exact(n, 1074);
    assert(n * u < pow2(64) * u) by (nonlinear_arith)
        requires
            n < pow2(64),
            u > 0,
    ;
    let g = NANOS_PER_SEC as nat;
    assert((n * u) * g == (n * g) * u) by (nonlinear_arith);
    lemma_half_even_multiple(n * g, u);
}

/// The first Retry-After header of a response is what counts: it is read as it stands if it
/// is plain text, and as no number if it is missing or no text.
pub proof fn lemma_first_retry_after_counts(response: HttpResponse)
    ensures
        ({
            let fields = header_fields(response.headers);
            let first = fields["retry-after"@][0];
            let plain = forall|i: int|
                0 <= i < first.len() ==> (32 <= #[trigger] first[i] < 127 || first[i] == 9);
            &&& fields.contains_key("retry-after"@) && plain ==> retry_after(response) == reading(
                first,
            )
            &&& !fields.contains_key("retry-after"@) || !plain
                ==> retry_after(response) is NotANumber
        }),
{
}

/// A server that asks for a whole number of seconds is given just that, without a limit but
/// the `2^53` seconds that binary64 counts one by one.
pub proof fn lemma_retry_after_of_whole_seconds(response: HttpResponse, n: nat)
    requires
        header_fields(response.headers).contains_key("retry-after"@),
        header_fields(response.headers)["retry-after"@][0] == decimal_text(n),
        n <= 0x20_0000_0000_0000,
    ensures
        retry_after(response) == Reading::Wait(n * 1_000_000_000),
{
    let text = decimal_text(n);
    lemma_powers();
    lemma_whole_seconds(n);
    lemma_decimal_text_is_figures(n);
    assert forall|i: int| 0 <= i < text.len() implies 32 <= #[trigger] text[i] < 127 by {
        assert(48 <= text[i] <= 57);
    }
    lemma_first_retry_after_counts(response);
}

/// A number is written in decimal figures, and these denote the number.
pub proof fn lemma_decimal_text_is_figures(n: nat)
    ensures
        are_figures(decimal_text(n)),
        decimal_text(n).len() > 0,
        digits_value(decimal_text(n)) == n,
    decreases n,
{
    let figure = n % 10;
    if n < 10 {
        lemma_decimal_text_by_figure(0, n);
        lemma_value_of_figures(Seq::empty(), (48 + n) as u8);
        assert(Seq::<u8>::empty().push((48 + n) as u8) =~= decimal_text(n));
    } else {
        lemma_decimal_text_is_figures(n / 10);
        lemma_decimal_text_by_figure(n / 10, figure);
        lemma_value_of_figures(decimal_text(n / 10), (48 + figure) as u8);
    }
}

/// What a text was read as is told as it is: a wait to the nanosecond.
pub proof fn lemma_result_tells_the_reading(result: RetryAfter, reading: Reading)
    ensures
        result.is(reading) <==> match result {
            RetryAfter::NotANumber => reading is NotANumber,
            RetryAfter::OutOfRange => reading is OutOfRange,
            RetryAfter::Wait(wait) => reading == Reading::Wait(nanos_of(wait)),
        },
{
}

}
