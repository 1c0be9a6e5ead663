use vstd::arithmetic::power::*;
use vstd::prelude::*;

verus! {

/// `b` is one of the characters `0` to `9`.
pub open spec fn is_digit(b: u8) -> bool {
    48 <= b <= 57
}

pub open spec fn all_digits(s: Seq<u8>) -> bool {
    forall|i: int| 0 <= i < s.len() ==> is_digit(#[trigger] s[i])
}

/// The number that a row of decimal digits denotes.
pub open spec fn digits_value(s: Seq<u8>) -> nat
    decreases s.len(),
{
    if s.len() == 0 {
        0
    } else {
        digits_value(s.drop_last()) * 10 + (s.last() - 48) as nat
    }
}

/// A number written in decimal digits, without zeros in front.
pub open spec fn decimal_text(n: nat) -> Seq<u8>
    decreases n,
{
    let last = (48 + n % 10) as u8;
    if n < 10 {
        seq![last]
    } else {
        decimal_text(n / 10).push(last)
    }
}

/// The position of the first `a` or `b`, or the length of the text.
pub open spec fn first_of(t: Seq<u8>, a: u8, b: u8) -> int
    decreases t.len(),
{
    if t.len() == 0 || t[0] == a || t[0] == b {
        0
    } else {
        1 + first_of(t.skip(1), a, b)
    }
}

/// The text behind its sign, `+` or `-`, if it has one.
pub open spec fn unsigned(t: Seq<u8>) -> Seq<u8> {
    if t.len() > 0 && (t[0] == 43 || t[0] == 45) {
        t.skip(1)
    } else {
        t
    }
}

pub open spec fn has_minus(t: Seq<u8>) -> bool {
    t.len() > 0 && t[0] == 45
}

pub open spec fn lower_case(b: u8) -> u8 {
    if 65 <= b <= 90 {
        (b + 32) as u8
    } else {
        b
    }
}

/// `t` is `word`, which is in lower case, but for the case of its letters.
pub open spec fn spells(t: Seq<u8>, word: Seq<u8>) -> bool {
    &&& t.len() == word.len()
    &&& forall|i: int| 0 <= i < t.len() ==> lower_case(#[trigger] t[i]) == word[i]
}

/// `inf`, `infinity` or `nan`, in any case.
pub open spec fn is_special(t: Seq<u8>) -> bool {
    ||| spells(t, seq![105u8, 110, 102])
    ||| spells(t, seq![105u8, 110, 102, 105, 110, 105, 116, 121])
    ||| spells(t, seq![110u8, 97, 110])
}

/// A decimal number without sign: its digits, and how many of them stand in front of the
/// decimal point once the power of ten is taken into account. There may be fewer than none
/// of them, or more than there are.
pub struct Decimal {
    pub digits: Seq<u8>,
    pub point: int,
}

/// Digits with at most one `.` before, between or behind them.
pub open spec fn mantissa(t: Seq<u8>) -> Option<Decimal> {
    let dot = first_of(t, 46, 46);
    let whole = t.take(dot);
    let part = if dot < t.len() {
        t.skip(dot + 1)
    } else {
        Seq::empty()
    };
    if all_digits(whole) && all_digits(part) && whole.len() + part.len() > 0 {
        Some(Decimal { digits: whole + part, point: whole.len() as int })
    } else {
        None
    }
}

/// Digits behind a sign or none.
pub open spec fn exponent(t: Seq<u8>) -> Option<int> {
    let digits = unsigned(t);
    if digits.len() == 0 || !all_digits(digits) {
        None
    } else if has_minus(t) {
        Some(-(digits_value(digits) as int))
    } else {
        Some(digits_value(digits) as int)
    }
}

/// A mantissa, and behind an `e` or `E` a power of ten.
pub open spec fn decimal(t: Seq<u8>) -> Option<Decimal> {
    let mark = first_of(t, 101, 69);
    match mantissa(t.take(mark)) {
        None => None,
        Some(number) => if mark == t.len() {
            Some(number)
        } else {
            match exponent(t.skip(mark + 1)) {
                None => None,
                Some(power) => Some(
                    Decimal { digits: number.digits, point: number.point + power },
                ),
            }
        },
    }
}

impl Decimal {
    pub open spec fn numerator(self) -> nat {
        let scale = self.point - self.digits.len();
        if scale < 0 {
            digits_value(self.digits)
        } else {
            digits_value(self.digits) * pow(10, scale as nat) as nat
        }
    }

    pub open spec fn denominator(self) -> nat {
        let scale = self.point - self.digits.len();
        if scale < 0 {
            pow(10, (-scale) as nat) as nat
        } else {
            1
        }
    }
}

pub(crate) proof fn lemma_first_of(t: Seq<u8>, a: u8, b: u8, p: int)
    requires
        0 <= p <= t.len(),
        forall|i: int| 0 <= i < p ==> t[i] != a && t[i] != b,
        p < t.len() ==> t[p] == a || t[p] == b,
    ensures
        first_of(t, a, b) == p,
    decreases t.len(),
{
    if p > 0 {
        assert forall|i: int| 0 <= i < p - 1 implies t.skip(1)[i] != a && t.skip(1)[i] != b by {
            assert(t.skip(1)[i] == t[i + 1]);
        }
        lemma_first_of(t.skip(1), a, b, p - 1);
    }
}

pub(crate) proof fn lemma_digits_value_concat(a: Seq<u8>, b: Seq<u8>)
    ensures
        digits_value(a + b) == digits_value(a) * pow(10, b.len()) + digits_value(b),
    decreases b.len(),
{
    reveal(pow);
    if b.len() == 0 {
        assert(a + b =~= a);
    } else {
        let c = b.drop_last();
        assert((a + b).drop_last() =~= a + c);
        lemma_digits_value_concat(a, c);
        let x = digits_value(a) as int;
        let w = pow(10, c.len());
        assert((x * w) * 10 == x * (10 * w)) by (nonlinear_arith);
    }
}

pub(crate) proof fn lemma_digits_value_bound(s: Seq<u8>)
    requires
        all_digits(s),
    ensures
        digits_value(s) < pow(10, s.len()),
    decreases s.len(),
{
    reveal(pow);
    if s.len() > 0 {
        assert(all_digits(s.drop_last()));
        lemma_digits_value_bound(s.drop_last());
    }
}

pub(crate) proof fn lemma_zeros_value(s: Seq<u8>)
    requires
        forall|i: int| 0 <= i < s.len() ==> s[i] == 48,
    ensures
        digits_value(s) == 0,
    decreases s.len(),
{
    if s.len() > 0 {
        lemma_zeros_value(s.drop_last());
    }
}

/// A row of digits that begins with another than `0`.
pub(crate) proof fn lemma_digits_value_lower(s: Seq<u8>)
    requires
        all_digits(s),
        s.len() > 0,
        s[0] != 48,
    ensures
        digits_value(s) >= pow(10, (s.len() - 1) as nat),
    decreases s.len(),
{
    reveal(pow);
    if s.len() > 1 {
        assert(all_digits(s.drop_last()));
        lemma_digits_value_lower(s.drop_last());
    } else {
        assert(digits_value(s.drop_last()) == 0);
    }
}

fn find(text: &[u8], from: usize, to: usize, a: u8, b: u8) -> (r: usize)
    requires
        from <= to <= text@.len(),
    ensures
        from <= r <= to,
        r - from == first_of(text@.subrange(from as int, to as int), a, b),
{
    let mut i = from;
    while i < to && text[i] != a && text[i] != b
        invariant
            from <= i <= to <= text@.len(),
            forall|j: int| from <= j < i ==> text@[j] != a && text@[j] != b,
        decreases to - i,
    {
        i = i + 1;
    }
    proof {
        let t = text@.subrange(from as int, to as int);
        assert forall|j: int| 0 <= j < i - from implies t[j] != a && t[j] != b by {
            assert(t[j] == text@[from + j]);
        }
        lemma_first_of(t, a, b, i - from);
    }
    i
}

fn are_digits(text: &[u8], from: usize, to: usize) -> (r: bool)
    requires
        from <= to <= text@.len(),
    ensures
        r == all_digits(text@.subrange(from as int, to as int)),
{
    let ghost t = text@.subrange(from as int, to as int);
    let mut i = from;
    while i < to
        invariant
            from <= i <= to <= text@.len(),
            t == text@.subrange(from as int, to as int),
            forall|j: int| 0 <= j < i - from ==> is_digit(#[trigger] t[j]),
        decreases to - i,
    {
        assert(t[i - from] == text@[i as int]);
        if text[i] < 48 || text[i] > 57 {
            assert(!is_digit(t[i - from]));
            return false;
        }
        i = i + 1;
    }
    true
}

/// `a` is `b`, or both lie beyond `limit` on the same side.
pub open spec fn agrees(a: int, b: int, limit: int) -> bool {
    ||| a == b
    ||| a > limit && b > limit
    ||| a < -limit && b < -limit
}

/// More than the length of any text.
pub open spec fn far() -> int {
    0x1_0000_0000_0000_0000_0000
}

/// The exponent that starts at `from`. One that no text is long enough to make up for is
/// not read to its end.
fn read_exponent(text: &[u8], from: usize) -> (r: Option<i128>)
    requires
        from <= text@.len(),
    ensures
        match (r, exponent(text@.skip(from as int))) {
            (None, None) => true,
            (Some(power), Some(exact)) => agrees(power as int, exact, 2 * far())
                && -0x1000_0000_0000_0000_0000_0000_0000
                < power < 0x1000_0000_0000_0000_0000_0000_0000,
            _ => false,
        },
{
    let len = text.len();
    let signed = from < len && (text[from] == 43 || text[from] == 45);
    let minus = from < len && text[from] == 45;
    let start = if signed {
        from + 1
    } else {
        from
    };
    let ghost t = text@.skip(from as int);
    let ghost digits = unsigned(t);
    proof {
        if from < len {
            assert(t[0] == text@[from as int]);
        }
        assert(digits =~= text@.subrange(start as int, len as int));
    }
    if start == len || !are_digits(text, start, len) {
        return None;
    }
    let mut power: i128 = 0;
    let mut i = start;
    while i < len
        invariant
            start <= i <= len == text@.len(),
            digits == text@.subrange(start as int, len as int),
            all_digits(digits),
            0 <= power < 0x1000_0000_0000_0000_0000_0000_0000,
            power == digits_value(digits.take(i - start)) || (power
                >= 0x10_0000_0000_0000_0000_0000_0000 && digits_value(digits.take(i - start))
                >= 0x10_0000_0000_0000_0000_0000_0000),
        decreases len - i,
    {
        let ghost next = digits.take(i - start + 1);
        proof {
            assert(next.drop_last() =~= digits.take(i - start));
            assert(next.last() == text@[i as int]);
            assert(is_digit(digits[i - start]));
        }
        if power < 0x10_0000_0000_0000_0000_0000_0000 {
            power = power * 10 + (text[i] - 48) as i128;
        }
        i = i + 1;
    }
    proof {
        assert(digits.take(i - start) =~= digits);
    }
    if minus {
        Some(-power)
    } else {
        Some(power)
    }
}

/// The digits of a mantissa, and the number of them in front of the point.
fn read_mantissa(text: &[u8], from: usize, to: usize) -> (r: Option<(Vec<u8>, usize)>)
    requires
        from <= to <= text@.len(),
    ensures
        match (r, mantissa(text@.subrange(from as int, to as int))) {
            (None, None) => true,
            (Some((digits, point)), Some(exact)) => digits@ == exact.digits && point == exact.point
                && all_digits(digits@),
            _ => false,
        },
{
    let ghost t = text@.subrange(from as int, to as int);
    let dot = find(text, from, to, 46, 46);
    let part = if dot < to {
        dot + 1
    } else {
        dot
    };
    proof {
        assert(t.take(dot - from) =~= text@.subrange(from as int, dot as int));
        if dot < to {
            assert(t.skip(dot - from + 1) =~= text@.subrange(part as int, to as int));
        } else {
            assert(Seq::<u8>::empty() =~= text@.subrange(part as int, to as int));
        }
    }
    if !are_digits(text, from, dot) || !are_digits(text, part, to) || (dot == from && part == to) {
        return None;
    }
    let ghost whole = text@.subrange(from as int, dot as int);
    let ghost rest = text@.subrange(part as int, to as int);
    let mut digits: Vec<u8> = Vec::new();
    let mut i = from;
    while i < dot
        invariant
            from <= i <= dot <= text@.len(),
            digits@ == text@.subrange(from as int, i as int),
        decreases dot - i,
    {
        digits.push(text[i]);
        i = i + 1;
    }
    i = part;
    proof {
        assert(digits@ =~= whole + text@.subrange(part as int, i as int));
    }
    while i < to
        invariant
            part <= i <= to <= text@.len(),
            digits@ == whole + text@.subrange(part as int, i as int),
        decreases to - i,
    {
        digits.push(text[i]);
        i = i + 1;
        proof {
            assert(digits@ =~= whole + text@.subrange(part as int, i as int));
        }
    }
    proof {
        assert forall|j: int| 0 <= j < digits@.len() implies is_digit(#[trigger] digits@[j]) by {
            if j < whole.len() {
                assert(is_digit(whole[j]));
            } else {
                assert(is_digit(rest[j - whole.len()]));
            }
        }
    }
    Some((digits, dot - from))
}

/// The decimal number that starts at `from`: its digits and the place of its point.
pub(crate) fn read_decimal(text: &[u8], from: usize) -> (r: Option<(Vec<u8>, i128)>)
    requires
        from <= text@.len(),
    ensures
        match (r, decimal(text@.skip(from as int))) {
            (None, None) => true,
            (Some((digits, point)), Some(exact)) => digits@ == exact.digits && agrees(
                point as int,
                exact.point,
                far(),
            ) && all_digits(digits@) && -0x2000_0000_0000_0000_0000_0000_0000 < point
                < 0x2000_0000_0000_0000_0000_0000_0000,
            _ => false,
        },
{
    let len = text.len();
    let ghost t = text@.skip(from as int);
    let mark = find(text, from, len, 101, 69);
    proof {
        assert(t =~= text@.subrange(from as int, len as int));
        assert(t.take(mark - from) =~= text@.subrange(from as int, mark as int));
    }
    match read_mantissa(text, from, mark) {
        None => None,
        Some((digits, point)) => {
            if mark == len {
                return Some((digits, point as i128));
            }
            proof {
                assert(t.skip(mark - from + 1) =~= text@.skip(mark + 1));
            }
            match read_exponent(text, mark + 1) {
                None => None,
                Some(power) => Some((digits, point as i128 + power)),
            }
        },
    }
}

fn matches_word(text: &[u8], from: usize, word: &[u8]) -> (r: bool)
    requires
        from <= text@.len(),
    ensures
        r == spells(text@.skip(from as int), word@),
{
    let len = text.len() - from;
    if len != word.len() {
        return false;
    }
    let ghost t = text@.skip(from as int);
    let mut i: usize = 0;
    while i < len
        invariant
            from + len == text@.len(),
            from + len <= usize::MAX,
            len == word@.len(),
            t == text@.skip(from as int),
            i <= len,
            forall|j: int| 0 <= j < i ==> lower_case(#[trigger] t[j]) == word@[j],
        decreases len - i,
    {
        let b = text[from + i];
        assert(t[i as int] == b);
        let lowered: u8 = if 65 <= b && b <= 90 {
            b + 32
        } else {
            b
        };
        if lowered != word[i] {
            return false;
        }
        i = i + 1;
    }
    true
}

pub(crate) fn read_special(text: &[u8], from: usize) -> (r: bool)
    requires
        from <= text@.len(),
    ensures
        r == is_special(text@.skip(from as int)),
{
    let inf: [u8; 3] = [105, 110, 102];
    let infinity: [u8; 8] = [105, 110, 102, 105, 110, 105, 116, 121];
    let nan: [u8; 3] = [110, 97, 110];
    proof {
        assert(inf@ =~= seq![105u8, 110, 102]);
        assert(infinity@ =~= seq![105u8, 110, 102, 105, 110, 105, 116, 121]);
        assert(nan@ =~= seq![110u8, 97, 110]);
    }
    matches_word(text, from, &inf) || matches_word(text, from, &infinity) || matches_word(
        text,
        from,
        &nan,
    )
}

}
