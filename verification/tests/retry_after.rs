use respectful_http::retry_after::{read_seconds, RetryAfter};
use std::time::Duration;

/// The reading of a text, compared with the machine's own.
fn check(text: &str) {
    let got = read_seconds(text.as_bytes());
    match text.parse::<f64>() {
        Err(_) => assert!(matches!(got, RetryAfter::NotANumber), "{text}"),
        Ok(seconds) => match Duration::try_from_secs_f64(seconds) {
            Err(_) => assert!(matches!(got, RetryAfter::OutOfRange), "{text}"),
            Ok(expected) => match got {
                RetryAfter::Wait(wait) => assert_eq!(wait, expected, "{text}"),
                _ => panic!("no wait: {text}"),
            },
        },
    }
}

#[test]
fn numbers_are_read_as_binary64() {
    for text in [
        "0", "-0", "+0", "25", "1.5", "+1.5", "007", "120", ".5", "5.", "0.1", "0.3", "1e3", "1E3",
        "1e+3", "1.5e-3", "12345678901234567890", "18446744073709551615", "18446744073709550591",
        "18446744073709550592", "18446744073709551616", "99999999999999999999", "100000000000000000000",
        "1e19", "1.8446744073709551e19", "1e400", "1e-400", "1e-9", "5e-10", "4.9e-10", "1.5e-9",
        "2.5e-9", "0.0000000005", "0.00000000050000000000000000000001", "9007199254740993",
        "9007199254740993.00000000000000000000000000000000001", "0.9999999999999999999999999",
        "1e99999999999999999999999999999999999999999999", "1e-99999999999999999999999999999999999999999999",
        "0e99999999999999999999999999999999999999999999", "2.4703282292062327e-324", "1e-308", "1e-290",
    ] {
        check(text);
        check(&format!("-{text}"));
    }
}

#[test]
fn other_texts_are_no_numbers() {
    for text in [
        "", "+", "-", ".", "e", "e5", "1e", "1e+", "1e-", ".e1", "1.2.3", "1 ", " 1", "1_000", "0x10",
        "1e1.5", "++1", "+-1", "infinit", "in", "na", "nann", "Wed, 21 Oct 2015 07:28:00 GMT", "1,5", "１",
    ] {
        check(text);
    }
}

#[test]
fn infinities_and_nan_are_out_of_range() {
    for text in ["inf", "INF", "-inf", "+inf", "Infinity", "-infinity", "nan", "NaN", "-nan", "+nAn"] {
        check(text);
        assert!(matches!(read_seconds(text.as_bytes()), RetryAfter::OutOfRange));
    }
}

#[test]
fn negative_numbers_are_out_of_range_unless_they_vanish() {
    assert!(matches!(read_seconds(b"-1"), RetryAfter::OutOfRange));
    assert!(matches!(read_seconds(b"-1e-300"), RetryAfter::OutOfRange));
    // just below and just above half the smallest binary64 number
    for text in [
        "-2.47032822920623272088284396434110686182e-324",
        "-2.47032822920623272088284396434110686183e-324",
        "-1e-324", "-3e-324", "-1e-323", "-1e-322", "-0.0", "-0e5",
    ] {
        check(text);
    }
    // exactly half of it: 2^-1075, written out
    let mut digits: Vec<u8> = vec![1];
    for _ in 0..1075 {
        let mut carry: u8 = 0;
        for d in digits.iter_mut() {
            let v = carry * 10 + *d;
            *d = v / 2;
            carry = v % 2;
        }
        if carry == 1 {
            digits.push(5);
        }
    }
    let mut text = String::from("-0.");
    for d in &digits[1..] {
        text.push((b'0' + d) as char);
    }
    check(&text);
    assert!(matches!(read_seconds(text.as_bytes()), RetryAfter::Wait(_)));
    text.push('1');
    check(&text);
    assert!(matches!(read_seconds(text.as_bytes()), RetryAfter::OutOfRange));
}

#[test]
fn scattered_numbers_are_read_as_binary64() {
    let mut state: u64 = 0x2545_f491_4f6c_dd1d;
    let mut next = move || {
        state ^= state << 13;
        state ^= state >> 7;
        state ^= state << 17;
        state
    };
    for _ in 0..3_000 {
        let whole = next() >> (next() % 64);
        let part = next() >> (next() % 64);
        let pad = "0".repeat((next() % 30) as usize);
        let power = (next() % 60) as i64 - 30;
        check(&format!("{whole}"));
        check(&format!("{whole}.{pad}{part}"));
        check(&format!("{whole}.{pad}{part}e{power}"));
        check(&format!("0.{pad}{part}"));
        check(&format!("{}", f64::from_bits(next())));
        check(&format!("{:e}", f64::from_bits(next())));
    }
}
