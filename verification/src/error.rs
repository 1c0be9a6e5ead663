use crate::decimal::decimal_text;
use reqwest::Error as TransportError;
use vstd::prelude::*;
use vstd::string::*;

verus! {

/// An error of the transport, which the library carries through without looking into it.
#[verifier::external_type_specification]
#[verifier::external_body]
pub struct ExTransportError(TransportError);

/// The text that [`reqwest::Error`] displays: what kind of failure it is, and the URL it
/// belongs to.
pub uninterp spec fn transport_error_text(error: TransportError) -> Seq<char>;

/// `to_string` of [`reqwest::Error`] writes out the error's kind and URL, which the value
/// holds; equal values give equal texts.
#[verifier::external_body]
fn describe(error: &TransportError) -> (r: String)
    ensures
        r@ == transport_error_text(*error),
{
    error.to_string()
}

/// Anything that can go wrong issuing a request through this crate.
#[derive(Debug)]
pub enum Error {
    /// The underlying HTTP transport failed (connect, TLS, timeout, body read, ...).
    Transport(TransportError),
    /// The server kept throttling (HTTP 429/403) past the configured retry budget.
    RateLimited { status: u16, retries: u32 },
    /// The operation isn't supported by this client (e.g. POST on a GET-only client).
    Unsupported(&'static str),
}

/// A number in decimal digits.
pub open spec fn number_text(n: nat) -> Seq<char> {
    decimal_text(n).map_values(|b: u8| b as char)
}

impl Error {
    /// The message for the user.
    pub open spec fn text(self) -> Seq<char> {
        match self {
            Error::Transport(error) => "http transport error: "@ + transport_error_text(error),
            Error::RateLimited { status, retries } => "HTTP "@ + number_text(status as nat)
                + ": rate limit exceeded after "@ + number_text(retries as nat) + " retries"@,
            Error::Unsupported(what) => what@ + " not supported by this client"@,
        }
    }

    /// The message for the user.
    pub fn to_string(&self) -> (r: String)
        ensures
            r@ == self.text(),
    {
        match self {
            Error::Transport(error) => {
                let text = describe(error);
                String::from_str("http transport error: ").concat(text.as_str())
            },
            Error::RateLimited { status, retries } => {
                let mut r = String::from_str("HTTP ");
                append_number(&mut r, *status as u32);
                r.append(": rate limit exceeded after ");
                append_number(&mut r, *retries);
                r.append(" retries");
                r
            },
            Error::Unsupported(what) => String::from_str(what).concat(
                " not supported by this client",
            ),
        }
    }
}

/// A number below ten is written as one figure, and ten times a number and a figure more as that
/// figure behind the number.
pub proof fn lemma_number_text_by_figure(n: nat, figure: nat)
    requires
        figure < 10,
    ensures
        number_text(figure) == seq![((48 + figure) as u8) as char],
        n > 0 ==> number_text(10 * n + figure) == number_text(n).push(
            ((48 + figure) as u8) as char,
        ),
{
    assert(figure % 10 == figure);
    assert(number_text(figure) =~= seq![((48 + figure) as u8) as char]);
    if n > 0 {
        assert((10 * n + figure) % 10 == figure);
        assert((10 * n + figure) / 10 == n);
        assert(number_text(10 * n + figure) =~= number_text(n).push(
            ((48 + figure) as u8) as char,
        ));
    }
}

/// What the messages say, of any error: the transport's own words, the status and the number
/// of retries, or the operation.
pub proof fn lemma_messages(
    transport: TransportError,
    status: u16,
    retries: u32,
    what: &'static str,
)
    ensures
        Error::Transport(transport).text() == "http transport error: "@ + transport_error_text(
            transport,
        ),
        (Error::RateLimited { status, retries }).text() == "HTTP "@ + number_text(status as nat)
            + ": rate limit exceeded after "@ + number_text(retries as nat) + " retries"@,
        Error::Unsupported(what).text() == what@ + " not supported by this client"@,
{
}

fn append_number(out: &mut String, n: u32)
    ensures
        final(out)@ == old(out)@ + number_text(n as nat),
    decreases n,
{
    let ghost before = out@;
    let ghost high = number_text((n / 10) as nat);
    if n >= 10 {
        append_number(out, n / 10);
    }
    let d = (n % 10) as usize;
    proof {
        reveal_strlit("0123456789");
    }
    let digit = "0123456789".substring_ascii(d, d + 1);
    out.append(digit);
    proof {
        let c = (48 + d) as u8;
        assert(digit@ =~= seq![c as char]);
        if n >= 10 {
            assert(number_text(n as nat) =~= high + seq![c as char]);
            assert(out@ =~= before + number_text(n as nat));
        } else {
            assert(number_text(n as nat) =~= seq![c as char]);
        }
    }
}

}
