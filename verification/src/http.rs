use crate::error::Error;
use crate::respectful_retry::{
    back_off, can_back_off, larger, next_interval, RequestOutcome, RespectfulRetry, RetryConfig,
};
use crate::retry_after::{read_seconds, reading, Reading, RetryAfter};
use crate::time::nanos_of;
use reqwest::header::{HeaderMap, HeaderValue, ToStrError};
use std::time::Duration;
use vstd::prelude::*;
use vstd::string::*;

verus! {

/// The header fields of a response.
#[verifier::external_type_specification]
#[verifier::external_body]
#[verifier::reject_recursive_types(T)]
pub struct ExHeaderMap<T>(HeaderMap<T>);

/// The value of a header field.
#[verifier::external_type_specification]
#[verifier::external_body]
pub struct ExHeaderValue(HeaderValue);

/// The error of a header value that is no text.
#[verifier::external_type_specification]
#[verifier::external_body]
pub struct ExToStrError(ToStrError);

/// The fields of a header map: for each name, in lower case, its values in the order in
/// which they came.
pub uninterp spec fn header_fields(headers: HeaderMap) -> Map<Seq<char>, Seq<Seq<u8>>>;

/// The bytes of a header value.
pub uninterp spec fn header_value_bytes(value: HeaderValue) -> Seq<u8>;

/// A header name in lower case: letters, digits and hyphens, 64 of them at most.
pub open spec fn is_plain_name(name: Seq<char>) -> bool {
    &&& 0 < name.len() <= 64
    &&& forall|i: int|
        0 <= i < name.len() ==> ('a' <= #[trigger] name[i] <= 'z' || '0' <= name[i] <= '9'
            || name[i] == '-')
}

/// [`HeaderMap::get`] returns the first of the values that are stored under the name, and
/// `None` where there is none. (Names are stored in lower case; other spellings of a name
/// are left out here.)
#[verifier::external_body]
fn first_value<'a>(headers: &'a HeaderMap, name: &str) -> (r: Option<&'a HeaderValue>)
    requires
        is_plain_name(name@),
    ensures
        match r {
            None => !header_fields(*headers).contains_key(name@),
            Some(value) => {
                &&& header_fields(*headers).contains_key(name@)
                &&& header_fields(*headers)[name@].len() > 0
                &&& header_value_bytes(*value) == header_fields(*headers)[name@][0]
            },
        },
{
    headers.get(name)
}

/// `b` is a visible ASCII character, a space or a tab.
pub open spec fn is_visible(b: u8) -> bool {
    32 <= b < 127 || b == 9
}

pub open spec fn all_visible(bytes: Seq<u8>) -> bool {
    forall|i: int| 0 <= i < bytes.len() ==> is_visible(#[trigger] bytes[i])
}

/// [`HeaderValue::to_str`] yields the bytes of the value as a text if they all are visible
/// ASCII characters, spaces or tabs, and an error if not.
pub assume_specification[ HeaderValue::to_str ](value: &HeaderValue) -> (r: Result<
    &str,
    ToStrError,
>)
    ensures
        match r {
            Ok(text) => all_visible(header_value_bytes(*value)) && text.spec_bytes()
                == header_value_bytes(*value),
            Err(_) => !all_visible(header_value_bytes(*value)),
        },
;

/// HTTP response: status code, headers, and raw body bytes.
#[derive(Debug)]
pub struct HttpResponse {
    pub status: u16,
    pub headers: HeaderMap,
    pub body: Vec<u8>,
}

/// What the first Retry-After header of a response says.
pub open spec fn retry_after(response: HttpResponse) -> Reading {
    let fields = header_fields(response.headers);
    if fields.contains_key("retry-after"@) && all_visible(fields["retry-after"@][0]) {
        reading(fields["retry-after"@][0])
    } else {
        Reading::NotANumber
    }
}

/// Read the `Retry-After` header as a duration in seconds.
pub fn read_retry_after(response: &HttpResponse) -> (r: RetryAfter)
    ensures
        r.is(retry_after(*response)),
        !header_fields(response.headers).contains_key("retry-after"@) ==> r is NotANumber,
        header_fields(response.headers).contains_key("retry-after"@) ==> {
            let first = header_fields(response.headers)["retry-after"@][0];
            let plain = forall|i: int|
                0 <= i < first.len() ==> (32 <= #[trigger] first[i] < 127 || first[i] == 9);
            match r {
                RetryAfter::Wait(wait) => plain && reading(first) == Reading::Wait(nanos_of(wait)),
                RetryAfter::OutOfRange => plain && reading(first) is OutOfRange,
                RetryAfter::NotANumber => plain ==> reading(first) is NotANumber,
            }
        },
{
    proof {
        reveal_strlit("retry-after");
    }
    match first_value(&response.headers, "retry-after") {
        None => RetryAfter::NotANumber,
        Some(value) => match value.to_str() {
            Err(_) => RetryAfter::NotANumber,
            Ok(text) => read_seconds(text.as_bytes()),
        },
    }
}

/// Parse the `Retry-After` header as a duration in seconds. The header may be missing, or
/// no number; but a number has to be a length of time (see [`read_retry_after`]).
pub fn parse_retry_after(response: &HttpResponse) -> (r: Option<Duration>)
    requires
        !(retry_after(*response) is OutOfRange),
    ensures
        match r {
            Some(wait) => retry_after(*response) == Reading::Wait(nanos_of(wait)),
            None => retry_after(*response) is NotANumber,
        },
        match r {
            Some(wait) => {
                &&& header_fields(response.headers).contains_key("retry-after"@)
                &&& reading(header_fields(response.headers)["retry-after"@][0]) == Reading::Wait(
                    nanos_of(wait),
                )
            },
            None => header_fields(response.headers).contains_key("retry-after"@) ==> {
                let first = header_fields(response.headers)["retry-after"@][0];
                (forall|i: int|
                    0 <= i < first.len() ==> (32 <= #[trigger] first[i] < 127 || first[i] == 9))
                    ==> reading(first) is NotANumber
            },
        },
{
    match read_retry_after(response) {
        RetryAfter::Wait(wait) => Some(wait),
        _ => None,
    }
}

/// A request shape the rate limiter can replay across retries.
#[derive(Clone, Copy)]
pub enum RequestSpec<'a> {
    Get { url: &'a str, headers: &'a [(&'a str, &'a str)] },
    PostForm {
        url: &'a str,
        form: &'a [(&'a str, &'a str)],
        headers: &'a [(&'a str, &'a str)],
    },
}

impl<'a> RequestSpec<'a> {
    /// What a client does with the request that can GET a URL and no more: it gets the URL,
    /// without the headers, and refuses to POST.
    pub fn get_only(&self) -> (r: Result<&'a str, Error>)
        ensures
            match *self {
                RequestSpec::Get { url, .. } => r == Ok::<&'a str, Error>(url),
                RequestSpec::PostForm { .. } => r == Err::<&'a str, Error>(
                    Error::Unsupported("POST"),
                ),
            },
    {
        match self {
            RequestSpec::Get { url, .. } => Ok(*url),
            RequestSpec::PostForm { .. } => Err(Error::Unsupported("POST")),
        }
    }
}

/// The server asks the client to slow down.
pub open spec fn is_throttled(status: u16) -> bool {
    status == 429 || status == 403
}

/// The interval, in nanoseconds, that follows on `interval` when the server throttles and
/// its Retry-After header reads `reading`.
pub open spec fn throttled_interval(interval: nat, config: RetryConfig, reading: Reading) -> nat {
    let backed_off = larger(
        back_off(interval, config.backoff_multiplier),
        nanos_of(config.safe_interval),
    );
    match reading {
        Reading::Wait(wait) => larger(backed_off, wait),
        _ => backed_off,
    }
}

/// The wait after a throttled response is a length of time: the backoff is one, and the
/// Retry-After header is none that is out of range.
pub open spec fn can_wait(interval: nat, config: RetryConfig, response: HttpResponse) -> bool {
    &&& can_back_off(interval, config.backoff_multiplier)
    &&& !(retry_after(response) is OutOfRange)
}

/// The interval, in nanoseconds, that follows on `interval` when `reply` comes in. A
/// response that is not throttled is a success; one that is backs off, if the wait is a
/// length of time. An error of the client leaves the interval as it is.
pub open spec fn interval_after_reply(
    interval: nat,
    config: RetryConfig,
    reply: Result<HttpResponse, Error>,
) -> nat {
    match reply {
        Err(_) => interval,
        Ok(response) => if !is_throttled(response.status) {
            next_interval(interval, config, RequestOutcome::Success)
        } else if can_wait(interval, config, response) {
            throttled_interval(interval, config, retry_after(response))
        } else {
            interval
        },
    }
}

/// What the caller gets for the reply to an attempt, or `None` where there is another
/// attempt: the first attempt is number zero, the last one number `max_retries`.
pub open spec fn settled(
    reply: Result<HttpResponse, Error>,
    attempt: u32,
    max_retries: u32,
) -> Option<Result<HttpResponse, Error>> {
    match reply {
        Err(error) => Some(Err(error)),
        Ok(response) => if !is_throttled(response.status) {
            Some(Ok(response))
        } else if attempt == max_retries {
            Some(Err(Error::RateLimited { status: response.status, retries: max_retries }))
        } else {
            None
        },
    }
}

/// One request of a caller, with all its attempts.
pub struct Exchange<'a> {
    spec: RequestSpec<'a>,
    attempt: u32,
}

impl<'a> Exchange<'a> {
    /// The request that each attempt sends.
    pub closed spec fn request(self) -> RequestSpec<'a> {
        self.spec
    }

    /// How many attempts have been throttled.
    pub closed spec fn attempt(self) -> u32 {
        self.attempt
    }

    /// The request to send now.
    pub fn next_request(&self) -> (r: RequestSpec<'a>)
        ensures
            r == self.request(),
    {
        self.spec
    }
}

/// What to do about the reply to a request.
pub enum Step {
    /// Sleep, then return the response to the caller.
    Return { delay: Duration, response: HttpResponse },
    /// Sleep, then send the request again.
    Retry { delay: Duration },
    /// Sleep, then return the error to the caller.
    Fail { delay: Duration, error: Error },
}

impl Step {
    /// What the caller gets, or `None` where there is another attempt.
    pub open spec fn result(self) -> Option<Result<HttpResponse, Error>> {
        match self {
            Step::Return { response, .. } => Some(Ok(response)),
            Step::Retry { .. } => None,
            Step::Fail { error, .. } => Some(Err(error)),
        }
    }

    /// How long to sleep first.
    pub open spec fn delay(self) -> Duration {
        match self {
            Step::Return { delay, .. } => delay,
            Step::Retry { delay } => delay,
            Step::Fail { delay, .. } => delay,
        }
    }
}

/// The decisions of an HTTP client decorator that paces requests and retries on throttling.
///
/// Every request is spaced at least `safe_interval` apart. On 429/403,
/// backs off multiplicatively and recovers linearly. Respects `Retry-After`
/// headers. Retries are transparent to callers.
///
/// Note: the pacing applies to *sequential* calls (each step sleeps after its request).
/// It does not serialize concurrent callers: for concurrent multi-host work, route
/// each host through its own single worker holding its own [`RespectfulRetry`].
///
/// The client that is decorated, and the clock, are the caller's: it sends what
/// [`Exchange::next_request`] asks for, hands the reply to
/// [`RateLimitedHttpClient::on_reply`], and performs the step.
pub struct RateLimitedHttpClient {
    limiter: RespectfulRetry,
    max_retries: u32,
}

impl RateLimitedHttpClient {
    /// The limiter that all requests share.
    pub closed spec fn limiter(self) -> RespectfulRetry {
        self.limiter
    }

    /// The number of times a request is sent again.
    pub closed spec fn max_retries(self) -> u32 {
        self.max_retries
    }

    /// A decorator that starts at the safe interval.
    pub fn new(config: RetryConfig, max_retries: u32) -> (r: Self)
        ensures
            r.limiter().config() == config,
            r.limiter().interval() == nanos_of(config.safe_interval),
            r.max_retries() == max_retries,
    {
        Self { limiter: RespectfulRetry::new(config), max_retries }
    }

    /// Begin a GET request without additional headers.
    pub fn get<'a>(&self, url: &'a str) -> (r: Exchange<'a>)
        ensures
            r.request() matches RequestSpec::Get { url: u, headers } && u == url && headers@.len()
                == 0,
            r.attempt() == 0,
    {
        self.get_with_headers(url, &[])
    }

    /// Begin a GET request with additional headers.
    pub fn get_with_headers<'a>(&self, url: &'a str, headers: &'a [(&'a str, &'a str)]) -> (r:
        Exchange<'a>)
        ensures
            r.request() == (RequestSpec::Get { url, headers }),
            r.attempt() == 0,
    {
        Exchange { spec: RequestSpec::Get { url, headers }, attempt: 0 }
    }

    /// Begin a POST request with a urlencoded form body and additional headers.
    pub fn post_form<'a>(
        &self,
        url: &'a str,
        form: &'a [(&'a str, &'a str)],
        headers: &'a [(&'a str, &'a str)],
    ) -> (r: Exchange<'a>)
        ensures
            r.request() == (RequestSpec::PostForm { url, form, headers }),
            r.attempt() == 0,
    {
        Exchange { spec: RequestSpec::PostForm { url, form, headers }, attempt: 0 }
    }

    /// `on_reply` has a result: a request is sent again only after a wait that is a length
    /// of time.
    pub open spec fn handles(
        self,
        exchange: Exchange<'_>,
        reply: Result<HttpResponse, Error>,
    ) -> bool {
        match reply {
            Ok(response) => is_throttled(response.status) && exchange.attempt()
                < self.max_retries() ==> can_wait(
                self.limiter().interval(),
                self.limiter().config(),
                response,
            ),
            Err(_) => true,
        }
    }

    /// Whether `on_reply` has a result for this reply.
    pub fn can_handle(&self, exchange: &Exchange<'_>, reply: &Result<HttpResponse, Error>) -> (r:
        bool)
        ensures
            r == self.handles(*exchange, *reply),
            match *reply {
                Err(_) => r,
                Ok(response) => if (response.status == 429 || response.status == 403)
                    && exchange.attempt() < self.max_retries() {
                    r <==> !(retry_after(response) is OutOfRange) && can_back_off(
                        self.limiter().interval(),
                        self.limiter().config().backoff_multiplier,
                    )
                } else {
                    r
                },
            },
    {
        match reply {
            Err(_) => true,
            Ok(response) => {
                if (response.status != 429 && response.status != 403) || exchange.attempt
                    >= self.max_retries {
                    true
                } else {
                    self.can_wait_after(response)
                }
            },
        }
    }

    /// Whether the wait after a throttled response is a length of time.
    fn can_wait_after(&self, response: &HttpResponse) -> (r: bool)
        ensures
            r == can_wait(self.limiter().interval(), self.limiter().config(), *response),
    {
        match read_retry_after(response) {
            RetryAfter::OutOfRange => false,
            _ => self.limiter.can_update(&RequestOutcome::Throttled),
        }
    }

    /// Decide on the reply to the current attempt. Whatever it is, the step sleeps at least
    /// the safe interval.
    ///
    /// An error of the client that is decorated is the caller's, after the limiter's delay,
    /// and so is a response that is not throttled. One that is throttled makes the delay
    /// longer, and has the request sent again until the retries are used up.
    pub fn on_reply(
        &mut self,
        exchange: &mut Exchange<'_>,
        reply: Result<HttpResponse, Error>,
    ) -> (step: Step)
        requires
            old(exchange).attempt() <= old(self).max_retries(),
            old(self).handles(*old(exchange), reply),
        ensures
            final(self).max_retries() == old(self).max_retries(),
            final(self).limiter().config() == old(self).limiter().config(),
            final(exchange).request() == old(exchange).request(),
            final(exchange).attempt() <= final(self).max_retries(),
            step.result() == settled(reply, old(exchange).attempt(), old(self).max_retries()),
            final(self).limiter().interval() == interval_after_reply(
                old(self).limiter().interval(),
                old(self).limiter().config(),
                reply,
            ),
            nanos_of(step.delay()) == final(self).limiter().interval(),
            nanos_of(step.delay()) >= nanos_of(old(self).limiter().config().safe_interval),
            match step {
                Step::Retry { .. } => final(exchange).attempt() == old(exchange).attempt() + 1,
                _ => *final(exchange) == *old(exchange),
            },
            match reply {
                Err(error) => {
                    &&& step matches Step::Fail { delay, error: e } && e == error && nanos_of(delay)
                        == old(self).limiter().interval()
                    &&& final(self).limiter().interval() == old(self).limiter().interval()
                },
                Ok(response) => if response.status != 429 && response.status != 403 {
                    step matches Step::Return { delay, response: r } && r == response && nanos_of(
                        delay,
                    ) == final(self).limiter().interval() == (if old(self).limiter().interval()
                        >= nanos_of(old(self).limiter().config().safe_interval) + nanos_of(
                        old(self).limiter().config().recovery_step,
                    ) {
                        old(self).limiter().interval() - nanos_of(
                            old(self).limiter().config().recovery_step,
                        )
                    } else {
                        nanos_of(old(self).limiter().config().safe_interval) as int
                    })
                } else if old(exchange).attempt() < old(self).max_retries() {
                    step matches Step::Retry { delay } && nanos_of(delay)
                        == final(self).limiter().interval()
                } else {
                    step matches Step::Fail { delay, error } && nanos_of(delay)
                        == final(self).limiter().interval() && error == (Error::RateLimited {
                        status: response.status,
                        retries: old(self).max_retries(),
                    })
                },
            },
            reply matches Ok(response) ==> (response.status == 429 || response.status == 403) ==> {
                let before = old(self).limiter().interval();
                let factor = old(self).limiter().config().backoff_multiplier;
                let safe = nanos_of(old(self).limiter().config().safe_interval);
                let next = final(self).limiter().interval();
                if can_back_off(before, factor) && !(retry_after(response) is OutOfRange) {
                    &&& next >= back_off(before, factor)
                    &&& next >= safe
                    &&& retry_after(response) matches Reading::Wait(wait) ==> next >= wait
                    &&& next == back_off(before, factor) || next == safe || retry_after(response)
                        == Reading::Wait(next)
                } else {
                    next == before
                }
            },
    {
        let response = match reply {
            Err(error) => {
                return Step::Fail { delay: self.limiter.delay(), error };
            },
            Ok(response) => response,
        };
        if response.status != 429 && response.status != 403 {
            let delay = self.limiter.update(RequestOutcome::Success);
            return Step::Return { delay, response };
        }
        let delay = if self.can_wait_after(&response) {
            let outcome = match parse_retry_after(&response) {
                Some(wait) => RequestOutcome::ThrottledWithRetryAfter(wait),
                None => RequestOutcome::Throttled,
            };
            self.limiter.update(outcome)
        } else {
            self.limiter.delay()
        };
        if exchange.attempt == self.max_retries {
            let error = Error::RateLimited { status: response.status, retries: self.max_retries };
            return Step::Fail { delay, error };
        }
        exchange.attempt = exchange.attempt + 1;
        Step::Retry { delay }
    }
}

}
