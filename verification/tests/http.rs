use reqwest::header::{HeaderMap, HeaderValue};
use respectful_http::{
    parse_retry_after, read_retry_after, Error, Exchange, HttpResponse, Multiplier,
    RateLimitedHttpClient, RequestSpec, RetryAfter, RetryConfig, Step,
};
use std::time::Duration;

fn owned(pairs: &[(&str, &str)]) -> Vec<(String, String)> {
    pairs
        .iter()
        .map(|(k, v)| (k.to_string(), v.to_string()))
        .collect()
}

/// Answers requests from a list, and records what it saw of the most recent one.
struct MockHttpClient {
    responses: Vec<HttpResponse>,
    requests: usize,
    last_url: String,
    last_headers: Vec<(String, String)>,
    last_form: Vec<(String, String)>,
}

impl MockHttpClient {
    fn new(responses: Vec<HttpResponse>) -> Self {
        Self {
            responses,
            requests: 0,
            last_url: String::new(),
            last_headers: Vec::new(),
            last_form: Vec::new(),
        }
    }

    fn send(&mut self, request: RequestSpec<'_>) -> Result<HttpResponse, Error> {
        self.requests += 1;
        match request {
            RequestSpec::Get { url, headers } => {
                self.last_url = url.to_string();
                self.last_headers = owned(headers);
            }
            RequestSpec::PostForm { url, form, headers } => {
                self.last_url = url.to_string();
                self.last_form = owned(form);
                self.last_headers = owned(headers);
            }
        }
        Ok(self.responses.remove(0))
    }
}

/// Performs a request; returns its result and how long it slept before each send or return.
fn perform(
    client: &mut RateLimitedHttpClient,
    inner: &mut MockHttpClient,
    mut exchange: Exchange<'_>,
) -> (Result<HttpResponse, Error>, Vec<Duration>) {
    let mut sleeps = Vec::new();
    loop {
        let reply = inner.send(exchange.next_request());
        assert!(client.can_handle(&exchange, &reply));
        match client.on_reply(&mut exchange, reply) {
            Step::Return { delay, response } => {
                sleeps.push(delay);
                return (Ok(response), sleeps);
            }
            Step::Retry { delay } => sleeps.push(delay),
            Step::Fail { delay, error } => {
                sleeps.push(delay);
                return (Err(error), sleeps);
            }
        }
    }
}

fn test_config() -> RetryConfig {
    RetryConfig {
        safe_interval: Duration::from_millis(1),
        recovery_step: Duration::from_millis(1),
        backoff_multiplier: Multiplier { bits: 2.0f64.to_bits() },
    }
}

fn response(status: u16) -> HttpResponse {
    HttpResponse {
        status,
        headers: HeaderMap::new(),
        body: Vec::new(),
    }
}

fn response_with_retry_after(seconds: &str) -> HttpResponse {
    let mut headers = HeaderMap::new();
    headers.insert("retry-after", HeaderValue::from_str(seconds).unwrap());
    HttpResponse {
        status: 429,
        headers,
        body: Vec::new(),
    }
}

#[test]
fn test_headers_forwarded_through_rate_limiter() {
    let mut inner = MockHttpClient::new(vec![response(200)]);
    let mut client = RateLimitedHttpClient::new(test_config(), 3);
    let headers = [("accept", "application/ld+json")];
    let exchange = client.get_with_headers("http://example.com", &headers);
    let (resp, _) = perform(&mut client, &mut inner, exchange);
    assert_eq!(resp.unwrap().status, 200);
    assert_eq!(
        inner.last_headers,
        vec![("accept".to_string(), "application/ld+json".to_string())]
    );
    assert_eq!(inner.last_url, "http://example.com");
}

#[test]
fn test_post_form_forwarded_through_rate_limiter() {
    let mut inner = MockHttpClient::new(vec![response(200)]);
    let mut client = RateLimitedHttpClient::new(test_config(), 3);
    let form = [("query", "SELECT 1"), ("format", "json")];
    let headers = [("accept", "application/sparql-results+json")];
    let exchange = client.post_form("http://example.com", &form, &headers);
    let (resp, _) = perform(&mut client, &mut inner, exchange);
    assert_eq!(resp.unwrap().status, 200);
    assert_eq!(
        inner.last_form,
        vec![
            ("query".to_string(), "SELECT 1".to_string()),
            ("format".to_string(), "json".to_string()),
        ]
    );
    assert_eq!(
        inner.last_headers,
        vec![(
            "accept".to_string(),
            "application/sparql-results+json".to_string()
        )]
    );
}

#[test]
fn test_post_form_retry_on_429_then_success() {
    let mut inner = MockHttpClient::new(vec![response(429), response(200)]);
    let mut client = RateLimitedHttpClient::new(test_config(), 3);
    let form = [("a", "b")];
    let exchange = client.post_form("http://example.com", &form, &[]);
    let (resp, _) = perform(&mut client, &mut inner, exchange);
    assert_eq!(resp.unwrap().status, 200);
    // the second attempt is the same request
    assert_eq!(inner.requests, 2);
    assert_eq!(inner.last_form, vec![("a".to_string(), "b".to_string())]);
}

#[test]
fn test_post_form_default_impl_refuses() {
    let request = RequestSpec::PostForm {
        url: "http://example.com",
        form: &[],
        headers: &[],
    };
    let err = request.get_only().unwrap_err();
    assert!(err.to_string().contains("POST not supported"));
    assert_eq!(err.to_string(), "POST not supported by this client");
}

#[test]
fn a_get_only_client_ignores_headers() {
    let request = RequestSpec::Get {
        url: "http://example.com",
        headers: &[("accept", "text/html")],
    };
    assert_eq!(request.get_only().unwrap(), "http://example.com");
}

#[test]
fn test_no_retry_on_success() {
    let mut inner = MockHttpClient::new(vec![response(200)]);
    let mut client = RateLimitedHttpClient::new(test_config(), 3);
    let exchange = client.get("http://example.com");
    let (resp, sleeps) = perform(&mut client, &mut inner, exchange);
    assert_eq!(resp.unwrap().status, 200);
    assert_eq!(sleeps, vec![Duration::from_millis(1)]);
    assert!(inner.last_headers.is_empty());
}

#[test]
fn test_retry_on_429_then_success() {
    let mut inner = MockHttpClient::new(vec![response(429), response(200)]);
    let mut client = RateLimitedHttpClient::new(test_config(), 3);
    let exchange = client.get("http://example.com");
    let (resp, sleeps) = perform(&mut client, &mut inner, exchange);
    assert_eq!(resp.unwrap().status, 200);
    assert_eq!(sleeps, vec![Duration::from_millis(2), Duration::from_millis(1)]);
}

#[test]
fn test_retry_on_403_then_success() {
    let mut inner = MockHttpClient::new(vec![response(403), response(200)]);
    let mut client = RateLimitedHttpClient::new(test_config(), 3);
    let exchange = client.get("http://example.com");
    let (resp, _) = perform(&mut client, &mut inner, exchange);
    assert_eq!(resp.unwrap().status, 200);
}

#[test]
fn test_retry_exhausted() {
    let mut inner = MockHttpClient::new(vec![response(429), response(429), response(429)]);
    let mut client = RateLimitedHttpClient::new(test_config(), 2);
    let exchange = client.get("http://example.com");
    let (result, sleeps) = perform(&mut client, &mut inner, exchange);
    let err = result.unwrap_err();
    assert!(err.to_string().contains("429"));
    assert!(err.to_string().contains("2 retries"));
    assert_eq!(err.to_string(), "HTTP 429: rate limit exceeded after 2 retries");
    assert_eq!(inner.requests, 3);
    assert_eq!(
        sleeps,
        vec![
            Duration::from_millis(2),
            Duration::from_millis(4),
            Duration::from_millis(8)
        ]
    );
}

#[test]
fn exhausted_retries_report_the_last_status() {
    let mut inner = MockHttpClient::new(vec![response(429), response(403)]);
    let mut client = RateLimitedHttpClient::new(test_config(), 1);
    let exchange = client.get("http://example.com");
    let (result, _) = perform(&mut client, &mut inner, exchange);
    assert!(matches!(
        result,
        Err(Error::RateLimited { status: 403, retries: 1 })
    ));
}

fn four_seconds() -> RetryConfig {
    RetryConfig {
        safe_interval: Duration::from_secs(4),
        recovery_step: Duration::from_millis(100),
        backoff_multiplier: Multiplier { bits: 2.0f64.to_bits() },
    }
}

#[test]
fn without_retries_a_throttled_request_fails_and_backs_off() {
    let mut inner = MockHttpClient::new(vec![response(429), response(200)]);
    let mut client = RateLimitedHttpClient::new(four_seconds(), 0);
    let exchange = client.get("http://example.com");
    let (result, sleeps) = perform(&mut client, &mut inner, exchange);
    assert_eq!(
        result.unwrap_err().to_string(),
        "HTTP 429: rate limit exceeded after 0 retries"
    );
    assert_eq!(sleeps, vec![Duration::from_secs(8)]);

    let exchange = client.get("http://example.com");
    let (result, sleeps) = perform(&mut client, &mut inner, exchange);
    assert_eq!(result.unwrap().status, 200);
    assert_eq!(sleeps, vec![Duration::from_millis(7900)]);
}

#[test]
fn the_last_throttled_reply_has_its_retry_after_respected() {
    let mut client = RateLimitedHttpClient::new(four_seconds(), 0);
    let mut exchange = client.get("http://example.com");
    match client.on_reply(&mut exchange, Ok(response_with_retry_after("25"))) {
        Step::Fail { delay, .. } => assert_eq!(delay, Duration::from_secs(25)),
        _ => panic!("not failed"),
    }
}

#[test]
fn a_last_wait_that_is_no_length_of_time_leaves_the_interval() {
    let mut client = RateLimitedHttpClient::new(four_seconds(), 0);
    let mut exchange = client.get("http://example.com");
    let reply = Ok(response_with_retry_after("-5"));
    assert!(client.can_handle(&exchange, &reply));
    match client.on_reply(&mut exchange, reply) {
        Step::Fail { delay, error } => {
            assert_eq!(delay, Duration::from_secs(4));
            assert!(matches!(error, Error::RateLimited { status: 429, retries: 0 }));
        }
        _ => panic!("not failed"),
    }

    let mut config = four_seconds();
    config.backoff_multiplier = Multiplier { bits: f64::INFINITY.to_bits() };
    let mut client = RateLimitedHttpClient::new(config, 0);
    match client.on_reply(&mut exchange, Ok(response(403))) {
        Step::Fail { delay, error } => {
            assert_eq!(delay, Duration::from_secs(4));
            assert!(matches!(error, Error::RateLimited { status: 403, retries: 0 }));
        }
        _ => panic!("not failed"),
    }
}

#[test]
fn every_step_sleeps_at_least_the_safe_interval() {
    for multiplier in [0.0f64, 0.5, 1.0, 2.0] {
        let mut config = four_seconds();
        config.backoff_multiplier = Multiplier { bits: multiplier.to_bits() };
        let mut client = RateLimitedHttpClient::new(config, 1);
        for i in 0..50 {
            let mut exchange = client.get("http://example.com");
            loop {
                let reply = match i % 5 {
                    0 => Ok(response(200)),
                    1 => Ok(response(429)),
                    2 => Err(Error::Unsupported("GET")),
                    3 => Ok(response_with_retry_after("1")),
                    _ => Ok(response(500)),
                };
                assert!(client.can_handle(&exchange, &reply));
                let step = client.on_reply(&mut exchange, reply);
                let (delay, done) = match step {
                    Step::Return { delay, .. } => (delay, true),
                    Step::Retry { delay } => (delay, false),
                    Step::Fail { delay, .. } => (delay, true),
                };
                assert!(delay >= Duration::from_secs(4));
                if done {
                    break;
                }
            }
        }
    }
}

#[test]
fn test_no_retry_on_server_error() {
    // 500 is not retried — only 429/403.
    let mut inner = MockHttpClient::new(vec![response(500)]);
    let mut client = RateLimitedHttpClient::new(test_config(), 3);
    let exchange = client.get("http://example.com");
    let (resp, _) = perform(&mut client, &mut inner, exchange);
    assert_eq!(resp.unwrap().status, 500);
}

#[test]
fn test_retry_after_header() {
    let mut inner = MockHttpClient::new(vec![response_with_retry_after("1"), response(200)]);
    let mut client = RateLimitedHttpClient::new(test_config(), 3);
    let exchange = client.get("http://example.com");
    let (resp, sleeps) = perform(&mut client, &mut inner, exchange);
    assert_eq!(resp.unwrap().status, 200);
    assert_eq!(sleeps, vec![Duration::from_secs(1), Duration::from_millis(999)]);
}

#[test]
fn an_error_of_the_inner_client_is_returned_after_the_delay() {
    let mut client = RateLimitedHttpClient::new(test_config(), 3);
    let mut exchange = client.get("http://example.com");
    let step = client.on_reply(&mut exchange, Err(Error::Unsupported("GET")));
    match step {
        Step::Fail { delay, error } => {
            assert_eq!(delay, Duration::from_millis(1));
            assert_eq!(error.to_string(), "GET not supported by this client");
        }
        _ => panic!("not failed"),
    }
    // the interval has not changed
    match client.on_reply(&mut exchange, Ok(response(429))) {
        Step::Retry { delay } => assert_eq!(delay, Duration::from_millis(2)),
        _ => panic!("not retried"),
    }
}

#[test]
fn replies_that_cannot_be_handled_are_told() {
    let client = RateLimitedHttpClient::new(test_config(), 1);
    let exchange = client.get("http://example.com");
    assert!(client.can_handle(&exchange, &Ok(response_with_retry_after("5"))));
    assert!(client.can_handle(&exchange, &Ok(response_with_retry_after("soon"))));
    assert!(!client.can_handle(&exchange, &Ok(response_with_retry_after("-5"))));
    assert!(!client.can_handle(&exchange, &Ok(response_with_retry_after("inf"))));
    let mut success = response_with_retry_after("-5");
    success.status = 200;
    assert!(client.can_handle(&exchange, &Ok(success)));

    let last = RateLimitedHttpClient::new(test_config(), 0);
    assert!(last.can_handle(&exchange, &Ok(response_with_retry_after("-5"))));

    let mut config = test_config();
    config.backoff_multiplier = Multiplier { bits: f64::NAN.to_bits() };
    let broken = RateLimitedHttpClient::new(config, 1);
    assert!(!broken.can_handle(&exchange, &Ok(response(429))));
    assert!(broken.can_handle(&exchange, &Ok(response(200))));
}

#[test]
fn test_parse_retry_after() {
    let resp = response_with_retry_after("25");
    assert_eq!(parse_retry_after(&resp), Some(Duration::from_secs(25)));
}

#[test]
fn test_parse_retry_after_missing() {
    let resp = response(429);
    assert_eq!(parse_retry_after(&resp), None);
}

#[test]
fn test_parse_retry_after_fractional() {
    let resp = response_with_retry_after("1.5");
    assert_eq!(parse_retry_after(&resp), Some(Duration::from_secs_f64(1.5)));
}

#[test]
fn the_first_retry_after_header_counts_whatever_its_case() {
    let mut resp = response(429);
    resp.headers.append("X-Other", HeaderValue::from_static("1"));
    resp.headers.append("Retry-After", HeaderValue::from_static("7"));
    resp.headers.append("retry-after", HeaderValue::from_static("9"));
    assert_eq!(parse_retry_after(&resp), Some(Duration::from_secs(7)));
}

#[test]
fn a_retry_after_header_that_is_no_text_is_ignored() {
    let mut resp = response(429);
    resp.headers
        .insert("retry-after", HeaderValue::from_bytes(b"2\xff").unwrap());
    assert_eq!(parse_retry_after(&resp), None);
    resp.headers
        .insert("retry-after", HeaderValue::from_bytes(b"2\t").unwrap());
    assert_eq!(parse_retry_after(&resp), None);
}

#[test]
fn a_retry_after_header_out_of_range_is_told() {
    assert!(matches!(
        read_retry_after(&response_with_retry_after("-3")),
        RetryAfter::OutOfRange
    ));
    assert!(matches!(
        read_retry_after(&response_with_retry_after("Wed, 21 Oct 2015 07:28:00 GMT")),
        RetryAfter::NotANumber
    ));
}
