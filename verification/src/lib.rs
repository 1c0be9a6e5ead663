//! Rate-limited HTTP client with respectful retry backoff.
//!
//! Two layers, used independently or together:
//!
//!  - [`RespectfulRetry`]: a pure, IO-free rate-limit state machine. Steady-state
//!    request spacing, multiplicative backoff on throttling (HTTP 429/403), linear
//!    recovery on success, and `Retry-After` honored. It does no sleeping and no
//!    network: you feed it outcomes and it returns how long to wait. Own one per
//!    host (or per logical stream) and drive it yourself.
//!  - [`ReqwestHttpClient`] / [`RateLimitedHttpClient`]: a pooled `reqwest` backend
//!    that prepares requests, and the decisions of a decorator that paces and retries
//!    a *sequential* caller transparently. Sending and sleeping are the caller's.

pub mod binary64;
pub mod decimal;
pub mod error;
pub mod http;
pub mod http_laws;
pub mod reading_laws;
pub mod reqwest_client;
pub mod respectful_retry;
pub mod retry_after;
pub mod retry_laws;
pub mod rounding;
pub mod time;

pub use binary64::Multiplier;
pub use error::Error;
pub use http::{
    parse_retry_after, read_retry_after, Exchange, HttpResponse, RateLimitedHttpClient,
    RequestSpec, Step,
};
pub use reqwest_client::ReqwestHttpClient;
pub use respectful_retry::{RequestOutcome, RespectfulRetry, RetryConfig};
pub use retry_after::RetryAfter;
