# respectful-http

A rate-limited HTTP client with respectful retry backoff. Be a well-behaved API
consumer: space requests out, back off on `429`/`403`, honor `Retry-After`, and
recover gradually once the server is happy again.

- **`RespectfulRetry`** is a pure, IO-free rate-limit state machine. Steady-state
  spacing at `safe_interval`; multiplicative backoff on throttling; linear recovery
  on success; `Retry-After` honored (max of backoff vs. the server's ask). It does no
  sleeping and no network: you feed it outcomes, it returns how long to wait. Own one
  per host (or per logical stream) and drive it yourself.
- **`RateLimitedHttpClient`** decides, reply by reply, what a decorator does that paces
  and retries a *sequential* caller: return, retry or fail, and how long to sleep before.
- **`ReqwestHttpClient`** prepares requests on a pooled `reqwest` client.

## Layout

`src/` is the library, verified with Verus. `app/` is the asynchronous shell around it:
the `HttpClient` trait, sending, and sleeping.

| module             | content                                                            |
|--------------------|--------------------------------------------------------------------|
| `respectful_retry` | the rate limiter                                                   |
| `retry_laws`       | what holds of it over any run of requests                          |
| `http`             | responses, the `Retry-After` header, the decorator's decisions     |
| `http_laws`        | what a caller gets for any list of replies                         |
| `reqwest_client`   | preparing requests                                                 |
| `error`            | errors and their messages                                          |
| `retry_after`      | reading a number of seconds                                        |
| `decimal`          | decimal numbers as texts                                           |
| `binary64`         | seconds as IEEE 754 binary64 numbers                               |
| `rounding`         | rounding to 53 significant digits                                  |
| `time`             | durations                                                          |

## Numbers

The backoff multiplier and the seconds of a `Retry-After` header are IEEE 754 binary64
numbers. The library computes with them in integers, and its contracts say which number
each operation gives: the nearest one, and of two that are equally near, the even one. A
`Multiplier` holds the bit pattern (`f64::to_bits`).

Backing off can leave the range of durations, and so can a `Retry-After` header (negative,
infinite, or `2^64` seconds and more). `RespectfulRetry::can_update`,
`RateLimitedHttpClient::can_handle` and `read_retry_after` tell.

## Headers

A request takes any number of values for a header name, and some 6,500 names without fail.
`ReqwestHttpClient::can_get_with_headers` and `can_post_form` tell.

## Concurrency

The decorator paces *successive* calls (it sleeps after each request); it does **not**
serialize a concurrent burst. For concurrent, multi-host work, shard requests per host
onto a single worker each, and give every worker its own `RespectfulRetry`.
