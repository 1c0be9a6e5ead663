use crate::error::Error;
use crate::http::{
    can_wait, interval_after_reply, retry_after, settled, throttled_interval, Exchange,
    HttpResponse, RateLimitedHttpClient, Step,
};
use crate::respectful_retry::{back_off, can_back_off, next_interval, RequestOutcome, RetryConfig};
use crate::retry_after::Reading;
use crate::time::nanos_of;
use vstd::prelude::*;

verus! {

/// What a caller gets in the end if the attempts, from this one on, are answered by
/// `replies`; `None` if there are not enough of them.
pub open spec fn answer_from(
    replies: Seq<Result<HttpResponse, Error>>,
    attempt: u32,
    max_retries: u32,
) -> Option<Result<HttpResponse, Error>>
    decreases max_retries - attempt,
{
    if attempt >= replies.len() || attempt > max_retries {
        None
    } else {
        match settled(replies[attempt as int], attempt, max_retries) {
            Some(result) => Some(result),
            None => if attempt < max_retries {
                answer_from(replies, (attempt + 1) as u32, max_retries)
            } else {
                None
            },
        }
    }
}

/// How many of the attempts, from this one on, are made.
pub open spec fn attempts_from(
    replies: Seq<Result<HttpResponse, Error>>,
    attempt: u32,
    max_retries: u32,
) -> nat
    decreases max_retries - attempt,
{
    if attempt >= replies.len() || attempt > max_retries {
        0
    } else if settled(replies[attempt as int], attempt, max_retries) is None && attempt
        < max_retries {
        1 + attempts_from(replies, (attempt + 1) as u32, max_retries)
    } else {
        1
    }
}

/// The reply is a response that asks the client to slow down.
pub open spec fn throttles(reply: Result<HttpResponse, Error>) -> bool {
    reply is Ok && (reply->Ok_0.status == 429 || reply->Ok_0.status == 403)
}

/// Retries are transparent: the caller gets the first reply that is not throttled, if it
/// comes within the retry budget, and no request is sent after it.
pub proof fn lemma_first_unthrottled_reply_is_returned(
    replies: Seq<Result<HttpResponse, Error>>,
    first: u32,
    max_retries: u32,
)
    requires
        first <= max_retries,
        first < replies.len(),
        !throttles(replies[first as int]),
        forall|i: int| 0 <= i < first ==> throttles(#[trigger] replies[i]),
    ensures
        answer_from(replies, 0, max_retries) == Some(replies[first as int]),
        attempts_from(replies, 0, max_retries) == first + 1,
{
    lemma_first_from(replies, 0, first, max_retries);
}

proof fn lemma_first_from(
    replies: Seq<Result<HttpResponse, Error>>,
    attempt: u32,
    first: u32,
    max_retries: u32,
)
    requires
        attempt <= first <= max_retries,
        first < replies.len(),
        !throttles(replies[first as int]),
        forall|i: int| 0 <= i < first ==> throttles(#[trigger] replies[i]),
    ensures
        answer_from(replies, attempt, max_retries) == Some(replies[first as int]),
        attempts_from(replies, attempt, max_retries) == first - attempt + 1,
    decreases first - attempt,
{
    if attempt < first {
        assert(throttles(replies[attempt as int]));
        lemma_first_from(replies, (attempt + 1) as u32, first, max_retries);
    }
}

/// If every attempt is throttled the caller gets the last status and the number of retries,
/// after one attempt and so many retries.
pub proof fn lemma_retries_exhausted(
    replies: Seq<Result<HttpResponse, Error>>,
    max_retries: u32,
)
    requires
        max_retries < replies.len(),
        forall|i: int| 0 <= i <= max_retries ==> throttles(#[trigger] replies[i]),
    ensures
        answer_from(replies, 0, max_retries) == Some(
            Err::<HttpResponse, Error>(
                Error::RateLimited {
                    status: replies[max_retries as int]->Ok_0.status,
                    retries: max_retries,
                },
            ),
        ),
        attempts_from(replies, 0, max_retries) == max_retries + 1,
{
    lemma_exhausted_from(replies, 0, max_retries);
}

proof fn lemma_exhausted_from(
    replies: Seq<Result<HttpResponse, Error>>,
    attempt: u32,
    max_retries: u32,
)
    requires
        attempt <= max_retries < replies.len(),
        forall|i: int| 0 <= i <= max_retries ==> throttles(#[trigger] replies[i]),
    ensures
        answer_from(replies, attempt, max_retries) == Some(
            Err::<HttpResponse, Error>(
                Error::RateLimited {
                    status: replies[max_retries as int]->Ok_0.status,
                    retries: max_retries,
                },
            ),
        ),
        attempts_from(replies, attempt, max_retries) == max_retries - attempt + 1,
    decreases max_retries - attempt,
{
    assert(throttles(replies[attempt as int]));
    if attempt < max_retries {
        lemma_exhausted_from(replies, (attempt + 1) as u32, max_retries);
    }
}

/// No request is sent more often than once and `max_retries` times again.
pub proof fn lemma_attempts_bounded(
    replies: Seq<Result<HttpResponse, Error>>,
    attempt: u32,
    max_retries: u32,
)
    requires
        attempt <= max_retries,
    ensures
        attempts_from(replies, attempt, max_retries) <= max_retries - attempt + 1,
    decreases max_retries - attempt,
{
    if attempt < max_retries {
        lemma_attempts_bounded(replies, (attempt + 1) as u32, max_retries);
    }
}

/// Only the statuses 429 and 403 ask for a retry: a response of any other status is the caller's
/// at once, on whatever attempt it comes. A response of these two is never returned: the
/// request is sent again, or fails with its status once the retries are used up. An error is
/// the caller's.
pub proof fn lemma_what_is_handed_to_the_caller(
    reply: Result<HttpResponse, Error>,
    attempt: u32,
    max_retries: u32,
)
    ensures
        match reply {
            Err(error) => settled(reply, attempt, max_retries) == Some(
                Err::<HttpResponse, Error>(error),
            ),
            Ok(response) => {
                &&& response.status != 429 && response.status != 403 ==> settled(
                    reply,
                    attempt,
                    max_retries,
                ) == Some(Ok::<HttpResponse, Error>(response))
                &&& response.status == 429 || response.status == 403 ==> {
                    &&& attempt != max_retries ==> settled(reply, attempt, max_retries) is None
                    &&& attempt == max_retries ==> settled(reply, attempt, max_retries) == Some(
                        Err::<HttpResponse, Error>(
                            Error::RateLimited { status: response.status, retries: max_retries },
                        ),
                    )
                }
            },
        },
{
}

/// A reply can be handled unless it is a 429 or 403 that is to be retried after a wait that is
/// no length of time.
pub proof fn lemma_what_can_be_handled(
    client: RateLimitedHttpClient,
    exchange: Exchange<'_>,
    reply: Result<HttpResponse, Error>,
)
    ensures
        client.handles(exchange, reply) <==> !(reply matches Ok(response) && (response.status == 429
            || response.status == 403) && exchange.attempt() < client.max_retries() && (
        retry_after(response) is OutOfRange || !can_back_off(
            client.limiter().interval(),
            client.limiter().config().backoff_multiplier,
        ))),
{
}

/// A step tells the sleep and the result that it holds.
pub proof fn lemma_step_tells_its_parts(
    delay: std::time::Duration,
    response: HttpResponse,
    error: Error,
)
    ensures
        (Step::Return { delay, response }).delay() == delay,
        (Step::Return { delay, response }).result() == Some(Ok::<HttpResponse, Error>(response)),
        (Step::Retry { delay }).delay() == delay,
        (Step::Retry { delay }).result() is None,
        (Step::Fail { delay, error }).delay() == delay,
        (Step::Fail { delay, error }).result() == Some(Err::<HttpResponse, Error>(error)),
{
}

/// Any response but a 429 or 403 is a success to the limiter, whatever its status, headers and
/// body: it takes one step off the interval, or the interval becomes the safe one.
pub proof fn lemma_other_responses_recover(
    interval: nat,
    config: RetryConfig,
    response: HttpResponse,
)
    requires
        response.status != 429,
        response.status != 403,
    ensures
        ({
            let next = interval_after_reply(interval, config, Ok(response));
            let safe = nanos_of(config.safe_interval);
            let step = nanos_of(config.recovery_step);
            &&& next == next_interval(interval, config, RequestOutcome::Success)
            &&& interval >= safe + step ==> next == interval - step
            &&& interval < safe + step ==> next == safe
        }),
{
}

/// Two responses that are no 429 or 403 have the same wait after them.
pub proof fn lemma_other_responses_are_alike(
    interval: nat,
    config: RetryConfig,
    a: HttpResponse,
    b: HttpResponse,
)
    requires
        a.status != 429 && a.status != 403,
        b.status != 429 && b.status != 403,
    ensures
        interval_after_reply(interval, config, Ok(a)) == interval_after_reply(
            interval,
            config,
            Ok(b),
        ),
{
}

/// An error of the client that is decorated says nothing about the rate: the interval stays.
pub proof fn lemma_errors_keep_the_interval(interval: nat, config: RetryConfig, error: Error)
    ensures
        interval_after_reply(interval, config, Err(error)) == interval,
{
}

/// After a 429 or 403 the interval is the longest of the product, the safe interval and the
/// wait of the Retry-After header, and no longer; it stays where that is no length of time.
pub proof fn lemma_throttled_response_waits_longest(
    interval: nat,
    config: RetryConfig,
    response: HttpResponse,
)
    requires
        response.status == 429 || response.status == 403,
    ensures
        ({
            let next = interval_after_reply(interval, config, Ok(response));
            let product = back_off(interval, config.backoff_multiplier);
            let safe = nanos_of(config.safe_interval);
            if can_back_off(interval, config.backoff_multiplier) && !(retry_after(
                response,
            ) is OutOfRange) {
                &&& next >= product && next >= safe
                &&& retry_after(response) matches Reading::Wait(wait) ==> next >= wait
                &&& next == product || next == safe || retry_after(response) == Reading::Wait(next)
            } else {
                next == interval
            }
        }),
{
}

/// A run of responses without a 429 or 403 among them recovers linearly: each takes off one
/// step, down to the safe interval, which then holds.
pub proof fn lemma_run_of_other_responses_recovers(
    interval: nat,
    config: RetryConfig,
    replies: Seq<Result<HttpResponse, Error>>,
)
    requires
        interval >= nanos_of(config.safe_interval),
        forall|i: int|
            0 <= i < replies.len() ==> (#[trigger] replies[i]) is Ok && replies[i]->Ok_0.status
                != 429 && replies[i]->Ok_0.status != 403,
    ensures
        ({
            let next = interval_after_replies(interval, config, replies);
            let safe = nanos_of(config.safe_interval);
            let taken = replies.len() * nanos_of(config.recovery_step);
            &&& interval >= safe + taken ==> next == interval - taken
            &&& interval < safe + taken ==> next == safe
        }),
    decreases replies.len(),
{
    let step = nanos_of(config.recovery_step);
    if replies.len() > 0 {
        let fewer = replies.drop_last();
        assert forall|i: int| 0 <= i < fewer.len() implies (#[trigger] fewer[i]) is Ok
            && fewer[i]->Ok_0.status != 429 && fewer[i]->Ok_0.status != 403 by {
            assert(fewer[i] == replies[i]);
        }
        lemma_run_of_other_responses_recovers(interval, config, fewer);
        let last = replies[replies.len() - 1];
        assert(last is Ok);
        lemma_other_responses_recover(
            interval_after_replies(interval, config, fewer),
            config,
            last->Ok_0,
        );
        assert(replies.len() * step == fewer.len() * step + step) by (nonlinear_arith)
            requires
                replies.len() == fewer.len() + 1,
        ;
    } else {
        assert(replies.len() * step == 0) by (nonlinear_arith)
            requires
                replies.len() == 0,
        ;
    }
}

/// Every request is spaced at least the safe interval apart: whatever the reply is, the sleep
/// after it lasts that long, and the next one will, too.
pub proof fn lemma_requests_are_paced(
    interval: nat,
    config: RetryConfig,
    reply: Result<HttpResponse, Error>,
)
    requires
        interval >= nanos_of(config.safe_interval),
    ensures
        interval_after_reply(interval, config, reply) >= nanos_of(config.safe_interval),
{
}

/// The limiter's interval after these replies, to one request or to many.
pub open spec fn interval_after_replies(
    interval: nat,
    config: RetryConfig,
    replies: Seq<Result<HttpResponse, Error>>,
) -> nat
    decreases replies.len(),
{
    if replies.len() == 0 {
        interval
    } else {
        interval_after_reply(
            interval_after_replies(interval, config, replies.drop_last()),
            config,
            replies.last(),
        )
    }
}

/// A client that starts at the safe interval stays paced for good: the sleep after each reply,
/// failures and exhausted retries included, lasts at least that long.
pub proof fn lemma_every_run_is_paced(
    config: RetryConfig,
    replies: Seq<Result<HttpResponse, Error>>,
)
    ensures
        interval_after_replies(nanos_of(config.safe_interval), config, replies) >= nanos_of(
            config.safe_interval,
        ),
    decreases replies.len(),
{
    if replies.len() > 0 {
        lemma_every_run_is_paced(config, replies.drop_last());
    }
}

/// Every throttled response backs off, the last one of a request like the others: the next
/// interval is the product, or longer.
pub proof fn lemma_throttled_response_backs_off(
    interval: nat,
    config: RetryConfig,
    reply: Result<HttpResponse, Error>,
)
    requires
        throttles(reply),
        can_wait(interval, config, reply->Ok_0),
    ensures
        interval_after_reply(interval, config, reply) >= back_off(
            interval,
            config.backoff_multiplier,
        ),
        retry_after(reply->Ok_0) is NotANumber ==> interval_after_reply(interval, config, reply)
            == next_interval(interval, config, RequestOutcome::Throttled),
{
}

/// The decorator waits as long as the server asks for, or as long as the backoff takes,
/// whichever is longer.
pub proof fn lemma_retry_after_respected(interval: nat, config: RetryConfig, wait: nat)
    ensures
        ({
            let next = throttled_interval(interval, config, Reading::Wait(wait));
            let backed_off = next_interval(interval, config, RequestOutcome::Throttled);
            &&& next >= wait
            &&& next >= backed_off
            &&& next == wait || next == backed_off
        }),
{
}

}
