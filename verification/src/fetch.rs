//! The decisions of a fetch that retries: what to do after each attempt.
//!
//! The caller sends the request and sleeps; this module says how an attempt
//! that has ended is accounted for and what follows it.
use crate::limiter::registered;
use crate::limiter::registered_all;
use crate::limiter::wait_seconds;
use crate::limiter::OsuAPILimiter;
use vstd::arithmetic::power2::lemma2_to64;
use vstd::arithmetic::power2::lemma2_to64_rest;
use vstd::arithmetic::power2::lemma_pow2_strictly_increases;
use vstd::arithmetic::power2::lemma_pow2_unfold;
use vstd::arithmetic::power2::pow2;
use vstd::prelude::*;

verus! {

/// Why an attempt did not give a response.
#[derive(Copy, Clone, PartialEq, Eq, Structural, Debug)]
pub enum FetchError {
    /// The request did not get through, or no answer came back.
    Transport,
    /// The answer was not of the expected form.
    Decode,
}

/// What follows an attempt.
#[derive(Copy, Clone, PartialEq, Eq, Structural, Debug)]
pub enum AttemptVerdict {
    /// The response is there: hand it to the caller.
    Return,
    /// Sleep for `backoff_seconds`, then make the attempt numbered
    /// `retry_count`.
    Retry { backoff_seconds: u64, retry_count: u32 },
    /// Sleep for `backoff_seconds`, then fail with `error`.
    GiveUp { backoff_seconds: u64, error: FetchError },
}

/// The most retries for which every backoff fits into 64 bits.
pub const MAX_RETRIES_LIMIT: u32 = 63;

/// What follows the attempt numbered `retry_count` (the first is numbered
/// zero) of a fetch that allows `max_retries` retries, when the attempt ended
/// in `outcome`. A failure is answered by a sleep of two to the power of
/// `retry_count` seconds, and then by the next attempt while there is one.
pub open spec fn verdict_of(
    retry_count: u32,
    max_retries: u32,
    outcome: Result<(), FetchError>,
) -> AttemptVerdict {
    match outcome {
        Ok(_) => AttemptVerdict::Return,
        Err(error) => if retry_count < max_retries {
            AttemptVerdict::Retry {
                backoff_seconds: pow2(retry_count as nat) as u64,
                retry_count: (retry_count + 1) as u32,
            }
        } else {
            AttemptVerdict::GiveUp { backoff_seconds: pow2(retry_count as nat) as u64, error }
        },
    }
}

/// One attempt as the caller saw it: how it ended, and what the limiter's
/// clock read when it was registered.
pub struct AttemptEvent {
    pub outcome: Result<(), FetchError>,
    pub at: u128,
}

/// How far a fetch has come.
pub struct FetchRun {
    /// How the fetch ended, if it has.
    pub result: Option<Result<(), FetchError>>,
    /// The attempts made.
    pub attempts: nat,
    /// The seconds slept after failures.
    pub slept: nat,
    /// What the limiter remembers.
    pub stamps: Seq<u128>,
}

/// How far a fetch comes that is about to make the attempt numbered
/// `retry_count`, with a limiter of `limit` requests that remembers
/// `stamps`, when its attempts go as `events` say, in turn. Events behind
/// the one that ends the fetch do not happen.
pub open spec fn fetch_run(
    retry_count: u32,
    max_retries: u32,
    limit: int,
    stamps: Seq<u128>,
    events: Seq<AttemptEvent>,
) -> FetchRun
    decreases events.len(),
{
    if events.len() == 0 {
        FetchRun { result: None, attempts: 0, slept: 0, stamps }
    } else {
        let event = events.first();
        let stamps = registered(limit, stamps, event.at);
        match verdict_of(retry_count, max_retries, event.outcome) {
            AttemptVerdict::Return => FetchRun {
                result: Some(Ok(())),
                attempts: 1,
                slept: 0,
                stamps,
            },
            AttemptVerdict::GiveUp { backoff_seconds, error } => FetchRun {
                result: Some(Err(error)),
                attempts: 1,
                slept: backoff_seconds as nat,
                stamps,
            },
            AttemptVerdict::Retry { backoff_seconds, retry_count } => {
                let rest = fetch_run(retry_count, max_retries, limit, stamps, events.drop_first());
                FetchRun {
                    attempts: rest.attempts + 1,
                    slept: rest.slept + backoff_seconds as nat,
                    ..rest
                }
            },
        }
    }
}

/// When each of `events` was registered.
pub open spec fn times_of(events: Seq<AttemptEvent>) -> Seq<u128> {
    events.map_values(|event: AttemptEvent| event.at)
}

/// Seconds to sleep after the attempt numbered `retry_count` has failed: two
/// to the power of `retry_count`.
pub fn backoff_seconds(retry_count: u32) -> (seconds: u64)
    requires
        retry_count <= MAX_RETRIES_LIMIT,
    ensures
        seconds == pow2(retry_count as nat),
{
    let mut seconds: u64 = 1;
    let mut doubled: u32 = 0;
    proof {
        lemma2_to64();
    }
    while doubled < retry_count
        invariant
            doubled <= retry_count <= MAX_RETRIES_LIMIT,
            seconds == pow2(doubled as nat),
        decreases retry_count - doubled,
    {
        proof {
            lemma_pow2_unfold((doubled + 1) as nat);
            lemma2_to64_rest();
            if doubled + 1 < 63 {
                lemma_pow2_strictly_increases((doubled + 1) as nat, 63);
            }
        }
        seconds = seconds * 2;
        doubled = doubled + 1;
    }
    seconds
}

/// The sleep that a wait of `seconds` asks for: none where the wait is zero.
pub open spec fn sleep_for(seconds: int) -> Option<u64> {
    if seconds == 0 {
        None
    } else {
        Some(seconds as u64)
    }
}

/// How long to sleep before the next request is sent, in seconds; `None` if
/// it may be sent at once.
pub fn wait_on_limiter(limiter: &OsuAPILimiter) -> (sleep: Option<u64>)
    requires
        limiter.wf(),
    ensures
        exists|now: u128|
            limiter.not_before_newest(now) && sleep == sleep_for(
                #[trigger] wait_seconds(
                    limiter.limit() as int,
                    limiter.timeframe_secs() as int,
                    limiter.stamps(),
                    now as int,
                ),
            ),
        sleep matches Some(seconds) ==> 1 <= seconds <= limiter.timeframe_secs(),
        limiter.limit() == 0 || limiter.stamps().len() < limiter.limit() ==> sleep is None,
{
    let wait_time = limiter.time_until_next_request();
    if wait_time == 0 {
        None
    } else {
        Some(wait_time)
    }
}

/// Accounts for the attempt numbered `retry_count` (the first is numbered
/// zero), which has just ended in `outcome`, and says what follows it. The
/// request is registered with `limiter` whether it failed or not, since it
/// was sent.
pub fn exponential_wait_request_attempt(
    retry_count: u32,
    max_retries: u32,
    outcome: Result<(), FetchError>,
    limiter: &mut OsuAPILimiter,
) -> (verdict: AttemptVerdict)
    requires
        retry_count <= max_retries,
        retry_count <= MAX_RETRIES_LIMIT,
        old(limiter).wf(),
    ensures
        verdict == verdict_of(retry_count, max_retries, outcome),
        final(limiter).wf(),
        final(limiter).limit() == old(limiter).limit(),
        final(limiter).timeframe_secs() == old(limiter).timeframe_secs(),
        exists|now: u128|
            old(limiter).not_before_newest(now) && final(limiter).stamps() == #[trigger] registered(
                old(limiter).limit() as int,
                old(limiter).stamps(),
                now,
            ),
{
    limiter.register_request_performed();
    decide_after_attempt(retry_count, max_retries, outcome)
}

/// Accounts for an attempt as
/// [`exponential_wait_request_attempt`] does, for a request that completed
/// when the limiter's clock read `now` microseconds.
pub fn exponential_wait_request_attempt_at(
    retry_count: u32,
    max_retries: u32,
    outcome: Result<(), FetchError>,
    limiter: &mut OsuAPILimiter,
    now: u128,
) -> (verdict: AttemptVerdict)
    requires
        retry_count <= max_retries,
        retry_count <= MAX_RETRIES_LIMIT,
        old(limiter).wf(),
        old(limiter).not_before_newest(now),
    ensures
        verdict == verdict_of(retry_count, max_retries, outcome),
        final(limiter).wf(),
        final(limiter).limit() == old(limiter).limit(),
        final(limiter).timeframe_secs() == old(limiter).timeframe_secs(),
        final(limiter).stamps() == registered(
            old(limiter).limit() as int,
            old(limiter).stamps(),
            now,
        ),
{
    limiter.register_request_performed_at(now);
    decide_after_attempt(retry_count, max_retries, outcome)
}

/// What follows the attempt numbered `retry_count` that ended in `outcome`.
fn decide_after_attempt(retry_count: u32, max_retries: u32, outcome: Result<(), FetchError>) -> (verdict:
    AttemptVerdict)
    requires
        retry_count <= max_retries,
        retry_count <= MAX_RETRIES_LIMIT,
    ensures
        verdict == verdict_of(retry_count, max_retries, outcome),
{
    match outcome {
        Ok(_) => AttemptVerdict::Return,
        Err(error) => {
            let backoff_seconds = backoff_seconds(retry_count);
            if retry_count < max_retries {
                AttemptVerdict::Retry { backoff_seconds, retry_count: retry_count + 1 }
            } else {
                AttemptVerdict::GiveUp { backoff_seconds, error }
            }
        },
    }
}

/// Registering a first request and then others is registering them all.
pub proof fn lemma_registered_all_first(limit: int, stamps: Seq<u128>, times: Seq<u128>)
    requires
        times.len() > 0,
    ensures
        registered_all(limit, stamps, times) == registered_all(
            limit,
            registered(limit, stamps, times.first()),
            times.drop_first(),
        ),
    decreases times.len(),
{
    if times.len() == 1 {
        assert(times.drop_last() =~= Seq::<u128>::empty());
        assert(times.drop_first() =~= Seq::<u128>::empty());
        assert(registered_all(limit, stamps, times.drop_last()) == stamps);
    } else {
        let earlier = times.drop_last();
        lemma_registered_all_first(limit, stamps, earlier);
        assert(earlier.drop_first() =~= times.drop_first().drop_last());
        assert(earlier.first() == times.first());
        assert(times.drop_first().last() == times.last());
    }
}

/// A fetch whose first `failures` attempts fail and whose next succeeds, with
/// retries enough for that, returns the response after `failures + 1`
/// attempts. The limiter has then registered exactly those attempts, and the
/// sleeps after the failures were of 1, 2, 4, ... seconds.
pub proof fn lemma_fetch_returns_after_failures(
    retry_count: u32,
    max_retries: u32,
    limit: int,
    stamps: Seq<u128>,
    events: Seq<AttemptEvent>,
    failures: nat,
)
    requires
        max_retries <= MAX_RETRIES_LIMIT,
        retry_count + failures <= max_retries,
        events.len() > failures,
        forall|i: int| 0 <= i < failures ==> (#[trigger] events[i]).outcome is Err,
        events[failures as int].outcome is Ok,
    ensures
        fetch_run(retry_count, max_retries, limit, stamps, events).result == Some(
            Ok::<(), FetchError>(()),
        ),
        fetch_run(retry_count, max_retries, limit, stamps, events).attempts == failures + 1,
        fetch_run(retry_count, max_retries, limit, stamps, events).stamps == registered_all(
            limit,
            stamps,
            times_of(events.take(failures as int + 1)),
        ),
        fetch_run(retry_count, max_retries, limit, stamps, events).slept + pow2(retry_count as nat)
            == pow2(retry_count as nat + failures),
    decreases failures,
{
    let times = times_of(events.take(failures as int + 1));
    lemma_registered_all_first(limit, stamps, times);
    assert(times.first() == events.first().at);
    assert(times.drop_first() =~= times_of(events.drop_first().take(failures as int)));
    if failures == 0 {
        assert(times.drop_first() =~= Seq::<u128>::empty());
    } else {
        assert(events[0].outcome is Err);
        let rest = events.drop_first();
        assert forall|i: int| 0 <= i < failures - 1 implies (#[trigger] rest[i]).outcome is Err by {
            assert(events[i + 1].outcome is Err);
        }
        lemma_fetch_returns_after_failures(
            (retry_count + 1) as u32,
            max_retries,
            limit,
            registered(limit, stamps, events.first().at),
            rest,
            (failures - 1) as nat,
        );
        lemma_backoff_fits(retry_count);
        lemma_pow2_unfold((retry_count + 1) as nat);
    }
}

/// A fetch all of whose attempts fail gives up after the last retry: it has
/// then made `max_retries + 1` attempts, counted from the first, and fails
/// with the error of the last one.
pub proof fn lemma_fetch_gives_up_when_exhausted(
    retry_count: u32,
    max_retries: u32,
    limit: int,
    stamps: Seq<u128>,
    events: Seq<AttemptEvent>,
)
    requires
        max_retries <= MAX_RETRIES_LIMIT,
        retry_count <= max_retries,
        events.len() > max_retries - retry_count,
        forall|i: int| 0 <= i <= max_retries - retry_count ==> (#[trigger] events[i]).outcome is Err,
    ensures
        fetch_run(retry_count, max_retries, limit, stamps, events).result == Some(
            Err::<(), FetchError>(events[max_retries - retry_count].outcome->Err_0),
        ),
        fetch_run(retry_count, max_retries, limit, stamps, events).attempts == max_retries
            - retry_count + 1,
        fetch_run(retry_count, max_retries, limit, stamps, events).stamps == registered_all(
            limit,
            stamps,
            times_of(events.take(max_retries - retry_count + 1)),
        ),
        fetch_run(retry_count, max_retries, limit, stamps, events).slept + pow2(retry_count as nat)
            == pow2((max_retries + 1) as nat),
    decreases max_retries - retry_count,
{
    let left = max_retries - retry_count;
    let times = times_of(events.take(left + 1));
    lemma_registered_all_first(limit, stamps, times);
    assert(times.first() == events.first().at);
    assert(times.drop_first() =~= times_of(events.drop_first().take(left)));
    assert(events[0].outcome is Err);
    lemma_backoff_fits(retry_count);
    lemma_pow2_unfold((retry_count + 1) as nat);
    if left == 0 {
        assert(times.drop_first() =~= Seq::<u128>::empty());
    } else {
        let rest = events.drop_first();
        assert forall|i: int| 0 <= i <= left - 1 implies (#[trigger] rest[i]).outcome is Err by {
            assert(events[i + 1].outcome is Err);
        }
        lemma_fetch_gives_up_when_exhausted(
            (retry_count + 1) as u32,
            max_retries,
            limit,
            registered(limit, stamps, events.first().at),
            rest,
        );
        assert(rest[left - 1] == events[left]);
    }
}

/// Every backoff within the limit on retries fits into 64 bits.
pub proof fn lemma_backoff_fits(retry_count: u32)
    requires
        retry_count <= MAX_RETRIES_LIMIT,
    ensures
        pow2(retry_count as nat) <= 0x8000_0000_0000_0000,
        pow2(retry_count as nat) as u64 == pow2(retry_count as nat),
{
    lemma2_to64_rest();
    if retry_count < 63 {
        lemma_pow2_strictly_increases(retry_count as nat, 63);
    }
}

} // verus!
