use osu_dump::fetch::backoff_seconds;
use osu_dump::fetch::exponential_wait_request_attempt;
use osu_dump::fetch::exponential_wait_request_attempt_at;
use osu_dump::fetch::wait_on_limiter;
use osu_dump::fetch::AttemptVerdict;
use osu_dump::fetch::FetchError;
use osu_dump::fetch::MAX_RETRIES_LIMIT;
use osu_dump::limiter::OsuAPILimiter;

/// Runs a fetch against outcomes given in advance, as a caller would, and
/// says how it ended, how many attempts were made and how long was slept.
fn run_fetch(
    outcomes: &[Result<(), FetchError>],
    max_retries: u32,
    limiter: &mut OsuAPILimiter,
) -> (Result<(), FetchError>, u32, u64) {
    let mut retry_count = 0;
    let mut attempts = 0;
    let mut slept = 0;
    loop {
        let outcome = outcomes[attempts as usize];
        attempts += 1;
        match exponential_wait_request_attempt(retry_count, max_retries, outcome, limiter) {
            AttemptVerdict::Return => return (Ok(()), attempts, slept),
            AttemptVerdict::Retry { backoff_seconds, retry_count: next } => {
                slept += backoff_seconds;
                retry_count = next;
            }
            AttemptVerdict::GiveUp { backoff_seconds, error } => {
                slept += backoff_seconds;
                return (Err(error), attempts, slept);
            }
        }
    }
}

#[test]
fn backoff_doubles_with_each_attempt() {
    assert_eq!(backoff_seconds(0), 1);
    assert_eq!(backoff_seconds(1), 2);
    assert_eq!(backoff_seconds(2), 4);
    assert_eq!(backoff_seconds(3), 8);
    assert_eq!(backoff_seconds(10), 1024);
    assert_eq!(backoff_seconds(32), 4_294_967_296);
    assert_eq!(backoff_seconds(MAX_RETRIES_LIMIT), 9_223_372_036_854_775_808);
}

#[test]
fn success_is_returned_at_once() {
    let mut limiter = OsuAPILimiter::new(50, 60);
    let verdict = exponential_wait_request_attempt(0, 3, Ok(()), &mut limiter);
    assert_eq!(verdict, AttemptVerdict::Return);
    assert_eq!(limiter.recorded_requests(), 1);
}

#[test]
fn failure_is_retried_after_a_backoff() {
    let mut limiter = OsuAPILimiter::new(50, 60);
    let verdict =
        exponential_wait_request_attempt(0, 3, Err(FetchError::Transport), &mut limiter);
    assert_eq!(verdict, AttemptVerdict::Retry { backoff_seconds: 1, retry_count: 1 });
    let verdict = exponential_wait_request_attempt(1, 3, Err(FetchError::Decode), &mut limiter);
    assert_eq!(verdict, AttemptVerdict::Retry { backoff_seconds: 2, retry_count: 2 });
    let verdict =
        exponential_wait_request_attempt(2, 3, Err(FetchError::Transport), &mut limiter);
    assert_eq!(verdict, AttemptVerdict::Retry { backoff_seconds: 4, retry_count: 3 });
    assert_eq!(limiter.recorded_requests(), 3);
}

#[test]
fn last_failure_gives_up_with_its_error() {
    let mut limiter = OsuAPILimiter::new(50, 60);
    let verdict = exponential_wait_request_attempt(3, 3, Err(FetchError::Decode), &mut limiter);
    assert_eq!(verdict, AttemptVerdict::GiveUp { backoff_seconds: 8, error: FetchError::Decode });
    let verdict =
        exponential_wait_request_attempt(0, 0, Err(FetchError::Transport), &mut limiter);
    assert_eq!(
        verdict,
        AttemptVerdict::GiveUp { backoff_seconds: 1, error: FetchError::Transport }
    );
    assert_eq!(limiter.recorded_requests(), 2);
}

#[test]
fn success_on_the_last_attempt_is_returned() {
    let mut limiter = OsuAPILimiter::new(50, 60);
    let verdict = exponential_wait_request_attempt(3, 3, Ok(()), &mut limiter);
    assert_eq!(verdict, AttemptVerdict::Return);
}

#[test]
fn fetch_returns_after_failures_and_registers_each_attempt() {
    for failures in 0..3usize {
        let mut outcomes = vec![Err(FetchError::Transport); failures];
        outcomes.push(Ok(()));
        let mut limiter = OsuAPILimiter::new(50, 60);
        let (result, attempts, slept) = run_fetch(&outcomes, 3, &mut limiter);
        assert_eq!(result, Ok(()));
        assert_eq!(attempts as usize, failures + 1);
        assert_eq!(limiter.recorded_requests(), failures + 1);
        assert_eq!(slept, (1u64 << failures) - 1);
    }
}

#[test]
fn fetch_that_always_fails_stops_after_the_last_retry() {
    let outcomes = vec![
        Err(FetchError::Transport),
        Err(FetchError::Transport),
        Err(FetchError::Transport),
        Err(FetchError::Decode),
        Err(FetchError::Transport),
        Err(FetchError::Transport),
    ];
    let mut limiter = OsuAPILimiter::new(50, 60);
    let (result, attempts, slept) = run_fetch(&outcomes, 3, &mut limiter);
    assert_eq!(result, Err(FetchError::Decode));
    assert_eq!(attempts, 4);
    assert_eq!(limiter.recorded_requests(), 4);
    assert_eq!(slept, 1 + 2 + 4 + 8);
}

#[test]
fn fetch_without_retries_fails_on_the_first_failure() {
    let outcomes = vec![Err(FetchError::Decode), Ok(())];
    let mut limiter = OsuAPILimiter::new(0, 60);
    let (result, attempts, slept) = run_fetch(&outcomes, 0, &mut limiter);
    assert_eq!(result, Err(FetchError::Decode));
    assert_eq!(attempts, 1);
    assert_eq!(slept, 1);
    assert_eq!(limiter.recorded_requests(), 0);
}

#[test]
fn attempt_is_registered_at_the_given_time() {
    let mut limiter = OsuAPILimiter::new(1, 10);
    let verdict =
        exponential_wait_request_attempt_at(0, 3, Err(FetchError::Transport), &mut limiter, 500);
    assert_eq!(verdict, AttemptVerdict::Retry { backoff_seconds: 1, retry_count: 1 });
    assert_eq!(limiter.recorded_requests(), 1);
    assert_eq!(limiter.time_until_next_request_at(1_000_500), 9);
    let verdict = exponential_wait_request_attempt_at(1, 3, Ok(()), &mut limiter, 2_000_500);
    assert_eq!(verdict, AttemptVerdict::Return);
    assert_eq!(limiter.recorded_requests(), 1);
    assert_eq!(limiter.time_until_next_request_at(2_000_500), 10);
}

#[test]
fn limiter_is_waited_on_only_when_the_window_is_full() {
    let mut limiter = OsuAPILimiter::new(2, 30);
    assert_eq!(wait_on_limiter(&limiter), None);
    limiter.register_request_performed();
    assert_eq!(wait_on_limiter(&limiter), None);
    limiter.register_request_performed();
    let sleep = wait_on_limiter(&limiter);
    assert!(matches!(sleep, Some(seconds) if 1 <= seconds && seconds <= 30));
    let unlimited = OsuAPILimiter::new(0, 30);
    assert_eq!(wait_on_limiter(&unlimited), None);
}
