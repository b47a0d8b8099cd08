use osu_dump::limiter::OsuAPILimiter;

#[test]
fn fresh_limiter_asks_for_no_wait() {
    let limiter = OsuAPILimiter::new(3, 10);
    assert_eq!(limiter.recorded_requests(), 0);
    assert_eq!(limiter.time_until_next_request(), 0);
    assert_eq!(limiter.time_until_next_request_at(0), 0);
    assert_eq!(limiter.time_until_next_request_at(u128::MAX), 0);
}

#[test]
fn full_window_asks_for_a_wait_within_the_window() {
    let mut limiter = OsuAPILimiter::new(3, 10);
    limiter.register_request_performed();
    limiter.register_request_performed();
    limiter.register_request_performed();
    assert_eq!(limiter.recorded_requests(), 3);
    let wait = limiter.time_until_next_request();
    assert!(1 <= wait && wait <= 10, "wait was {}", wait);
}

#[test]
fn full_window_of_one_request_asks_for_a_wait() {
    let mut limiter = OsuAPILimiter::new(1, 5);
    limiter.register_request_performed();
    let wait = limiter.time_until_next_request();
    assert!(1 <= wait && wait <= 5, "wait was {}", wait);
}

#[test]
fn fewer_requests_than_the_limit_ask_for_no_wait() {
    let mut limiter = OsuAPILimiter::new(3, 10);
    limiter.register_request_performed();
    assert_eq!(limiter.time_until_next_request(), 0);
    limiter.register_request_performed();
    assert_eq!(limiter.recorded_requests(), 2);
    assert_eq!(limiter.time_until_next_request(), 0);
}

#[test]
fn unlimited_limiter_never_asks_for_a_wait() {
    let mut limiter = OsuAPILimiter::new(0, 60);
    assert_eq!(limiter.time_until_next_request(), 0);
    for _ in 0..100 {
        limiter.register_request_performed();
        assert_eq!(limiter.time_until_next_request(), 0);
    }
    assert_eq!(limiter.recorded_requests(), 0);
    limiter.register_request_performed_at(5);
    assert_eq!(limiter.recorded_requests(), 0);
    assert_eq!(limiter.time_until_next_request_at(5), 0);
}

#[test]
fn wait_is_the_rest_of_the_window_in_whole_seconds() {
    let mut limiter = OsuAPILimiter::new(2, 60);
    limiter.register_request_performed_at(10);
    assert_eq!(limiter.time_until_next_request_at(10), 0);
    limiter.register_request_performed_at(20);
    // the oldest request, made at 10, leaves the window at 60_000_010
    assert_eq!(limiter.time_until_next_request_at(20), 60);
    assert_eq!(limiter.time_until_next_request_at(1_000_009), 60);
    assert_eq!(limiter.time_until_next_request_at(1_000_010), 59);
    assert_eq!(limiter.time_until_next_request_at(1_000_011), 59);
    assert_eq!(limiter.time_until_next_request_at(30_000_010), 30);
    assert_eq!(limiter.time_until_next_request_at(59_000_010), 1);
    assert_eq!(limiter.time_until_next_request_at(60_000_009), 1);
    assert_eq!(limiter.time_until_next_request_at(60_000_010), 0);
    assert_eq!(limiter.time_until_next_request_at(60_000_011), 0);
    assert_eq!(limiter.time_until_next_request_at(u128::MAX), 0);
}

#[test]
fn a_clock_that_reads_early_counts_the_oldest_request_as_new() {
    let mut limiter = OsuAPILimiter::new(1, 5);
    limiter.register_request_performed_at(1_000);
    assert_eq!(limiter.time_until_next_request_at(0), 5);
    assert_eq!(limiter.time_until_next_request_at(999), 5);
    assert_eq!(limiter.time_until_next_request_at(1_000), 5);
    assert_eq!(limiter.time_until_next_request_at(1_001), 5);
}

#[test]
fn the_oldest_request_is_forgotten_when_the_window_is_full() {
    let mut limiter = OsuAPILimiter::new(2, 10);
    limiter.register_request_performed_at(0);
    limiter.register_request_performed_at(4_000_000);
    assert_eq!(limiter.recorded_requests(), 2);
    assert_eq!(limiter.time_until_next_request_at(4_000_000), 6);
    limiter.register_request_performed_at(10_000_000);
    assert_eq!(limiter.recorded_requests(), 2);
    // the oldest is now the request made at 4_000_000
    assert_eq!(limiter.time_until_next_request_at(10_000_000), 4);
    assert_eq!(limiter.time_until_next_request_at(13_999_999), 1);
    assert_eq!(limiter.time_until_next_request_at(14_000_000), 0);
}

#[test]
fn a_window_of_no_seconds_never_asks_for_a_wait() {
    let mut limiter = OsuAPILimiter::new(1, 0);
    limiter.register_request_performed_at(7);
    assert_eq!(limiter.recorded_requests(), 1);
    assert_eq!(limiter.time_until_next_request_at(7), 0);
    limiter.register_request_performed();
    assert_eq!(limiter.time_until_next_request(), 0);
}

#[test]
fn widest_window_is_waited_out_in_full() {
    let mut limiter = OsuAPILimiter::new(u16::MAX, u16::MAX);
    for _ in 0..u16::MAX {
        limiter.register_request_performed_at(3);
    }
    assert_eq!(limiter.recorded_requests(), 65535);
    assert_eq!(limiter.time_until_next_request_at(3), 65535);
    assert_eq!(limiter.time_until_next_request_at(65_534_000_003), 1);
    assert_eq!(limiter.time_until_next_request_at(65_535_000_003), 0);
}

#[test]
fn requests_made_by_the_clock_are_kept_in_order() {
    let mut limiter = OsuAPILimiter::new(2, 5);
    limiter.register_request_performed();
    limiter.register_request_performed();
    limiter.register_request_performed();
    assert_eq!(limiter.recorded_requests(), 2);
    let wait = limiter.time_until_next_request();
    assert!(1 <= wait && wait <= 5, "wait was {}", wait);
}
