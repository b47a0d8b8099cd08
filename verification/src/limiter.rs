//! Sliding-window request limiter.
//!
//! The limiter remembers when the most recent requests were made, as
//! microseconds on its own monotonic clock, and answers how long a caller has
//! to wait before the next request fits into the window. It never sleeps
//! itself.
use std::collections::VecDeque;
use std::time::Duration;
use std::time::Instant;
use vstd::prelude::*;

verus! {

/// Microseconds in one second.
pub const MICROS_PER_SECOND: u128 = 1_000_000;

/// `std::time::Instant`: a reading of the monotonic clock. Nothing is known
/// of what it holds.
#[verifier::external_type_specification]
#[verifier::external_body]
pub struct ExInstant(std::time::Instant);

/// `Instant::now` reads the monotonic clock. Nothing is claimed of the
/// reading.
pub assume_specification[ Instant::now ]() -> Instant;

/// `Instant::elapsed` gives the time that has passed since the instant was
/// taken. Nothing is claimed of the amount.
pub assume_specification[ Instant::elapsed ](start: &Instant) -> Duration;

/// `Duration::as_micros` gives the whole microseconds of a duration. Nothing
/// is claimed of the number.
pub assume_specification[ Duration::as_micros ](span: &Duration) -> u128;

/// `stamps` never goes back in time.
pub open spec fn ascending(stamps: Seq<u128>) -> bool {
    forall|i: int, j: int| 0 <= i <= j < stamps.len() ==> stamps[i] <= stamps[j]
}

/// How long ago `stamp` was, seen from `now`. A stamp that lies ahead of
/// `now` counts as made just now.
pub open spec fn age_micros(stamp: int, now: int) -> int {
    if now >= stamp {
        now - stamp
    } else {
        0
    }
}

/// The least number of whole seconds that covers `micros` microseconds.
pub open spec fn ceil_seconds(micros: int) -> int {
    (micros + MICROS_PER_SECOND - 1) / (MICROS_PER_SECOND as int)
}

/// `value`, moved into `lo ..= hi`.
pub open spec fn clamp(value: int, lo: int, hi: int) -> int {
    if value < lo {
        lo
    } else if value > hi {
        hi
    } else {
        value
    }
}

/// Seconds that a caller has to wait at `now` before the next request, for a
/// limiter of `limit` requests per `timeframe_secs` seconds that remembers
/// `stamps`, oldest first.
pub open spec fn wait_seconds(limit: int, timeframe_secs: int, stamps: Seq<u128>, now: int) -> int {
    if limit == 0 || stamps.len() < limit {
        0
    } else {
        let window = timeframe_secs * MICROS_PER_SECOND;
        let age = age_micros(stamps[0] as int, now);
        if age >= window {
            0
        } else {
            clamp(ceil_seconds(window - age), 1, timeframe_secs)
        }
    }
}

/// The stamps that a limiter of `limit` requests remembers once a request
/// made at `now` has been registered.
pub open spec fn registered(limit: int, stamps: Seq<u128>, now: u128) -> Seq<u128> {
    if limit == 0 {
        stamps
    } else if stamps.len() >= limit {
        stamps.drop_first().push(now)
    } else {
        stamps.push(now)
    }
}

/// The stamps remembered after registering each of `times` in turn.
pub open spec fn registered_all(limit: int, stamps: Seq<u128>, times: Seq<u128>) -> Seq<u128>
    decreases times.len(),
{
    if times.len() == 0 {
        stamps
    } else {
        registered(limit, registered_all(limit, stamps, times.drop_last()), times.last())
    }
}

/// The last `count` entries of `s`, or all of `s` if it has fewer.
pub open spec fn newest(s: Seq<u128>, count: int) -> Seq<u128> {
    if s.len() <= count {
        s
    } else {
        s.subrange(s.len() - count, s.len() as int)
    }
}

/// Admission control for requests: at most `limit` requests in any
/// `timeframe_secs` seconds; a limit of zero means no limit at all.
pub struct OsuAPILimiter {
    limit: u16,
    timeframe_secs: u16,
    epoch: Instant,
    starts: VecDeque<u128>,
}

impl OsuAPILimiter {
    /// The most requests allowed in one window; zero for "unlimited".
    pub closed spec fn limit(&self) -> u16 {
        self.limit
    }

    /// The length of the window in seconds.
    pub closed spec fn timeframe_secs(&self) -> u16 {
        self.timeframe_secs
    }

    /// The remembered request times, oldest first, in microseconds on the
    /// limiter's clock.
    pub closed spec fn stamps(&self) -> Seq<u128> {
        self.starts@
    }

    /// The limiter never remembers more than `limit` requests, none at all
    /// when unlimited, and remembers them in the order they were made.
    pub open spec fn wf(&self) -> bool {
        &&& self.stamps().len() <= self.limit()
        &&& ascending(self.stamps())
    }

    /// `now` is no earlier than the newest remembered request.
    pub open spec fn not_before_newest(&self, now: u128) -> bool {
        self.stamps().len() > 0 ==> self.stamps().last() <= now
    }

    /// A limiter that has seen no request yet. Its clock starts now.
    pub fn new(limit: u16, timeframe_secs: u16) -> (limiter: Self)
        ensures
            limiter.wf(),
            limiter.limit() == limit,
            limiter.timeframe_secs() == timeframe_secs,
            limiter.stamps() == Seq::<u128>::empty(),
    {
        OsuAPILimiter { limit, timeframe_secs, epoch: Instant::now(), starts: VecDeque::new() }
    }

    /// How many requests the limiter remembers.
    pub fn recorded_requests(&self) -> (count: usize)
        ensures
            count == self.stamps().len(),
    {
        self.starts.len()
    }

    /// Whole seconds to wait before the next request may be sent, if the
    /// limiter's clock reads `now` microseconds. Zero means "send at once".
    pub fn time_until_next_request_at(&self, now: u128) -> (seconds: u64)
        requires
            self.wf(),
        ensures
            seconds == wait_seconds(
                self.limit() as int,
                self.timeframe_secs() as int,
                self.stamps(),
                now as int,
            ),
            seconds <= self.timeframe_secs(),
            self.limit() == 0 || self.stamps().len() < self.limit() ==> seconds == 0,
    {
        if self.limit == 0 || self.starts.len() < self.limit as usize {
            return 0;
        }
        let window: u128 = self.timeframe_secs as u128 * MICROS_PER_SECOND;
        let oldest: u128 = self.starts[0];
        let age: u128 = if now >= oldest {
            now - oldest
        } else {
            0
        };
        if age >= window {
            return 0;
        }
        let remaining: u128 = window - age;
        let rounded_up: u128 = (remaining + (MICROS_PER_SECOND - 1)) / MICROS_PER_SECOND;
        assert(1 <= rounded_up <= self.timeframe_secs) by {
            lemma_ceil_seconds_bounds(remaining as int, self.timeframe_secs as int);
        }
        rounded_up as u64
    }

    /// Records a request made when the limiter's clock read `now`
    /// microseconds, forgetting the oldest one if the window is full. Does
    /// nothing when the limiter is unlimited.
    pub fn register_request_performed_at(&mut self, now: u128)
        requires
            old(self).wf(),
            old(self).not_before_newest(now),
        ensures
            final(self).wf(),
            final(self).limit() == old(self).limit(),
            final(self).timeframe_secs() == old(self).timeframe_secs(),
            final(self).stamps() == registered(old(self).limit() as int, old(self).stamps(), now),
    {
        if self.limit == 0 {
            return ;
        }
        if self.starts.len() >= self.limit as usize {
            self.starts.pop_front();
        }
        self.starts.push_back(now);
        assert(self.starts@ =~= registered(old(self).limit as int, old(self).starts@, now));
    }

    /// Reads the limiter's clock: microseconds since the limiter was made,
    /// and never earlier than the newest remembered request.
    fn clock_micros(&self) -> (now: u128)
        ensures
            self.not_before_newest(now),
    {
        let reading: u128 = self.epoch.elapsed().as_micros();
        let count: usize = self.starts.len();
        if count > 0 && reading < self.starts[count - 1] {
            self.starts[count - 1]
        } else {
            reading
        }
    }

    /// Whole seconds to wait before the next request may be sent. Zero means
    /// "send at once". The answer is that of
    /// [`time_until_next_request_at`](Self::time_until_next_request_at) for
    /// the present reading of the limiter's clock.
    pub fn time_until_next_request(&self) -> (seconds: u64)
        requires
            self.wf(),
        ensures
            exists|now: u128|
                self.not_before_newest(now) && seconds == #[trigger] wait_seconds(
                    self.limit() as int,
                    self.timeframe_secs() as int,
                    self.stamps(),
                    now as int,
                ),
            seconds <= self.timeframe_secs(),
            self.limit() == 0 || self.stamps().len() < self.limit() ==> seconds == 0,
    {
        let now = self.clock_micros();
        self.time_until_next_request_at(now)
    }

    /// Records a request that has just completed, forgetting the oldest one
    /// if the window is full. Does nothing when the limiter is unlimited. The
    /// effect is that of
    /// [`register_request_performed_at`](Self::register_request_performed_at)
    /// for the present reading of the limiter's clock.
    pub fn register_request_performed(&mut self)
        requires
            old(self).wf(),
        ensures
            final(self).wf(),
            final(self).limit() == old(self).limit(),
            final(self).timeframe_secs() == old(self).timeframe_secs(),
            exists|now: u128|
                old(self).not_before_newest(now) && final(self).stamps() == #[trigger] registered(
                    old(self).limit() as int,
                    old(self).stamps(),
                    now,
                ),
    {
        let now = self.clock_micros();
        self.register_request_performed_at(now);
    }
}

/// A limiter that started within its limit remembers exactly the newest
/// `limit` of all the requests it has seen.
pub proof fn lemma_registered_all_keeps_newest(limit: int, stamps: Seq<u128>, times: Seq<u128>)
    requires
        limit > 0,
        stamps.len() <= limit,
    ensures
        registered_all(limit, stamps, times) == newest(stamps + times, limit),
        registered_all(limit, stamps, times).len() <= limit,
    decreases times.len(),
{
    if times.len() == 0 {
        assert(stamps + times =~= stamps);
    } else {
        let earlier = times.drop_last();
        lemma_registered_all_keeps_newest(limit, stamps, earlier);
        let before = stamps + earlier;
        assert(stamps + times =~= before.push(times.last()));
        assert(registered(limit, newest(before, limit), times.last()) =~= newest(
            before.push(times.last()),
            limit,
        ));
    }
}

/// An unlimited limiter remembers nothing, whatever it is told.
pub proof fn lemma_registered_all_unlimited(stamps: Seq<u128>, times: Seq<u128>)
    ensures
        registered_all(0, stamps, times) == stamps,
    decreases times.len(),
{
    if times.len() > 0 {
        lemma_registered_all_unlimited(stamps, times.drop_last());
    }
}

/// After `limit` requests in quick succession, that is all of them within
/// one window of `now`, a fresh limiter asks for a wait of at least one
/// second and at most the length of the window.
pub proof fn lemma_full_window_waits(limit: u16, timeframe_secs: u16, times: Seq<u128>, now: u128)
    requires
        limit > 0,
        times.len() == limit,
        ascending(times),
        times.last() <= now,
        now - times[0] < timeframe_secs * MICROS_PER_SECOND,
    ensures
        1 <= wait_seconds(
            limit as int,
            timeframe_secs as int,
            registered_all(limit as int, Seq::empty(), times),
            now as int,
        ) <= timeframe_secs,
{
    lemma_registered_all_keeps_newest(limit as int, Seq::empty(), times);
    assert(Seq::<u128>::empty() + times =~= times);
    let window = timeframe_secs * MICROS_PER_SECOND;
    lemma_ceil_seconds_bounds(window - (now - times[0]), timeframe_secs as int);
}

/// Before `limit` requests have been made, a fresh limiter asks for no wait.
pub proof fn lemma_partial_window_passes(
    limit: u16,
    timeframe_secs: u16,
    times: Seq<u128>,
    now: u128,
)
    requires
        times.len() < limit,
    ensures
        wait_seconds(
            limit as int,
            timeframe_secs as int,
            registered_all(limit as int, Seq::empty(), times),
            now as int,
        ) == 0,
{
    lemma_registered_all_keeps_newest(limit as int, Seq::empty(), times);
    assert(Seq::<u128>::empty() + times =~= times);
}

/// An unlimited limiter asks for no wait, whatever requests were made.
pub proof fn lemma_unlimited_never_waits(timeframe_secs: u16, times: Seq<u128>, now: u128)
    ensures
        registered_all(0, Seq::empty(), times) == Seq::<u128>::empty(),
        wait_seconds(
            0,
            timeframe_secs as int,
            registered_all(0, Seq::empty(), times),
            now as int,
        ) == 0,
{
    lemma_registered_all_unlimited(Seq::empty(), times);
}

/// Rounding a stretch of `1 ..= timeframe_secs` seconds, given in
/// microseconds, up to whole seconds stays within `1 ..= timeframe_secs`.
pub proof fn lemma_ceil_seconds_bounds(micros: int, timeframe_secs: int)
    requires
        0 < micros <= timeframe_secs * MICROS_PER_SECOND,
    ensures
        1 <= ceil_seconds(micros) <= timeframe_secs,
        clamp(ceil_seconds(micros), 1, timeframe_secs) == ceil_seconds(micros),
{
}

} // verus!
