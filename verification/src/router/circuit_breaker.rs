//! A per-node circuit breaker: `Closed` → `Open` after `threshold` failures
//! without a success between them; `Open` rejects until `timeout` has passed
//! since the last failure, then turns `HalfOpen`; `HalfOpen` closes again after
//! three successes.

use crate::clock::{
    duration_ge, duration_nanos, is_zero_duration, wall_elapsed, wall_elapsed_at_least, wall_nanos, wall_time_now,
    wall_time_of, WallTime,
};
use std::time::{Duration, SystemTime};
use vstd::prelude::*;

verus! {

#[derive(Clone, Copy, Debug, PartialEq, Eq, Structural)]
pub enum BreakerState {
    Closed,
    Open,
    HalfOpen,
}

/// What the breaker's decisions depend on.
pub struct BreakerView {
    pub state: BreakerState,
    pub failure_count: u64,
    pub success_count: u64,
    /// Whether a failure time has been recorded.
    pub failure_seen: bool,
    pub threshold: u64,
    pub half_open_successes: u64,
}

/// The breaker after a success: in `HalfOpen` the success count grows and, on
/// reaching `half_open_successes`, the breaker closes with both counts reset;
/// in any other state the failure count is reset.
pub open spec fn after_success(v: BreakerView) -> BreakerView {
    if v.state == BreakerState::HalfOpen {
        let c = ((v.success_count + 1) % 0x1_0000_0000_0000_0000) as u64;
        if c >= v.half_open_successes {
            BreakerView { state: BreakerState::Closed, failure_count: 0, success_count: 0, ..v }
        } else {
            BreakerView { success_count: c, ..v }
        }
    } else {
        BreakerView { failure_count: 0, ..v }
    }
}

/// The breaker after a failure: the failure count grows, the failure time is
/// recorded, and the breaker opens once the count reaches the threshold,
/// forgetting the successes counted so far (a later half-open phase counts
/// its own).
pub open spec fn after_failure(v: BreakerView) -> BreakerView {
    let c = ((v.failure_count + 1) % 0x1_0000_0000_0000_0000) as u64;
    if c >= v.threshold {
        BreakerView { state: BreakerState::Open, failure_count: c, success_count: 0, failure_seen: true, ..v }
    } else {
        BreakerView { failure_count: c, failure_seen: true, ..v }
    }
}

/// Whether requests are refused, and the breaker after the check, given
/// whether the timeout has passed since the last failure: an `Open` breaker
/// with a recorded failure whose timeout has passed turns `HalfOpen` and
/// admits; any other `Open` breaker refuses; `Closed` and `HalfOpen` admit.
pub open spec fn open_check(v: BreakerView, timeout_elapsed: bool) -> (bool, BreakerView) {
    if v.state == BreakerState::Open {
        if v.failure_seen && timeout_elapsed {
            (false, BreakerView { state: BreakerState::HalfOpen, ..v })
        } else {
            (true, v)
        }
    } else {
        (false, v)
    }
}

/// Whether `timeout` has passed between the recorded failure `last_failure`
/// and the clock reading `now`; never, when no failure was recorded.
pub open spec fn failure_timeout_passed(last_failure: Option<WallTime>, now: WallTime, timeout: Duration) -> bool {
    match last_failure {
        Some(f) => wall_elapsed_at_least(f, now, timeout),
        None => false,
    }
}

/// The breaker after `n` failures in a row.
pub open spec fn after_failures(v: BreakerView, n: nat) -> BreakerView
    decreases n,
{
    if n == 0 {
        v
    } else {
        after_failure(after_failures(v, (n - 1) as nat))
    }
}

/// The breaker after `n` successes in a row.
pub open spec fn after_successes(v: BreakerView, n: nat) -> BreakerView
    decreases n,
{
    if n == 0 {
        v
    } else {
        after_success(after_successes(v, (n - 1) as nat))
    }
}

/// The name of a state as `state_str` reports it.
pub open spec fn state_name(s: BreakerState) -> Seq<char> {
    match s {
        BreakerState::Closed => seq!['c', 'l', 'o', 's', 'e', 'd'],
        BreakerState::Open => seq!['o', 'p', 'e', 'n'],
        BreakerState::HalfOpen => seq!['h', 'a', 'l', 'f', '-', 'o', 'p', 'e', 'n'],
    }
}

#[derive(Clone, Copy)]
pub struct CircuitBreaker {
    state: BreakerState,
    failure_count: u64,
    success_count: u64,
    last_failure_at: Option<WallTime>,
    threshold: u64,
    timeout: Duration,
    half_open_successes: u64,
}

impl View for CircuitBreaker {
    type V = BreakerView;

    closed spec fn view(&self) -> BreakerView {
        BreakerView {
            state: self.state,
            failure_count: self.failure_count,
            success_count: self.success_count,
            failure_seen: self.last_failure_at is Some,
            threshold: self.threshold,
            half_open_successes: self.half_open_successes,
        }
    }
}

impl CircuitBreaker {
    /// The time an `Open` breaker waits before admitting again.
    pub closed spec fn spec_timeout(&self) -> Duration {
        self.timeout
    }

    /// The wall-clock reading taken at the last recorded failure.
    pub closed spec fn spec_last_failure(&self) -> Option<WallTime> {
        self.last_failure_at
    }

    pub fn new(threshold: u64, timeout: Duration) -> (r: Self)
        ensures
            r@ == (BreakerView {
                state: BreakerState::Closed,
                failure_count: 0,
                success_count: 0,
                failure_seen: false,
                threshold,
                half_open_successes: 3,
            }),
            r.spec_timeout() == timeout,
            r.spec_last_failure() is None,
    {
        CircuitBreaker {
            state: BreakerState::Closed,
            failure_count: 0,
            success_count: 0,
            last_failure_at: None,
            threshold,
            timeout,
            half_open_successes: 3,
        }
    }

    /// Whether requests to the node are refused now. An `Open` breaker whose
    /// timeout has passed since the last failure turns `HalfOpen` and admits:
    /// the decision is `open_check` with the comparison of the time from the
    /// last recorded failure to a reading of the clock against the breaker's
    /// timeout, so with a zero timeout an open breaker always half-opens.
    pub fn is_open(&mut self) -> (r: bool)
        ensures
            final(self).spec_timeout() == old(self).spec_timeout(),
            final(self).spec_last_failure() == old(self).spec_last_failure(),
            exists|t: SystemTime|
                open_check(
                    old(self)@,
                    failure_timeout_passed(old(self).spec_last_failure(), wall_time_of(t), old(self).spec_timeout()),
                ) == (r, final(self)@),
            exists|elapsed: Duration| open_check(old(self)@, duration_ge(elapsed, old(self).spec_timeout())) == (r, final(self)@),
            is_zero_duration(old(self).spec_timeout()) ==> open_check(old(self)@, true) == (r, final(self)@),
    {
        match self.state {
            BreakerState::Open => {
                let now = wall_time_now();
                let elapsed = match &self.last_failure_at {
                    Some(f) => wall_elapsed(f, &now, &self.timeout),
                    None => false,
                };
                let ghost t = choose|t: SystemTime| now == wall_time_of(t);
                let r = self.is_open_with(elapsed);
                if elapsed {
                    assert(open_check(old(self)@, duration_ge(old(self).timeout, old(self).spec_timeout())) == (r, self@));
                } else {
                    let zero = super::duration_from_secs(0);
                    assert(open_check(old(self)@, duration_ge(zero, old(self).spec_timeout())) == (r, self@));
                }
                assert(open_check(
                    old(self)@,
                    failure_timeout_passed(old(self).spec_last_failure(), wall_time_of(t), old(self).spec_timeout()),
                ) == (r, self@));
                r
            }
            _ => {
                let ghost t: SystemTime = vstd::pervasive::arbitrary();
                assert(open_check(
                    old(self)@,
                    failure_timeout_passed(old(self).spec_last_failure(), wall_time_of(t), old(self).spec_timeout()),
                ) == (false, self@));
                assert(open_check(old(self)@, duration_ge(old(self).timeout, old(self).spec_timeout())) == (false, self@));
                false
            }
        }
    }

    /// The decision of `is_open`, given whether the timeout has passed since
    /// the last failure.
    pub fn is_open_with(&mut self, timeout_elapsed: bool) -> (r: bool)
        ensures
            (r, final(self)@) == open_check(old(self)@, timeout_elapsed),
            final(self).spec_timeout() == old(self).spec_timeout(),
            final(self).spec_last_failure() == old(self).spec_last_failure(),
    {
        match self.state {
            BreakerState::Open => {
                if self.last_failure_at.is_some() && timeout_elapsed {
                    self.state = BreakerState::HalfOpen;
                    false
                } else {
                    true
                }
            }
            _ => false,
        }
    }

    pub fn record_success(&mut self)
        ensures
            final(self)@ == after_success(old(self)@),
            final(self).spec_timeout() == old(self).spec_timeout(),
            final(self).spec_last_failure() == old(self).spec_last_failure(),
    {
        match self.state {
            BreakerState::HalfOpen => {
                let count = self.success_count.wrapping_add(1);
                self.success_count = count;
                if count >= self.half_open_successes {
                    self.state = BreakerState::Closed;
                    self.failure_count = 0;
                    self.success_count = 0;
                }
            }
            _ => {
                self.failure_count = 0;
            }
        }
    }

    pub fn record_failure(&mut self)
        ensures
            final(self)@ == after_failure(old(self)@),
            final(self).spec_timeout() == old(self).spec_timeout(),
            exists|t: SystemTime| final(self).spec_last_failure() == Some(wall_time_of(t)),
    {
        let count = self.failure_count.wrapping_add(1);
        self.failure_count = count;
        self.last_failure_at = Some(wall_time_now());
        if count >= self.threshold {
            self.state = BreakerState::Open;
            self.success_count = 0;
        }
    }

    pub fn state_str(&self) -> (r: &'static str)
        ensures
            r@ == state_name(self@.state),
    {
        match self.state {
            BreakerState::Closed => {
                proof { reveal_strlit("closed"); }
                "closed"
            }
            BreakerState::Open => {
                proof { reveal_strlit("open"); }
                "open"
            }
            BreakerState::HalfOpen => {
                proof { reveal_strlit("half-open"); }
                "half-open"
            }
        }
    }
}

/// Law: failures keep the thresholds and record a failure time; from a
/// `Closed` breaker, `k` failures in a row leave it `Closed` with `k` more
/// failures counted while the count stays below the threshold, and open it
/// as soon as the count reaches the threshold.
pub proof fn lemma_consecutive_failures_open(v: BreakerView, k: nat)
    requires
        v.state == BreakerState::Closed,
        v.failure_count + k <= u64::MAX,
    ensures
        after_failures(v, k).failure_count == v.failure_count + k,
        after_failures(v, k).threshold == v.threshold,
        after_failures(v, k).half_open_successes == v.half_open_successes,
        k > 0 ==> after_failures(v, k).failure_seen,
        v.failure_count + k < v.threshold ==> after_failures(v, k).state == BreakerState::Closed,
        k > 0 && v.failure_count + k >= v.threshold ==> after_failures(v, k).state == BreakerState::Open,
    decreases k,
{
    if k > 0 {
        lemma_consecutive_failures_open(v, (k - 1) as nat);
        let prev = after_failures(v, (k - 1) as nat);
        assert((prev.failure_count + 1) % 0x1_0000_0000_0000_0000 == prev.failure_count + 1);
    }
}

/// Law: a fresh breaker opens after exactly `threshold` failures (for a
/// threshold of at least one) and refuses requests until its timeout passes.
pub proof fn lemma_threshold_failures_refuse(v: BreakerView)
    requires
        v.state == BreakerState::Closed,
        v.failure_count == 0,
        v.threshold >= 1,
    ensures
        after_failures(v, (v.threshold - 1) as nat).state == BreakerState::Closed,
        after_failures(v, v.threshold as nat).state == BreakerState::Open,
        open_check(after_failures(v, v.threshold as nat), false).0,
        !open_check(after_failures(v, v.threshold as nat), true).0,
        open_check(after_failures(v, v.threshold as nat), true).1.state == BreakerState::HalfOpen,
{
    lemma_consecutive_failures_open(v, (v.threshold - 1) as nat);
    lemma_consecutive_failures_open(v, v.threshold as nat);
}

/// Law: a `Closed` or `HalfOpen` breaker never refuses and is left unchanged
/// by the check.
pub proof fn lemma_closed_admits(v: BreakerView, timeout_elapsed: bool)
    requires
        v.state != BreakerState::Open,
    ensures
        open_check(v, timeout_elapsed) == (false, v),
{
}

/// Law: in `Closed`, a success resets the failure count, so only failures
/// without a success between them open the breaker.
pub proof fn lemma_success_resets_failures(v: BreakerView)
    requires
        v.state == BreakerState::Closed,
    ensures
        after_success(v).failure_count == 0,
        after_success(v).state == BreakerState::Closed,
{
}

/// Law: a `HalfOpen` breaker that has counted `s` successes closes, with both
/// counts reset, after `half_open_successes - s` more successes in a row, and
/// stays `HalfOpen` before that.
pub proof fn lemma_half_open_closes(v: BreakerView, k: nat)
    requires
        v.state == BreakerState::HalfOpen,
        v.success_count < v.half_open_successes,
        k <= v.half_open_successes - v.success_count,
    ensures
        k < v.half_open_successes - v.success_count ==> after_successes(v, k).state == BreakerState::HalfOpen
            && after_successes(v, k).success_count == v.success_count + k,
        k == v.half_open_successes - v.success_count ==> after_successes(v, k).state == BreakerState::Closed
            && after_successes(v, k).failure_count == 0 && after_successes(v, k).success_count == 0,
        after_successes(v, k).half_open_successes == v.half_open_successes,
    decreases k,
{
    if k > 0 {
        lemma_half_open_closes(v, (k - 1) as nat);
        let prev = after_successes(v, (k - 1) as nat);
        assert(prev.success_count + 1 < 0x1_0000_0000_0000_0000);
        assert((prev.success_count + 1) % 0x1_0000_0000_0000_0000 == prev.success_count + 1);
    }
}

/// Law: a breaker that opens forgets the successes counted before, so the
/// next half-open phase starts from none and needs `half_open_successes`
/// successes of its own to close.
pub proof fn lemma_opening_resets_successes(v: BreakerView)
    requires
        ((v.failure_count + 1) % 0x1_0000_0000_0000_0000) as u64 >= v.threshold,
    ensures
        after_failure(v).state == BreakerState::Open,
        after_failure(v).success_count == 0,
        open_check(after_failure(v), true) == (false, BreakerView { state: BreakerState::HalfOpen, ..after_failure(v) }),
        open_check(after_failure(v), true).1.success_count == 0,
{
}

/// Law: an `Open` breaker whose last failure was recorded at the reading `f`
/// turns `HalfOpen` and admits when checked at a reading `now` at least its
/// timeout after `f`, and refuses, unchanged, when checked at a reading less
/// than its timeout after `f`; a reading earlier than `f` (a clock set back)
/// counts as no time elapsed.
pub proof fn lemma_open_breaker_half_opens_after_timeout(b: CircuitBreaker, f: WallTime, now: WallTime)
    requires
        b@.state == BreakerState::Open,
        b.spec_last_failure() == Some(f),
    ensures
        wall_nanos(now) >= wall_nanos(f) + duration_nanos(b.spec_timeout()) ==> open_check(
            b@,
            failure_timeout_passed(b.spec_last_failure(), now, b.spec_timeout()),
        ) == (false, BreakerView { state: BreakerState::HalfOpen, ..b@ }),
        wall_nanos(f) <= wall_nanos(now) < wall_nanos(f) + duration_nanos(b.spec_timeout()) ==> open_check(
            b@,
            failure_timeout_passed(b.spec_last_failure(), now, b.spec_timeout()),
        ) == (true, b@),
        wall_nanos(now) < wall_nanos(f) ==> open_check(
            b@,
            failure_timeout_passed(b.spec_last_failure(), now, b.spec_timeout()),
        ) == open_check(b@, duration_nanos(b.spec_timeout()) == 0),
{
}

} // verus!
