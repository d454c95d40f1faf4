//! Readings of the system clocks. Which moment a reading gives is not
//! promised; what is promised is that a value taken from the clock is the
//! unix time (`unix_secs_of`) or wall time (`wall_time_of`) of some reading,
//! so no constant can stand in for it. The logic that uses a reading takes
//! it as an argument and is verified for every value of it.

use std::time::{Duration, Instant, SystemTime, UNIX_EPOCH};
use vstd::prelude::*;

verus! {

#[verifier::external_type_specification]
#[verifier::external_body]
pub struct ExInstant(Instant);

#[verifier::external_type_specification]
#[verifier::external_body]
pub struct ExSystemTime(SystemTime);

/// Calls `SystemTime::now`. Nothing is claimed of the value.
#[verifier::external_body]
fn system_now() -> SystemTime {
    SystemTime::now()
}

/// The time elapsed from the unix epoch to `t`, or `None` when `t` is
/// earlier than the epoch.
pub uninterp spec fn spec_since_epoch(t: SystemTime) -> Option<Duration>;

/// The whole seconds of a duration.
pub uninterp spec fn duration_secs(d: Duration) -> u64;

/// The nanoseconds of a duration within its last second.
pub uninterp spec fn duration_subsec_nanos(d: Duration) -> u32;

/// Whether the duration `a` is at least `b`: by whole seconds, then by the
/// nanoseconds within the second.
pub open spec fn duration_ge(a: Duration, b: Duration) -> bool {
    duration_secs(a) > duration_secs(b) || (duration_secs(a) == duration_secs(b) && duration_subsec_nanos(a)
        >= duration_subsec_nanos(b))
}

/// Whether a duration is zero.
pub open spec fn is_zero_duration(d: Duration) -> bool {
    duration_secs(d) == 0 && duration_subsec_nanos(d) == 0
}

/// The unix time of a clock reading in whole seconds; 0 for a reading before
/// 1970.
pub open spec fn unix_secs_of(t: SystemTime) -> u64 {
    match spec_since_epoch(t) {
        Some(d) => duration_secs(d),
        None => 0,
    }
}

/// Calls `SystemTime::duration_since(UNIX_EPOCH)`, with `None` for a time
/// before the epoch (where it returns an error). Claimed: the result is
/// `spec_since_epoch` of the time.
#[verifier::external_body]
fn since_unix_epoch(t: &SystemTime) -> (r: Option<Duration>)
    ensures
        r == spec_since_epoch(*t),
{
    t.duration_since(UNIX_EPOCH).ok()
}

/// Calls `Duration::as_secs`. Claimed: the result is `duration_secs` of the
/// duration.
#[verifier::external_body]
fn whole_secs(d: &Duration) -> (r: u64)
    ensures
        r == duration_secs(*d),
{
    d.as_secs()
}

/// Calls `Duration::subsec_nanos`. Claimed: the result is
/// `duration_subsec_nanos` of the duration, and (as std documents) less than
/// one billion.
#[verifier::external_body]
fn sub_nanos(d: &Duration) -> (r: u32)
    ensures
        r == duration_subsec_nanos(*d),
        r < 1_000_000_000,
{
    d.subsec_nanos()
}

/// Calls `Instant::now`. Nothing is claimed of the value.
#[verifier::external_body]
pub(crate) fn instant_now() -> Instant {
    Instant::now()
}

/// Calls `Instant::elapsed`. Nothing is claimed of the value.
#[verifier::external_body]
fn elapsed_since(i: &Instant) -> Duration {
    i.elapsed()
}

/// A wall-clock reading: the time since the unix epoch in whole seconds and
/// the nanoseconds within the second.
#[derive(Clone, Copy, Debug)]
pub struct WallTime {
    pub secs: u64,
    pub nanos: u32,
}

/// The wall time of a clock reading; a reading before 1970 counts as the
/// epoch itself.
pub open spec fn wall_time_of(t: SystemTime) -> WallTime {
    match spec_since_epoch(t) {
        Some(d) => WallTime { secs: duration_secs(d), nanos: duration_subsec_nanos(d) },
        None => WallTime { secs: 0, nanos: 0 },
    }
}

/// A wall time in nanoseconds since the epoch.
pub open spec fn wall_nanos(w: WallTime) -> int {
    w.secs * 1_000_000_000 + w.nanos
}

/// A duration in nanoseconds.
pub open spec fn duration_nanos(d: Duration) -> int {
    duration_secs(d) * 1_000_000_000 + duration_subsec_nanos(d)
}

/// Whether at least `timeout` separates the wall times `from` and `to`; a
/// `to` earlier than `from` counts as no time elapsed.
pub open spec fn wall_elapsed_at_least(from: WallTime, to: WallTime, timeout: Duration) -> bool {
    (if wall_nanos(to) >= wall_nanos(from) { wall_nanos(to) - wall_nanos(from) } else { 0 }) >= duration_nanos(timeout)
}

/// A reading of the system clock as a wall time.
pub(crate) fn wall_time_now() -> (r: WallTime)
    ensures
        exists|t: SystemTime| r == wall_time_of(t),
        r.nanos < 1_000_000_000,
{
    let t = system_now();
    let r = match since_unix_epoch(&t) {
        Some(d) => WallTime { secs: whole_secs(&d), nanos: sub_nanos(&d) },
        None => WallTime { secs: 0, nanos: 0 },
    };
    assert(r == wall_time_of(t));
    r
}

/// Whether at least `timeout` separates the wall times `from` and `to`.
pub(crate) fn wall_elapsed(from: &WallTime, to: &WallTime, timeout: &Duration) -> (r: bool)
    ensures
        r == wall_elapsed_at_least(*from, *to, *timeout),
{
    let f: u128 = from.secs as u128 * 1_000_000_000 + from.nanos as u128;
    let t: u128 = to.secs as u128 * 1_000_000_000 + to.nanos as u128;
    let d: u128 = whole_secs(timeout) as u128 * 1_000_000_000 + sub_nanos(timeout) as u128;
    let gap: u128 = if t >= f { t - f } else { 0 };
    gap >= d
}

/// The unix time in whole seconds of a reading of the system clock; a clock
/// set before 1970 reads as 0.
pub(crate) fn current_unix_secs() -> (r: u64)
    ensures
        exists|t: SystemTime| r == unix_secs_of(t),
{
    let t = system_now();
    let r = match since_unix_epoch(&t) {
        Some(d) => whole_secs(&d),
        None => 0,
    };
    assert(r == unix_secs_of(t));
    r
}

/// Whether the duration `a` is at least `b`: whole seconds first, then the
/// nanoseconds within the second.
fn duration_at_least(a: &Duration, b: &Duration) -> (r: bool)
    ensures
        r == duration_ge(*a, *b),
{
    let sa = whole_secs(a);
    let sb = whole_secs(b);
    sa > sb || (sa == sb && sub_nanos(a) >= sub_nanos(b))
}

/// Whether at least `timeout` has passed since `since`: the comparison of
/// the time elapsed, as read from the clock, with the timeout. In particular
/// a zero timeout has always passed.
pub(crate) fn has_elapsed(since: &Instant, timeout: &Duration) -> (r: bool)
    ensures
        exists|elapsed: Duration| r == duration_ge(elapsed, *timeout),
        is_zero_duration(*timeout) ==> r,
{
    let e = elapsed_since(since);
    let r = duration_at_least(&e, timeout);
    assert(r == duration_ge(e, *timeout));
    r
}

} // verus!
