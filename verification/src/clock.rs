//! Time windows: the counter that client and daemon derive a sequence from.

use vstd::prelude::*;

use crate::observed;

verus! {

/// Default length of a time window in seconds.
pub const DEFAULT_WINDOW_SECS: u64 = 30;

/// Why the time of day cannot be counted from the Unix epoch.
#[derive(Debug, Clone, Copy, PartialEq, Eq, Structural)]
pub enum ClockError {
    /// The system clock is before the Unix epoch.
    BeforeEpoch,
}

/// Calls `SystemTime::elapsed` on the Unix epoch: the seconds from the epoch to the
/// time that the system clock shows, or an error where the clock is before it.
#[verifier::external_body]
pub(crate) fn unix_now() -> (reading: Result<u64, ClockError>)
    ensures
        observed::time_of_day(reading),
{
    match std::time::UNIX_EPOCH.elapsed() {
        Ok(elapsed) => Ok(elapsed.as_secs()),
        Err(_) => Err(ClockError::BeforeEpoch),
    }
}

/// The type `std::time::Instant`, a reading of the monotonic clock.
#[verifier::external_type_specification]
#[verifier::external_body]
pub struct ExInstant(std::time::Instant);

/// Calls `Instant::now`, which reads the monotonic clock. Nothing is claimed of the
/// reading.
#[verifier::external_body]
pub(crate) fn instant_now() -> std::time::Instant {
    std::time::Instant::now()
}

/// Calls `Instant::elapsed`: the nanoseconds since `start`. Nothing is claimed of them but
/// that they were read.
#[verifier::external_body]
pub(crate) fn nanos_since(start: &std::time::Instant) -> (nanos: u128)
    ensures
        observed::time_since(*start, nanos),
{
    start.elapsed().as_nanos()
}

/// The window counter at a time.
pub open spec fn window_of(unix_secs: u64, window_secs: u64) -> u64 {
    unix_secs / window_secs
}

/// The smallest window that is tolerated around `window`.
pub open spec fn first_window(window: u64, skew: u64) -> int {
    if window >= skew {
        window - skew
    } else {
        0
    }
}

/// The largest window that is tolerated around `window`.
pub open spec fn last_window(window: u64, skew: u64) -> int {
    if window + skew <= u64::MAX {
        window + skew
    } else {
        u64::MAX as int
    }
}

/// The windows that differ from `window` by `skew` at most, in order.
pub open spec fn skewed_windows(window: u64, skew: u64) -> Seq<u64> {
    Seq::new(
        (last_window(window, skew) - first_window(window, skew) + 1) as nat,
        |i: int| (first_window(window, skew) + i) as u64,
    )
}

/// The window counter at a time given in seconds since the Unix epoch.
pub fn window_at(unix_secs: u64, window_secs: u64) -> (window: u64)
    requires
        window_secs > 0,
    ensures
        window == window_of(unix_secs, window_secs),
{
    unix_secs / window_secs
}

/// Lists the windows that differ from `window` by `skew` at most.
pub fn windows_around(window: u64, skew: u64) -> (windows: Vec<u64>)
    ensures
        windows@ == skewed_windows(window, skew),
{
    let last = window.saturating_add(skew);
    let mut next = window.saturating_sub(skew);
    let mut windows: Vec<u64> = vec![next];
    let ghost all = skewed_windows(window, skew);
    while next < last
        invariant
            last == last_window(window, skew),
            first_window(window, skew) <= next <= last,
            all == skewed_windows(window, skew),
            windows@ == all.take(next - first_window(window, skew) + 1),
        decreases last - next,
    {
        next += 1;
        windows.push(next);
        assert(windows@ =~= all.take(next - first_window(window, skew) + 1));
    }
    assert(windows@ =~= all);
    windows
}

/// The window counter for a reading of the clock: known where the time is.
pub open spec fn window_read(
    reading: Result<u64, ClockError>,
    window_secs: u64,
) -> Result<u64, ClockError> {
    match reading {
        Ok(now) => Ok(window_of(now, window_secs)),
        Err(e) => Err(e),
    }
}

/// The window counter for a reading of the clock.
pub fn window_for(reading: Result<u64, ClockError>, window_secs: u64) -> (window: Result<
    u64,
    ClockError,
>)
    requires
        window_secs > 0,
    ensures
        window == window_read(reading, window_secs),
{
    match reading {
        Ok(now) => Ok(window_at(now, window_secs)),
        Err(e) => Err(e),
    }
}

/// Whether `windows` are those that differ by `skew` at most from the one for a reading of
/// the clock, known where the time is.
pub open spec fn are_windows_read(
    reading: Result<u64, ClockError>,
    window_secs: u64,
    skew: u64,
    windows: Result<Vec<u64>, ClockError>,
) -> bool {
    match reading {
        Ok(now) => windows is Ok && windows->Ok_0@ == skewed_windows(
            window_of(now, window_secs),
            skew,
        ),
        Err(e) => windows == Err::<Vec<u64>, ClockError>(e),
    }
}

/// The windows that differ by `skew` at most from the one for a reading of the clock.
pub fn windows_for(reading: Result<u64, ClockError>, window_secs: u64, skew: u64) -> (windows:
    Result<Vec<u64>, ClockError>)
    requires
        window_secs > 0,
    ensures
        match reading {
            Ok(now) => windows is Ok && windows->Ok_0@ == skewed_windows(
                window_of(now, window_secs),
                skew,
            ),
            Err(e) => windows == Err::<Vec<u64>, ClockError>(e),
        },
{
    match window_for(reading, window_secs) {
        Ok(window) => Ok(windows_around(window, skew)),
        Err(e) => Err(e),
    }
}

/// The window counter at the present time.
pub fn current_window(window_secs: u64) -> (window: Result<u64, ClockError>)
    requires
        window_secs > 0,
    ensures
        exists|reading: Result<u64, ClockError>| #[trigger]
            observed::time_of_day(reading) && window == window_read(reading, window_secs),
        window matches Ok(w) ==> exists|now: u64| w == #[trigger] window_of(now, window_secs),
{
    let reading = unix_now();
    window_for(reading, window_secs)
}

/// The windows that differ from the present one by `skew` at most, to tolerate clocks
/// that drift apart.
pub fn windows_with_skew(window_secs: u64, skew: u64) -> (windows: Result<Vec<u64>, ClockError>)
    requires
        window_secs > 0,
    ensures
        exists|reading: Result<u64, ClockError>| #[trigger]
            observed::time_of_day(reading) && are_windows_read(
                reading,
                window_secs,
                skew,
                windows,
            ),
        windows matches Ok(list) ==> exists|now: u64|
            list@ == skewed_windows(#[trigger] window_of(now, window_secs), skew),
{
    let reading = unix_now();
    windows_for(reading, window_secs, skew)
}

/// A time lies in its window: windows of `window_secs` seconds each follow one another from
/// the Unix epoch on, and the counter says how many have passed. It is known where, and only
/// where, the time is.
pub proof fn law_time_lies_in_its_window(now: u64, window_secs: u64, error: ClockError)
    requires
        window_secs > 0,
    ensures
        window_of(now, window_secs) * window_secs <= now,
        now < window_of(now, window_secs) * window_secs + window_secs,
        window_read(Ok(now), window_secs) == Ok::<u64, ClockError>(window_of(now, window_secs)),
        window_read(Err(error), window_secs) == Err::<u64, ClockError>(error),
{
    let window = window_of(now, window_secs);
    assert(window * window_secs <= now < window * window_secs + window_secs) by (nonlinear_arith)
        requires
            window_secs > 0,
            window == now as int / window_secs as int,
    ;
}

/// The tolerated windows are those, and only those, that differ by `skew` at most.
pub proof fn law_tolerated_windows(window: u64, skew: u64, other: u64)
    ensures
        skewed_windows(window, skew).contains(other) <==> window - skew <= other <= window + skew,
        skewed_windows(window, skew).contains(window),
{
    let list = skewed_windows(window, skew);
    if window - skew <= other <= window + skew {
        assert(list[other - first_window(window, skew)] == other);
    }
    assert(list[window - first_window(window, skew)] == window);
}

/// Away from the ends of the counter's range there are `2 * skew + 1` tolerated
/// windows.
pub proof fn law_number_of_tolerated_windows(window: u64, skew: u64)
    requires
        skew <= window,
        window + skew <= u64::MAX,
    ensures
        skewed_windows(window, skew).len() == 2 * skew + 1,
{
}

/// The tolerated windows are in increasing order, so none occurs twice.
pub proof fn law_tolerated_windows_increase(window: u64, skew: u64)
    ensures
        forall|i: int, j: int|
            0 <= i < j < skewed_windows(window, skew).len() ==> skewed_windows(window, skew)[i]
                < skewed_windows(window, skew)[j],
{
}

/// Two clocks that are at most `skew` windows apart tolerate each other's window.
pub proof fn law_skew_covers_drift(a: u64, b: u64, window_secs: u64, skew: u64)
    requires
        window_secs > 0,
        a <= b,
        b - a <= skew * window_secs,
    ensures
        skewed_windows(window_of(a, window_secs), skew).contains(window_of(b, window_secs)),
        skewed_windows(window_of(b, window_secs), skew).contains(window_of(a, window_secs)),
{
    let wa = window_of(a, window_secs);
    let wb = window_of(b, window_secs);
    let s = window_secs as int;
    assert(wa <= wb) by (nonlinear_arith)
        requires
            s > 0,
            a <= b,
            wa == a as int / s,
            wb == b as int / s,
    ;
    assert(wb <= wa + skew) by (nonlinear_arith)
        requires
            s > 0,
            b <= a + skew * s,
            wa == a as int / s,
            wb == b as int / s,
    ;
    law_tolerated_windows(wa, skew, wb);
    law_tolerated_windows(wb, skew, wa);
}

/// The windows for a reading of the clock are known where the time is, and are those that
/// differ by `skew` at most from the one in which that time lies.
pub proof fn law_windows_lie_around_the_time(
    reading: Result<u64, ClockError>,
    window_secs: u64,
    skew: u64,
    windows: Result<Vec<u64>, ClockError>,
    window: u64,
    other: u64,
)
    requires
        are_windows_read(reading, window_secs, skew, windows),
        reading matches Ok(now) ==> window * window_secs <= now < window * window_secs
            + window_secs,
    ensures
        match reading {
            Ok(_) => windows is Ok && (windows->Ok_0@.contains(other) <==> window - skew <= other
                <= window + skew),
            Err(e) => windows == Err::<Vec<u64>, ClockError>(e),
        },
{
    if let Ok(now) = reading {
        lemma_window_is_the_one(now, window_secs, window);
        law_tolerated_windows(window, skew, other);
    }
}

/// No other window holds a time.
pub(crate) proof fn lemma_window_is_the_one(now: u64, window_secs: u64, window: u64)
    requires
        window * window_secs <= now < window * window_secs + window_secs,
    ensures
        window_of(now, window_secs) == window,
{
    let found = window_of(now, window_secs);
    law_time_lies_in_its_window(now, window_secs, ClockError::BeforeEpoch);
    assert(found == window) by (nonlinear_arith)
        requires
            window * window_secs <= now < window * window_secs + window_secs,
            found * window_secs <= now < found * window_secs + window_secs,
    ;
}

} // verus!
