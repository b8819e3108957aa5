//! Points in time and waiting times.

use vstd::prelude::*;

verus! {

/// One day in milliseconds.
pub const DAY_WINDOW_MS: i64 = 86_400_000;

/// Seven days in milliseconds.
pub const WEEK_WINDOW_MS: i64 = 604_800_000;

/// Thirty days in milliseconds.
pub const MONTH_WINDOW_MS: i64 = 2_592_000_000;

/// Calls `chrono::Utc::now` and `timestamp_millis`: the milliseconds since the beginning of
/// 1970, by the clock of the machine. Nothing is claimed of the number.
#[verifier::external_body]
pub(crate) fn now_ms() -> (now: i64) {
    chrono::Utc::now().timestamp_millis()
}

/// Calls `chrono::Utc::now` and `timestamp`: the seconds since the beginning of 1970, by the
/// clock of the machine. Nothing is claimed of the number.
#[verifier::external_body]
pub(crate) fn now_seconds() -> (now: i64) {
    chrono::Utc::now().timestamp()
}

/// The `i64` nearest to `n`.
pub open spec fn capped(n: int) -> i64 {
    if n < i64::MIN {
        i64::MIN
    } else if n > i64::MAX {
        i64::MAX
    } else {
        n as i64
    }
}

/// The difference of two points in time, as near as `i64` comes to it.
pub fn saturating_sub(a: i64, b: i64) -> (difference: i64)
    ensures
        difference == capped(a - b),
{
    match a.checked_sub(b) {
        Some(n) => n,
        None => if b > 0 {
            i64::MIN
        } else {
            i64::MAX
        },
    }
}

/// The sum of a point in time and a span, as near as `i64` comes to it.
pub fn saturating_add(a: i64, b: i64) -> (sum: i64)
    ensures
        sum == capped(a + b),
{
    match a.checked_add(b) {
        Some(n) => n,
        None => if b > 0 {
            i64::MAX
        } else {
            i64::MIN
        },
    }
}

/// The later of two points in time.
pub open spec fn later_of(a: i64, b: i64) -> i64 {
    if a < b {
        b
    } else {
        a
    }
}

/// The later of two points in time.
pub fn later(a: i64, b: i64) -> (l: i64)
    ensures
        l == later_of(a, b),
{
    if a < b {
        b
    } else {
        a
    }
}

/// A waiting time.
#[derive(Debug, Clone, Copy, PartialEq, Eq, Structural)]
pub struct RetryDelay {
    pub millis: u128,
}

impl RetryDelay {
    /// A waiting time of whole seconds.
    pub fn from_secs(seconds: u64) -> (delay: RetryDelay)
        ensures
            delay.millis == seconds * 1000,
    {
        RetryDelay { millis: seconds as u128 * 1000 }
    }

    /// A waiting time of milliseconds.
    pub fn from_millis(millis: u64) -> (delay: RetryDelay)
        ensures
            delay.millis == millis,
    {
        RetryDelay { millis: millis as u128 }
    }

    /// The whole seconds in the waiting time.
    pub open spec fn seconds(self) -> nat {
        (self.millis / 1000) as nat
    }
}

/// A waiting time, if there is one, in milliseconds.
pub open spec fn opt_millis(delay: Option<RetryDelay>) -> Option<int> {
    match delay {
        Some(d) => Some(d.millis as int),
        None => None,
    }
}

/// What is left of `n` in the range of `i64` when only its lowest 64 bits are kept.
pub open spec fn low_bits(n: int) -> int {
    let low = n % 0x1_0000_0000_0000_0000;
    if low <= i64::MAX {
        low
    } else {
        low - 0x1_0000_0000_0000_0000
    }
}

/// `n` cut down to the range of `i64` by keeping its lowest 64 bits.
pub fn keep_low_bits(n: u128) -> (kept: i64)
    ensures
        kept == low_bits(n as int),
{
    let low: u64 = (n % 0x1_0000_0000_0000_0000u128) as u64;
    if low <= i64::MAX as u64 {
        low as i64
    } else {
        let gap: i64 = (u64::MAX - low) as i64;
        -1 - gap
    }
}

/// A number that `i64` holds stays; one that it does not hold becomes the nearest that it does.
pub proof fn capping_keeps_what_fits(n: int)
    ensures
        i64::MIN <= n <= i64::MAX ==> capped(n) == n,
        n > i64::MAX ==> capped(n) == 0x7fff_ffff_ffff_ffff,
        n < i64::MIN ==> capped(n) == -0x8000_0000_0000_0000,
{
}

/// The later of two points in time is one of them, and not before the other.
pub proof fn later_is_not_before(a: i64, b: i64)
    ensures
        later_of(a, b) >= a,
        later_of(a, b) >= b,
        later_of(a, b) == a || later_of(a, b) == b,
{
}

/// Keeping the lowest bits of a number changes it by a multiple of 2 to the power of 64, into
/// the range of `i64`.
pub proof fn low_bits_are_congruent(n: int)
    ensures
        i64::MIN <= low_bits(n) <= i64::MAX,
        (n - low_bits(n)) % 0x1_0000_0000_0000_0000 == 0,
{
}

} // verus!
