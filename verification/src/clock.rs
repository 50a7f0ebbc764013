//! The clock. The library counts time in whole milliseconds; where a
//! function takes the time as an argument, the caller may read it here.

use vstd::prelude::*;

verus! {

/// The nanoseconds in a millisecond.
pub const NS_PER_MS: u64 = 1_000_000;

/// `time::precise_time_ns`: the value of a high-resolution counter, in
/// nanoseconds since a moment that is not specified. Nothing is known of
/// it. The call fails only on a system for which the crate has no clock,
/// which no argument decides.
#[verifier::external_body]
pub(crate) fn precise_time_ns() -> u64 {
    time::precise_time_ns()
}

/// The whole milliseconds in a time in nanoseconds.
pub fn ms_of(ns: u64) -> (ms: u64)
    ensures
        ms == ns / NS_PER_MS,
{
    ns / NS_PER_MS
}

/// The time now, in milliseconds since a moment that is not specified.
/// Whatever the clock says, the result is small enough to be a time in
/// nanoseconds too.
pub fn now_ms() -> (now: u64)
    ensures
        now <= u64::MAX / NS_PER_MS,
{
    ms_of(precise_time_ns())
}

} // verus!
