//! Reading the time: the monotonic clock of the standard library.
//!
//! Nothing is known to the verifier of what the clock says. The functions that
//! read it hand the reading to functions that take the time as an argument.

use vstd::prelude::*;
use std::time::{Duration, Instant};

verus! {

/// The standard library's point on the monotonic clock, opaque to the verifier.
#[verifier::external_type_specification]
#[verifier::external_body]
pub struct ExInstant(Instant);

/// `Instant::now`: the present point on the monotonic clock. Nothing is
/// claimed of it.
#[verifier::external_body]
pub(crate) fn instant_now() -> Instant {
    Instant::now()
}

/// `Instant::saturating_duration_since`: the time from `earlier` to `later`,
/// or no time at all where `earlier` is the later one. Nothing is claimed of
/// it.
#[verifier::external_body]
pub(crate) fn duration_between(later: &Instant, earlier: &Instant) -> Duration {
    later.saturating_duration_since(*earlier)
}

/// `Duration::as_nanos`: the whole duration in nanoseconds. Nothing is
/// claimed of it.
#[verifier::external_body]
pub(crate) fn duration_nanos(d: &Duration) -> u128 {
    d.as_nanos()
}

/// A reading as a timestamp: the reading itself where it fits, else the
/// largest timestamp.
pub open spec fn timestamp(nanos: u128) -> u64 {
    if nanos <= u64::MAX {
        nanos as u64
    } else {
        u64::MAX
    }
}

/// Turns a number of nanoseconds into a timestamp.
pub fn to_timestamp(nanos: u128) -> (r: u64)
    ensures
        r == timestamp(nanos),
{
    if nanos <= 0xffff_ffff_ffff_ffff {
        nanos as u64
    } else {
        0xffff_ffff_ffff_ffff
    }
}

/// The later of a reading and the latest time seen so far: a timestamp never
/// lies before an earlier one.
pub open spec fn not_before(latest: u64, reading: u64) -> u64 {
    if reading < latest {
        latest
    } else {
        reading
    }
}

/// The later of a reading and the latest time seen so far.
pub fn no_earlier_than(latest: u64, reading: u64) -> (r: u64)
    ensures
        r == not_before(latest, reading),
{
    if reading < latest {
        latest
    } else {
        reading
    }
}

/// The nanoseconds that have passed since `epoch`, as a timestamp.
pub(crate) fn ns_since_epoch(epoch: &Instant) -> u64 {
    let now = instant_now();
    let elapsed = duration_between(&now, epoch);
    to_timestamp(duration_nanos(&elapsed))
}

} // verus!
