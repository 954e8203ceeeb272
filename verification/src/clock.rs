//! Points in time and spans of time, from std.
//!
//! An `Instant` counts nanoseconds from an origin that nobody can see; only
//! differences matter. A `Duration` is a number of nanoseconds.

use core::time::Duration;
use std::time::Instant;
use vstd::prelude::*;

verus! {

#[verifier::external_type_specification]
#[verifier::external_body]
pub struct ExInstant(Instant);

/// The nanoseconds from the clock's origin to an instant.
pub uninterp spec fn time_of(t: Instant) -> int;

/// The nanoseconds in a duration.
pub uninterp spec fn nanos_of(d: Duration) -> u128;

/// The nanoseconds from one time to a later one; none where it is not later.
pub open spec fn elapsed(now: int, earlier: int) -> int {
    if now > earlier {
        now - earlier
    } else {
        0
    }
}

/// `Instant::now`: the current time. Nothing is promised of it.
#[verifier::external_body]
pub(crate) fn now() -> (r: Instant) {
    Instant::now()
}

/// `Instant::saturating_duration_since`: the time from an earlier instant to
/// this one, or zero where the other is later.
pub assume_specification[ Instant::saturating_duration_since ](
    t: &Instant,
    earlier: Instant,
) -> (r: Duration)
    ensures
        nanos_of(r) == elapsed(time_of(*t), time_of(earlier)),
;

/// `Duration::as_nanos`: the whole duration in nanoseconds.
pub assume_specification[ Duration::as_nanos ](d: &Duration) -> (r: u128)
    ensures
        r == nanos_of(*d),
;

/// `Duration::from_secs`: a number of seconds.
pub assume_specification[ Duration::from_secs ](secs: u64) -> (r: Duration)
    ensures
        nanos_of(r) == secs * 1_000_000_000,
;

} // verus!
