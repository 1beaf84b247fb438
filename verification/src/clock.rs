//! Trusted boundary to the system's monotonic clock and to externally
//! supplied durations.

use vstd::prelude::*;

verus! {

#[verifier::external_type_specification]
#[verifier::external_body]
pub struct ExDuration(time::Duration);

/// Relies on time::precise_time_ns: nanoseconds on a monotonic clock.
/// Nothing is promised of the value, which depends on when the call runs.
#[verifier::external_body]
pub(crate) fn monotonic_time_ns() -> u64 {
    time::precise_time_ns()
}

/// Relies on time::Duration::num_nanoseconds: the total nanosecond count
/// of the duration, or None when it does not fit an i64.
#[verifier::external_body]
pub(crate) fn duration_ns(d: &time::Duration) -> Option<i64> {
    d.num_nanoseconds()
}

} // verus!
