//! Elapsed-time measurement for the query metrics.
use vstd::prelude::*;

verus! {

#[verifier::external_type_specification]
#[verifier::external_body]
pub struct ExInstant(std::time::Instant);

/// `std::time::Instant::now`. Nothing is claimed of the instant.
#[verifier::external_body]
pub(crate) fn instant_now() -> std::time::Instant {
    std::time::Instant::now()
}

/// `std::time::Instant::elapsed`. Nothing is claimed of the duration.
#[verifier::external_body]
pub(crate) fn instant_elapsed(start: &std::time::Instant) -> std::time::Duration {
    start.elapsed()
}

/// `std::time::Duration::as_nanos`. Nothing is claimed of the count.
#[verifier::external_body]
pub(crate) fn duration_as_nanos(d: &std::time::Duration) -> u128 {
    d.as_nanos()
}

/// A count of nanoseconds as a `u64`, saturated at `u64::MAX`.
fn saturate_nanos(n: u128) -> (r: u64)
    ensures
        r == (if n > u64::MAX { u64::MAX as u128 } else { n }),
{
    if n > 0xFFFF_FFFF_FFFF_FFFFu128 {
        0xFFFF_FFFF_FFFF_FFFFu64
    } else {
        n as u64
    }
}

/// Nanoseconds since `start`, saturated at `u64::MAX`.
pub fn nanos_since(start: &std::time::Instant) -> u64 {
    let d = instant_elapsed(start);
    let n = duration_as_nanos(&d);
    saturate_nanos(n)
}

} // verus!
