use vstd::prelude::*;

verus! {

/// Declares the monotonic clock's reading so that verified code can hold
/// one; Verus treats a value of it as opaque.
#[verifier::external_type_specification]
#[verifier::external_body]
pub struct ExInstant(std::time::Instant);

/// Relies on std::time::Instant::now: reads the monotonic clock. Nothing
/// can be promised of the reading itself.
#[verifier::external_body]
pub fn instant_now() -> std::time::Instant {
    std::time::Instant::now()
}

/// Relies on std::time::Instant::elapsed: the time since `start` was
/// read, as a non-negative duration.
#[verifier::external_body]
pub fn instant_elapsed(start: &std::time::Instant) -> core::time::Duration {
    start.elapsed()
}

/// Relies on core::time::Duration::as_nanos: the whole number of
/// nanoseconds the duration spans.
#[verifier::external_body]
pub fn duration_as_nanos(d: &core::time::Duration) -> u128 {
    d.as_nanos()
}

} // verus!
