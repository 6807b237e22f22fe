//! The clocks of the machine.

use vstd::prelude::*;

verus! {

/// `std::time::SystemTime`, a time of day. Nothing is known of its inside.
#[verifier::external_type_specification]
#[verifier::external_body]
pub struct ExSystemTime(std::time::SystemTime);

/// `std::time::Instant`, a point on a clock that never goes back. Nothing is
/// known of its inside.
#[verifier::external_type_specification]
#[verifier::external_body]
pub struct ExInstant(std::time::Instant);

/// `std::time::SystemTime::now` reads the time of day. Nothing is claimed of
/// what it reads.
#[verifier::external_body]
pub(crate) fn now() -> std::time::SystemTime {
    std::time::SystemTime::now()
}

/// `std::time::SystemTime::duration_since`, from the beginning of 1970 on. It
/// fails for a time before it. Nothing is claimed of the span.
#[verifier::external_body]
pub(crate) fn since_epoch(t: std::time::SystemTime) -> Option<std::time::Duration> {
    t.duration_since(std::time::UNIX_EPOCH).ok()
}

/// `std::time::Instant::now` reads the clock. Nothing is claimed of what it
/// reads.
#[verifier::external_body]
pub(crate) fn instant() -> std::time::Instant {
    std::time::Instant::now()
}

/// `std::time::Instant::elapsed` gives the time since a point. Nothing is
/// claimed of it.
#[verifier::external_body]
pub(crate) fn elapsed(start: std::time::Instant) -> std::time::Duration {
    start.elapsed()
}

/// `std::time::Duration::as_secs` gives the whole seconds of a span. Nothing is
/// claimed of them.
#[verifier::external_body]
pub(crate) fn whole_seconds(d: std::time::Duration) -> u64 {
    d.as_secs()
}

/// `std::time::Duration::as_millis` gives the whole milliseconds of a span, here
/// in 64 bits. Nothing is claimed of them.
#[verifier::external_body]
pub(crate) fn whole_milliseconds(d: std::time::Duration) -> u64 {
    d.as_millis() as u64
}

} // verus!
