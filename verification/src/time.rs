//! The wall clock.
use crate::packet::FrameTrace;
use std::time::{Duration, SystemTime, SystemTimeError};
use vstd::prelude::*;

verus! {

/// A point in time of the standard library.
#[verifier::external_type_specification]
#[verifier::external_body]
pub struct ExSystemTime(std::time::SystemTime);

/// The failure to measure a span that would be negative.
#[verifier::external_type_specification]
#[verifier::external_body]
pub struct ExSystemTimeError(std::time::SystemTimeError);

/// `SystemTime::now`: the time of the machine. Nothing is claimed of it.
pub assume_specification[ SystemTime::now ]() -> (r: SystemTime)
;

/// `SystemTime::duration_since` from the Unix epoch on. Nothing is claimed of it.
#[verifier::external_body]
fn since_epoch(t: SystemTime) -> (r: Result<Duration, SystemTimeError>) {
    t.duration_since(std::time::UNIX_EPOCH)
}

/// `Duration::as_micros`: the span in whole microseconds. Nothing is claimed of it, since
/// the span is opaque.
pub assume_specification[ Duration::as_micros ](d: &Duration) -> (r: u128)
;

/// The time that a clock shows after a span in microseconds, modulo the range of the
/// clock; zero where there is no span.
pub open spec fn shown_us(span_us: Option<u128>) -> int {
    match span_us {
        Some(us) => us as int % 0x1_0000_0000_0000_0000,
        None => 0,
    }
}

/// The time that a clock shows after a span, where there is one.
pub fn reading_us(span_us: Option<u128>) -> (r: u64)
    ensures
        r == shown_us(span_us),
{
    match span_us {
        Some(us) => (us % 0x1_0000_0000_0000_0000) as u64,
        None => 0,
    }
}

impl FrameTrace {
    /// Microseconds since the Unix epoch, zero when the clock is set before it:
    /// [`reading_us`] of the span since the epoch. That span depends on the machine alone, so
    /// nothing is claimed of the result.
    pub fn now_us() -> (r: u64) {
        match since_epoch(SystemTime::now()) {
            Ok(d) => reading_us(Some(d.as_micros())),
            Err(_) => reading_us(None),
        }
    }
}

} // verus!
