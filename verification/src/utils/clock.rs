//! The time of day.

use vstd::prelude::*;

verus! {

/// A time of day of std.
#[verifier::external_type_specification]
#[verifier::external_body]
pub struct ExSystemTime(std::time::SystemTime);

/// `std::time::SystemTime::now`. Nothing is claimed of the time it gives.
#[verifier::external_body]
fn now() -> (r: std::time::SystemTime) {
    std::time::SystemTime::now()
}

/// `std::time::SystemTime::duration_since` with the Unix epoch; none where the time is
/// before it. Nothing is claimed of the span.
#[verifier::external_body]
fn since_epoch(time: std::time::SystemTime) -> (r: Option<std::time::Duration>) {
    time.duration_since(std::time::UNIX_EPOCH).ok()
}

/// `std::time::Duration::as_millis`. Nothing is claimed of the number.
#[verifier::external_body]
fn whole_millis(span: std::time::Duration) -> (r: u128) {
    span.as_millis()
}

/// What [`millis_or_zero`] makes of the clock. The clock decides: nothing is stated of it.
pub(crate) fn millis_since_epoch() -> (r: u128) {
    let reading: Option<u128> = match since_epoch(now()) {
        Some(span) => Some(whole_millis(span)),
        None => None,
    };
    millis_or_zero(reading)
}

/// The milliseconds since the Unix epoch that a clock shows; zero where it is before the
/// epoch and so shows none.
pub fn millis_or_zero(reading: Option<u128>) -> (r: u128)
    ensures
        r == match reading {
            Some(millis) => millis,
            None => 0u128,
        },
{
    match reading {
        Some(millis) => millis,
        None => 0,
    }
}

} // verus!
