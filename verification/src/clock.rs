//! Wall-clock reading for the `time` field of emitted points.

use vstd::prelude::*;

verus! {

/// Relies on `std::time::SystemTime`: `now`, and `duration_since` of the
/// Unix epoch, which returns the elapsed span — or an error, rather than
/// panicking, when the clock stands before the epoch. The span is handed
/// on as its whole milliseconds. Nothing can be promised of a clock
/// reading, so nothing is.
#[verifier::external_body]
fn clock_since_epoch_millis() -> Option<u128> {
    match std::time::SystemTime::now().duration_since(std::time::UNIX_EPOCH) {
        Ok(d) => Some(d.as_millis()),
        Err(_) => None,
    }
}

/// The wall clock as whole milliseconds since the Unix epoch, clamped to
/// the non-negative range of an `i64`: whatever the clock reports, the
/// value stamped on a point is a non-negative integer.
pub fn now_millis() -> (r: i64)
    ensures
        0 <= r,
{
    match clock_since_epoch_millis() {
        None => 0,
        Some(ms) => {
            if ms > 9223372036854775807 {
                9223372036854775807
            } else {
                ms as i64
            }
        },
    }
}

} // verus!
