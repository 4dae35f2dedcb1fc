//! The process clock, used to stamp new change-set files and new ledger rows.

use vstd::prelude::*;

verus! {

/// Milliseconds since the Unix epoch at the moment of the call.
///
/// Relies on `std::time::SystemTime::now`, with the duration since
/// `std::time::UNIX_EPOCH` converted to milliseconds; a clock standing
/// before the epoch yields zero. Nothing is promised of the result: it
/// depends on when the call is made.
#[verifier::external_body]
pub fn timestamp_ms() -> u128 {
    std::time::SystemTime::now()
        .duration_since(std::time::UNIX_EPOCH)
        .unwrap_or_default()
        .as_millis()
}

} // verus!
