//! The wall clock.

use vstd::prelude::*;
use time::OffsetDateTime;

verus! {

/// Calls `time::OffsetDateTime::now_utc` and gives the instant as
/// nanoseconds since the Unix epoch, by `unix_timestamp_nanos`. Trusted,
/// with nothing claimed of the result: two readings may give any two
/// instants. The machine's clock is taken to show a date that the `time`
/// crate can hold, which is one up to the year 9999.
#[verifier::external_body]
pub(crate) fn now_unix_nanos() -> i128 {
    OffsetDateTime::now_utc().unix_timestamp_nanos()
}

} // verus!
