//! Canonical timestamps of UTC days, rendered by chrono.

use vstd::prelude::*;

verus! {

/// The days within this distance of the epoch all have a timestamp.
pub const TIMESTAMP_DAY_RANGE: i64 = 92_000_000;

/// Seconds in one UTC day.
pub const SECS_PER_DAY: i64 = 86_400;

/// The RFC 3339 rendering of the UTC instant `secs` seconds after the Unix epoch.
pub uninterp spec fn rfc3339_of(secs: int) -> Seq<char>;

/// Relies on chrono's `DateTime::from_timestamp` (`None` only outside chrono's
/// years -262143 to 262142, which hold every instant within 8e12 seconds of the
/// epoch) and `DateTime::to_rfc3339` (the RFC 3339 text of that UTC instant).
#[verifier::external_body]
fn rfc3339_at(secs: i64) -> (r: Option<String>)
    ensures
        -8_000_000_000_000 <= secs <= 8_000_000_000_000 ==> r is Some,
        match r {
            Some(t) => t@ == rfc3339_of(secs as int),
            None => true,
        },
{
    match chrono::DateTime::from_timestamp(secs, 0) {
        Some(d) => Some(d.to_rfc3339()),
        None => None,
    }
}

/// The canonical timestamp of a UTC day: the RFC 3339 text of its midnight, or
/// `None` where that instant lies outside the representable range.
pub fn day_timestamp(day: i64) -> (r: Option<String>)
    ensures
        -TIMESTAMP_DAY_RANGE <= day <= TIMESTAMP_DAY_RANGE ==> r is Some,
        match r {
            Some(t) => t@ == rfc3339_of(day * SECS_PER_DAY),
            None => true,
        },
{
    match day.checked_mul(SECS_PER_DAY) {
        Some(secs) => rfc3339_at(secs),
        None => None,
    }
}

} // verus!
