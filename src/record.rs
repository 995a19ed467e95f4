//! Raw observations and their normalization into date and county keys.

use vstd::prelude::*;

verus! {

/// Milliseconds in one UTC day.
pub const MS_PER_DAY: i64 = 86_400_000;

/// The kind of metric an observation reports.
#[derive(Clone, Copy, Debug, PartialEq, Eq, Structural)]
pub enum Kind {
    Confirmed,
    Deaths,
    Other,
}

/// The kind named by a raw type label: anything but the two known labels is `Other`.
pub open spec fn kind_of(label: Seq<char>) -> Kind {
    if label == "Confirmed"@ {
        Kind::Confirmed
    } else if label == "Deaths"@ {
        Kind::Deaths
    } else {
        Kind::Other
    }
}

impl Kind {
    /// Normalizes a raw type label; unknown labels become `Other`, never an error.
    pub fn parse(label: &str) -> (k: Kind)
        ensures
            k == kind_of(label@),
    {
        let s = label.to_string();
        let confirmed = "Confirmed".to_string();
        let deaths = "Deaths".to_string();
        proof {
            reveal_strlit("Confirmed");
            reveal_strlit("Deaths");
        }
        if s == confirmed {
            Kind::Confirmed
        } else if s == deaths {
            Kind::Deaths
        } else {
            Kind::Other
        }
    }
}

/// One raw observation: a metric value for a county at a moment in time.
#[derive(Debug)]
pub struct RawObservation {
    /// Milliseconds since the Unix epoch.
    pub timestamp_ms: i64,
    pub county: String,
    pub state: String,
    pub value: i64,
    pub kind: Kind,
}

/// The UTC day (days since the Unix epoch) that holds a timestamp in milliseconds.
pub open spec fn day_of(ms: int) -> int {
    ms / (MS_PER_DAY as int)
}

/// Truncates a millisecond timestamp to its UTC day number.
pub fn day_number(ms: i64) -> (d: i64)
    ensures
        d as int == day_of(ms as int),
{
    match ms.checked_div_euclid(MS_PER_DAY) {
        Some(d) => d,
        None => {
            assert(false);
            0
        },
    }
}

} // verus!
