//! Instants as Unix timestamps in whole seconds (UTC).
use vstd::prelude::*;

verus! {

/// The earliest instant `chrono` represents (January 1st of year -262143, 00:00:00 UTC).
pub const MIN_TIMESTAMP: i64 = -8334601315200;

/// The latest instant `chrono` represents (December 31st of year 262142, 23:59:59 UTC).
pub const MAX_TIMESTAMP: i64 = 8210266876799;

/// An instant that `chrono` can represent.
pub open spec fn valid_timestamp(t: int) -> bool {
    MIN_TIMESTAMP <= t <= MAX_TIMESTAMP
}

/// Whole minutes in a span of seconds, rounded toward zero (`TimeDelta::num_minutes`).
pub open spec fn whole_minutes(secs: int) -> int {
    if secs >= 0 {
        secs / 60
    } else {
        -((-secs) / 60)
    }
}

} // verus!
