//! Freshness of the cached list of sources.
use vstd::prelude::*;

verus! {

/// How long a downloaded list of sources stays fresh, in seconds.
pub const MAX_LIST_AGE_SECS: u64 = 4 * 60 * 60;

/// What the caller learnt of the cached list's modification time.
pub enum ListAge {
    /// There is no cached list.
    Missing,
    /// The platform does not report modification times.
    Unknown,
    /// The list was modified after the current time.
    Future,
    /// The time since the list was modified.
    Elapsed { secs: u64, nanos: u32 },
}

/// Whether the cached list must be downloaded again: it is missing, its age
/// cannot be told, or it is older than four hours.
pub fn outdated(age: ListAge) -> (r: bool)
    ensures
        r == match age {
            ListAge::Elapsed { secs, nanos } => secs > MAX_LIST_AGE_SECS || (secs
                == MAX_LIST_AGE_SECS && nanos > 0),
            _ => true,
        },
{
    match age {
        ListAge::Elapsed { secs, nanos } => secs > MAX_LIST_AGE_SECS || (secs == MAX_LIST_AGE_SECS
            && nanos > 0),
        _ => true,
    }
}

} // verus!
