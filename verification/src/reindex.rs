//! When a search should start a background index refresh.
use vstd::prelude::*;

verus! {

/// A burst of searches within this many nanoseconds (five minutes) starts
/// at most one refresh.
pub const THROTTLE_NANOS: u128 = 300_000_000_000;

/// Whether a refresh is throttled: the lock file was touched less than
/// [`THROTTLE_NANOS`] ago. `lock_age` is `None` when the lock file has no
/// readable modification time, `Some(None)` when that time lies in the
/// future, else the age in nanoseconds.
pub open spec fn spec_throttled(lock_age: Option<Option<u128>>) -> bool {
    match lock_age {
        Some(Some(age)) => age < THROTTLE_NANOS,
        _ => false,
    }
}

/// Whether a search should start a refresh: refreshes are not disabled (as
/// they are inside a refresh, so it never recurses) and not throttled.
pub fn reconcile_due(disabled: bool, lock_age: Option<Option<u128>>) -> (r: bool)
    ensures
        r == (!disabled && !spec_throttled(lock_age)),
{
    if disabled {
        return false;
    }
    match lock_age {
        Some(Some(age)) => age >= THROTTLE_NANOS,
        _ => true,
    }
}

} // verus!
