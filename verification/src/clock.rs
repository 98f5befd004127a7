//! The wall clock. Reading it is the one place the timer logic depends on
//! the outside world; everything computed from a reading is verified.

use vstd::prelude::*;

verus! {

/// Relies on chrono's `Local::now` and `DateTime::timestamp`: the current
/// local time as whole seconds since the Unix epoch. Nothing can be
/// promised about the value; callers state what holds whatever is read.
/// Like an allocation failure, chrono aborts the process when the system
/// clock reads before the Unix epoch (`Utc::now` expects a non-negative
/// offset); no input of ours can trigger that.
#[verifier::external_body]
pub(crate) fn now_seconds() -> i64 {
    chrono::Local::now().timestamp()
}

} // verus!
