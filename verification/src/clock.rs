//! The one place where the library reads the outside world: the system
//! clock, through chrono.

use vstd::prelude::*;

verus! {

/// Relies on chrono's `Local::now` and `DateTime::timestamp`: the current
/// moment of the system clock, as whole seconds since the Unix epoch.
/// The result depends on when the call is made, so nothing is promised of
/// it; callers state what holds for every value it may return.
#[verifier::external_body]
pub(crate) fn now_timestamp() -> i64 {
    chrono::Local::now().timestamp()
}

} // verus!
