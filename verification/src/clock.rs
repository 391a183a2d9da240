//! The time of day of the machine.

use vstd::prelude::*;

verus! {

/// The current time as `chrono::Local::now` reports it, in whole seconds
/// since the start of 1970. Nothing is promised of the number: it depends on
/// the clock of the machine, and the call fails if that clock stands before 1970.
#[verifier::external_body]
pub(crate) fn now_seconds() -> u64 {
    chrono::Local::now().timestamp() as u64
}

} // verus!
