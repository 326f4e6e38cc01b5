//! The one place the library reads the clock.

use vstd::prelude::*;

verus! {

/// Relies on chrono::Utc::now: the current time, as seconds since the Unix
/// epoch. The result depends on the moment of the call, so nothing is
/// promised of it.
#[verifier::external_body]
pub fn now_secs() -> i64 {
    chrono::Utc::now().timestamp()
}

} // verus!
