//! The one place where the engine asks for the current time.

use vstd::prelude::*;

verus! {

/// Relies on chrono's `Utc::now` and `DateTime::format`: the current UTC
/// time rendered as `YYYY-MM-DD hh:mm:ss`.  Nothing is promised of the
/// result: it depends on the clock, and every caller must hold for any
/// returned string.
#[verifier::external_body]
pub(crate) fn now_string() -> String {
    chrono::Utc::now().format("%Y-%m-%d %H:%M:%S").to_string()
}

} // verus!
